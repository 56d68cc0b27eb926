//! The document: blank-line prefix handling, the container recursion
//! engine that drives the element parsers over the input, and the
//! event traversal of the finished tree.
use vstd::prelude::*;
use vstd::string::StringSliceAdditionalSpecFns;

use crate::arena::{
    bal, count_ev, desc, ev_of, lemma_count_ev_of, lemma_ev_of_balanced, wf, Arena, NodeId, NodeV,
};
use crate::bytes::{find_byte, find_byte_in, is_ws, lemma_find_byte, sub_slice, sub_vec};
use crate::clock::{spec_clock_parse, Clock};
use crate::element::{Element, ElementV};
use crate::macros::{spec_macros_parse, Macros};

verus! {

/// Parse options.  The recognized options are a collaborator concern;
/// the core engine takes none.
pub struct ParseConfig {}

impl Default for ParseConfig {
    fn default() -> (r: ParseConfig) {
        ParseConfig {  }
    }
}

/// Length of the line starting at `pos`: through its newline, or to the
/// end of the input.
pub open spec fn line_len(s: Seq<u8>, pos: int) -> int {
    match find_byte(s.subrange(pos, s.len() as int), 10) {
        Some(i) => i + 1,
        None => s.len() - pos,
    }
}

pub proof fn lemma_line_len(s: Seq<u8>, pos: int)
    requires
        0 <= pos < s.len(),
    ensures
        1 <= line_len(s, pos) <= s.len() - pos,
{
    lemma_find_byte(s.subrange(pos, s.len() as int), 10);
}

/// Whether the line starting at `pos` is blank: whitespace only.
pub open spec fn blank_line(s: Seq<u8>, pos: int) -> bool {
    forall|j: int| pos <= j < pos + line_len(s, pos) ==> is_ws(s[j])
}

/// Count of leading blank lines from `pos` and the position just after
/// them.
pub open spec fn spec_blank_lines(s: Seq<u8>, pos: int) -> (int, int)
    decreases s.len() - pos,
        when 0 <= pos <= s.len()
        via spec_blank_lines_decreases
{
    if pos >= s.len() {
        (0, pos)
    } else if blank_line(s, pos) {
        let (c, p) = spec_blank_lines(s, pos + line_len(s, pos));
        (c + 1, p)
    } else {
        (0, pos)
    }
}

#[via_fn]
proof fn spec_blank_lines_decreases(s: Seq<u8>, pos: int) {
    if 0 <= pos < s.len() {
        lemma_line_len(s, pos);
    }
}

pub proof fn lemma_blank_lines(s: Seq<u8>, pos: int)
    requires
        0 <= pos <= s.len(),
    ensures
        pos <= spec_blank_lines(s, pos).1 <= s.len(),
        0 <= spec_blank_lines(s, pos).0 <= spec_blank_lines(s, pos).1 - pos,
    decreases s.len() - pos,
{
    if pos < s.len() && blank_line(s, pos) {
        lemma_line_len(s, pos);
        lemma_blank_lines(s, pos + line_len(s, pos));
    }
}

/// The elements the engine recognizes from `pos` on: at each cursor the
/// clock parser is tried first, then the macro parser; on total
/// non-match one whole line becomes a text fallback element.  The
/// engine consumes exactly what the matching parser reported.
pub open spec fn spec_elements(s: Seq<u8>, pos: int) -> Seq<ElementV>
    decreases s.len() - pos,
        when 0 <= pos <= s.len()
        via spec_elements_decreases
{
    if pos >= s.len() {
        Seq::empty()
    } else {
        let rest = s.subrange(pos, s.len() as int);
        match spec_clock_parse(rest) {
            Some((c, n)) => seq![ElementV::Clock(c)] + spec_elements(s, pos + n),
            None => match spec_macros_parse(rest) {
                Some((m, n)) => seq![ElementV::Macros(m)] + spec_elements(s, pos + n),
                None => {
                    let l = line_len(s, pos);
                    seq![ElementV::Text { value: s.subrange(pos, pos + l) }] + spec_elements(
                        s,
                        pos + l,
                    )
                },
            },
        }
    }
}

#[via_fn]
proof fn spec_elements_decreases(s: Seq<u8>, pos: int) {
    if 0 <= pos < s.len() {
        let rest = s.subrange(pos, s.len() as int);
        crate::clock::lemma_clock_parse_prefix(rest);
        crate::macros::lemma_macros_parse_prefix(rest);
        lemma_line_len(s, pos);
    }
}

/// The node sequence of a parsed document: the `Document` root first,
/// then one leaf node per recognized element, in input order, all
/// children of the root.
pub open spec fn spec_doc_tree(s: Seq<u8>) -> Seq<NodeV> {
    let blank = spec_blank_lines(s, 0).0;
    let pos = spec_blank_lines(s, 0).1;
    let elems = spec_elements(s, pos);
    seq![
        NodeV {
            element: ElementV::Document { pre_blank: blank as usize },
            parent: None,
            children: Seq::new(elems.len(), |i: int| (i + 1) as usize),
        },
    ] + Seq::new(
        elems.len(),
        |i: int| NodeV { element: elems[i], parent: Some(0usize), children: Seq::empty() },
    )
}

/// One step of the event traversal, carrying the visited payload.
#[derive(Debug, PartialEq, Clone)]
pub enum Event {
    Start(Element),
    End(Element),
}

/// The mathematical value of an event.
pub enum EventV {
    Start(ElementV),
    End(ElementV),
}

impl View for Event {
    type V = EventV;

    open spec fn view(&self) -> EventV {
        match self {
            Event::Start(e) => EventV::Start(e@),
            Event::End(e) => EventV::End(e@),
        }
    }
}

/// A parsed document: the arena and its root handle.
pub struct Org {
    arena: Arena,
    root: NodeId,
}

impl View for Org {
    type V = Seq<NodeV>;

    closed spec fn view(&self) -> Seq<NodeV> {
        self.arena@
    }
}

/// Every node hangs from the root slot.
pub open spec fn attached(nodes: Seq<NodeV>) -> bool {
    forall|x: usize| (x as int) < nodes.len() ==> desc(nodes, 0, x)
}

/// The engine's running state: a well-formed arena holding the root and
/// one leaf per element produced so far, and the elements still to come.
pub open spec fn engine_inv(
    nodes: Seq<NodeV>,
    sv: Seq<u8>,
    pos0: int,
    pos: int,
    blank: usize,
) -> bool {
    &&& wf(nodes)
    &&& 1 <= nodes.len()
    &&& nodes[0].parent is None
    &&& nodes[0].element == (ElementV::Document { pre_blank: blank })
    &&& nodes[0].children == Seq::new((nodes.len() - 1) as nat, |i: int| (i + 1) as usize)
    &&& (forall|j: int|
        1 <= j < nodes.len() ==> (#[trigger] nodes[j]).parent == Some(0usize)
            && nodes[j].children.len() == 0)
    &&& 0 <= pos0 <= pos <= sv.len()
    &&& spec_elements(sv, pos0) == Seq::new(
        (nodes.len() - 1) as nat,
        |i: int| nodes[i + 1].element,
    ) + spec_elements(sv, pos)
}

fn append_elem(
    arena: &mut Arena,
    root: NodeId,
    el: Element,
    Ghost(sv): Ghost<Seq<u8>>,
    Ghost(pos0): Ghost<int>,
    Ghost(pos): Ghost<int>,
    Ghost(newpos): Ghost<int>,
    Ghost(blank): Ghost<usize>,
)
    requires
        engine_inv(old(arena)@, sv, pos0, pos, blank),
        root.idx == 0,
        pos < newpos <= sv.len(),
        spec_elements(sv, pos) == seq![el@] + spec_elements(sv, newpos),
    ensures
        engine_inv(final(arena)@, sv, pos0, newpos, blank),
{
    let ghost oldv = arena@;
    let r = arena.append_child(root, el);
    proof {
        let newv = arena@;
        let oldn = oldv.len() as int;
        assert(newv.len() == oldn + 1);
        assert(newv[0].children =~= oldv[0].children.push(r.idx));
        assert(newv[0].children =~= Seq::new((newv.len() - 1) as nat, |i: int| (i + 1) as usize));
        assert forall|j: int|
            1 <= j < newv.len() implies (#[trigger] newv[j]).parent == Some(0usize)
            && newv[j].children.len() == 0 by {
            if j < oldn {
                assert(newv[j] == oldv[j]);
            }
        }
        let done_old = Seq::new((oldn - 1) as nat, |i: int| oldv[i + 1].element);
        let done_new = Seq::new((newv.len() - 1) as nat, |i: int| newv[i + 1].element);
        assert(done_new =~= done_old.push(el@));
        assert(spec_elements(sv, pos0) =~= done_new + spec_elements(sv, newpos)) by {
            assert(spec_elements(sv, pos0) == done_old + (seq![el@] + spec_elements(sv, newpos)));
        }
    }
}

impl Org {
    /// The root slot of the arena; handle index zero by construction.
    pub closed spec fn spec_root_idx(&self) -> usize {
        self.root.idx
    }

    /// The document invariant: a well-formed arena, the `Document` root
    /// at slot zero, everything attached beneath it.
    pub open spec fn inv(&self) -> bool {
        &&& wf(self@)
        &&& 1 <= self@.len()
        &&& self.spec_root_idx() == 0
        &&& self@[0].parent is None
        &&& attached(self@)
    }

    /// An empty document: a lone root with no blank-line prefix.
    pub fn new() -> (r: Org)
        ensures
            r.inv(),
            r@.len() == 1,
            r@[0].element == (ElementV::Document { pre_blank: 0 }),
            r@[0].children.len() == 0,
    {
        let mut arena = Arena::new();
        let root = arena.new_node(Element::Document { pre_blank: 0 });
        proof {
            assert(desc(arena@, 0, 0));
        }
        Org { arena, root }
    }

    /// Parse `text` with the default configuration.
    pub fn parse(text: &str) -> (r: Org)
        ensures
            r.inv(),
            r@ == spec_doc_tree(text.spec_bytes()),
    {
        Org::parse_with_config(text, &ParseConfig {  })
    }

    /// Parse `text`: count the blank-line prefix into the root, then
    /// walk the rest with the element parsers in priority order,
    /// attaching one leaf per element under the root.  The whole input
    /// is always covered; unrecognized lines become text nodes.
    pub fn parse_with_config(text: &str, config: &ParseConfig) -> (r: Org)
        ensures
            r.inv(),
            r@ == spec_doc_tree(text.spec_bytes()),
    {
        let s = text.as_bytes();
        let ghost sv = s@;
        let mut pos: usize = 0;
        let mut blank: usize = 0;
        loop
            invariant
                0 <= pos <= sv.len(),
                blank <= pos,
                s@ == sv,
                spec_blank_lines(sv, 0).0 == blank + spec_blank_lines(sv, pos as int).0,
                spec_blank_lines(sv, 0).1 == spec_blank_lines(sv, pos as int).1,
            ensures
                0 <= pos <= sv.len(),
                s@ == sv,
                spec_blank_lines(sv, 0).0 == blank,
                spec_blank_lines(sv, 0).1 == pos,
            decreases sv.len() - pos,
        {
            if pos >= s.len() {
                break ;
            }
            let l = line_len_in(s, pos);
            if !blank_line_in(s, pos, l) {
                break ;
            }
            proof {
                lemma_blank_lines(sv, pos + l);
            }
            blank = blank + 1;
            pos = pos + l;
        }
        let ghost pos0 = pos as int;
        let mut arena = Arena::new();
        let root = arena.new_node(Element::Document { pre_blank: blank });
        proof {
            assert(arena@[0].children =~= Seq::new(0nat, |i: int| (i + 1) as usize));
            assert(Seq::new(0nat, |i: int| arena@[i + 1].element) =~= Seq::<ElementV>::empty());
            assert(spec_elements(sv, pos0) =~= Seq::new(0nat, |i: int| arena@[i + 1].element)
                + spec_elements(sv, pos0));
        }
        loop
            invariant
                engine_inv(arena@, sv, pos0, pos as int, blank),
                pos <= sv.len(),
                s@ == sv,
                root.idx == 0,
            ensures
                engine_inv(arena@, sv, pos0, pos as int, blank),
                pos == sv.len(),
                s@ == sv,
            decreases sv.len() - pos,
        {
            if pos >= s.len() {
                break ;
            }
            let rest = sub_slice(s, pos, s.len());
            proof {
                crate::clock::lemma_clock_parse_prefix(rest@);
                crate::macros::lemma_macros_parse_prefix(rest@);
            }
            match Clock::parse_bytes(rest) {
                Some((c, n)) => {
                    let ghost newpos = pos + n;
                    append_elem(
                        &mut arena,
                        root,
                        Element::Clock(c),
                        Ghost(sv),
                        Ghost(pos0),
                        Ghost(pos as int),
                        Ghost(newpos),
                        Ghost(blank),
                    );
                    pos = pos + n;
                },
                None => {
                    match Macros::parse_bytes(rest) {
                        Some((m, n)) => {
                            let ghost newpos = pos + n;
                            append_elem(
                                &mut arena,
                                root,
                                Element::Macros(m),
                                Ghost(sv),
                                Ghost(pos0),
                                Ghost(pos as int),
                                Ghost(newpos),
                                Ghost(blank),
                            );
                            pos = pos + n;
                        },
                        None => {
                            let l = line_len_in(s, pos);
                            let value = sub_vec(s, pos, pos + l);
                            let ghost newpos = pos + l;
                            append_elem(
                                &mut arena,
                                root,
                                Element::Text { value },
                                Ghost(sv),
                                Ghost(pos0),
                                Ghost(pos as int),
                                Ghost(newpos),
                                Ghost(blank),
                            );
                            pos = pos + l;
                        },
                    }
                },
            }
        }
        let org = Org { arena, root };
        proof {
            assert(spec_elements(sv, sv.len() as int) =~= Seq::<ElementV>::empty());
            let elems = spec_elements(sv, pos0);
            let nodes = org@;
            assert(elems =~= Seq::new((nodes.len() - 1) as nat, |i: int| nodes[i + 1].element));
            assert(nodes =~= spec_doc_tree(sv)) by {
                let t = spec_doc_tree(sv);
                assert(t.len() == 1 + elems.len());
                assert(nodes[0].children =~= t[0].children);
                assert(nodes[0] == t[0]);
                assert forall|j: int| 1 <= j < nodes.len() implies nodes[j] == t[j] by {
                    assert(nodes[j].element == elems[j - 1]);
                    assert(t[j].element == elems[j - 1]);
                    assert(nodes[j].children =~= t[j].children);
                }
            }
            assert forall|x: usize| (x as int) < nodes.len() implies desc(nodes, 0, x) by {
                if x != 0 {
                    assert(nodes[x as int].parent == Some(0usize));
                    assert(desc(nodes, 0, 0));
                }
            }
        }
        org
    }

    /// The arena that owns the document's nodes.
    pub fn arena(&self) -> (r: &Arena)
        ensures
            r@ == self@,
    {
        &self.arena
    }

    /// The root handle of the document.
    pub fn root(&self) -> (r: NodeId)
        requires
            self.inv(),
        ensures
            r.idx == 0,
    {
        self.root
    }

    /// The payload at `id`.
    pub fn get(&self, id: NodeId) -> (r: &Element)
        requires
            id.idx < self@.len(),
        ensures
            r@ == self@[id.idx as int].element,
    {
        self.arena.get(id)
    }

    /// Replace the payload at `id`; the tree shape is untouched, so the
    /// invariant survives.
    pub fn set(&mut self, id: NodeId, element: Element)
        requires
            old(self).inv(),
            id.idx < old(self)@.len(),
        ensures
            final(self).inv(),
            final(self)@.len() == old(self)@.len(),
            final(self)@[id.idx as int].element == element@,
            forall|j: int|
                0 <= j < old(self)@.len() && j != id.idx ==> final(self)@[j] == old(self)@[j],
            forall|j: int|
                0 <= j < old(self)@.len() ==> (#[trigger] final(self)@[j]).parent
                    == old(self)@[j].parent && final(self)@[j].children == old(self)@[j].children,
    {
        let ghost oldv = self@;
        self.arena.set(id, element);
        proof {
            lemma_desc_same_shape(oldv, self@);
            assert forall|x: usize| (x as int) < self@.len() implies desc(self@, 0, x) by {
                assert(desc(oldv, 0, x));
            }
        }
    }

    /// The depth-first Start/End event sequence of the document, one
    /// event pair per node, payloads copied out of the arena.
    pub fn iter(&self) -> (r: Vec<Event>)
        requires
            self.inv(),
        ensures
            r@.len() == spec_events(self@).len(),
            forall|k: int| 0 <= k < r@.len() ==> (#[trigger] r@[k])@ == spec_events(self@)[k],
    {
        let evs = self.arena.traverse(self.root);
        proof {
            crate::arena::lemma_ev_ids(self@, 0);
        }
        let mut out: Vec<Event> = Vec::new();
        let mut k: usize = 0;
        while k < evs.len()
            invariant
                self.inv(),
                evs@ == ev_of(self@, 0),
                forall|j: int| 0 <= j < evs@.len() ==> ((#[trigger] evs@[j]).1 as int) < self@.len(),
                k <= evs@.len(),
                out@.len() == k,
                forall|j: int| 0 <= j < k ==> (#[trigger] out@[j])@ == spec_events(self@)[j],
            decreases evs@.len() - k,
        {
            let (st, id) = evs[k];
            let el = self.arena.get(NodeId { idx: id }).duplicate();
            if st {
                out.push(Event::Start(el));
            } else {
                out.push(Event::End(el));
            }
            k = k + 1;
        }
        out
    }
}

/// Non-consumption on failure: the element parsers take their input by
/// shared reference and report a count only on a match, so within one
/// engine step at `pos` a failed clock parse hands the macro parser the
/// identical suffix, and a failure of both hands the line fallback that
/// same suffix — no hidden cursor advance happens between attempts.
pub proof fn lemma_non_consumption_on_failure(s: Seq<u8>, pos: int)
    requires
        0 <= pos < s.len(),
    ensures
        ({
            let rest = s.subrange(pos, s.len() as int);
            &&& (spec_clock_parse(rest) is None && spec_macros_parse(rest) is Some
                ==> spec_elements(s, pos) == seq![
                ElementV::Macros(spec_macros_parse(rest)->Some_0.0),
            ] + spec_elements(s, pos + spec_macros_parse(rest)->Some_0.1))
            &&& (spec_clock_parse(rest) is None && spec_macros_parse(rest) is None
                ==> spec_elements(s, pos) == seq![
                ElementV::Text { value: s.subrange(pos, pos + line_len(s, pos)) },
            ] + spec_elements(s, pos + line_len(s, pos)))
        }),
{
    let rest = s.subrange(pos, s.len() as int);
    crate::macros::lemma_macros_parse_prefix(rest);
    lemma_line_len(s, pos);
    if spec_clock_parse(rest) is None {
        match spec_macros_parse(rest) {
            Some((m, n)) => {
                assert(spec_elements(s, pos) == seq![ElementV::Macros(m)] + spec_elements(
                    s,
                    pos + n,
                ));
            },
            None => {
                assert(spec_elements(s, pos) == seq![
                    ElementV::Text { value: s.subrange(pos, pos + line_len(s, pos)) },
                ] + spec_elements(s, pos + line_len(s, pos)));
            },
        }
    }
}

/// Determinism: parsing the same input twice yields structurally equal
/// trees — node for node the same payload values, parents and child
/// order; handle identity plays no part in the statement.
pub proof fn lemma_parse_deterministic(a: Org, b: Org, s: Seq<u8>)
    requires
        a@ == spec_doc_tree(s),
        b@ == spec_doc_tree(s),
    ensures
        a@ == b@,
{
}

/// Tree invariant: the depth-first traversal of a well-formed document
/// visits every node of its arena exactly once as Start and exactly
/// once as End, and the nesting is balanced: the sequence opens with
/// the root's Start, closes with its End, every proper prefix leaves
/// more Starts than Ends open, and the whole sequence closes all of
/// them.
pub proof fn lemma_tree_invariant(o: Org, x: usize)
    requires
        o.inv(),
        (x as int) < o@.len(),
    ensures
        count_ev(ev_of(o@, 0), true, x) == 1,
        count_ev(ev_of(o@, 0), false, x) == 1,
        ev_of(o@, 0).len() >= 2,
        ev_of(o@, 0)[0] == (true, 0usize),
        ev_of(o@, 0)[ev_of(o@, 0).len() - 1] == (false, 0usize),
        bal(ev_of(o@, 0)) == 0,
        forall|j: int| 0 < j < ev_of(o@, 0).len() ==> bal(#[trigger] ev_of(o@, 0).take(j)) > 0,
{
    assert(desc(o@, 0, x));
    lemma_count_ev_of(o@, 0, x);
    lemma_ev_of_balanced(o@, 0);
}

impl Default for Org {
    /// The empty document, as `Org::new` builds it.
    fn default() -> (r: Org)
        ensures
            r.inv(),
            r@.len() == 1,
            r@[0].element == (ElementV::Document { pre_blank: 0 }),
            r@[0].children.len() == 0,
    {
        Org::new()
    }
}

/// The Start/End events of the whole document, with payloads.
pub open spec fn spec_events(nodes: Seq<NodeV>) -> Seq<EventV> {
    ev_of(nodes, 0).map_values(
        |p: (bool, usize)|
            if p.0 {
                EventV::Start(nodes[p.1 as int].element)
            } else {
                EventV::End(nodes[p.1 as int].element)
            },
    )
}

/// Parent and child links of two equally long node sequences agree, so
/// the subtree relation agrees too.
proof fn lemma_desc_same_shape(a: Seq<NodeV>, b: Seq<NodeV>)
    requires
        a.len() == b.len(),
        wf(a),
        wf(b),
        forall|j: int| 0 <= j < a.len() ==> (#[trigger] b[j]).parent == a[j].parent,
    ensures
        forall|x: usize, y: usize|
            (x as int) < a.len() && (y as int) < a.len() ==> desc(a, x, y) == desc(b, x, y),
{
    assert forall|x: usize, y: usize|
        (x as int) < a.len() && (y as int) < a.len() implies desc(a, x, y) == desc(b, x, y) by {
        lemma_desc_same_shape_one(a, b, x, y);
    }
}

proof fn lemma_desc_same_shape_one(a: Seq<NodeV>, b: Seq<NodeV>, x: usize, y: usize)
    requires
        a.len() == b.len(),
        wf(a),
        wf(b),
        forall|j: int| 0 <= j < a.len() ==> (#[trigger] b[j]).parent == a[j].parent,
        (x as int) < a.len(),
        (y as int) < a.len(),
    ensures
        desc(a, x, y) == desc(b, x, y),
    decreases y,
{
    if y != x {
        assert(crate::arena::wf_at(a, y as int));
        match a[y as int].parent {
            Some(p) => {
                lemma_desc_same_shape_one(a, b, x, p);
            },
            None => {},
        }
    }
}

/// Exec scan for the length of the line at `pos`.
fn line_len_in(s: &[u8], pos: usize) -> (r: usize)
    requires
        pos < s@.len(),
    ensures
        r == line_len(s@, pos as int),
        1 <= r <= s@.len() - pos,
{
    proof {
        lemma_line_len(s@, pos as int);
    }
    let sub = sub_slice(s, pos, s.len());
    match find_byte_in(sub, 10) {
        Some(i) => i + 1,
        None => s.len() - pos,
    }
}

/// Exec check that the line at `pos`, of length `l`, is whitespace only.
fn blank_line_in(s: &[u8], pos: usize, l: usize) -> (r: bool)
    requires
        pos + l <= s@.len(),
        l == line_len(s@, pos as int),
    ensures
        r == blank_line(s@, pos as int),
{
    let n = s.len();
    let mut j = pos;
    while j < pos + l
        invariant
            n == s@.len(),
            pos <= j <= pos + l <= n,
            l == line_len(s@, pos as int),
            forall|q: int| pos <= q < j ==> is_ws(s@[q]),
        decreases pos + l - j,
    {
        if !crate::bytes::byte_is_ws(s[j]) {
            proof {
                assert(pos <= j < pos + line_len(s@, pos as int));
                assert(!is_ws(s@[j as int]));
            }
            return false;
        }
        j = j + 1;
    }
    true
}

} // verus!
