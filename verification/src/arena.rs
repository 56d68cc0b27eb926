//! The arena document tree: one owned backing store of nodes, addressed
//! by opaque copyable handles, with parent, ordered children and a
//! depth-first event traversal.
use vstd::prelude::*;

use crate::element::{Element, ElementV};

verus! {

/// An opaque handle naming a slot in one arena.  It is valid only for
/// the arena that produced it; handle equality is identity, not
/// structural equality of nodes.
#[derive(Clone, Copy, Debug, PartialEq, Eq, Hash, Structural)]
pub struct NodeId {
    pub idx: usize,
}

/// One slot of the arena: payload, optional parent, ordered children.
pub struct Node {
    pub element: Element,
    pub parent: Option<usize>,
    pub children: Vec<usize>,
}

/// The mathematical value of a node.
pub struct NodeV {
    pub element: ElementV,
    pub parent: Option<usize>,
    pub children: Seq<usize>,
}

impl View for Node {
    type V = NodeV;

    open spec fn view(&self) -> NodeV {
        NodeV { element: self.element@, parent: self.parent, children: self.children@ }
    }
}

/// Well-formedness of one slot: a parent sits strictly before its child
/// and lists it among its children; children sit strictly after their
/// parent, point back at it, and are listed in strictly increasing
/// order (document order equals creation order).
pub open spec fn wf_at(nodes: Seq<NodeV>, i: int) -> bool {
    &&& (match nodes[i].parent {
        Some(p) => (p as int) < i && nodes[p as int].children.contains(i as usize),
        None => true,
    })
    &&& (forall|k: int|
        0 <= k < nodes[i].children.len() ==> i < (#[trigger] nodes[i].children[k]) as int
            && (nodes[i].children[k] as int) < nodes.len()
            && nodes[nodes[i].children[k] as int].parent == Some(i as usize))
    &&& (forall|k1: int, k2: int|
        0 <= k1 < k2 < nodes[i].children.len() ==> nodes[i].children[k1] < nodes[i].children[k2])
}

/// Well-formedness of the whole arena: an acyclic forest whose links are
/// mutually consistent.
pub open spec fn wf(nodes: Seq<NodeV>) -> bool {
    forall|i: int| 0 <= i < nodes.len() ==> #[trigger] wf_at(nodes, i)
}

/// The owning backing store of a document tree.
pub struct Arena {
    nodes: Vec<Node>,
}

impl View for Arena {
    type V = Seq<NodeV>;

    closed spec fn view(&self) -> Seq<NodeV> {
        self.nodes@.map_values(|n: Node| n@)
    }
}

impl Arena {
    /// The arena's well-formedness invariant; every constructor
    /// establishes it and every method preserves it.
    pub open spec fn inv(&self) -> bool {
        wf(self@)
    }

    pub fn new() -> (r: Arena)
        ensures
            r@ =~= Seq::<NodeV>::empty(),
            r.inv(),
    {
        Arena { nodes: Vec::new() }
    }

    pub fn len(&self) -> (r: usize)
        ensures
            r == self@.len(),
    {
        self.nodes.len()
    }

    /// Whether a handle names a slot of this arena.
    pub fn contains(&self, id: NodeId) -> (r: bool)
        ensures
            r == (id.idx < self@.len()),
    {
        id.idx < self.nodes.len()
    }

    /// Insert a detached node holding `element`; O(1).
    pub fn new_node(&mut self, element: Element) -> (r: NodeId)
        requires
            old(self).inv(),
        ensures
            r.idx == old(self)@.len(),
            final(self)@ =~= old(self)@.push(
                NodeV { element: element@, parent: None, children: Seq::empty() },
            ),
            final(self).inv(),
    {
        let idx = self.nodes.len();
        let ghost oldv = self@;
        self.nodes.push(Node { element, parent: None, children: Vec::new() });
        proof {
            assert(self@ =~= oldv.push(
                NodeV { element: element@, parent: None, children: Seq::empty() },
            ));
            assert forall|i: int| 0 <= i < self@.len() implies wf_at(self@, i) by {
                if i < oldv.len() {
                    assert(wf_at(oldv, i));
                    assert(self@[i] == oldv[i]);
                    match oldv[i].parent {
                        Some(p) => {
                            assert(self@[p as int] == oldv[p as int]);
                        },
                        None => {},
                    }
                    assert forall|k: int| 0 <= k < self@[i].children.len() implies i < (
                    #[trigger] self@[i].children[k]) as int
                        && (self@[i].children[k] as int) < self@.len()
                        && self@[self@[i].children[k] as int].parent == Some(i as usize) by {
                        assert(oldv[i].children[k] == self@[i].children[k]);
                        assert(self@[oldv[i].children[k] as int] == oldv[oldv[i].children[k] as int]);
                    }
                }
            }
        }
        NodeId { idx }
    }

    /// Insert a node holding `element` as the last child of `parent`;
    /// O(1).  The handle must belong to this arena.
    pub fn append_child(&mut self, parent: NodeId, element: Element) -> (r: NodeId)
        requires
            old(self).inv(),
            parent.idx < old(self)@.len(),
        ensures
            r.idx == old(self)@.len(),
            final(self)@ =~= old(self)@.update(
                parent.idx as int,
                NodeV {
                    element: old(self)@[parent.idx as int].element,
                    parent: old(self)@[parent.idx as int].parent,
                    children: old(self)@[parent.idx as int].children.push(r.idx),
                },
            ).push(
                NodeV { element: element@, parent: Some(parent.idx), children: Seq::empty() },
            ),
            final(self).inv(),
    {
        let idx = self.nodes.len();
        let ghost oldv = self@;
        self.nodes.push(Node { element, parent: Some(parent.idx), children: Vec::new() });
        self.nodes[parent.idx].children.push(idx);
        proof {
            let newv = oldv.update(
                parent.idx as int,
                NodeV {
                    element: oldv[parent.idx as int].element,
                    parent: oldv[parent.idx as int].parent,
                    children: oldv[parent.idx as int].children.push(idx),
                },
            ).push(NodeV { element: element@, parent: Some(parent.idx), children: Seq::empty() });
            assert(self@ =~= newv);
            assert forall|i: int| 0 <= i < self@.len() implies wf_at(self@, i) by {
                lemma_wf_append(oldv, parent.idx, idx, element@, self@, i);
            }
        }
        NodeId { idx }
    }

    /// O(1) lookup of the payload at `id`.
    pub fn get(&self, id: NodeId) -> (r: &Element)
        requires
            id.idx < self@.len(),
        ensures
            r@ == self@[id.idx as int].element,
    {
        &self.nodes[id.idx].element
    }

    /// O(1) replacement of the payload at `id`; the tree shape is
    /// untouched.
    pub fn set(&mut self, id: NodeId, element: Element)
        requires
            old(self).inv(),
            id.idx < old(self)@.len(),
        ensures
            final(self)@ =~= old(self)@.update(
                id.idx as int,
                NodeV {
                    element: element@,
                    parent: old(self)@[id.idx as int].parent,
                    children: old(self)@[id.idx as int].children,
                },
            ),
            final(self).inv(),
    {
        let ghost oldv = self@;
        self.nodes[id.idx].element = element;
        proof {
            assert(self@ =~= oldv.update(
                id.idx as int,
                NodeV {
                    element: self@[id.idx as int].element,
                    parent: oldv[id.idx as int].parent,
                    children: oldv[id.idx as int].children,
                },
            ));
            assert forall|i: int| 0 <= i < self@.len() implies wf_at(self@, i) by {
                assert(wf_at(oldv, i));
                assert(self@[i].parent == oldv[i].parent);
                assert(self@[i].children == oldv[i].children);
                assert forall|j: int| 0 <= j < self@.len() implies self@[j].parent == oldv[j].parent
                    && self@[j].children == oldv[j].children by {}
            }
        }
    }

    /// The depth-first Start/End event sequence of the subtree at
    /// `root`, as `ev_of` describes it.
    pub fn traverse(&self, root: NodeId) -> (r: Vec<(bool, usize)>)
        requires
            self.inv(),
            root.idx < self@.len(),
        ensures
            r@ == ev_of(self@, root.idx),
    {
        let mut out: Vec<(bool, usize)> = Vec::new();
        self.traverse_rec(root.idx, &mut out);
        out
    }

    fn traverse_rec(&self, id: usize, out: &mut Vec<(bool, usize)>)
        requires
            self.inv(),
            id < self@.len(),
        ensures
            final(out)@ == old(out)@ + ev_of(self@, id),
        decreases self@.len() - id,
    {
        proof {
            assert(wf_at(self@, id as int));
        }
        let ghost base = out@;
        out.push((true, id));
        let n_children = self.nodes[id].children.len();
        proof {
            assert(self@[id as int].children =~= self.nodes@[id as int].children@);
        }
        let mut k: usize = 0;
        while k < n_children
            invariant
                self.inv(),
                id < self@.len(),
                n_children == self@[id as int].children.len(),
                k <= n_children,
                wf_at(self@, id as int),
                ev_children(self@, id, 0) == out@.subrange(
                    base.len() as int + 1,
                    out@.len() as int,
                ) + ev_children(self@, id, k as int),
                out@.len() >= base.len() as int + 1,
                out@.subrange(0, base.len() as int + 1) =~= base.push((true, id)),
            decreases n_children - k,
        {
            let c = self.nodes[id].children[k];
            proof {
                assert(self@[id as int].children[k as int] == c);
                assert(id < c && (c as int) < self@.len());
            }
            let ghost before = out@;
            self.traverse_rec(c, out);
            proof {
                assert(ev_children(self@, id, k as int) == ev_of(self@, c) + ev_children(
                    self@,
                    id,
                    k + 1,
                ));
                assert(out@.subrange(base.len() as int + 1, out@.len() as int) =~= before.subrange(
                    base.len() as int + 1,
                    before.len() as int,
                ) + ev_of(self@, c));
                assert(ev_children(self@, id, 0) =~= out@.subrange(
                    base.len() as int + 1,
                    out@.len() as int,
                ) + ev_children(self@, id, k + 1));
                assert(out@.subrange(0, base.len() as int + 1) =~= base.push((true, id)));
            }
            k = k + 1;
        }
        proof {
            assert(ev_children(self@, id, n_children as int) =~= Seq::<(bool, usize)>::empty());
        }
        let ghost pre = out@;
        out.push((false, id));
        proof {
            assert(pre =~= pre.subrange(0, base.len() as int + 1) + pre.subrange(
                base.len() as int + 1,
                pre.len() as int,
            ));
            assert(pre.subrange(base.len() as int + 1, pre.len() as int) =~= ev_children(
                self@,
                id,
                0,
            ));
            assert(out@ =~= pre.push((false, id)));
            assert(out@ =~= base + ev_of(self@, id));
        }
    }
}

/// The depth-first event sequence of the subtree rooted at `id`: its
/// Start, the event sequences of its children in order, its End.
pub open spec fn ev_of(nodes: Seq<NodeV>, id: usize) -> Seq<(bool, usize)>
    decreases nodes.len() - id, 1int, 0int,
        when 0 <= (id as int) < nodes.len() && wf(nodes)
{
    seq![(true, id)] + ev_children(nodes, id, 0) + seq![(false, id)]
}

/// The concatenated event sequences of the children of `id` from
/// position `k` on.
pub open spec fn ev_children(nodes: Seq<NodeV>, id: usize, k: int) -> Seq<(bool, usize)>
    decreases nodes.len() - id, 0int, nodes[id as int].children.len() - k,
        when 0 <= (id as int) < nodes.len() && wf(nodes) && 0 <= k
        via ev_children_decreases
{
    if k >= nodes[id as int].children.len() {
        Seq::empty()
    } else {
        ev_of(nodes, nodes[id as int].children[k]) + ev_children(nodes, id, k + 1)
    }
}

#[via_fn]
proof fn ev_children_decreases(nodes: Seq<NodeV>, id: usize, k: int) {
    if 0 <= (id as int) < nodes.len() && wf(nodes) && 0 <= k {
        assert(wf_at(nodes, id as int));
    }
}

/// Number of occurrences of the event `(st, x)` in `ev`.
pub open spec fn count_ev(ev: Seq<(bool, usize)>, st: bool, x: usize) -> int
    decreases ev.len(),
{
    if ev.len() == 0 {
        0
    } else {
        (if ev[0] == (st, x) {
            1int
        } else {
            0int
        }) + count_ev(ev.drop_first(), st, x)
    }
}

/// Occurrence count in a one-event sequence.
pub proof fn lemma_count_ev_single(e0: (bool, usize), st: bool, x: usize)
    ensures
        count_ev(seq![e0], st, x) == (if e0 == (st, x) {
            1int
        } else {
            0int
        }),
{
    reveal_with_fuel(count_ev, 2);
    assert(seq![e0].drop_first() =~= Seq::<(bool, usize)>::empty());
}

pub proof fn lemma_count_ev_add(a: Seq<(bool, usize)>, b: Seq<(bool, usize)>, st: bool, x: usize)
    ensures
        count_ev(a + b, st, x) == count_ev(a, st, x) + count_ev(b, st, x),
    decreases a.len(),
{
    if a.len() == 0 {
        assert(a + b =~= b);
    } else {
        assert((a + b).drop_first() =~= a.drop_first() + b);
        lemma_count_ev_add(a.drop_first(), b, st, x);
    }
}

/// Whether `x` lies in the subtree of `a`: it is `a` itself, or its
/// parent chain passes through `a`.
pub open spec fn desc(nodes: Seq<NodeV>, a: usize, x: usize) -> bool
    decreases x,
        when wf(nodes) && (x as int) < nodes.len() && (a as int) < nodes.len()
        via desc_decreases
{
    if x == a {
        true
    } else {
        match nodes[x as int].parent {
            Some(p) => desc(nodes, a, p),
            None => false,
        }
    }
}

#[via_fn]
proof fn desc_decreases(nodes: Seq<NodeV>, a: usize, x: usize) {
    if wf(nodes) && (x as int) < nodes.len() && (a as int) < nodes.len() {
        assert(wf_at(nodes, x as int));
    }
}

/// A descendant never sits before its ancestor in the arena.
pub proof fn lemma_desc_le(nodes: Seq<NodeV>, a: usize, x: usize)
    requires
        wf(nodes),
        (a as int) < nodes.len(),
        (x as int) < nodes.len(),
        desc(nodes, a, x),
    ensures
        a <= x,
    decreases x,
{
    if x != a {
        assert(wf_at(nodes, x as int));
        match nodes[x as int].parent {
            Some(p) => lemma_desc_le(nodes, a, p),
            None => {},
        }
    }
}

/// The subtree relation is transitive.
pub proof fn lemma_desc_trans(nodes: Seq<NodeV>, a: usize, b: usize, x: usize)
    requires
        wf(nodes),
        (a as int) < nodes.len(),
        (b as int) < nodes.len(),
        (x as int) < nodes.len(),
        desc(nodes, a, b),
        desc(nodes, b, x),
    ensures
        desc(nodes, a, x),
    decreases x,
{
    if x != b {
        assert(wf_at(nodes, x as int));
        match nodes[x as int].parent {
            Some(p) => {
                lemma_desc_trans(nodes, a, b, p);
            },
            None => {},
        }
    }
}

/// A strict descendant of `id` lies in the subtree of exactly the
/// children of `id` that its chain passes through: at least one child
/// holds it, and at most one.
pub proof fn lemma_desc_via_children(nodes: Seq<NodeV>, id: usize, x: usize)
    requires
        wf(nodes),
        (id as int) < nodes.len(),
        (x as int) < nodes.len(),
        x != id,
    ensures
        desc(nodes, id, x) <==> exists|k: int|
            0 <= k < nodes[id as int].children.len() && desc(
                nodes,
                #[trigger] nodes[id as int].children[k],
                x,
            ),
    decreases x,
{
    assert(wf_at(nodes, id as int));
    assert(wf_at(nodes, x as int));
    if desc(nodes, id, x) {
        match nodes[x as int].parent {
            Some(p) => {
                if p == id {
                    let ck = choose|k: int|
                        0 <= k < nodes[p as int].children.len() && nodes[p as int].children[k] == x;
                    assert(desc(nodes, nodes[id as int].children[ck], x));
                } else {
                    lemma_desc_via_children(nodes, id, p);
                    let k = choose|k: int|
                        0 <= k < nodes[id as int].children.len() && desc(
                            nodes,
                            #[trigger] nodes[id as int].children[k],
                            x,
                        ) && desc(nodes, nodes[id as int].children[k], p);
                    let k2 = choose|k: int|
                        0 <= k < nodes[id as int].children.len() && desc(
                            nodes,
                            #[trigger] nodes[id as int].children[k],
                            p,
                        );
                    let c = nodes[id as int].children[k2];
                    assert(nodes[c as int].parent == Some(id));
                    assert(x != c);
                    assert(desc(nodes, c, x));
                }
            },
            None => {},
        }
    }
    if exists|k: int|
        0 <= k < nodes[id as int].children.len() && desc(
            nodes,
            #[trigger] nodes[id as int].children[k],
            x,
        ) {
        let k = choose|k: int|
            0 <= k < nodes[id as int].children.len() && desc(
                nodes,
                #[trigger] nodes[id as int].children[k],
                x,
            );
        let c = nodes[id as int].children[k];
        assert(nodes[c as int].parent == Some(id));
        assert(desc(nodes, id, id));
        assert(desc(nodes, id, c));
        lemma_desc_trans(nodes, id, c, x);
    }
}

/// No node lies in the subtrees of two distinct children of one parent.
pub proof fn lemma_desc_unique_child(nodes: Seq<NodeV>, id: usize, x: usize, k1: int, k2: int)
    requires
        wf(nodes),
        (id as int) < nodes.len(),
        (x as int) < nodes.len(),
        0 <= k1 < nodes[id as int].children.len(),
        0 <= k2 < nodes[id as int].children.len(),
        desc(nodes, nodes[id as int].children[k1], x),
        desc(nodes, nodes[id as int].children[k2], x),
    ensures
        k1 == k2,
    decreases x,
{
    assert(wf_at(nodes, id as int));
    let c1 = nodes[id as int].children[k1];
    let c2 = nodes[id as int].children[k2];
    if x == c1 {
        if c2 != c1 {
            assert(wf_at(nodes, c1 as int));
            assert(desc(nodes, c2, id));
            lemma_desc_le(nodes, c2, id);
        }
        if k1 != k2 {
            if k1 < k2 {
                assert(nodes[id as int].children[k1] < nodes[id as int].children[k2]);
            } else {
                assert(nodes[id as int].children[k2] < nodes[id as int].children[k1]);
            }
        }
    } else if x == c2 {
        assert(wf_at(nodes, c2 as int));
        assert(desc(nodes, c1, id));
        lemma_desc_le(nodes, c1, id);
    } else {
        assert(wf_at(nodes, x as int));
        match nodes[x as int].parent {
            Some(p) => {
                lemma_desc_unique_child(nodes, id, p, k1, k2);
            },
            None => {},
        }
    }
}

/// Exactly-once visiting, child segment: the events of the children of
/// `id` from position `k` on hold one Start and one End for `x` when
/// some child subtree from `k` on holds `x`, and none otherwise.
pub proof fn lemma_count_children(nodes: Seq<NodeV>, id: usize, k: int, x: usize)
    requires
        wf(nodes),
        (id as int) < nodes.len(),
        (x as int) < nodes.len(),
        0 <= k <= nodes[id as int].children.len(),
    ensures
        count_ev(ev_children(nodes, id, k), true, x) == (if exists|j: int|
            k <= j < nodes[id as int].children.len() && desc(
                nodes,
                #[trigger] nodes[id as int].children[j],
                x,
            ) {
            1int
        } else {
            0int
        }),
        count_ev(ev_children(nodes, id, k), false, x) == count_ev(
            ev_children(nodes, id, k),
            true,
            x,
        ),
    decreases nodes.len() - id, 0int, nodes[id as int].children.len() - k,
{
    assert(wf_at(nodes, id as int));
    if k >= nodes[id as int].children.len() {
        assert(ev_children(nodes, id, k) =~= Seq::<(bool, usize)>::empty());
    } else {
        let c = nodes[id as int].children[k];
        lemma_count_ev_of(nodes, c, x);
        lemma_count_children(nodes, id, k + 1, x);
        lemma_count_ev_add(ev_of(nodes, c), ev_children(nodes, id, k + 1), true, x);
        lemma_count_ev_add(ev_of(nodes, c), ev_children(nodes, id, k + 1), false, x);
        if desc(nodes, c, x) {
            assert forall|j: int|
                k + 1 <= j < nodes[id as int].children.len() implies !desc(
                nodes,
                #[trigger] nodes[id as int].children[j],
                x,
            ) by {
                if desc(nodes, nodes[id as int].children[j], x) {
                    lemma_desc_unique_child(nodes, id, x, k, j);
                }
            }
        } else {
            if exists|j: int|
                k <= j < nodes[id as int].children.len() && desc(
                    nodes,
                    #[trigger] nodes[id as int].children[j],
                    x,
                ) {
                let j = choose|j: int|
                    k <= j < nodes[id as int].children.len() && desc(
                        nodes,
                        #[trigger] nodes[id as int].children[j],
                        x,
                    );
                assert(j >= k + 1);
            }
        }
    }
}

/// Exactly-once visiting: the depth-first events of the subtree at `id`
/// hold exactly one Start and one End for every node of that subtree,
/// and none for any other node.
pub proof fn lemma_count_ev_of(nodes: Seq<NodeV>, id: usize, x: usize)
    requires
        wf(nodes),
        (id as int) < nodes.len(),
        (x as int) < nodes.len(),
    ensures
        count_ev(ev_of(nodes, id), true, x) == (if desc(nodes, id, x) {
            1int
        } else {
            0int
        }),
        count_ev(ev_of(nodes, id), false, x) == count_ev(ev_of(nodes, id), true, x),
    decreases nodes.len() - id, 1int, 0int,
{
    assert(wf_at(nodes, id as int));
    let s: Seq<(bool, usize)> = seq![(true, id)];
    let e: Seq<(bool, usize)> = seq![(false, id)];
    let c = ev_children(nodes, id, 0);
    assert(s.len() == 1 && s[0] == (true, id));
    assert(e.len() == 1 && e[0] == (false, id));
    assert(ev_of(nodes, id) =~= s + c + e);
    lemma_count_ev_add(s + c, e, true, x);
    lemma_count_ev_add(s, c, true, x);
    lemma_count_ev_add(s + c, e, false, x);
    lemma_count_ev_add(s, c, false, x);
    lemma_count_ev_single((true, id), true, x);
    lemma_count_ev_single((true, id), false, x);
    lemma_count_ev_single((false, id), true, x);
    lemma_count_ev_single((false, id), false, x);
    lemma_count_children(nodes, id, 0, x);
    if x == id {
        assert forall|j: int|
            0 <= j < nodes[id as int].children.len() implies !desc(
            nodes,
            #[trigger] nodes[id as int].children[j],
            x,
        ) by {
            if desc(nodes, nodes[id as int].children[j], x) {
                lemma_desc_le(nodes, nodes[id as int].children[j], x);
            }
        }
    } else {
        lemma_desc_via_children(nodes, id, x);
    }
}

/// Every event of a subtree traversal names a node of the arena.
pub proof fn lemma_ev_ids(nodes: Seq<NodeV>, id: usize)
    requires
        wf(nodes),
        (id as int) < nodes.len(),
    ensures
        forall|k: int|
            0 <= k < ev_of(nodes, id).len() ==> ((#[trigger] ev_of(nodes, id)[k]).1 as int)
                < nodes.len(),
    decreases nodes.len() - id, 1int, 0int,
{
    assert(wf_at(nodes, id as int));
    let s: Seq<(bool, usize)> = seq![(true, id)];
    let e: Seq<(bool, usize)> = seq![(false, id)];
    let c = ev_children(nodes, id, 0);
    assert(ev_of(nodes, id) =~= s + c + e);
    lemma_ev_children_ids(nodes, id, 0);
    assert forall|k: int| 0 <= k < ev_of(nodes, id).len() implies ((
    #[trigger] ev_of(nodes, id)[k]).1 as int) < nodes.len() by {
        if k == 0 {
        } else if k < 1 + c.len() {
            assert(ev_of(nodes, id)[k] == c[k - 1]);
        } else {
        }
    }
}

pub proof fn lemma_ev_children_ids(nodes: Seq<NodeV>, id: usize, k: int)
    requires
        wf(nodes),
        (id as int) < nodes.len(),
        0 <= k <= nodes[id as int].children.len(),
    ensures
        forall|j: int|
            0 <= j < ev_children(nodes, id, k).len() ==> ((#[trigger] ev_children(
                nodes,
                id,
                k,
            )[j]).1 as int) < nodes.len(),
    decreases nodes.len() - id, 0int, nodes[id as int].children.len() - k,
{
    assert(wf_at(nodes, id as int));
    if k < nodes[id as int].children.len() {
        let c = nodes[id as int].children[k];
        let head = ev_of(nodes, c);
        let tail = ev_children(nodes, id, k + 1);
        assert(ev_children(nodes, id, k) == head + tail);
        lemma_ev_ids(nodes, c);
        lemma_ev_children_ids(nodes, id, k + 1);
        assert forall|j: int| 0 <= j < ev_children(nodes, id, k).len() implies ((
        #[trigger] ev_children(nodes, id, k)[j]).1 as int) < nodes.len() by {
            if j < head.len() {
                assert(ev_children(nodes, id, k)[j] == head[j]);
            } else {
                assert(ev_children(nodes, id, k)[j] == tail[j - head.len()]);
            }
        }
    }
}

/// Nesting balance of an event sequence: Starts count +1, Ends -1.
pub open spec fn bal(ev: Seq<(bool, usize)>) -> int
    decreases ev.len(),
{
    if ev.len() == 0 {
        0
    } else {
        (if ev[0].0 {
            1int
        } else {
            -1int
        }) + bal(ev.drop_first())
    }
}

pub proof fn lemma_bal_single(e0: (bool, usize))
    ensures
        bal(seq![e0]) == (if e0.0 {
            1int
        } else {
            -1int
        }),
{
    reveal_with_fuel(bal, 2);
    assert(seq![e0].drop_first() =~= Seq::<(bool, usize)>::empty());
}

pub proof fn lemma_bal_add(a: Seq<(bool, usize)>, b: Seq<(bool, usize)>)
    ensures
        bal(a + b) == bal(a) + bal(b),
    decreases a.len(),
{
    if a.len() == 0 {
        assert(a + b =~= b);
    } else {
        assert((a + b).drop_first() =~= a.drop_first() + b);
        lemma_bal_add(a.drop_first(), b);
    }
}

/// Balanced nesting: the events of a subtree open with its Start, close
/// with its End, sum to zero, and every proper nonempty prefix leaves
/// more Starts than Ends open.
pub proof fn lemma_ev_of_balanced(nodes: Seq<NodeV>, id: usize)
    requires
        wf(nodes),
        (id as int) < nodes.len(),
    ensures
        ev_of(nodes, id).len() >= 2,
        ev_of(nodes, id)[0] == (true, id),
        ev_of(nodes, id)[ev_of(nodes, id).len() - 1] == (false, id),
        bal(ev_of(nodes, id)) == 0,
        forall|j: int|
            0 < j < ev_of(nodes, id).len() ==> bal(#[trigger] ev_of(nodes, id).take(j)) > 0,
    decreases nodes.len() - id, 1int, 0int,
{
    assert(wf_at(nodes, id as int));
    let s: Seq<(bool, usize)> = seq![(true, id)];
    let e: Seq<(bool, usize)> = seq![(false, id)];
    let c = ev_children(nodes, id, 0);
    let ev = ev_of(nodes, id);
    assert(s.len() == 1 && s[0] == (true, id));
    assert(e.len() == 1 && e[0] == (false, id));
    assert(ev =~= s + c + e);
    lemma_ev_children_balanced(nodes, id, 0);
    lemma_bal_add(s + c, e);
    lemma_bal_add(s, c);
    lemma_bal_single((true, id));
    lemma_bal_single((false, id));
    assert(ev[ev.len() - 1] == (false, id));
    assert forall|j: int| 0 < j < ev.len() implies bal(#[trigger] ev.take(j)) > 0 by {
        assert(j - 1 <= c.len());
        assert(ev.take(j) =~= s + c.take(j - 1));
        lemma_bal_add(s, c.take(j - 1));
        assert(bal(c.take(j - 1)) >= 0);
    }
}

/// Balanced nesting, child segment: the concatenated child event
/// sequences sum to zero and no prefix closes more than it opened.
pub proof fn lemma_ev_children_balanced(nodes: Seq<NodeV>, id: usize, k: int)
    requires
        wf(nodes),
        (id as int) < nodes.len(),
        0 <= k <= nodes[id as int].children.len(),
    ensures
        bal(ev_children(nodes, id, k)) == 0,
        forall|j: int|
            0 <= j <= ev_children(nodes, id, k).len() ==> bal(
                #[trigger] ev_children(nodes, id, k).take(j),
            ) >= 0,
    decreases nodes.len() - id, 0int, nodes[id as int].children.len() - k,
{
    assert(wf_at(nodes, id as int));
    let evc = ev_children(nodes, id, k);
    if k >= nodes[id as int].children.len() {
        assert(evc =~= Seq::<(bool, usize)>::empty());
        assert forall|j: int| 0 <= j <= evc.len() implies bal(#[trigger] evc.take(j)) >= 0 by {
            assert(evc.take(j) =~= Seq::<(bool, usize)>::empty());
        }
    } else {
        let c = nodes[id as int].children[k];
        let head = ev_of(nodes, c);
        let tail = ev_children(nodes, id, k + 1);
        assert(evc == head + tail);
        lemma_ev_of_balanced(nodes, c);
        lemma_ev_children_balanced(nodes, id, k + 1);
        lemma_bal_add(head, tail);
        assert forall|j: int| 0 <= j <= evc.len() implies bal(#[trigger] evc.take(j)) >= 0 by {
            if j <= head.len() {
                assert(evc.take(j) =~= head.take(j));
                if j == 0 {
                    assert(head.take(0) =~= Seq::<(bool, usize)>::empty());
                } else if j == head.len() {
                    assert(head.take(j) =~= head);
                } else {
                    assert(bal(head.take(j)) > 0);
                }
            } else {
                assert(evc.take(j) =~= head + tail.take(j - head.len()));
                lemma_bal_add(head, tail.take(j - head.len()));
                assert(bal(tail.take(j - head.len())) >= 0);
            }
        }
    }
}

proof fn lemma_wf_append(
    oldv: Seq<NodeV>,
    pu: usize,
    idxu: usize,
    el: ElementV,
    newv: Seq<NodeV>,
    i: int,
)
    requires
        wf(oldv),
        (pu as int) < oldv.len(),
        (idxu as int) == oldv.len(),
        newv =~= oldv.update(
            pu as int,
            NodeV {
                element: oldv[pu as int].element,
                parent: oldv[pu as int].parent,
                children: oldv[pu as int].children.push(idxu),
            },
        ).push(NodeV { element: el, parent: Some(pu), children: Seq::empty() }),
        0 <= i < newv.len(),
    ensures
        wf_at(newv, i),
{
    let p = pu as int;
    let idx = idxu as int;
    assert(newv.len() == oldv.len() + 1);
    assert forall|j: int| 0 <= j < oldv.len() implies newv[j].parent == oldv[j].parent by {}
    assert forall|j: int| 0 <= j < oldv.len() && j != p implies newv[j].children
        == oldv[j].children by {}
    assert(newv[p].children =~= oldv[p].children.push(idxu));
    if i == idx {
        assert(newv[i].parent == Some(p as usize));
        assert(newv[p].children[newv[p].children.len() - 1] == idx as usize);
        assert(newv[p].children.contains(i as usize));
    } else {
        assert(wf_at(oldv, i));
        match oldv[i].parent {
            Some(q) => {
                assert(oldv[q as int].children.contains(i as usize));
                let w = choose|w: int|
                    0 <= w < oldv[q as int].children.len() && oldv[q as int].children[w] == (
                    i as usize);
                if q as int == p {
                    assert(newv[p].children[w] == i as usize);
                    assert(newv[q as int].children.contains(i as usize));
                } else {
                    assert(newv[q as int].children == oldv[q as int].children);
                }
            },
            None => {},
        }
        if i == p {
            assert forall|k: int| 0 <= k < newv[i].children.len() implies i < (
            #[trigger] newv[i].children[k]) as int && (newv[i].children[k] as int) < newv.len()
                && newv[newv[i].children[k] as int].parent == Some(i as usize) by {
                if k < oldv[p].children.len() {
                    assert(newv[i].children[k] == oldv[p].children[k]);
                } else {
                    assert(newv[i].children[k] == idx as usize);
                }
            }
            assert forall|k1: int, k2: int|
                0 <= k1 < k2 < newv[i].children.len() implies newv[i].children[k1]
                < newv[i].children[k2] by {
                if k2 < oldv[p].children.len() {
                } else {
                    if k1 < oldv[p].children.len() {
                        assert(newv[i].children[k1] == oldv[p].children[k1]);
                        assert(p < oldv[p].children[k1] as int && (oldv[p].children[k1] as int) < oldv.len());
                    }
                }
            }
        } else {
            assert forall|k: int| 0 <= k < newv[i].children.len() implies i < (
            #[trigger] newv[i].children[k]) as int && (newv[i].children[k] as int) < newv.len()
                && newv[newv[i].children[k] as int].parent == Some(i as usize) by {
                assert(newv[i].children[k] == oldv[i].children[k]);
            }
        }
    }
}

} // verus!
