//! The inline macro-call element: `{{{name}}}` or `{{{name(arguments)}}}`.
use vstd::prelude::*;
use vstd::string::StringSliceAdditionalSpecFns;

use crate::bytes::{
    byte_is_alpha, is_alpha, lemma_name_run_end, lemma_name_run_end_take, lemma_rfind_from_some,
    lemma_rfind_from_witness, match_at, name_run_end, name_run_end_in, rfind, rfind_in, sub_slice,
    sub_vec,
};

verus! {

/// A parsed macro call.  The name matches `[A-Za-z][A-Za-z0-9_-]*`; the
/// arguments, when present, are the raw text between the opening `(` and
/// the `)` of the last `)}}}` terminator in the input.
#[derive(Clone, Debug, PartialEq)]
pub struct Macros {
    pub name: Vec<u8>,
    pub arguments: Option<Vec<u8>>,
}

/// The mathematical value of a macro call.
pub struct MacrosV {
    pub name: Seq<u8>,
    pub arguments: Option<Seq<u8>>,
}

impl View for Macros {
    type V = MacrosV;

    open spec fn view(&self) -> MacrosV {
        MacrosV {
            name: self.name@,
            arguments: match self.arguments {
                Some(ref a) => Some(a@),
                None => None,
            },
        }
    }
}

/// The four-byte terminator `)}}}` that closes an argument list.
pub open spec fn arg_terminator() -> Seq<u8> {
    seq![41u8, 125u8, 125u8, 125u8]
}

/// The macro grammar over the input bytes: `{{{`, a name whose first byte
/// is a letter, an optional `(arguments)` group closed by the last `)}}}`
/// of the input, and `}}}`.  Anything else is a non-match that consumes
/// nothing.
pub open spec fn spec_macros_parse(s: Seq<u8>) -> Option<(MacrosV, int)> {
    if !(s.len() >= 3 && s[0] == 123 && s[1] == 123 && s[2] == 123) {
        None
    } else {
        let ne = name_run_end(s, 3);
        if !(ne > 3 && is_alpha(s[3])) {
            None
        } else if ne < s.len() && s[ne] == 40 {
            let t = s.subrange(ne + 1, s.len() as int);
            match rfind(t, arg_terminator()) {
                Some(k) => Some(
                    (
                        MacrosV { name: s.subrange(3, ne), arguments: Some(t.take(k)) },
                        ne + 5 + k,
                    ),
                ),
                None => None,
            }
        } else if ne + 3 <= s.len() && s[ne] == 125 && s[ne + 1] == 125 && s[ne + 2] == 125 {
            Some((MacrosV { name: s.subrange(3, ne), arguments: None }, ne + 3))
        } else {
            None
        }
    }
}

/// Consumed-length exactness for the macro parser: a successful parse
/// consumes between one byte and the whole input, and re-parsing just the
/// consumed prefix yields the same element and the same count, so the
/// remainder after the count is exactly the unconsumed text.
pub proof fn lemma_macros_parse_prefix(s: Seq<u8>)
    ensures
        match spec_macros_parse(s) {
            Some((m, n)) => 1 <= n <= s.len() && spec_macros_parse(s.take(n)) == spec_macros_parse(
                s,
            ),
            None => true,
        },
{
    if spec_macros_parse(s) is Some {
        let ne = name_run_end(s, 3);
        lemma_name_run_end(s, 3);
        if ne < s.len() && s[ne] == 40 {
            let t = s.subrange(ne + 1, s.len() as int);
            lemma_rfind_from_some(t, arg_terminator(), t.len() - 4);
            let k = rfind(t, arg_terminator())->Some_0;
            let n = ne + 5 + k;
            assert(match_at(t, arg_terminator(), k));
            assert(n <= s.len());
            let u = s.take(n);
            assert(u.len() == n);
            lemma_name_run_end_take(s, 3, n);
            let tu = u.subrange(ne + 1, u.len() as int);
            assert(tu =~= t.take(k + 4));
            assert(tu.subrange(k, k + 4) =~= t.subrange(k, k + 4));
            assert(match_at(tu, arg_terminator(), k));
            assert forall|j: int| j > k implies !match_at(tu, arg_terminator(), j) by {}
            lemma_rfind_from_witness(tu, arg_terminator(), Some(k));
            assert(tu.take(k) =~= t.take(k));
            assert(u.subrange(3, ne) =~= s.subrange(3, ne));
        } else {
            let n = ne + 3;
            let u = s.take(n);
            assert(u.len() == n);
            lemma_name_run_end_take(s, 3, n);
            assert(u.subrange(3, ne) =~= s.subrange(3, ne));
        }
    }
}

impl Macros {
    /// Parse a macro call at the start of `s`, as `spec_macros_parse`
    /// describes it.  On a non-match nothing is consumed.
    pub fn parse_bytes(s: &[u8]) -> (r: Option<(Macros, usize)>)
        ensures
            match r {
                Some(p) => spec_macros_parse(s@) == Some((p.0@, p.1 as int)) && 1 <= p.1
                    <= s@.len(),
                None => spec_macros_parse(s@) is None,
            },
    {
        if !(s.len() >= 3 && s[0] == 123 && s[1] == 123 && s[2] == 123) {
            return None;
        }
        let ne = name_run_end_in(s, 3);
        if !(ne > 3 && byte_is_alpha(s[3])) {
            return None;
        }
        let name = sub_vec(s, 3, ne);
        if ne < s.len() && s[ne] == 40 {
            let t = sub_slice(s, ne + 1, s.len());
            let pat: Vec<u8> = vec![41u8, 125u8, 125u8, 125u8];
            proof {
                assert(pat@ =~= arg_terminator());
            }
            match rfind_in(t, pat.as_slice()) {
                Some(k) => {
                    proof {
                        lemma_rfind_from_some(t@, arg_terminator(), t@.len() - 4);
                        assert(match_at(t@, arg_terminator(), k as int));
                        assert(t@.subrange(0, k as int) =~= t@.take(k as int));
                    }
                    let arguments = sub_vec(t, 0, k);
                    Some((Macros { name, arguments: Some(arguments) }, ne + 5 + k))
                },
                None => None,
            }
        } else if s.len() >= 3 && ne <= s.len() - 3 && s[ne] == 125 && s[ne + 1] == 125 && s[ne + 2]
            == 125 {
            Some((Macros { name, arguments: None }, ne + 3))
        } else {
            None
        }
    }

    /// Parse a macro call at the start of `text`.
    pub fn parse(text: &str) -> (r: Option<(Macros, usize)>)
        ensures
            match r {
                Some(p) => spec_macros_parse(text.spec_bytes()) == Some((p.0@, p.1 as int)) && 1
                    <= p.1 <= text.spec_bytes().len(),
                None => spec_macros_parse(text.spec_bytes()) is None,
            },
    {
        Macros::parse_bytes(text.as_bytes())
    }
}

} // verus!
