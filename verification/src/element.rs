//! The tagged payload stored at every tree node.
use vstd::prelude::*;

use crate::clock::{Clock, ClockV};
use crate::macros::{Macros, MacrosV};

verus! {

/// The closed set of node payloads of the core engine.  `Document` is
/// always the root; `Clock` and `Macros` are the two concrete leaf
/// parsers; `Text` is the fallback for unrecognized lines.
#[derive(Clone, Debug, PartialEq)]
pub enum Element {
    Document { pre_blank: usize },
    Clock(Clock),
    Macros(Macros),
    Text { value: Vec<u8> },
}

/// The mathematical value of an element.
pub enum ElementV {
    Document { pre_blank: usize },
    Clock(ClockV),
    Macros(MacrosV),
    Text { value: Seq<u8> },
}

impl View for Element {
    type V = ElementV;

    open spec fn view(&self) -> ElementV {
        match self {
            Element::Document { pre_blank } => ElementV::Document { pre_blank: *pre_blank },
            Element::Clock(c) => ElementV::Clock(c@),
            Element::Macros(m) => ElementV::Macros(m@),
            Element::Text { value } => ElementV::Text { value: value@ },
        }
    }
}

/// An owned copy of a byte vector.
pub fn copy_bytes(v: &Vec<u8>) -> (r: Vec<u8>)
    ensures
        r@ == v@,
{
    let s = v.as_slice();
    let r = crate::bytes::sub_vec(s, 0, s.len());
    proof {
        assert(r@ =~= v@);
    }
    r
}

impl Element {
    /// A value-equal copy of the element.
    pub fn duplicate(&self) -> (r: Element)
        ensures
            r@ == self@,
    {
        match self {
            Element::Document { pre_blank } => Element::Document { pre_blank: *pre_blank },
            Element::Clock(c) => Element::Clock(
                match c {
                    Clock::Closed { start, end, repeater, delay, duration } => Clock::Closed {
                        start: *start,
                        end: *end,
                        repeater: *repeater,
                        delay: *delay,
                        duration: copy_bytes(duration),
                    },
                    Clock::Running { start, repeater, delay } => Clock::Running {
                        start: *start,
                        repeater: *repeater,
                        delay: *delay,
                    },
                },
            ),
            Element::Macros(m) => Element::Macros(
                Macros {
                    name: copy_bytes(&m.name),
                    arguments: match &m.arguments {
                        Some(a) => Some(copy_bytes(a)),
                        None => None,
                    },
                },
            ),
            Element::Text { value } => Element::Text { value: copy_bytes(value) },
        }
    }
}

} // verus!
