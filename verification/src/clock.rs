//! The clock element: a `CLOCK:` line holding an inactive timestamp,
//! either still running or closed with a literal duration.
use vstd::prelude::*;
use vstd::string::StringSliceAdditionalSpecFns;

use crate::bytes::{
    all_digits, byte_is_digit, check_all_digits, find_byte, find_byte_in, is_digit,
    lemma_find_byte, lemma_find_byte_from_witness, skip_ws, skip_ws_fwd, sub_slice, sub_vec, trim,
    trim_start, ws_suffix_start_in,
};
use crate::timestamp::{spec_parse_inactive, Datetime, Delay, Repeater, Timestamp};

verus! {

/// A parsed clock line: an open interval, or a closed one with the
/// duration text that followed `=>` (kept verbatim, never recomputed).
#[derive(Clone, Debug, PartialEq)]
pub enum Clock {
    Closed {
        start: Datetime,
        end: Datetime,
        repeater: Option<Repeater>,
        delay: Option<Delay>,
        duration: Vec<u8>,
    },
    Running { start: Datetime, repeater: Option<Repeater>, delay: Option<Delay> },
}

/// The mathematical value of a clock: the duration as a byte sequence.
pub enum ClockV {
    Closed {
        start: Datetime,
        end: Datetime,
        repeater: Option<Repeater>,
        delay: Option<Delay>,
        duration: Seq<u8>,
    },
    Running { start: Datetime, repeater: Option<Repeater>, delay: Option<Delay> },
}

impl View for Clock {
    type V = ClockV;

    open spec fn view(&self) -> ClockV {
        match self {
            Clock::Closed { start, end, repeater, delay, duration } => ClockV::Closed {
                start: *start,
                end: *end,
                repeater: *repeater,
                delay: *delay,
                duration: duration@,
            },
            Clock::Running { start, repeater, delay } => ClockV::Running {
                start: *start,
                repeater: *repeater,
                delay: *delay,
            },
        }
    }
}

/// The duration after `=>`, trimmed, must be digits, `:`, two digits,
/// with at least one hour digit.
pub open spec fn duration_ok(d: Seq<u8>) -> bool {
    match find_byte(d, 58) {
        Some(c) => 1 <= c && all_digits(d, 0, c) && c == d.len() - 3 && is_digit(d[c + 1])
            && is_digit(d[c + 2]),
        None => false,
    }
}

/// The clock grammar over the input bytes.  The first line (through its
/// newline, or to the end) is consumed; it must read `CLOCK:`, a space,
/// and an inactive timestamp: a range needs ` => DURATION` after it, a
/// single timestamp only trailing whitespace.  Anything else is a
/// non-match that consumes nothing.
pub open spec fn spec_clock_parse(s: Seq<u8>) -> Option<(ClockV, int)> {
    let (line_end, off) = match find_byte(s, 10) {
        Some(i) => (i, i + 1),
        None => (s.len() as int, s.len() as int),
    };
    let text = trim(s.subrange(0, line_end));
    match find_byte(text, 32) {
        Some(sp) => {
            if sp == 6 && text[0] == 67 && text[1] == 76 && text[2] == 79 && text[3] == 67
                && text[4] == 75 && text[5] == 58 {
                let tail = trim_start(text.subrange(sp, text.len() as int));
                if tail.len() > 0 && tail[0] == 91 {
                    match spec_parse_inactive(tail) {
                        Some((Timestamp::InactiveRange { start, end, repeater, delay }, n)) => {
                            let rest = trim_start(tail.subrange(n, tail.len() as int));
                            if rest.len() >= 2 && rest[0] == 61 && rest[1] == 62 {
                                let dur = trim(rest.subrange(2, rest.len() as int));
                                if duration_ok(dur) {
                                    Some(
                                        (
                                            ClockV::Closed {
                                                start,
                                                end,
                                                repeater,
                                                delay,
                                                duration: dur,
                                            },
                                            off,
                                        ),
                                    )
                                } else {
                                    None
                                }
                            } else {
                                None
                            }
                        },
                        Some((Timestamp::Inactive { start, repeater, delay }, n)) => {
                            if skip_ws(tail, n) == tail.len() {
                                Some((ClockV::Running { start, repeater, delay }, off))
                            } else {
                                None
                            }
                        },
                        None => None,
                    }
                } else {
                    None
                }
            } else {
                None
            }
        },
        None => None,
    }
}

/// Consumed-length exactness for the clock parser: a successful parse
/// consumes between one byte and the whole input (the first line through
/// its newline), and re-parsing just the consumed prefix yields the same
/// element and the same count, so the remainder after the count is
/// exactly the unconsumed text.
pub proof fn lemma_clock_parse_prefix(s: Seq<u8>)
    ensures
        match spec_clock_parse(s) {
            Some((c, n)) => 1 <= n <= s.len() && spec_clock_parse(s.take(n)) == spec_clock_parse(
                s,
            ),
            None => true,
        },
{
    lemma_find_byte(s, 10);
    match find_byte(s, 10) {
        Some(i) => {
            let n = i + 1;
            let t = s.take(n);
            assert(t.len() == n);
            assert(t[i] == s[i]);
            assert forall|j: int| 0 <= j < i implies t[j] != 10 by {
                assert(t[j] == s[j]);
            }
            lemma_find_byte_from_witness(t, 10, Some(i));
            assert(t.subrange(0, i) =~= s.subrange(0, i));
        },
        None => {
            assert(s.take(s.len() as int) =~= s);
        },
    }
}

impl Clock {
    /// Parse a clock line at the start of `s`, as `spec_clock_parse`
    /// describes it.  On a match the returned count covers the whole
    /// first line, newline included; on a non-match nothing is consumed.
    #[verifier::rlimit(100)]
    #[verifier::spinoff_prover]
    pub fn parse_bytes(s: &[u8]) -> (r: Option<(Clock, usize)>)
        ensures
            match r {
                Some(p) => spec_clock_parse(s@) == Some((p.0@, p.1 as int)) && 1 <= p.1
                    <= s@.len(),
                None => spec_clock_parse(s@) is None,
            },
    {
        proof {
            lemma_find_byte(s@, 10);
        }
        let slen = s.len();
        let (line_end, off): (usize, usize) = match find_byte_in(s, 10) {
            Some(i) => {
                proof {
                    assert(i < s@.len());
                }
                (i, i + 1)
            },
            None => (slen, slen),
        };
        let line = sub_slice(s, 0, line_end);
        let a = skip_ws_fwd(line, 0);
        let b = ws_suffix_start_in(line);
        if a >= b {
            proof {
                assert(trim(line@) =~= Seq::<u8>::empty());
            }
            return None;
        }
        let text = sub_slice(line, a, b);
        proof {
            assert(text@ == trim(line@));
        }
        match find_byte_in(text, 32) {
            Some(sp) => {
                proof {
                    lemma_find_byte(text@, 32);
                }
                if sp == 6 && text[0] == 67 && text[1] == 76 && text[2] == 79 && text[3] == 67
                    && text[4] == 75 && text[5] == 58 {
                    let tail0 = sub_slice(text, sp, text.len());
                    let ta = skip_ws_fwd(tail0, 0);
                    let tail = sub_slice(tail0, ta, tail0.len());
                    proof {
                        assert(tail@ == trim_start(text@.subrange(sp as int, text@.len() as int)));
                    }
                    if tail.len() > 0 && tail[0] == 91 {
                        match crate::timestamp::parse_inactive_bytes(tail) {
                            Some((Timestamp::InactiveRange { start, end, repeater, delay }, n)) => {
                                let rest0 = sub_slice(tail, n, tail.len());
                                let ra = skip_ws_fwd(rest0, 0);
                                let rest = sub_slice(rest0, ra, rest0.len());
                                proof {
                                    assert(rest@ == trim_start(
                                        tail@.subrange(n as int, tail@.len() as int),
                                    ));
                                }
                                if rest.len() >= 2 && rest[0] == 61 && rest[1] == 62 {
                                    let dur0 = sub_slice(rest, 2, rest.len());
                                    let da = skip_ws_fwd(dur0, 0);
                                    let db = ws_suffix_start_in(dur0);
                                    if da >= db {
                                        proof {
                                            assert(trim(dur0@) =~= Seq::<u8>::empty());
                                            assert(find_byte(Seq::<u8>::empty(), 58) is None);
                                        }
                                        return None;
                                    }
                                    let dur = sub_slice(dur0, da, db);
                                    proof {
                                        assert(dur@ == trim(
                                            rest@.subrange(2, rest@.len() as int),
                                        ));
                                        lemma_find_byte(dur@, 58);
                                    }
                                    match find_byte_in(dur, 58) {
                                        Some(c) => {
                                            if 1 <= c && check_all_digits(dur, 0, c) && dur.len()
                                                >= 3 && c == dur.len() - 3 && byte_is_digit(
                                                dur[c + 1],
                                            ) && byte_is_digit(dur[c + 2]) {
                                                let duration = sub_vec(dur, 0, dur.len());
                                                proof {
                                                    assert(duration@ =~= dur@);
                                                }
                                                Some(
                                                    (
                                                        Clock::Closed {
                                                            start,
                                                            end,
                                                            repeater,
                                                            delay,
                                                            duration,
                                                        },
                                                        off,
                                                    ),
                                                )
                                            } else {
                                                None
                                            }
                                        },
                                        None => None,
                                    }
                                } else {
                                    None
                                }
                            },
                            Some((Timestamp::Inactive { start, repeater, delay }, n)) => {
                                if skip_ws_fwd(tail, n) == tail.len() {
                                    Some((Clock::Running { start, repeater, delay }, off))
                                } else {
                                    None
                                }
                            },
                            None => None,
                        }
                    } else {
                        None
                    }
                } else {
                    None
                }
            },
            None => None,
        }
    }

    /// Parse a clock line at the start of `text`.
    pub fn parse(text: &str) -> (r: Option<(Clock, usize)>)
        ensures
            match r {
                Some(p) => spec_clock_parse(text.spec_bytes()) == Some((p.0@, p.1 as int)) && 1
                    <= p.1 <= text.spec_bytes().len(),
                None => spec_clock_parse(text.spec_bytes()) is None,
            },
    {
        Clock::parse_bytes(text.as_bytes())
    }

    /// Whether the clock value is still running (an open interval).
    pub open spec fn spec_is_running(v: ClockV) -> bool {
        v is Running
    }

    pub fn is_running(&self) -> (r: bool)
        ensures
            r == Clock::spec_is_running(self@),
    {
        match self {
            Clock::Closed { .. } => false,
            Clock::Running { .. } => true,
        }
    }

    pub fn is_closed(&self) -> (r: bool)
        ensures
            r == !Clock::spec_is_running(self@),
    {
        match self {
            Clock::Closed { .. } => true,
            Clock::Running { .. } => false,
        }
    }

    /// The duration field of the clock value, if it is closed.
    pub open spec fn spec_duration(v: ClockV) -> Option<Seq<u8>> {
        match v {
            ClockV::Closed { duration, .. } => Some(duration),
            ClockV::Running { .. } => None,
        }
    }

    pub fn duration(&self) -> (r: Option<&Vec<u8>>)
        ensures
            match r {
                Some(d) => Clock::spec_duration(self@) == Some(d@),
                None => Clock::spec_duration(self@) is None,
            },
    {
        match self {
            Clock::Closed { duration, .. } => Some(duration),
            Clock::Running { .. } => None,
        }
    }

    /// The underlying timestamp of either variant: a closed clock holds a
    /// range, a running one a single inactive timestamp.
    pub open spec fn spec_value(v: ClockV) -> Timestamp {
        match v {
            ClockV::Closed { start, end, repeater, delay, .. } => Timestamp::InactiveRange {
                start,
                end,
                repeater,
                delay,
            },
            ClockV::Running { start, repeater, delay } => Timestamp::Inactive {
                start,
                repeater,
                delay,
            },
        }
    }

    pub fn value(&self) -> (r: Timestamp)
        ensures
            r == Clock::spec_value(self@),
    {
        match self {
            Clock::Closed { start, end, repeater, delay, .. } => Timestamp::InactiveRange {
                start: *start,
                end: *end,
                repeater: *repeater,
                delay: *delay,
            },
            Clock::Running { start, repeater, delay } => Timestamp::Inactive {
                start: *start,
                repeater: *repeater,
                delay: *delay,
            },
        }
    }
}

} // verus!
