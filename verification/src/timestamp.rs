//! Date/time value types and the inactive-timestamp sub-grammar.
//!
//! An inactive timestamp is `[YYYY-MM-DD DAYNAME]`, optionally with a
//! `H:MM` or `HH:MM` time of day, an optional repeater (`+`, `++` or `.+`
//! followed by digits and a unit) and an optional delay (`-` or `--`
//! followed by digits and a unit), all inside the brackets.  Two such
//! timestamps joined by `--` form an inactive range.
use vstd::prelude::*;
use vstd::string::StringSliceAdditionalSpecFns;

use crate::bytes::{
    byte_is_digit, digit_run_end, digit_run_end_in, is_digit, lemma_digit_run_end, num_val,
    num_val_in,
};

verus! {

/// A calendar date `(year, month, day)` with an optional `(hour, minute)`
/// time of day, exactly as the digits of the source spell them.
#[derive(Clone, Copy, Debug, PartialEq, Eq)]
pub struct Datetime {
    pub date: (u16, u8, u8),
    pub time: Option<(u8, u8)>,
}

/// The mark of a repeater: `+`, `++` or `.+`.
#[derive(Clone, Copy, Debug, PartialEq, Eq)]
pub enum RepeaterType {
    Cumulate,
    CatchUp,
    Restart,
}

/// The mark of a delay: `-` or `--`.
#[derive(Clone, Copy, Debug, PartialEq, Eq)]
pub enum DelayType {
    All,
    First,
}

/// The interval unit of a repeater or delay.
#[derive(Clone, Copy, Debug, PartialEq, Eq)]
pub enum TimeUnit {
    Hour,
    Day,
    Week,
    Month,
    Year,
}

/// A recurrence marker: mark, magnitude and unit.
#[derive(Clone, Copy, Debug, PartialEq, Eq)]
pub struct Repeater {
    pub ty: RepeaterType,
    pub value: u64,
    pub unit: TimeUnit,
}

/// A scheduling-offset marker: mark, magnitude and unit.
#[derive(Clone, Copy, Debug, PartialEq, Eq)]
pub struct Delay {
    pub ty: DelayType,
    pub value: u64,
    pub unit: TimeUnit,
}

/// An inactive timestamp: a single point or a range.
#[derive(Clone, Copy, Debug, PartialEq, Eq)]
pub enum Timestamp {
    Inactive { start: Datetime, repeater: Option<Repeater>, delay: Option<Delay> },
    InactiveRange {
        start: Datetime,
        end: Datetime,
        repeater: Option<Repeater>,
        delay: Option<Delay>,
    },
}

/// Value of the four-digit run at `i`.
pub open spec fn four_val(s: Seq<u8>, i: int) -> int {
    (s[i] - 48) * 1000 + (s[i + 1] - 48) * 100 + (s[i + 2] - 48) * 10 + (s[i + 3] - 48)
}

/// Value of the two-digit run at `i`.
pub open spec fn two_val(s: Seq<u8>, i: int) -> int {
    (s[i] - 48) * 10 + (s[i + 1] - 48)
}

/// First index at or after `i` that ends a day name: a space, a `]`, or
/// the end of the input.
pub open spec fn word_end(s: Seq<u8>, i: int) -> int
    decreases s.len() - i,
{
    if !(0 <= i < s.len()) {
        i
    } else if s[i] == 32 || s[i] == 93 {
        i
    } else {
        word_end(s, i + 1)
    }
}

pub proof fn lemma_word_end(s: Seq<u8>, i: int)
    requires
        0 <= i <= s.len(),
    ensures
        i <= word_end(s, i) <= s.len(),
    decreases s.len() - i,
{
    if 0 <= i < s.len() && !(s[i] == 32 || s[i] == 93) {
        lemma_word_end(s, i + 1);
    }
}

fn word_end_in(s: &[u8], from: usize) -> (r: usize)
    requires
        from <= s@.len(),
    ensures
        r == word_end(s@, from as int),
        from <= r <= s@.len(),
{
    proof {
        lemma_word_end(s@, from as int);
    }
    let mut i = from;
    while i < s.len() && s[i] != 32 && s[i] != 93
        invariant
            from <= i <= s@.len(),
            word_end(s@, from as int) == word_end(s@, i as int),
        decreases s@.len() - i,
    {
        i = i + 1;
    }
    i
}

/// Time of day at `pos`: one or two hour digits, `:`, two minute digits.
/// Yields the pair and the index just past the minutes.
pub open spec fn spec_parse_time(s: Seq<u8>, pos: int) -> Option<((u8, u8), int)> {
    if !(0 <= pos < s.len() && is_digit(s[pos])) {
        None
    } else {
        let c = if pos + 1 < s.len() && is_digit(s[pos + 1]) {
            pos + 2
        } else {
            pos + 1
        };
        let hour = if c == pos + 2 {
            two_val(s, pos)
        } else {
            s[pos] - 48
        };
        if c + 2 < s.len() && s[c] == 58 && is_digit(s[c + 1]) && is_digit(s[c + 2]) {
            Some((((hour as u8), (two_val(s, c + 1) as u8)), c + 3))
        } else {
            None
        }
    }
}

/// Repeater at `pos` (`pos` is its first mark byte).  Yields the value and
/// the index just past the unit.  The digit run is capped at ten digits.
pub open spec fn spec_parse_repeater(s: Seq<u8>, pos: int) -> Option<(Repeater, int)> {
    if !(0 <= pos < s.len()) {
        None
    } else {
        let md = if s[pos] == 46 {
            if pos + 1 < s.len() && s[pos + 1] == 43 {
                Some((RepeaterType::Restart, pos + 2))
            } else {
                None
            }
        } else if s[pos] == 43 {
            if pos + 1 < s.len() && s[pos + 1] == 43 {
                Some((RepeaterType::CatchUp, pos + 2))
            } else {
                Some((RepeaterType::Cumulate, pos + 1))
            }
        } else {
            None
        };
        match md {
            Some((ty, d0)) => {
                let de = digit_run_end(s, d0);
                if 1 <= de - d0 <= 10 && de < s.len() {
                    match spec_unit(s[de]) {
                        Some(unit) => Some(
                            (Repeater { ty, value: num_val(s, d0, de) as u64, unit }, de + 1),
                        ),
                        None => None,
                    }
                } else {
                    None
                }
            },
            None => None,
        }
    }
}

/// Delay at `pos` (`pos` is its first mark byte).
pub open spec fn spec_parse_delay(s: Seq<u8>, pos: int) -> Option<(Delay, int)> {
    if !(0 <= pos < s.len() && s[pos] == 45) {
        None
    } else {
        let (ty, d0) = if pos + 1 < s.len() && s[pos + 1] == 45 {
            (DelayType::First, pos + 2)
        } else {
            (DelayType::All, pos + 1)
        };
        let de = digit_run_end(s, d0);
        if 1 <= de - d0 <= 10 && de < s.len() {
            match spec_unit(s[de]) {
                Some(unit) => Some((Delay { ty, value: num_val(s, d0, de) as u64, unit }, de + 1)),
                None => None,
            }
        } else {
            None
        }
    }
}

/// The unit letter of a repeater or delay.
pub open spec fn spec_unit(b: u8) -> Option<TimeUnit> {
    if b == 104 {
        Some(TimeUnit::Hour)
    } else if b == 100 {
        Some(TimeUnit::Day)
    } else if b == 119 {
        Some(TimeUnit::Week)
    } else if b == 109 {
        Some(TimeUnit::Month)
    } else if b == 121 {
        Some(TimeUnit::Year)
    } else {
        None
    }
}

fn unit_in(b: u8) -> (r: Option<TimeUnit>)
    ensures
        r == spec_unit(b),
{
    if b == 104 {
        Some(TimeUnit::Hour)
    } else if b == 100 {
        Some(TimeUnit::Day)
    } else if b == 119 {
        Some(TimeUnit::Week)
    } else if b == 109 {
        Some(TimeUnit::Month)
    } else if b == 121 {
        Some(TimeUnit::Year)
    } else {
        None
    }
}

/// One bracketed datetime starting at index 0 of `s`:
/// `[YYYY-MM-DD DAYNAME( TIME)?( REPEATER)?( DELAY)?]`.
/// Yields the datetime, its markers and the index just past `]`.
pub open spec fn spec_parse_datetime(s: Seq<u8>) -> Option<
    (Datetime, Option<Repeater>, Option<Delay>, int),
> {
    if !(13 <= s.len() && s[0] == 91 && is_digit(s[1]) && is_digit(s[2]) && is_digit(s[3])
        && is_digit(s[4]) && s[5] == 45 && is_digit(s[6]) && is_digit(s[7]) && s[8] == 45
        && is_digit(s[9]) && is_digit(s[10]) && s[11] == 32) {
        None
    } else {
        let ne = word_end(s, 12);
        if !(ne > 12 && ne < s.len()) {
            None
        } else {
            let dt0 = Datetime {
                date: ((four_val(s, 1) as u16), (two_val(s, 6) as u8), (two_val(s, 9) as u8)),
                time: None,
            };
            let (dt, p1) = if s[ne] == 32 && spec_parse_time(s, ne + 1) is Some {
                let (t, q) = spec_parse_time(s, ne + 1)->Some_0;
                (Datetime { date: dt0.date, time: Some(t) }, q)
            } else {
                (dt0, ne)
            };
            let (rep, p2) = if p1 < s.len() && s[p1] == 32 && spec_parse_repeater(s, p1 + 1)
                is Some {
                let (r, q) = spec_parse_repeater(s, p1 + 1)->Some_0;
                (Some(r), q)
            } else {
                (None::<Repeater>, p1)
            };
            let (del, p3) = if p2 < s.len() && s[p2] == 32 && spec_parse_delay(s, p2 + 1) is Some {
                let (d, q) = spec_parse_delay(s, p2 + 1)->Some_0;
                (Some(d), q)
            } else {
                (None::<Delay>, p2)
            };
            if p3 < s.len() && s[p3] == 93 {
                Some((dt, rep, del, p3 + 1))
            } else {
                None
            }
        }
    }
}

/// An inactive timestamp at index 0 of `s`: one bracketed datetime,
/// optionally followed by `--` and a second one, which makes a range.
/// The range carries the first timestamp's repeater and delay when it has
/// them, else the second's.  Yields the value and the index of the first
/// unconsumed byte.
pub open spec fn spec_parse_inactive(s: Seq<u8>) -> Option<(Timestamp, int)> {
    match spec_parse_datetime(s) {
        Some((d1, r1, dl1, e1)) => {
            let tail = s.subrange(e1, s.len() as int);
            if tail.len() >= 2 && tail[0] == 45 && tail[1] == 45 && spec_parse_datetime(
                tail.subrange(2, tail.len() as int),
            ) is Some {
                let (d2, r2, dl2, e2) = spec_parse_datetime(
                    tail.subrange(2, tail.len() as int),
                )->Some_0;
                Some(
                    (
                        Timestamp::InactiveRange {
                            start: d1,
                            end: d2,
                            repeater: if r1 is Some {
                                r1
                            } else {
                                r2
                            },
                            delay: if dl1 is Some {
                                dl1
                            } else {
                                dl2
                            },
                        },
                        e1 + 2 + e2,
                    ),
                )
            } else {
                Some((Timestamp::Inactive { start: d1, repeater: r1, delay: dl1 }, e1))
            }
        },
        None => None,
    }
}

fn parse_time_in(s: &[u8], pos: usize) -> (r: Option<((u8, u8), usize)>)
    requires
        pos <= s@.len(),
    ensures
        match r {
            Some((t, q)) => spec_parse_time(s@, pos as int) == Some((t, q as int)) && pos < q
                <= s@.len(),
            None => spec_parse_time(s@, pos as int) is None,
        },
{
    if !(pos < s.len() && byte_is_digit(s[pos])) {
        return None;
    }
    let two = pos + 1 < s.len() && byte_is_digit(s[pos + 1]);
    let c: usize = if two {
        pos + 2
    } else {
        pos + 1
    };
    let hour: u8 = if two {
        (s[pos] - 48) * 10 + (s[pos + 1] - 48)
    } else {
        s[pos] - 48
    };
    if s.len() > 2 && c < s.len() - 2 && s[c] == 58 && byte_is_digit(s[c + 1]) && byte_is_digit(
        s[c + 2],
    ) {
        let minute: u8 = (s[c + 1] - 48) * 10 + (s[c + 2] - 48);
        Some(((hour, minute), c + 3))
    } else {
        None
    }
}

fn parse_repeater_in(s: &[u8], pos: usize) -> (r: Option<(Repeater, usize)>)
    requires
        pos <= s@.len(),
    ensures
        match r {
            Some((rep, q)) => spec_parse_repeater(s@, pos as int) == Some((rep, q as int)) && pos
                < q <= s@.len(),
            None => spec_parse_repeater(s@, pos as int) is None,
        },
{
    if !(pos < s.len()) {
        return None;
    }
    let md: Option<(RepeaterType, usize)> = if s[pos] == 46 {
        if pos + 1 < s.len() && s[pos + 1] == 43 {
            Some((RepeaterType::Restart, pos + 2))
        } else {
            None
        }
    } else if s[pos] == 43 {
        if pos + 1 < s.len() && s[pos + 1] == 43 {
            Some((RepeaterType::CatchUp, pos + 2))
        } else {
            Some((RepeaterType::Cumulate, pos + 1))
        }
    } else {
        None
    };
    match md {
        Some((ty, d0)) => {
            let de = digit_run_end_in(s, d0);
            proof {
                lemma_digit_run_end(s@, d0 as int);
            }
            if 1 <= de - d0 && de - d0 <= 10 && de < s.len() {
                match unit_in(s[de]) {
                    Some(unit) => {
                        let value = num_val_in(s, d0, de);
                        Some((Repeater { ty, value, unit }, de + 1))
                    },
                    None => None,
                }
            } else {
                None
            }
        },
        None => None,
    }
}

fn parse_delay_in(s: &[u8], pos: usize) -> (r: Option<(Delay, usize)>)
    requires
        pos <= s@.len(),
    ensures
        match r {
            Some((d, q)) => spec_parse_delay(s@, pos as int) == Some((d, q as int)) && pos < q
                <= s@.len(),
            None => spec_parse_delay(s@, pos as int) is None,
        },
{
    if !(pos < s.len() && s[pos] == 45) {
        return None;
    }
    let (ty, d0): (DelayType, usize) = if pos + 1 < s.len() && s[pos + 1] == 45 {
        (DelayType::First, pos + 2)
    } else {
        (DelayType::All, pos + 1)
    };
    let de = digit_run_end_in(s, d0);
    proof {
        lemma_digit_run_end(s@, d0 as int);
    }
    if 1 <= de - d0 && de - d0 <= 10 && de < s.len() {
        match unit_in(s[de]) {
            Some(unit) => {
                let value = num_val_in(s, d0, de);
                Some((Delay { ty, value, unit }, de + 1))
            },
            None => None,
        }
    } else {
        None
    }
}

/// One bracketed datetime at the start of `s`, as `spec_parse_datetime`
/// describes it.
pub fn parse_datetime_bytes(s: &[u8]) -> (r: Option<(Datetime, Option<Repeater>, Option<Delay>, usize)>)
    ensures
        match r {
            Some((dt, rep, del, q)) => spec_parse_datetime(s@) == Some(
                (dt, rep, del, q as int),
            ) && 0 < q <= s@.len(),
            None => spec_parse_datetime(s@) is None,
        },
{
    if !(13 <= s.len() && s[0] == 91 && byte_is_digit(s[1]) && byte_is_digit(s[2]) && byte_is_digit(
        s[3],
    ) && byte_is_digit(s[4]) && s[5] == 45 && byte_is_digit(s[6]) && byte_is_digit(s[7]) && s[8]
        == 45 && byte_is_digit(s[9]) && byte_is_digit(s[10]) && s[11] == 32) {
        return None;
    }
    let ne = word_end_in(s, 12);
    if !(ne > 12 && ne < s.len()) {
        return None;
    }
    let year: u16 = ((s[1] - 48) as u16) * 1000 + ((s[2] - 48) as u16) * 100 + ((s[3] - 48) as u16)
        * 10 + ((s[4] - 48) as u16);
    let month: u8 = (s[6] - 48) * 10 + (s[7] - 48);
    let day: u8 = (s[9] - 48) * 10 + (s[10] - 48);
    let mut dt = Datetime { date: (year, month, day), time: None };
    let mut p: usize = ne;
    if s[ne] == 32 {
        match parse_time_in(s, ne + 1) {
            Some((t, q)) => {
                dt = Datetime { date: dt.date, time: Some(t) };
                p = q;
            },
            None => {},
        }
    }
    let mut rep: Option<Repeater> = None;
    if p < s.len() && s[p] == 32 {
        match parse_repeater_in(s, p + 1) {
            Some((rp, q)) => {
                rep = Some(rp);
                p = q;
            },
            None => {},
        }
    }
    let mut del: Option<Delay> = None;
    if p < s.len() && s[p] == 32 {
        match parse_delay_in(s, p + 1) {
            Some((d, q)) => {
                del = Some(d);
                p = q;
            },
            None => {},
        }
    }
    if p < s.len() && s[p] == 93 {
        Some((dt, rep, del, p + 1))
    } else {
        None
    }
}

/// An inactive timestamp or range at the start of `s`, as
/// `spec_parse_inactive` describes it.
pub fn parse_inactive_bytes(s: &[u8]) -> (r: Option<(Timestamp, usize)>)
    ensures
        match r {
            Some((ts, q)) => spec_parse_inactive(s@) == Some((ts, q as int)) && 0 < q <= s@.len(),
            None => spec_parse_inactive(s@) is None,
        },
{
    match parse_datetime_bytes(s) {
        Some((d1, r1, dl1, e1)) => {
            let tail = crate::bytes::sub_slice(s, e1, s.len());
            if tail.len() >= 2 && tail[0] == 45 && tail[1] == 45 {
                let tail2 = crate::bytes::sub_slice(tail, 2, tail.len());
                match parse_datetime_bytes(tail2) {
                    Some((d2, r2, dl2, e2)) => {
                        proof {
                            assert(tail@.subrange(2, tail@.len() as int) == tail2@);
                        }
                        Some(
                            (
                                Timestamp::InactiveRange {
                                    start: d1,
                                    end: d2,
                                    repeater: if r1.is_some() {
                                        r1
                                    } else {
                                        r2
                                    },
                                    delay: if dl1.is_some() {
                                        dl1
                                    } else {
                                        dl2
                                    },
                                },
                                e1 + 2 + e2,
                            ),
                        )
                    },
                    None => {
                        proof {
                            assert(tail@.subrange(2, tail@.len() as int) == tail2@);
                        }
                        Some((Timestamp::Inactive { start: d1, repeater: r1, delay: dl1 }, e1))
                    },
                }
            } else {
                Some((Timestamp::Inactive { start: d1, repeater: r1, delay: dl1 }, e1))
            }
        },
        None => None,
    }
}

/// An inactive timestamp or range at the start of `text`.
pub fn parse_inactive(text: &str) -> (r: Option<(Timestamp, usize)>)
    ensures
        match r {
            Some((ts, q)) => spec_parse_inactive(text.spec_bytes()) == Some((ts, q as int)) && 0
                < q <= text.spec_bytes().len(),
            None => spec_parse_inactive(text.spec_bytes()) is None,
        },
{
    parse_inactive_bytes(text.as_bytes())
}

} // verus!
