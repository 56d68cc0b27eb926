use orgize::clock::Clock;
use orgize::macros::Macros;
use orgize::timestamp::{parse_inactive, Datetime, DelayType, RepeaterType, TimeUnit, Timestamp};

#[test]
fn clock_parse() {
    assert_eq!(
        Clock::parse("CLOCK: [2003-09-16 Tue 09:39]"),
        Some((
            Clock::Running {
                start: Datetime {
                    date: (2003, 9, 16),
                    time: Some((9, 39))
                },
                repeater: None,
                delay: None,
            },
            "CLOCK: [2003-09-16 Tue 09:39]".len()
        ))
    );
    assert_eq!(
        Clock::parse("CLOCK: [2003-09-16 Tue 09:39]--[2003-09-16 Tue 10:39] =>  1:00"),
        Some((
            Clock::Closed {
                start: Datetime {
                    date: (2003, 9, 16),
                    time: Some((9, 39))
                },
                end: Datetime {
                    date: (2003, 9, 16),
                    time: Some((10, 39))
                },
                repeater: None,
                delay: None,
                duration: b"1:00".to_vec(),
            },
            "CLOCK: [2003-09-16 Tue 09:39]--[2003-09-16 Tue 10:39] =>  1:00".len()
        ))
    );
}

#[test]
fn macros_parse() {
    assert_eq!(
        Macros::parse("{{{poem(red,blue)}}}"),
        Some((
            Macros {
                name: b"poem".to_vec(),
                arguments: Some(b"red,blue".to_vec())
            },
            "{{{poem(red,blue)}}}".len()
        ))
    );
    assert_eq!(
        Macros::parse("{{{poem())}}}"),
        Some((
            Macros {
                name: b"poem".to_vec(),
                arguments: Some(b")".to_vec())
            },
            "{{{poem())}}}".len()
        ))
    );
    assert_eq!(
        Macros::parse("{{{author}}}"),
        Some((
            Macros {
                name: b"author".to_vec(),
                arguments: None
            },
            "{{{author}}}".len()
        ))
    );
    assert!(Macros::parse("{{{0uthor}}}").is_none());
    assert!(Macros::parse("{{{author}}").is_none());
    assert!(Macros::parse("{{{poem(}}}").is_none());
    assert!(Macros::parse("{{{poem)}}}").is_none());
}

#[test]
fn macros_last_terminator_wins() {
    // The argument scan looks for the last `)}}}`, so an earlier one is
    // swallowed into the arguments.
    assert_eq!(
        Macros::parse("{{{poem(a)}}}b)}}}"),
        Some((
            Macros {
                name: b"poem".to_vec(),
                arguments: Some(b"a)}}}b".to_vec())
            },
            "{{{poem(a)}}}b)}}}".len()
        ))
    );
}

#[test]
fn macros_name_characters() {
    assert_eq!(
        Macros::parse("{{{a-b_c9}}}"),
        Some((
            Macros {
                name: b"a-b_c9".to_vec(),
                arguments: None
            },
            12
        ))
    );
    assert!(Macros::parse("{{{}}}").is_none());
    assert!(Macros::parse("{{author}}}").is_none());
}

#[test]
fn timestamp_single() {
    assert_eq!(
        parse_inactive("[2003-09-16 Tue 09:39]"),
        Some((
            Timestamp::Inactive {
                start: Datetime {
                    date: (2003, 9, 16),
                    time: Some((9, 39))
                },
                repeater: None,
                delay: None,
            },
            22
        ))
    );
    // No time of day.
    assert_eq!(
        parse_inactive("[2003-09-16 Tue]"),
        Some((
            Timestamp::Inactive {
                start: Datetime {
                    date: (2003, 9, 16),
                    time: None
                },
                repeater: None,
                delay: None,
            },
            16
        ))
    );
    assert!(parse_inactive("2003-09-16").is_none());
    assert!(parse_inactive("[2003-9-16 Tue]").is_none());
    assert!(parse_inactive("[2003-09-16]").is_none());
}

#[test]
fn timestamp_markers() {
    let (ts, n) = parse_inactive("[2003-09-16 Tue 09:39 ++2w -1d]").unwrap();
    assert_eq!(n, 31);
    match ts {
        Timestamp::Inactive {
            repeater, delay, ..
        } => {
            let r = repeater.unwrap();
            assert_eq!(r.ty, RepeaterType::CatchUp);
            assert_eq!(r.value, 2);
            assert_eq!(r.unit, TimeUnit::Week);
            let d = delay.unwrap();
            assert_eq!(d.ty, DelayType::All);
            assert_eq!(d.value, 1);
            assert_eq!(d.unit, TimeUnit::Day);
        }
        _ => panic!("expected a single timestamp"),
    }
    let (ts, _) = parse_inactive("[2003-09-16 Tue .+5h]").unwrap();
    match ts {
        Timestamp::Inactive { repeater, .. } => {
            let r = repeater.unwrap();
            assert_eq!(r.ty, RepeaterType::Restart);
            assert_eq!(r.value, 5);
            assert_eq!(r.unit, TimeUnit::Hour);
        }
        _ => panic!("expected a single timestamp"),
    }
}

#[test]
fn timestamp_range() {
    let (ts, n) = parse_inactive("[2003-09-16 Tue 09:39]--[2003-09-17 Wed 10:39]").unwrap();
    assert_eq!(n, 46);
    match ts {
        Timestamp::InactiveRange { start, end, .. } => {
            assert_eq!(start.date, (2003, 9, 16));
            assert_eq!(end.date, (2003, 9, 17));
            assert_eq!(end.time, Some((10, 39)));
        }
        _ => panic!("expected a range"),
    }
}

#[test]
fn clock_rejections() {
    // Wrong token, no space, missing bracket, trailing garbage.
    assert!(Clock::parse("LOCK: [2003-09-16 Tue 09:39]").is_none());
    assert!(Clock::parse("CLOCK:[2003-09-16 Tue 09:39]").is_none());
    assert!(Clock::parse("CLOCK: 2003-09-16").is_none());
    assert!(Clock::parse("CLOCK: [2003-09-16 Tue 09:39] still going").is_none());
    // A range needs a duration after `=>`.
    assert!(Clock::parse("CLOCK: [2003-09-16 Tue 09:39]--[2003-09-16 Tue 10:39]").is_none());
    // Malformed durations: minutes must be exactly two digits and the
    // hour part nonempty.
    assert!(Clock::parse("CLOCK: [2003-09-16 Tue 09:39]--[2003-09-16 Tue 10:39] => 1:0").is_none());
    assert!(Clock::parse("CLOCK: [2003-09-16 Tue 09:39]--[2003-09-16 Tue 10:39] => :00").is_none());
    assert!(
        Clock::parse("CLOCK: [2003-09-16 Tue 09:39]--[2003-09-16 Tue 10:39] => 1:000").is_none()
    );
}

#[test]
fn clock_multiline_consumes_first_line() {
    let text = "CLOCK: [2003-09-16 Tue 09:39]\nnext line";
    let (clock, n) = Clock::parse(text).unwrap();
    assert!(clock.is_running());
    assert_eq!(n, "CLOCK: [2003-09-16 Tue 09:39]\n".len());
    assert_eq!(&text[n..], "next line");
}

#[test]
fn clock_accessors() {
    let (running, _) = Clock::parse("CLOCK: [2003-09-16 Tue 09:39]").unwrap();
    assert!(running.is_running());
    assert!(!running.is_closed());
    assert_eq!(running.duration(), None);
    match running.value() {
        Timestamp::Inactive { start, .. } => assert_eq!(start.time, Some((9, 39))),
        _ => panic!("running clock must hold a single timestamp"),
    }

    let (closed, _) =
        Clock::parse("CLOCK: [2003-09-16 Tue 09:39]--[2003-09-16 Tue 10:39] => 10:30").unwrap();
    assert!(closed.is_closed());
    assert!(!closed.is_running());
    assert_eq!(closed.duration(), Some(&b"10:30".to_vec()));
    match closed.value() {
        Timestamp::InactiveRange { start, end, .. } => {
            assert_eq!(start.time, Some((9, 39)));
            assert_eq!(end.time, Some((10, 39)));
        }
        _ => panic!("closed clock must hold a range"),
    }
}
