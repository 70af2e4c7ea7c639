use blog_gen::date::{Date, DateParseError};
use blog_gen::text::char_is_space;
use std::cmp::Ordering;

fn date(year: usize, month: u8, day: u8) -> Date {
    Date { day, month, year }
}

#[test]
fn parses_year_month_day() {
    assert_eq!(Date::from_str("2024-03-05"), Ok(date(2024, 3, 5)));
}

#[test]
fn long_form_is_month_day_comma_year() {
    let parsed = Date::from_str("2024-03-05").unwrap();
    assert_eq!(parsed.to_string(), "March 5, 2024");
}

#[test]
fn long_form_of_every_month() {
    let names = [
        "January", "February", "March", "April", "May", "June", "July", "August", "September",
        "October", "November", "December",
    ];
    for (i, name) in names.iter().enumerate() {
        let d = date(1999, (i + 1) as u8, 31);
        assert_eq!(d.to_string(), format!("{} 31, 1999", name));
    }
}

#[test]
fn long_form_does_not_pad() {
    assert_eq!(date(0, 1, 1).to_string(), "January 1, 0");
    assert_eq!(date(12345, 12, 10).to_string(), "December 10, 12345");
    assert_eq!(date(usize::MAX, 7, 255).to_string(), format!("July 255, {}", usize::MAX));
}

#[test]
fn unknown_month_has_no_name() {
    assert_eq!(date(2024, 13, 5).to_string(), "5, 2024");
    assert_eq!(date(2024, 0, 5).to_string(), "5, 2024");
}

#[test]
fn white_space_after_the_day_is_dropped() {
    assert_eq!(Date::from_str("2024-03-05\n"), Ok(date(2024, 3, 5)));
    assert_eq!(Date::from_str("2024-03-05 \t\r\n"), Ok(date(2024, 3, 5)));
    assert_eq!(Date::from_str("2024-03-05\u{a0}"), Ok(date(2024, 3, 5)));
}

#[test]
fn white_space_elsewhere_is_refused() {
    assert_eq!(Date::from_str("2024-03- 5"), Err(DateParseError));
    assert_eq!(Date::from_str("2024 -03-05"), Err(DateParseError));
    assert_eq!(Date::from_str("2024- 03-05"), Err(DateParseError));
    assert_eq!(Date::from_str(" 2024-03-05"), Err(DateParseError));
}

#[test]
fn missing_fields_are_refused() {
    assert_eq!(Date::from_str(""), Err(DateParseError));
    assert_eq!(Date::from_str("2024"), Err(DateParseError));
    assert_eq!(Date::from_str("2024-03"), Err(DateParseError));
    assert_eq!(Date::from_str("2024-03-"), Err(DateParseError));
    assert_eq!(Date::from_str("--"), Err(DateParseError));
    assert_eq!(Date::from_str("2024--05"), Err(DateParseError));
}

#[test]
fn fields_that_are_no_numbers_are_refused() {
    assert_eq!(Date::from_str("year-03-05"), Err(DateParseError));
    assert_eq!(Date::from_str("2024-Mar-05"), Err(DateParseError));
    assert_eq!(Date::from_str("2024-03-5th"), Err(DateParseError));
    assert_eq!(Date::from_str("2024-03-0x5"), Err(DateParseError));
    assert_eq!(Date::from_str("2024/03/05"), Err(DateParseError));
    assert_eq!(Date::from_str("2024-03-+"), Err(DateParseError));
    assert_eq!(Date::from_str("2024-03-\u{0665}"), Err(DateParseError));
}

#[test]
fn numbers_too_large_for_their_place_are_refused() {
    assert_eq!(Date::from_str("2024-256-05"), Err(DateParseError));
    assert_eq!(Date::from_str("2024-03-256"), Err(DateParseError));
    assert_eq!(Date::from_str("2024-03-1000"), Err(DateParseError));
    assert_eq!(
        Date::from_str("340282366920938463463374607431768211456-03-05"),
        Err(DateParseError)
    );
    assert_eq!(Date::from_str("2024-255-255"), Ok(date(2024, 255, 255)));
    let largest = format!("{}-1-1", usize::MAX);
    assert_eq!(Date::from_str(&largest), Ok(date(usize::MAX, 1, 1)));
}

#[test]
fn the_calendar_is_not_consulted() {
    assert_eq!(Date::from_str("2024-02-31"), Ok(date(2024, 2, 31)));
    assert_eq!(Date::from_str("2024-13-32"), Ok(date(2024, 13, 32)));
    assert_eq!(Date::from_str("0-0-0"), Ok(date(0, 0, 0)));
}

#[test]
fn plus_sign_and_leading_zeros_are_accepted() {
    assert_eq!(Date::from_str("+2024-+3-+5"), Ok(date(2024, 3, 5)));
    assert_eq!(Date::from_str("002024-0003-0000000000000000000000005"), Ok(date(2024, 3, 5)));
    assert_eq!(Date::from_str("++2024-3-5"), Err(DateParseError));
}

#[test]
fn what_follows_a_third_hyphen_is_ignored() {
    assert_eq!(Date::from_str("2024-03-05-rest"), Ok(date(2024, 3, 5)));
    assert_eq!(Date::from_str("2024-03-05-"), Ok(date(2024, 3, 5)));
}

#[test]
fn number_fields_agree_with_the_standard_parser() {
    let samples = [
        "", "0", "7", "007", "+7", "+", "++7", "7+", " 7", "7 ", "a", "1a", "a1", "255", "256",
        "0255", "+255", "+256", "999", "1e2", "1.0", "٣", "１", "18446744073709551615",
        "18446744073709551616", "4294967295", "4294967296", "00000000000000000000000000000001",
        "99999999999999999999999999999999", "1_000", "0x10",
    ];
    for s in samples.iter() {
        let as_year = Date::from_str(&format!("{}-1-1", s));
        match s.parse::<usize>() {
            Ok(n) => assert_eq!(as_year, Ok(date(n, 1, 1)), "year {:?}", s),
            Err(_) => assert_eq!(as_year, Err(DateParseError), "year {:?}", s),
        }
        let as_month = Date::from_str(&format!("1-{}-1", s));
        match s.parse::<u8>() {
            Ok(n) => assert_eq!(as_month, Ok(date(1, n, 1)), "month {:?}", s),
            Err(_) => assert_eq!(as_month, Err(DateParseError), "month {:?}", s),
        }
        let as_day = Date::from_str(&format!("1-1-{}", s));
        match s.trim_end().parse::<u8>() {
            Ok(n) => assert_eq!(as_day, Ok(date(1, 1, n)), "day {:?}", s),
            Err(_) => assert_eq!(as_day, Err(DateParseError), "day {:?}", s),
        }
    }
}

#[test]
fn white_space_is_what_the_standard_library_calls_so() {
    let mut code: u32 = 0;
    while code <= 0x10FFFF {
        if let Some(c) = char::from_u32(code) {
            assert_eq!(char_is_space(c), c.is_whitespace(), "U+{:04X}", code);
        }
        code += 1;
    }
}

#[test]
fn exactly_one_of_before_same_after() {
    let dates = [
        date(2023, 12, 31),
        date(2024, 1, 1),
        date(2024, 1, 2),
        date(2024, 2, 1),
        date(2024, 2, 31),
        date(2025, 1, 1),
        date(0, 0, 0),
        date(usize::MAX, 255, 255),
    ];
    for a in dates.iter() {
        for b in dates.iter() {
            let held = [a.is_before(b), a == b, b.is_before(a)];
            assert_eq!(held.iter().filter(|h| **h).count(), 1, "{:?} {:?}", a, b);
            let expected = (a.year, a.month, a.day).cmp(&(b.year, b.month, b.day));
            assert_eq!(a.compare(b), expected);
            assert_eq!(a.partial_cmp(b), Some(expected));
            assert_eq!(a < b, expected == Ordering::Less);
            assert_eq!(a > b, expected == Ordering::Greater);
            assert_eq!(a <= b, expected != Ordering::Greater);
        }
    }
}

#[test]
fn order_is_transitive() {
    let dates = [
        date(2023, 12, 31),
        date(2024, 1, 1),
        date(2024, 1, 2),
        date(2024, 2, 1),
        date(2024, 13, 40),
        date(2025, 1, 1),
    ];
    for a in dates.iter() {
        for b in dates.iter() {
            for c in dates.iter() {
                if a.is_before(b) && b.is_before(c) {
                    assert!(a.is_before(c));
                }
            }
        }
    }
}

#[test]
fn year_counts_before_month_and_month_before_day() {
    assert_eq!(date(2023, 12, 31).compare(&date(2024, 1, 1)), Ordering::Less);
    assert_eq!(date(2024, 1, 31).compare(&date(2024, 2, 1)), Ordering::Less);
    assert_eq!(date(2024, 2, 1).compare(&date(2024, 2, 2)), Ordering::Less);
    assert_eq!(date(2024, 2, 2).compare(&date(2024, 2, 1)), Ordering::Greater);
    assert_eq!(date(2024, 2, 2).compare(&date(2024, 2, 2)), Ordering::Equal);
}

#[test]
fn feed_form_is_midnight_at_the_given_offset() {
    let d = date(2024, 3, 5);
    assert_eq!(d.to_rfc2822(3600), Some("Tue, 5 Mar 2024 00:00:00 +0100".to_string()));
    assert_eq!(d.to_rfc2822(0), Some("Tue, 5 Mar 2024 00:00:00 +0000".to_string()));
    assert_eq!(d.to_rfc2822(-5 * 3600 - 1800), Some("Tue, 5 Mar 2024 00:00:00 -0530".to_string()));
    assert_eq!(date(1999, 12, 31).to_rfc2822(0), Some("Fri, 31 Dec 1999 00:00:00 +0000".to_string()));
}

#[test]
fn feed_form_is_the_same_every_time() {
    let d = date(2021, 7, 14);
    let first = d.to_rfc2822(7200);
    for _ in 0..10 {
        assert_eq!(d.to_rfc2822(7200), first);
    }
    assert_eq!(first, Some("Wed, 14 Jul 2021 00:00:00 +0200".to_string()));
}

#[test]
fn feed_form_needs_a_day_of_the_calendar() {
    assert_eq!(date(2024, 2, 31).to_rfc2822(0), None);
    assert_eq!(date(2023, 2, 29).to_rfc2822(0), None);
    assert_eq!(date(2024, 2, 29).to_rfc2822(0), Some("Thu, 29 Feb 2024 00:00:00 +0000".to_string()));
    assert_eq!(date(2024, 0, 1).to_rfc2822(0), None);
    assert_eq!(date(2024, 13, 1).to_rfc2822(0), None);
    assert_eq!(date(2024, 1, 0).to_rfc2822(0), None);
}

#[test]
fn feed_form_needs_a_year_of_four_digits_and_an_offset_within_a_day() {
    assert_eq!(date(10000, 1, 1).to_rfc2822(0), None);
    assert_eq!(date(usize::MAX, 1, 1).to_rfc2822(0), None);
    assert_eq!(date(9999, 12, 31).to_rfc2822(0), Some("Fri, 31 Dec 9999 00:00:00 +0000".to_string()));
    assert_eq!(date(0, 1, 1).to_rfc2822(0), Some("Sat, 1 Jan 0000 00:00:00 +0000".to_string()));
    assert_eq!(date(2024, 3, 5).to_rfc2822(86_400), None);
    assert_eq!(date(2024, 3, 5).to_rfc2822(-86_400), None);
    assert_eq!(date(2024, 3, 5).to_rfc2822(i32::MAX), None);
    assert_eq!(date(2024, 3, 5).to_rfc2822(86_340), Some("Tue, 5 Mar 2024 00:00:00 +2359".to_string()));
    assert_eq!(date(2024, 3, 5).to_rfc2822(-86_340), Some("Tue, 5 Mar 2024 00:00:00 -2359".to_string()));
    assert!(date(2024, 3, 5).to_rfc2822(86_399).is_some());
    assert!(date(2024, 3, 5).to_rfc2822(-86_399).is_some());
}
