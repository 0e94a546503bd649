use convmdblog::aux::{date_text_is_ok, RelaDateTime};
use convmdblog::mapper::date_prefix;

#[test]
fn test_des() {
    let d = RelaDateTime::from_str("2011-02-04").unwrap();
    println!("{:?}", d);
    assert_eq!((d.year, d.month, d.day), (2011, 2, 4));
}

#[test]
fn date_found_inside_text() {
    let d = RelaDateTime::from_str("posted on 2022-08-26 10:00").unwrap();
    assert_eq!((d.year, d.month, d.day), (2022, 8, 26));
    // the leftmost match wins
    let d = RelaDateTime::from_str("2020-01-02 and 2021-03-04").unwrap();
    assert_eq!((d.year, d.month, d.day), (2020, 1, 2));
    // a longer run of digits still holds a match
    let d = RelaDateTime::from_str("12018-02-013").unwrap();
    assert_eq!((d.year, d.month, d.day), (2018, 2, 1));
}

#[test]
fn no_date_error() {
    assert_eq!(RelaDateTime::from_str("yesterday"), Err("No matched dt format for yesterday".to_owned()));
    assert_eq!(RelaDateTime::from_str("2020/01/02"), Err("No matched dt format for 2020/01/02".to_owned()));
}

#[test]
fn non_ascii_digits_error() {
    // Arabic-Indic digits match `\d` but do not read as numbers
    assert_eq!(
        RelaDateTime::from_str("٢٠١١-٠٢-٠٤"),
        Err("ParseIntError { kind: InvalidDigit }".to_owned())
    );
    // the leftmost match decides, even when an ASCII date follows
    assert_eq!(
        RelaDateTime::from_str("٢٠١١-٠٢-٠٤ 2011-02-04"),
        Err("ParseIntError { kind: InvalidDigit }".to_owned())
    );
}

#[test]
fn calendar_check() {
    assert!(date_text_is_ok("2020-02-29"));
    assert!(!date_text_is_ok("2021-02-29"));
    assert!(!date_text_is_ok("2000-13-01"));
    assert!(!date_text_is_ok("2000-01-00"));
    assert!(date_text_is_ok("2000-02-29"));
    assert!(!date_text_is_ok("1900-02-29"));
    assert!(date_text_is_ok("no date here"));
    assert!(date_text_is_ok("٢٠١١-٠٢-٤٤"));
}

#[test]
fn date_prefix_pads() {
    let d = RelaDateTime::from_str("0042-01-09").unwrap();
    assert_eq!(date_prefix(&d), "0042-01-09");
    let d = RelaDateTime { year: 2018, month: 2, day: 1 };
    assert_eq!(date_prefix(&d), "2018-02-01");
}

#[test]
fn date_prefix_reads_back() {
    for (y, m, d) in [(2018, 2, 1), (0, 1, 1), (9999, 12, 31), (2000, 2, 29), (1999, 11, 30)] {
        let date = RelaDateTime { year: y, month: m, day: d };
        assert!(date.is_wf());
        let back = RelaDateTime::from_str(&date_prefix(&date)).unwrap();
        assert_eq!(back, date);
    }
}

#[test]
fn wf_of_dates() {
    assert!(!RelaDateTime { year: 2021, month: 2, day: 29 }.is_wf());
    assert!(!RelaDateTime { year: 10000, month: 1, day: 1 }.is_wf());
    assert!(RelaDateTime { year: 2024, month: 2, day: 29 }.is_wf());
}
