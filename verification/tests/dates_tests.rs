use chrono::{Datelike, NaiveDate, TimeDelta};
use customer_analyzer::calendar::{date_after_epoch, epoch_date, CalendarDate};
use customer_analyzer::dates::{date_with_slashes, excel_date_to_string, parse_date, parse_date_from_analysis};

fn ymd(date: Option<CalendarDate>) -> Option<(i32, u32, u32)> {
    date.map(|d| (d.year, d.month, d.day))
}

fn epoch_plus(days: i64) -> (i32, u32, u32) {
    let d = NaiveDate::from_ymd_opt(1899, 12, 30).unwrap() + TimeDelta::try_days(days).unwrap();
    (d.year(), d.month(), d.day())
}

#[test]
fn dates_are_read_with_slashes_or_dashes() {
    assert_eq!(ymd(parse_date("2025/11/4")), Some((2025, 11, 4)));
    assert_eq!(ymd(parse_date("2025-11-04")), Some((2025, 11, 4)));
    assert_eq!(ymd(parse_date("  2025-01-31  ")), Some((2025, 1, 31)));
    assert_eq!(ymd(parse_date("2025-01-15 10:30:00")), Some((2025, 1, 15)));
    assert_eq!(ymd(parse_date("2025/1/15\t08:00")), Some((2025, 1, 15)));
    assert_eq!(ymd(parse_date("+2025-+1-+5")), Some((2025, 1, 5)));
    assert_eq!(ymd(parse_date("0001-01-01")), Some((1, 1, 1)));
    assert_eq!(ymd(parse_date("2024-02-29")), Some((2024, 2, 29)));
    assert_eq!(ymd(parse_date("2000-02-29")), Some((2000, 2, 29)));
}

#[test]
fn days_that_do_not_exist_are_not_read() {
    assert_eq!(ymd(parse_date("2025-02-29")), None);
    assert_eq!(ymd(parse_date("1900-02-29")), None);
    assert_eq!(ymd(parse_date("2025-04-31")), None);
    assert_eq!(ymd(parse_date("2025-13-01")), None);
    assert_eq!(ymd(parse_date("2025-00-10")), None);
    assert_eq!(ymd(parse_date("2025-01-00")), None);
    assert_eq!(ymd(parse_date("2025-01-32")), None);
    assert_eq!(ymd(parse_date("262143-01-01")), None);
    assert_eq!(ymd(parse_date("262142-12-31")), Some((262142, 12, 31)));
}

#[test]
fn text_of_another_shape_is_not_read() {
    assert_eq!(ymd(parse_date("")), None);
    assert_eq!(ymd(parse_date("2025")), None);
    assert_eq!(ymd(parse_date("2025-01")), None);
    assert_eq!(ymd(parse_date("2025-01-02-03")), None);
    assert_eq!(ymd(parse_date("2025.01.02")), None);
    assert_eq!(ymd(parse_date("2025/01-02")), None);
    assert_eq!(ymd(parse_date("2025-01/02")), None);
    assert_eq!(ymd(parse_date("a-b-c")), None);
    assert_eq!(ymd(parse_date("2025--02")), None);
    assert_eq!(ymd(parse_date("2025-1-")), None);
    assert_eq!(ymd(parse_date("2025- 1-2")), None);
    assert_eq!(ymd(parse_date("2025-1-2x")), None);
    assert_eq!(ymd(parse_date("2025--1-2")), None);
    assert_eq!(ymd(parse_date("99999999999-1-2")), None);
    assert_eq!(ymd(parse_date("2025-99999999999-2")), None);
}

#[test]
fn years_before_the_first_are_read() {
    assert_eq!(ymd(parse_date("-4/2/29")), Some((-4, 2, 29)));
    assert_eq!(ymd(parse_date("-0005/1/1")), Some((-5, 1, 1)));
}

#[test]
fn the_reading_agrees_with_the_calendar() {
    for (y, m, d) in [(2025, 1, 31), (2025, 2, 28), (2025, 2, 29), (2024, 2, 29), (2100, 2, 29), (2400, 2, 29), (2025, 6, 31), (2025, 12, 31), (0, 2, 29), (-1, 2, 29)] {
        let expected = NaiveDate::from_ymd_opt(y, m, d).map(|x| (x.year(), x.month(), x.day()));
        assert_eq!(ymd(parse_date(&format!("{}/{}/{}", y, m, d))), expected, "{} {} {}", y, m, d);
    }
}

#[test]
fn order_dates_are_serial_days_less_two_or_text() {
    assert_eq!(ymd(parse_date_from_analysis("45672")), Some(epoch_plus(45670)));
    assert_eq!(ymd(parse_date_from_analysis("45672")), Some((2025, 1, 13)));
    assert_eq!(ymd(parse_date_from_analysis(" 45674.5 ")), Some((2025, 1, 15)));
    assert_eq!(ymd(parse_date_from_analysis("1")), Some((1899, 12, 29)));
    assert_eq!(ymd(parse_date_from_analysis("2")), Some((1899, 12, 30)));
    assert_eq!(ymd(parse_date_from_analysis("0.25")), Some((1899, 12, 28)));
    assert_eq!(ymd(parse_date_from_analysis("2025/1/15")), Some((2025, 1, 15)));
    assert_eq!(ymd(parse_date_from_analysis("2025-01-15 09:00:00")), Some((2025, 1, 15)));
    assert_eq!(ymd(parse_date_from_analysis("0")), None);
    assert_eq!(ymd(parse_date_from_analysis("-5")), None);
    assert_eq!(ymd(parse_date_from_analysis("")), None);
    assert_eq!(ymd(parse_date_from_analysis("soon")), None);
    assert_eq!(ymd(parse_date_from_analysis("99999999999999")), None);
}

#[test]
fn serial_days_are_written_with_slashes() {
    assert_eq!(excel_date_to_string("45672"), "2025/1/15");
    assert_eq!(excel_date_to_string("45672.99"), "2025/1/15");
    assert_eq!(excel_date_to_string("0"), "1899/12/30");
    assert_eq!(excel_date_to_string("-1"), "1899/12/29");
    assert_eq!(excel_date_to_string("-0.5"), "1899/12/30");
    assert_eq!(excel_date_to_string("1"), "1899/12/31");
    assert_eq!(excel_date_to_string("abc"), "");
    assert_eq!(excel_date_to_string("99999999999999"), "");
    let d = CalendarDate { year: 2025, month: 3, day: 9 };
    assert_eq!(date_with_slashes(&d), "2025/3/9");
    assert_eq!(date_with_slashes(&CalendarDate { year: -5, month: 12, day: 31 }), "-5/12/31");
}

#[test]
fn dates_compare_by_year_month_and_day() {
    let d = |y, m, d| CalendarDate { year: y, month: m, day: d };
    assert!(d(2025, 1, 1).is_not_after(&d(2025, 1, 1)));
    assert!(d(2025, 1, 1).is_not_after(&d(2025, 1, 2)));
    assert!(d(2025, 1, 31).is_not_after(&d(2025, 2, 1)));
    assert!(d(2024, 12, 31).is_not_after(&d(2025, 1, 1)));
    assert!(!d(2025, 1, 2).is_not_after(&d(2025, 1, 1)));
    assert!(!d(2025, 2, 1).is_not_after(&d(2025, 1, 31)));
    assert!(!d(2026, 1, 1).is_not_after(&d(2025, 12, 31)));
}

#[test]
fn parts_of_a_date_are_whole_numbers_as_the_standard_library_reads_them() {
    let parts = ["2025", "+2025", "-2025", "02025", "", "+", "-", "20 25", "2_025", "２０２５", "2147483647", "2147483648", "-2147483648", "-2147483649", "4294967295", "4294967296", "0", "-0", "+0", "1", "12", "31", "１"];
    for y in parts {
        for m in ["1", "+1", "-1", "", "01", "12", "4294967295", "4294967296", "x"] {
            let text = format!("{}/{}/1", y, m);
            let expected = match (y.parse::<i32>(), m.parse::<u32>()) {
                (Ok(year), Ok(month)) => NaiveDate::from_ymd_opt(year, month, 1).map(|d| (d.year(), d.month(), d.day())),
                _ => None,
            };
            if y.contains(' ') || y.contains('/') {
                continue;
            }
            assert_eq!(ymd(parse_date(&text)), expected, "{:?}", text);
        }
    }
}

#[test]
fn serial_days_count_from_the_thirtieth_of_december_1899() {
    let epoch = epoch_date();
    assert_eq!((epoch.year, epoch.month, epoch.day), (1899, 12, 30));
    assert_eq!(ymd(date_after_epoch(0)), Some((1899, 12, 30)));
    assert_eq!(ymd(date_after_epoch(1)), Some((1899, 12, 31)));
    assert_eq!(ymd(date_after_epoch(2)), Some((1900, 1, 1)));
    assert_eq!(ymd(date_after_epoch(-1)), Some((1899, 12, 29)));
    assert_eq!(ymd(date_after_epoch(45000)), Some((2023, 3, 15)));
    assert_eq!(ymd(date_after_epoch(45672)), Some((2025, 1, 15)));
    assert_eq!(ymd(date_after_epoch(i64::MAX)), None);
    assert_eq!(ymd(date_after_epoch(i64::MIN)), None);
    assert_eq!(ymd(date_after_epoch(200_000_000)), None);
    for days in [-700_000_i64, -1, 0, 59, 60, 61, 36526, 99_999, 2_958_465] {
        assert_eq!(ymd(date_after_epoch(days)), Some(epoch_plus(days)), "{}", days);
    }
}

#[test]
fn days_exist_as_the_calendar_has_them() {
    let years = [-262144, -262143, -401, -400, -100, -4, -1, 0, 1, 4, 100, 1899, 1900, 2000, 2023, 2024, 2100, 262142, 262143];
    for y in years {
        for m in 0..=13_u32 {
            for d in [0_u32, 1, 27, 28, 29, 30, 31, 32] {
                let expected = NaiveDate::from_ymd_opt(y, m, d).map(|date| (date.year(), date.month(), date.day()));
                let text = format!("{}/{}/{}", y, m, d);
                assert_eq!(ymd(parse_date(&text)), expected, "{:?}", text);
            }
        }
    }
}

#[test]
fn serial_days_end_where_the_calendar_ends() {
    assert_eq!(ymd(date_after_epoch(95_051_805)), Some((262142, 12, 31)));
    assert_eq!(ymd(date_after_epoch(95_051_804)), Some((262142, 12, 30)));
    assert_eq!(ymd(date_after_epoch(95_051_806)), None);
    assert_eq!(ymd(date_after_epoch(-96_439_723)), Some((-262143, 1, 1)));
    assert_eq!(ymd(date_after_epoch(-96_439_722)), Some((-262143, 1, 2)));
    assert_eq!(ymd(date_after_epoch(-96_439_724)), None);
    assert_eq!(ymd(date_after_epoch(2_147_483_647)), None);
    assert_eq!(ymd(date_after_epoch(-2_147_483_648)), None);
    assert_eq!(ymd(date_after_epoch(106_751_991_167)), None);
    assert_eq!(ymd(date_after_epoch(106_751_991_168)), None);
}

#[test]
fn serial_days_follow_one_another() {
    let mut before = date_after_epoch(-800_000).unwrap();
    for days in -799_999_i64..-799_000 {
        let next = date_after_epoch(days).unwrap();
        assert!(before.is_not_after(&next) && !next.is_not_after(&before), "{}", days);
        before = next;
    }
    let mut before = date_after_epoch(36_000).unwrap();
    for days in 36_001_i64..37_500 {
        let next = date_after_epoch(days).unwrap();
        assert!(before.is_not_after(&next) && !next.is_not_after(&before), "{}", days);
        before = next;
    }
}
