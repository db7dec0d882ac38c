use finance_planner::syntax::{is_number, is_uuid};
use finance_planner::stamp::{Stamp, parse_stamp, format_stamp, now_stamp, days_in_month_exec};
use finance_planner::text::{parse_i32_chars, str_starts_with, str_lex_lt};

fn chars(s: &str) -> Vec<char> {
    s.chars().collect()
}

#[test]
fn number_grammar() {
    assert!(is_number(&chars("0")));
    assert!(is_number(&chars("12.34")));
    assert!(is_number(&chars("-0.5")));
    assert!(is_number(&chars("1e5")));
    assert!(is_number(&chars("2.5E-3")));
    assert!(is_number(&chars("-7e+2")));
    assert!(!is_number(&chars("")));
    assert!(!is_number(&chars(".")));
    assert!(!is_number(&chars(".5")));
    assert!(!is_number(&chars("5.")));
    assert!(!is_number(&chars("--1")));
    assert!(!is_number(&chars("1.2.3")));
    assert!(!is_number(&chars("1e")));
    assert!(!is_number(&chars("ten")));
    assert!(!is_number(&chars("1 ")));
}

#[test]
fn uuid_grammar() {
    assert!(is_uuid(&chars("00000000-0000-0000-0000-000000000000")));
    assert!(is_uuid(&chars("a1B2c3D4-e5f6-7890-abcd-ef0123456789")));
    assert!(!is_uuid(&chars("a1B2c3D4e5f67890abcdef0123456789")));
    assert!(!is_uuid(&chars("g0000000-0000-0000-0000-000000000000")));
    assert!(!is_uuid(&chars("00000000-0000-0000-0000-00000000000")));
    assert!(!is_uuid(&chars("")));
}

#[test]
fn stamp_text_round_trip() {
    let st = Stamp { year: 2024, month: 2, day: 29, hour: 13, minute: 5, second: 0 };
    let text = format_stamp(&st);
    assert_eq!(text.iter().collect::<String>(), "2024-02-29 13:05");
    assert_eq!(parse_stamp(&text), Some(st));
}

#[test]
fn stamp_parse_rejects_bad_shapes() {
    assert_eq!(parse_stamp(&chars("2024-2-29 13:05")), None);
    assert_eq!(parse_stamp(&chars("2024-02-29T13:05")), None);
    assert_eq!(parse_stamp(&chars("2023-02-29 13:05")), None, "not a leap year");
    assert_eq!(parse_stamp(&chars("2024-13-01 00:00")), None);
    assert_eq!(parse_stamp(&chars("2024-04-31 00:00")), None);
    assert_eq!(parse_stamp(&chars("2024-04-30 24:00")), None);
    assert_eq!(parse_stamp(&chars("2024-04-30 23:60")), None);
    assert_eq!(parse_stamp(&chars("0000-01-01 00:00")), None);
    assert_eq!(
        parse_stamp(&chars("2024-04-30 23:59")),
        Some(Stamp { year: 2024, month: 4, day: 30, hour: 23, minute: 59, second: 0 })
    );
}

#[test]
fn clock_gives_a_real_calendar_stamp() {
    let now = now_stamp();
    assert!(1 <= now.year && now.year <= 9999);
    assert!(1 <= now.month && now.month <= 12);
    assert!(1 <= now.day && now.day <= days_in_month_exec(now.year, now.month));
    assert!(now.hour < 24 && now.minute < 60 && now.second < 60);
}

#[test]
fn i32_text_parsing() {
    assert_eq!(parse_i32_chars(&chars("0")), Some(0));
    assert_eq!(parse_i32_chars(&chars("-2147483648")), Some(i32::MIN));
    assert_eq!(parse_i32_chars(&chars("2147483647")), Some(i32::MAX));
    assert_eq!(parse_i32_chars(&chars("2147483648")), None);
    assert_eq!(parse_i32_chars(&chars("-2147483649")), None);
    assert_eq!(parse_i32_chars(&chars("007")), Some(7));
    assert_eq!(parse_i32_chars(&chars("+5")), Some(5));
    assert_eq!(parse_i32_chars(&chars("")), None);
    assert_eq!(parse_i32_chars(&chars("-")), None);
    assert_eq!(parse_i32_chars(&chars("1_0")), None);
}

#[test]
fn string_orders() {
    assert!(str_starts_with("apples_2024.csv", "apples"));
    assert!(!str_starts_with("apples_2024.csv", "oranges"));
    assert!(!str_starts_with("app", "apples"));
    assert!(str_starts_with("anything", ""));
    assert!(str_lex_lt("a", "b"));
    assert!(str_lex_lt("a", "ab"));
    assert!(!str_lex_lt("b", "ab"));
    assert!(!str_lex_lt("same", "same"));
}
