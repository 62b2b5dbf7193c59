use project_grades::decimal::{parse_micros, parse_signed_micros, parse_unsigned};
use project_grades::extensions::{Error as ExtensionsError, ExtensionSet};
use project_grades::grading::{build_schedule, ScheduleError};
use project_grades::report::format_micros;
use project_grades::roster::{Error as RosterError, Roster, Student};
use project_grades::submissions::HOUR_NANOS;

#[test]
fn decimals_in_millionths() {
    assert_eq!(parse_micros("2.5"), Some(2_500_000));
    assert_eq!(parse_micros("10"), Some(10_000_000));
    assert_eq!(parse_micros("0.0000004"), Some(0));
    assert_eq!(parse_micros("0.0000005"), Some(1));
    assert_eq!(parse_micros("3.3333333333333335"), Some(3_333_333));
    assert_eq!(parse_micros("2.9999999999999996"), Some(3_000_000));
    assert_eq!(parse_micros("1.10"), parse_micros("1.1"));
    assert_eq!(parse_micros(""), None);
    assert_eq!(parse_micros("."), None);
    assert_eq!(parse_micros("1."), None);
    assert_eq!(parse_micros(".5"), None);
    assert_eq!(parse_micros("-1"), None);
    assert_eq!(parse_micros("1.2.3"), None);
    assert_eq!(parse_micros(".nan"), None);
    assert_eq!(parse_micros("18446744073709.551615"), Some(u64::MAX));
    assert_eq!(parse_micros("18446744073709.551616"), None);
    assert_eq!(parse_micros("100000000000000000000"), None);
}

#[test]
fn unsigned_integers() {
    assert_eq!(parse_unsigned("42", u64::MAX), Some(42));
    assert_eq!(parse_unsigned("+42", u64::MAX), Some(42));
    assert_eq!(parse_unsigned("+", u64::MAX), None);
    assert_eq!(parse_unsigned("", u64::MAX), None);
    assert_eq!(parse_unsigned("4a", u64::MAX), None);
    assert_eq!(parse_unsigned("18446744073709551615", u64::MAX), Some(u64::MAX));
    assert_eq!(parse_unsigned("18446744073709551616", u64::MAX), None);
    assert_eq!(parse_unsigned("4294967296", u32::MAX as u64), None);
}

#[test]
fn millionths_are_written_without_trailing_zeros() {
    assert_eq!(format_micros(2_500_000), "2.5");
    assert_eq!(format_micros(10_000_000), "10");
    assert_eq!(format_micros(0), "0");
    assert_eq!(format_micros(900_000), "0.9");
    assert_eq!(format_micros(1), "0.000001");
    assert_eq!(format_micros(123_456_789), "123.456789");
}

#[test]
fn roster_reads_columns_by_name() {
    let roster = Roster::load("Name,UID,DID\nAda Lovelace,111,ada\n,222,bob\n").unwrap();
    assert_eq!(roster.students.len(), 2);
    assert_eq!(roster.students[0].name, Some("Ada Lovelace".to_string()));
    assert_eq!(roster.students[0].uid, "111");
    assert_eq!(roster.students[0].directory_id, "ada");
    assert_eq!(roster.students[1].name, None);
    let without_names = Roster::load("DID,UID\ncat,333\n").unwrap();
    assert_eq!(without_names.students[0].uid, "333");
    assert_eq!(without_names.students[0].directory_id, "cat");
    assert_eq!(without_names.students[0].name, None);
}

#[test]
fn roster_errors_name_the_row() {
    assert!(matches!(Roster::load("Name,UID\nAda,111\n"), Err(RosterError::RosterFormatError(1))));
    assert!(matches!(
        Roster::load("UID,DID\n111,ada\n222,bob,extra\n"),
        Err(RosterError::RosterFormatError(2))
    ));
    assert_eq!(Roster::load("").unwrap().students.len(), 0);
}

#[test]
fn roster_lookup_finds_first() {
    let roster = Roster::load("UID,DID\n111,ada\n111,again\n222,bob\n").unwrap();
    assert_eq!(roster.find_student_by_uid("111".to_string()).unwrap().directory_id, "ada");
    assert_eq!(roster.find_student_by_uid("222".to_string()).unwrap().directory_id, "bob");
    assert!(roster.find_student_by_uid("333".to_string()).is_none());
}

#[test]
fn extensions_read_and_found() {
    let set = ExtensionSet::load("UID,Hours\n111,24\n111,48\n").unwrap();
    let ada = Student { name: None, uid: "111".to_string(), directory_id: "ada".to_string() };
    let bob = Student { name: None, uid: "222".to_string(), directory_id: "bob".to_string() };
    assert_eq!(set.find(&ada).unwrap().hours, 24);
    assert!(set.find(&bob).is_none());
    assert!(ExtensionSet::empty().find(&ada).is_none());
    assert!(matches!(
        ExtensionSet::load("UID,Hours\n111,24\n222,lots\n"),
        Err(ExtensionsError::ExtensionsFormatError(2))
    ));
    assert!(matches!(ExtensionSet::load("UID\n111\n"), Err(ExtensionsError::ExtensionsFormatError(1))));
}

#[test]
fn schedule_from_due_date_and_tiers() {
    let tiers = vec!["24,0.1".to_string(), "48,0.5".to_string()];
    let s = build_schedule("2020-01-01 12:00 +0000", &tiers).unwrap();
    let due: i128 = 1_577_880_000_000_000_000;
    assert_eq!(s, vec![(due, 0), (due + 24 * HOUR_NANOS, 100_000), (due + 48 * HOUR_NANOS, 500_000)]);
    let shifted = build_schedule("2020-01-01 13:00 +0100", &vec![]).unwrap();
    assert_eq!(shifted, vec![(due, 0)]);
}

#[test]
fn schedule_errors() {
    assert_eq!(build_schedule("yesterday", &vec![]), Err(ScheduleError::InvalidDueDate));
    let bad = vec!["24,0.1".to_string(), "48".to_string()];
    assert_eq!(build_schedule("2020-01-01 12:00 +0000", &bad), Err(ScheduleError::InvalidTier(1)));
    let two_commas = vec!["24,0.1,3".to_string()];
    assert_eq!(build_schedule("2020-01-01 12:00 +0000", &two_commas), Err(ScheduleError::InvalidTier(0)));
}

#[test]
fn students_are_equal_by_university_id() {
    let a = Student { name: Some("Ada".to_string()), uid: "111".to_string(), directory_id: "ada".to_string() };
    let b = Student { name: None, uid: "111".to_string(), directory_id: "other".to_string() };
    let c = Student { name: Some("Ada".to_string()), uid: "222".to_string(), directory_id: "ada".to_string() };
    assert!(a == b);
    assert!(a != c);
}

#[test]
fn ordering_keys_read_sign_and_exponent() {
    assert_eq!(parse_signed_micros("1"), Some(1_000_000));
    assert_eq!(parse_signed_micros("-1"), Some(-1_000_000));
    assert_eq!(parse_signed_micros("+1.25"), Some(1_250_000));
    assert_eq!(parse_signed_micros("1e1"), Some(10_000_000));
    assert_eq!(parse_signed_micros("2.5E-3"), Some(2_500));
    assert_eq!(parse_signed_micros("-1.5e+2"), Some(-150_000_000));
    assert_eq!(parse_signed_micros("123e-2"), Some(1_230_000));
    assert_eq!(parse_signed_micros("5e-7"), Some(1));
    assert_eq!(parse_signed_micros("4e-7"), Some(0));
    assert_eq!(parse_signed_micros("1e40"), None);
    assert_eq!(parse_signed_micros("1e"), None);
    assert_eq!(parse_signed_micros("e5"), None);
    assert_eq!(parse_signed_micros("1.e5"), None);
    assert_eq!(parse_signed_micros("1e5000"), None);
    assert_eq!(parse_signed_micros("--1"), None);
    assert_eq!(parse_signed_micros(""), None);
}
