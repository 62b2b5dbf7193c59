use project_grades::export::SkipReason;
use project_grades::extensions::ExtensionSet;
use project_grades::grading::{build_schedule, grade, grade_report, Grade, GradeError};
use project_grades::report::invalid_ids_text;
use project_grades::roster::Roster;
use project_grades::submissions::{Error, SubmissionSet, PENALTY_SCALE, POINT};

fn tests_yaml(a: &str, b: &str) -> String {
    format!(
        "\":results\":\n    tests:\n      - {{name: A, number: \"1\", score: {}, max_score: 10.0}}\n      - {{name: B, number: \"2\", score: {}, max_score: 5.0}}\n",
        a, b
    )
}

fn history_yaml(id: u64, at: &str, a: &str, b: &str) -> String {
    let tests = tests_yaml(a, b).replace("\n    ", "\n        ");
    format!(
        "    - \":id\": {}\n      \":status\": processed\n      \":created_at\": \"{}\"\n      {}",
        id,
        at,
        tests.trim_end().replace("\n", "\n      ") + "\n"
    )
}

fn entry(id: u64, sid: &str, at: &str, a: &str, b: &str, history: &[String]) -> String {
    let mut text = format!(
        "submission_{}:\n  \":status\": processed\n  \":created_at\": \"{}\"\n  \":submitters\":\n    - \":sid\": \"{}\"\n  {}",
        id,
        at,
        sid,
        tests_yaml(a, b).trim_end().replace("\n", "\n  ") + "\n"
    );
    if history.is_empty() {
        text.push_str("  \":history\": []\n");
    } else {
        text.push_str("  \":history\":\n");
        for h in history {
            text.push_str(h);
        }
    }
    text
}

const ROSTER: &str = "Name,UID,DID\nXavier,111,xavier\nCanon,999,canon\nYvonne,222,yvonne\n";

fn export() -> String {
    let late = history_yaml(2, "2020-01-03 12:00:00.000000 Z", "10.0", "5.0");
    entry(1, "111", "2020-01-01 12:10:00.000000 Z", "10.0", "3.0", &[late])
        + &entry(9, "999", "2020-01-01 11:00:00.000000 Z", "10.0", "5.0", &[])
}

fn tiers() -> Vec<String> {
    vec!["24,0.5".to_string()]
}

#[test]
fn export_loads_active_and_history() {
    let roster = Roster::load(ROSTER).unwrap();
    let mut set = SubmissionSet::new(&roster);
    assert_eq!(set.load(&export()), Ok(3));
    assert_eq!(set.submissions.len(), 3);
    let first = &set.submissions[0];
    assert_eq!(first.id, 1);
    assert_eq!(first.student, "111");
    assert!(first.active);
    assert_eq!(first.time, 1_577_880_600_000_000_000);
    assert_eq!(first.tests.len(), 2);
    assert_eq!(first.tests[1].name, "B");
    assert_eq!(first.tests[1].number, 2 * POINT as i64);
    assert_eq!(first.tests[1].score, 3 * POINT);
    assert_eq!(first.tests[1].max, 5 * POINT);
    assert_eq!(set.submissions[1].id, 2);
    assert!(!set.submissions[1].active);
    assert_eq!(set.submissions[2].id, 9);
    let x = roster.find_student_by_uid("111".to_string()).unwrap();
    assert_eq!(set.get_active_submission(x).unwrap().id, 1);
    assert_eq!(set.get_latest_submission(x, None).unwrap().id, 2);
    assert_eq!(set.get_latest_submission(x, Some(1_577_880_600_000_000_000)).unwrap().id, 1);
    assert!(set.get_latest_submission(x, Some(1_577_880_000_000_000_000)).is_none());
    let y = roster.find_student_by_uid("222".to_string()).unwrap();
    assert!(set.get_active_submission(y).is_none());
}

#[test]
fn tier_window_beats_raw_score() {
    let roster = Roster::load(ROSTER).unwrap();
    let mut set = SubmissionSet::new(&roster);
    set.load(&export()).unwrap();
    let deadlines = build_schedule("2020-01-01 12:00 +0000", &tiers()).unwrap();
    let grades = grade(&set, &deadlines, &ExtensionSet::empty(), "999").unwrap();
    assert_eq!(
        grades,
        vec![
            Grade { student: 0, submission: 0, penalty: PENALTY_SCALE / 2 },
            Grade { student: 1, submission: 2, penalty: 0 },
        ]
    );
    let report = grade_report(&set, &deadlines, &ExtensionSet::empty(), "999").unwrap();
    assert_eq!(
        report.grades,
        "xavier,A,10,\nxavier,B,3,\nxavier,*,*0.5,Late\ncanon,A,10,\ncanon,B,5,\ncanon,*,*1,\n"
    );
    assert_eq!(report.parts, "A,10\nB,5\n");
}

#[test]
fn student_without_submissions_is_left_out() {
    let roster = Roster::load(ROSTER).unwrap();
    let mut set = SubmissionSet::new(&roster);
    set.load(&export()).unwrap();
    let deadlines = build_schedule("2020-01-01 12:00 +0000", &tiers()).unwrap();
    let report = grade_report(&set, &deadlines, &ExtensionSet::empty(), "999").unwrap();
    assert!(!report.grades.contains("yvonne"));
}

#[test]
fn running_twice_gives_identical_rows() {
    let run = || {
        let roster = Roster::load(ROSTER).unwrap();
        let mut set = SubmissionSet::new(&roster);
        set.load(&export()).unwrap();
        let deadlines = build_schedule("2020-01-01 12:00 +0000", &tiers()).unwrap();
        let report = grade_report(&set, &deadlines, &ExtensionSet::empty(), "999").unwrap();
        (report.grades, report.parts)
    };
    assert_eq!(run(), run());
}

#[test]
fn extension_admits_later_submission() {
    let roster = Roster::load(ROSTER).unwrap();
    let mut set = SubmissionSet::new(&roster);
    set.load(&export()).unwrap();
    let deadlines = build_schedule("2020-01-01 12:00 +0000", &tiers()).unwrap();
    let exts = ExtensionSet::load("UID,Hours\n111,48\n").unwrap();
    let grades = grade(&set, &deadlines, &exts, "999").unwrap();
    // the perfect late attempt now falls within the first tier
    assert_eq!(grades[0], Grade { student: 0, submission: 1, penalty: 0 });
}

#[test]
fn ties_keep_the_active_submission() {
    let early = history_yaml(3, "2020-01-01 10:00:00.000000 Z", "10.0", "5.0");
    let text = entry(1, "111", "2020-01-01 11:00:00.000000 Z", "10.0", "5.0", &[early])
        + &entry(9, "999", "2020-01-01 11:00:00.000000 Z", "10.0", "5.0", &[]);
    let roster = Roster::load(ROSTER).unwrap();
    let mut set = SubmissionSet::new(&roster);
    set.load(&text).unwrap();
    let deadlines = build_schedule("2020-01-01 12:00 +0000", &tiers()).unwrap();
    let grades = grade(&set, &deadlines, &ExtensionSet::empty(), "999").unwrap();
    assert_eq!(grades[0].submission, 0);
}

#[test]
fn late_beyond_every_tier_gets_no_row() {
    let text = entry(1, "111", "2020-01-05 12:00:00.000000 Z", "10.0", "5.0", &[])
        + &entry(9, "999", "2020-01-01 11:00:00.000000 Z", "10.0", "5.0", &[]);
    let roster = Roster::load(ROSTER).unwrap();
    let mut set = SubmissionSet::new(&roster);
    set.load(&text).unwrap();
    let deadlines = build_schedule("2020-01-01 12:00 +0000", &tiers()).unwrap();
    let report = grade_report(&set, &deadlines, &ExtensionSet::empty(), "999").unwrap();
    assert_eq!(report.grades, "canon,A,10,\ncanon,B,5,\ncanon,*,*1,\n");
}

#[test]
fn invalid_candidates_stop_the_run() {
    let odd = "submission_5:\n  \":status\": processed\n  \":created_at\": \"2020-01-01 11:00:00.000000 Z\"\n  \":submitters\":\n    - \":sid\": \"111\"\n  \":results\":\n    tests:\n      - {name: A, number: \"1\", score: 10.0, max_score: 20.0}\n  \":history\": []\n";
    let text = odd.to_string() + &entry(9, "999", "2020-01-01 11:00:00.000000 Z", "10.0", "5.0", &[]);
    let roster = Roster::load(ROSTER).unwrap();
    let mut set = SubmissionSet::new(&roster);
    set.load(&text).unwrap();
    let deadlines = build_schedule("2020-01-01 12:00 +0000", &tiers()).unwrap();
    match grade(&set, &deadlines, &ExtensionSet::empty(), "999") {
        Err(GradeError::InvalidSubmissions(ids)) => {
            assert_eq!(ids, vec![5, 5, 5]);
            assert_eq!(invalid_ids_text(&ids), "5\n5\n5\n");
        },
        other => panic!("unexpected {:?}", other.map(|g| g.len())),
    }
}

#[test]
fn canonical_problems_stop_the_run() {
    let roster = Roster::load(ROSTER).unwrap();
    let mut set = SubmissionSet::new(&roster);
    set.load(&export()).unwrap();
    let deadlines = build_schedule("2020-01-01 12:00 +0000", &tiers()).unwrap();
    let none = ExtensionSet::empty();
    assert!(matches!(grade(&set, &deadlines, &none, "555"), Err(GradeError::CanonicalStudentNotFound)));
    assert!(matches!(grade(&set, &deadlines, &none, "222"), Err(GradeError::CanonicalSubmissionNotFound)));
    assert!(matches!(grade(&set, &deadlines, &none, "111"), Err(GradeError::CanonicalNotPerfect)));
    assert!(matches!(grade(&set, &vec![], &none, "999"), Err(GradeError::InvalidDeadlines)));
}

#[test]
fn skipped_records_add_nothing() {
    let roster = Roster::load(ROSTER).unwrap();
    let mut set = SubmissionSet::new(&roster);
    let failed = "submission_4:\n  \":status\": failed\n";
    assert_eq!(set.load(failed), Ok(0));
    let stranger = entry(6, "777", "2020-01-01 11:00:00.000000 Z", "10.0", "5.0", &[]);
    assert_eq!(set.load(&stranger), Ok(0));
    let timed_out = entry(7, "111", "2020-01-01 11:00:00.000000 Z", "10.0", "5.0", &[])
        .replace("      tests:", "      output: \"Your submission timed out after 10 minutes\"\n      tests:");
    assert_eq!(set.load(&timed_out), Ok(0));
    assert_eq!(set.submissions.len(), 0);
}

#[test]
fn malformed_exports_are_errors() {
    let roster = Roster::load(ROSTER).unwrap();
    let mut set = SubmissionSet::new(&roster);
    assert_eq!(set.load("- a list"), Err(Error::SubmissionFormatError(None, 18)));
    assert_eq!(set.load("{"), Err(Error::SubmissionFormatError(None, 6)));
    assert_eq!(set.load("sub_1:\n  \":status\": processed\n"), Err(Error::SubmissionFormatError(None, 8)));
    assert_eq!(set.load("submission_x:\n  \":status\": processed\n"), Err(Error::SubmissionFormatError(None, 7)));
    assert_eq!(set.load("7: {}\n"), Err(Error::SubmissionFormatError(None, 9)));
    assert_eq!(set.load("submission_3:\n  \":status\": 4\n"), Err(Error::SubmissionFormatError(Some(3), 21)));
    let bad_time = entry(8, "111", "yesterday", "10.0", "5.0", &[]);
    assert_eq!(set.load(&bad_time), Err(Error::SubmissionFormatError(Some(8), 0)));
    let text_score = entry(8, "111", "2020-01-01 11:00:00.000000 Z", "ten", "5.0", &[]);
    assert_eq!(set.load(&text_score), Err(Error::SubmissionFormatError(Some(8), 3)));
    let negative = entry(8, "111", "2020-01-01 11:00:00.000000 Z", "-1.0", "5.0", &[]);
    assert_eq!(set.load(&negative), Err(Error::SubmissionFormatError(Some(8), 2)));
    let bad_key = entry(8, "111", "2020-01-01 11:00:00.000000 Z", "10.0", "5.0", &[])
        .replace("number: \"2\"", "number: \"two\"");
    assert_eq!(set.load(&bad_key), Err(Error::SubmissionFormatError(Some(8), 20)));
    let odd_history = entry(8, "111", "2020-01-01 11:00:00.000000 Z", "10.0", "5.0", &[])
        .replace("  \":history\": []\n", "  \":history\": 3\n");
    assert_eq!(set.load(&odd_history), Err(Error::SubmissionFormatError(Some(8), 17)));
    let two_submitters = entry(8, "111", "2020-01-01 11:00:00.000000 Z", "10.0", "5.0", &[])
        .replace("    - \":sid\": \"111\"\n", "    - \":sid\": \"111\"\n    - \":sid\": \"222\"\n");
    assert_eq!(set.load(&two_submitters), Err(Error::SubmissionFormatError(Some(8), 10)));
    let history_without_id = entry(8, "111", "2020-01-01 11:00:00.000000 Z", "10.0", "5.0", &[])
        .replace("  \":history\": []\n", "  \":history\":\n    - \":status\": processed\n");
    assert_eq!(set.load(&history_without_id), Err(Error::SubmissionFormatError(Some(8), 16)));
    let good_then_bad = entry(1, "111", "2020-01-01 11:00:00.000000 Z", "10.0", "5.0", &[])
        + &entry(8, "111", "yesterday", "10.0", "5.0", &[]);
    assert_eq!(set.load(&good_then_bad), Err(Error::SubmissionFormatError(Some(8), 0)));
    assert_eq!(set.submissions.len(), 0);
}

#[test]
fn integer_scores_are_numbers_too() {
    let roster = Roster::load(ROSTER).unwrap();
    let mut set = SubmissionSet::new(&roster);
    let text = entry(1, "111", "2020-01-01 11:00:00.000000 Z", "10", "2.5", &[]);
    assert_eq!(set.load(&text), Ok(1));
    assert_eq!(set.submissions[0].tests[0].score, 10 * POINT);
    assert_eq!(set.submissions[0].tests[1].score, 2 * POINT + POINT / 2);
}

#[test]
fn ordering_keys_may_be_signed() {
    let roster = Roster::load(ROSTER).unwrap();
    let mut set = SubmissionSet::new(&roster);
    let text = entry(1, "111", "2020-01-01 11:00:00.000000 Z", "10.0", "5.0", &[])
        .replace("number: \"1\"", "number: \"-1.5\"")
        .replace("number: \"2\"", "number: \"2e1\"");
    assert_eq!(set.load(&text), Ok(1));
    assert_eq!(set.submissions[0].tests[0].number, -1_500_000);
    assert_eq!(set.submissions[0].tests[1].number, 20 * POINT as i64);
}

#[test]
fn missing_history_counts_as_empty() {
    let roster = Roster::load(ROSTER).unwrap();
    let mut set = SubmissionSet::new(&roster);
    let text = entry(1, "111", "2020-01-01 11:00:00.000000 Z", "10.0", "5.0", &[])
        .replace("  \":history\": []\n", "")
        + &entry(9, "999", "2020-01-01 11:00:00.000000 Z", "10.0", "5.0", &[]);
    assert_eq!(set.load(&text), Ok(2));
    assert_eq!(set.submissions[0].id, 1);
    assert!(set.submissions[0].active);
}

#[test]
fn unprocessed_active_keeps_its_history() {
    let roster = Roster::load(ROSTER).unwrap();
    let mut set = SubmissionSet::new(&roster);
    let earlier = history_yaml(2, "2020-01-01 10:00:00.000000 Z", "10.0", "4.0");
    let text = entry(1, "111", "2020-01-01 11:00:00.000000 Z", "10.0", "5.0", &[earlier])
        .replace("\":status\": processed\n  \":created_at\"", "\":status\": failed\n  \":created_at\"");
    assert_eq!(set.load(&text), Ok(1));
    assert_eq!(set.submissions[0].id, 2);
    assert!(!set.submissions[0].active);
}

#[test]
fn student_without_active_record_is_still_graded() {
    let roster = Roster::load(ROSTER).unwrap();
    let mut set = SubmissionSet::new(&roster);
    let earlier = history_yaml(2, "2020-01-01 10:00:00.000000 Z", "10.0", "4.0");
    let text = entry(1, "111", "2020-01-01 11:00:00.000000 Z", "10.0", "5.0", &[earlier])
        .replacen("      tests:", "      output: \"timed out\"\n      tests:", 1)
        + &entry(9, "999", "2020-01-01 11:00:00.000000 Z", "10.0", "5.0", &[]);
    assert_eq!(set.load(&text), Ok(2));
    let deadlines = build_schedule("2020-01-01 12:00 +0000", &tiers()).unwrap();
    let grades = grade(&set, &deadlines, &ExtensionSet::empty(), "999").unwrap();
    assert_eq!(grades[0], Grade { student: 0, submission: 0, penalty: 0 });
    assert_eq!(set.submissions[0].id, 2);
}

#[test]
fn skipped_records_are_reported() {
    let roster = Roster::load(ROSTER).unwrap();
    let set = SubmissionSet::new(&roster);
    let earlier = history_yaml(2, "2020-01-01 10:00:00.000000 Z", "10.0", "4.0")
        .replace("\":status\": processed", "\":status\": queued");
    let text = entry(1, "111", "2020-01-01 11:00:00.000000 Z", "10.0", "5.0", &[earlier])
        .replacen("\":status\": processed", "\":status\": failed", 1)
        + &entry(6, "777", "2020-01-01 11:00:00.000000 Z", "10.0", "5.0", &[])
        + &entry(7, "999", "2020-01-01 11:00:00.000000 Z", "10.0", "5.0", &[])
            .replacen("      tests:", "      output: \"timed out\"\n      tests:", 1);
    assert_eq!(
        set.skipped(&text),
        vec![
            (1, SkipReason::Failed),
            (2, SkipReason::Unfinished),
            (6, SkipReason::UnknownStudent),
            (7, SkipReason::TimedOut),
        ]
    );
    assert_eq!(set.skipped("- not a mapping"), vec![]);
}
