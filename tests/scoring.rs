use project_grades::extensions::Extension;
use project_grades::roster::Roster;
use project_grades::submissions::{
    Deadline, Error, Submission, SubmissionSet, TestCase, GRACE_NANOS, HOUR_NANOS, PENALTY_SCALE, POINT,
};

const DUE: i128 = 1_577_880_000_000_000_000;

fn test(name: &str, number: u64, score: u64, max: u64) -> TestCase {
    TestCase { name: name.to_string(), number: (number * POINT) as i64, score: score * POINT, max: max * POINT }
}

fn submission(id: u64, time: i128, tests: Vec<TestCase>, active: bool) -> Submission {
    Submission { id, student: "111".to_string(), time, tests, active }
}

fn two_tiers() -> Vec<Deadline> {
    vec![(DUE, 0), (DUE + 24 * HOUR_NANOS, 100_000)]
}

#[test]
fn no_penalty_exactly_at_grace() {
    let s = submission(1, DUE + GRACE_NANOS, vec![test("A", 1, 10, 10)], true);
    assert_eq!(s.compute_penalty(&two_tiers(), None), Ok(0));
    let late = submission(2, DUE + GRACE_NANOS + 1, vec![test("A", 1, 10, 10)], true);
    assert_eq!(late.compute_penalty(&two_tiers(), None), Ok(100_000));
}

#[test]
fn full_loss_after_last_cutoff() {
    let s = submission(1, DUE + 24 * HOUR_NANOS + GRACE_NANOS + 1, vec![test("A", 1, 10, 10)], true);
    assert_eq!(s.compute_penalty(&two_tiers(), None), Ok(PENALTY_SCALE));
    let score = s.score(&two_tiers(), None).unwrap();
    assert_eq!(score.earned, 0);
}

#[test]
fn extension_moves_every_cutoff() {
    let ext = Extension { uid: "111".to_string(), hours: 2 };
    let s = submission(1, DUE + 2 * HOUR_NANOS + GRACE_NANOS, vec![test("A", 1, 10, 10)], true);
    assert_eq!(s.compute_penalty(&two_tiers(), Some(&ext)), Ok(0));
    assert_eq!(s.compute_penalty(&two_tiers(), None), Ok(100_000));
}

#[test]
fn invalid_schedules_are_refused() {
    let s = submission(1, DUE, vec![test("A", 1, 10, 10)], true);
    assert_eq!(s.compute_penalty(&vec![], None), Err(Error::InvalidDeadlineError));
    assert_eq!(s.compute_penalty(&vec![(DUE, 1)], None), Err(Error::InvalidDeadlineError));
    assert_eq!(
        s.compute_penalty(&vec![(DUE, 0), (DUE + HOUR_NANOS, PENALTY_SCALE + 1)], None),
        Err(Error::InvalidDeadlineError)
    );
    assert!(s.score(&vec![], None).is_err());
}

#[test]
fn raw_score_is_awarded_over_available() {
    // canonical {A:10, B:5}; candidate scored {A:10, B:3}: 13/15 before any penalty
    let s = submission(1, DUE, vec![test("A", 1, 10, 10), test("B", 2, 3, 5)], true);
    let raw = s.raw_score();
    assert_eq!(raw.earned * 15, 13 * raw.possible * PENALTY_SCALE as u128);
    let scored = s.score(&two_tiers(), None).unwrap();
    assert_eq!(scored.earned, raw.earned);
    assert_eq!(scored.possible, raw.possible);
}

#[test]
fn penalty_scales_the_score() {
    let s = submission(1, DUE + HOUR_NANOS, vec![test("A", 1, 10, 10), test("B", 2, 3, 5)], true);
    let scored = s.score(&two_tiers(), None).unwrap();
    // 13/15 * 0.9
    assert_eq!(scored.earned * 15 * 10, 13 * 9 * scored.possible * PENALTY_SCALE as u128);
}

#[test]
fn empty_suite_scores_zero() {
    let s = submission(1, DUE, vec![], true);
    assert_eq!(s.raw_score().earned, 0);
    assert!(!s.is_perfect());
}

#[test]
fn perfect_needs_every_point() {
    let full = submission(1, DUE, vec![test("A", 1, 10, 10), test("B", 2, 5, 5)], true);
    assert!(full.is_perfect());
    let partial = submission(2, DUE, vec![test("A", 1, 10, 10), test("B", 2, 4, 5)], true);
    assert!(!partial.is_perfect());
}

#[test]
fn validate_is_reflexive() {
    let s = submission(1, DUE, vec![test("A", 1, 10, 10), test("B", 2, 3, 5)], true);
    assert!(s.validate_with_canonical(&s));
}

#[test]
fn validate_extra_case_fails_both_ways() {
    let b = submission(1, DUE, vec![test("A", 1, 10, 10), test("B", 2, 5, 5)], true);
    let a = submission(2, DUE, vec![test("A", 1, 10, 10), test("B", 2, 5, 5), test("C", 3, 1, 1)], true);
    assert!(!a.validate_with_canonical(&b));
    assert!(!b.validate_with_canonical(&a));
}

#[test]
fn validate_ignores_order_and_awarded_points() {
    let canonical = submission(1, DUE, vec![test("A", 1, 10, 10), test("B", 2, 5, 5)], true);
    let other = submission(2, DUE, vec![test("B", 2, 0, 5), test("A", 1, 3, 10)], true);
    assert!(other.validate_with_canonical(&canonical));
}

#[test]
fn validate_counts_duplicates() {
    let canonical = submission(1, DUE, vec![test("A", 1, 10, 10), test("A", 1, 10, 10)], true);
    let once = submission(2, DUE, vec![test("A", 1, 10, 10), test("B", 1, 10, 10)], true);
    assert!(!once.validate_with_canonical(&canonical));
    let twice = submission(3, DUE, vec![test("A", 1, 0, 10), test("A", 1, 10, 10)], true);
    assert!(twice.validate_with_canonical(&canonical));
}

#[test]
fn validate_compares_key_and_maximum() {
    let canonical = submission(1, DUE, vec![test("A", 1, 10, 10)], true);
    assert!(!submission(2, DUE, vec![test("A", 2, 10, 10)], true).validate_with_canonical(&canonical));
    assert!(!submission(3, DUE, vec![test("A", 1, 10, 12)], true).validate_with_canonical(&canonical));
    assert!(!submission(4, DUE, vec![test("a", 1, 10, 10)], true).validate_with_canonical(&canonical));
}

#[test]
fn score_comparison_is_exact() {
    let a = submission(1, DUE, vec![test("A", 1, 1, 3)], true).raw_score();
    let b = submission(2, DUE, vec![test("A", 1, 2, 6)], true).raw_score();
    assert!(!a.exceeds(&b));
    assert!(!b.exceeds(&a));
    let c = submission(3, DUE, vec![test("A", 1, 2, 5)], true).raw_score();
    assert!(c.exceeds(&a));
}

#[test]
fn rows_follow_the_ordering_key() {
    let s = submission(
        1,
        DUE,
        vec![test("C", 3, 1, 1), test("A", 1, 10, 10), test("B", 2, 3, 5), test("A2", 1, 0, 2)],
        true,
    );
    let half = TestCase { name: "H".to_string(), number: (POINT + POINT / 2) as i64, score: POINT / 2, max: POINT };
    let mut with_half = s.tests.iter().map(|t| t.copied()).collect::<Vec<_>>();
    with_half.push(half);
    let s2 = submission(2, DUE, with_half, true);
    assert_eq!(s.to_rows(&"ada".to_string()), "ada,A,10,\nada,A2,0,\nada,B,3,\nada,C,1,\n");
    assert_eq!(
        s2.to_rows(&"ada".to_string()),
        "ada,A,10,\nada,A2,0,\nada,H,0.5,\nada,B,3,\nada,C,1,\n"
    );
}

#[test]
fn latest_keeps_the_first_of_equal_times() {
    let roster = Roster::load("UID,DID\n111,ada\n").unwrap();
    let mut set = SubmissionSet::new(&roster);
    set.submissions.push(submission(1, DUE, vec![test("A", 1, 1, 10)], false));
    set.submissions.push(submission(2, DUE + 5, vec![test("A", 1, 2, 10)], false));
    set.submissions.push(submission(3, DUE + 5, vec![test("A", 1, 3, 10)], true));
    let ada = &roster.students[0];
    assert_eq!(set.get_latest_submission(ada, None).unwrap().id, 2);
    assert_eq!(set.get_latest_submission(ada, Some(DUE + 4)).unwrap().id, 1);
    assert_eq!(set.get_active_submission(ada).unwrap().id, 3);
}
