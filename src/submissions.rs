//! Submissions, their test results, and the penalty and scoring rules.

use vstd::prelude::*;
use crate::extensions::Extension;
use crate::roster::{Roster, Student};
use crate::text::text_eq;

verus! {

/// Points are held in millionths of a point.
pub const POINT: u64 = 1_000_000;

/// Penalty fractions are held in millionths: `PENALTY_SCALE` is a full loss.
pub const PENALTY_SCALE: u64 = 1_000_000;

/// The grace buffer added to every cutoff: five minutes, in nanoseconds.
pub const GRACE_NANOS: i128 = 300_000_000_000;

/// One hour, in nanoseconds.
pub const HOUR_NANOS: i128 = 3_600_000_000_000;

/// The types of errors that can be produced within and returned from this module.
#[derive(Debug, PartialEq, Eq, Structural)]
pub enum Error {
    SubmissionReadError,
    /// A malformed export: the ID of the submission concerned, where known, and the place
    /// in the record where the fault lies.
    SubmissionFormatError(Option<u64>, usize),
    InvalidDeadlineError,
}

/// The largest total, in millionths of a point, that a submission's scores or
/// maximum scores may reach: 2^53, the integers that a double holds exactly.
pub const MAX_TOTAL: u64 = 9_007_199_254_740_992;

/// A single test case and its result.
pub struct TestCase {
    pub name: String,
    /// The ordering key, in millionths; it may be negative.
    pub number: i64,
    /// The points awarded, in millionths of a point.
    pub score: u64,
    /// The points available, in millionths of a point.
    pub max: u64,
}

/// Represents a single submission of the project.
pub struct Submission {
    /// The submission ID.
    pub id: u64,
    /// The university ID of the student who made it.
    pub student: String,
    /// The submission time, in nanoseconds since the Unix epoch (UTC).
    pub time: i128,
    /// Individual test results.
    pub tests: Vec<TestCase>,
    /// Whether this was the active submission.
    pub active: bool,
}

/// A share of the available points after any penalty: the fraction
/// `earned / (possible * PENALTY_SCALE)`.
pub struct Score {
    pub earned: u128,
    pub possible: u128,
}

/// What identifies a test case: its name, ordering key and maximum score.
pub type TestKey = (Seq<char>, i64, u64);

pub open spec fn test_key(t: TestCase) -> TestKey {
    (t.name@, t.number, t.max)
}

pub open spec fn test_keys(tests: Seq<TestCase>) -> Seq<TestKey> {
    tests.map_values(|t: TestCase| test_key(t))
}

/// Two test suites match when they hold the same keys, each as many times.
pub open spec fn suites_match(tests: Seq<TestCase>, canonical: Seq<TestCase>) -> bool {
    test_keys(tests).to_multiset() == test_keys(canonical).to_multiset()
}

pub open spec fn total_score(tests: Seq<TestCase>) -> int
    decreases tests.len(),
{
    if tests.len() == 0 {
        0
    } else {
        total_score(tests.drop_last()) + tests.last().score
    }
}

pub open spec fn total_max(tests: Seq<TestCase>) -> int
    decreases tests.len(),
{
    if tests.len() == 0 {
        0
    } else {
        total_max(tests.drop_last()) + tests.last().max
    }
}

/// The score of a suite under a penalty: awarded over available points, times
/// what the penalty leaves; zero when nothing is available.
pub open spec fn score_of(tests: Seq<TestCase>, penalty: int) -> Score {
    if total_max(tests) == 0 {
        Score { earned: 0, possible: 1 }
    } else {
        Score {
            earned: (total_score(tests) * (PENALTY_SCALE - penalty)) as u128,
            possible: total_max(tests) as u128,
        }
    }
}

/// Whether score `a` is strictly greater than score `b`.
pub open spec fn score_gt(a: Score, b: Score) -> bool {
    a.earned * b.possible > b.earned * a.possible
}

pub open spec fn hours_of(extension: Option<&Extension>) -> int {
    match extension {
        Some(e) => e.hours as int,
        None => 0,
    }
}

impl Score {
    pub open spec fn bounded(&self) -> bool {
        &&& self.earned <= MAX_TOTAL as int * PENALTY_SCALE as int
        &&& 1 <= self.possible <= MAX_TOTAL
    }

    /// Whether this score is strictly greater than `other`.
    pub fn exceeds(&self, other: &Score) -> (r: bool)
        requires
            self.bounded(),
            other.bounded(),
        ensures
            r == score_gt(*self, *other),
    {
        proof {
            lemma_product_fits(self.earned as int, other.possible as int);
            lemma_product_fits(other.earned as int, self.possible as int);
        }
        self.earned * other.possible > other.earned * self.possible
    }
}

proof fn lemma_product_fits(e: int, p: int)
    requires
        0 <= e <= MAX_TOTAL as int * PENALTY_SCALE as int,
        0 <= p <= MAX_TOTAL,
    ensures
        e * p <= u128::MAX,
{
    assert(e * p <= (MAX_TOTAL as int * PENALTY_SCALE as int) * MAX_TOTAL) by (nonlinear_arith)
        requires
            0 <= e <= MAX_TOTAL as int * PENALTY_SCALE as int,
            0 <= p <= MAX_TOTAL,
    ;
}

proof fn lemma_prefix_count(s: Seq<TestKey>, m: int, x: TestKey)
    requires
        0 <= m <= s.len(),
    ensures
        s.subrange(0, m).to_multiset().count(x) <= s.to_multiset().count(x),
    decreases s.len() - m,
{
    broadcast use vstd::seq_lib::group_to_multiset_ensures;

    if m < s.len() {
        assert(s.subrange(0, m + 1) =~= s.subrange(0, m).push(s[m]));
        lemma_prefix_count(s, m + 1, x);
    } else {
        assert(s.subrange(0, m) =~= s);
    }
}

impl TestCase {
    /// A copy of this test case.
    pub fn copied(&self) -> (r: TestCase)
        ensures
            r == *self,
    {
        TestCase { name: self.name.clone(), number: self.number, score: self.score, max: self.max }
    }

    /// Whether two test cases match: same name, ordering key and maximum score.
    pub fn matches(&self, other: &TestCase) -> (r: bool)
        ensures
            r == (test_key(*self) == test_key(*other)),
    {
        text_eq(self.name.as_str(), other.name.as_str()) && self.number == other.number
            && self.max == other.max
    }
}

/// A perfect suite: some points are available and all of them were awarded.
pub open spec fn perfect(tests: Seq<TestCase>) -> bool {
    total_max(tests) > 0 && total_score(tests) == total_max(tests)
}

impl Submission {
    /// Whether this submission received full points, that is a raw score of exactly one.
    pub fn is_perfect(&self) -> (r: bool)
        ensures
            r == perfect(self.tests@),
    {
        let (score, max) = self.totals();
        max > 0 && score == max
    }

    /// The scores of a submission stay within what the arithmetic holds exactly.
    pub open spec fn wf(&self) -> bool {
        &&& total_score(self.tests@) <= MAX_TOTAL
        &&& total_max(self.tests@) <= MAX_TOTAL
    }

    /// Sums of the awarded and of the available points.
    pub fn totals(&self) -> (r: (u128, u128))
        ensures
            r.0 == total_score(self.tests@),
            r.1 == total_max(self.tests@),
    {
        let mut score: u128 = 0;
        let mut max: u128 = 0;
        let mut i: usize = 0;
        while i < self.tests.len()
            invariant
                0 <= i <= self.tests.len(),
                score == total_score(self.tests@.subrange(0, i as int)),
                max == total_max(self.tests@.subrange(0, i as int)),
                score <= i * (u64::MAX as int),
                max <= i * (u64::MAX as int),
            decreases self.tests.len() - i,
        {
            assert(self.tests@.subrange(0, i + 1).drop_last() =~= self.tests@.subrange(0, i as int));
            assert(i * (u64::MAX as int) + u64::MAX == (i + 1) * (u64::MAX as int)) by (nonlinear_arith);
            assert((i + 1) * (u64::MAX as int) <= u128::MAX) by (nonlinear_arith)
                requires i < usize::MAX;
            score = score + self.tests[i].score as u128;
            max = max + self.tests[i].max as u128;
            i = i + 1;
        }
        assert(self.tests@.subrange(0, i as int) =~= self.tests@);
        (score, max)
    }

    /// Compute the raw total score of this submission, not taking into account any deadlines or
    /// extensions; zero when no points are available.
    pub fn raw_score(&self) -> (r: Score)
        requires
            self.wf(),
        ensures
            r == score_of(self.tests@, 0),
            r.bounded(),
    {
        self.scaled(0)
    }

    /// The score under a penalty of `penalty` millionths.
    fn scaled(&self, penalty: u64) -> (r: Score)
        requires
            self.wf(),
            penalty <= PENALTY_SCALE,
        ensures
            r == score_of(self.tests@, penalty as int),
            r.bounded(),
    {
        let (score, max) = self.totals();
        if max == 0 {
            Score { earned: 0, possible: 1 }
        } else {
            let keep = (PENALTY_SCALE - penalty) as u128;
            assert(score * keep <= MAX_TOTAL as int * PENALTY_SCALE as int) by (nonlinear_arith)
                requires
                    score <= MAX_TOTAL,
                    keep <= PENALTY_SCALE,
            ;
            Score { earned: score * keep, possible: max }
        }
    }

    /// Compute the penalty for this submission, in millionths: that of the first tier whose
    /// cutoff, plus the grace buffer and any extension, is at or after the submission time.
    ///
    /// # Errors
    ///
    /// If the schedule is empty, its first penalty is not zero or a penalty exceeds a full
    /// loss, returns `InvalidDeadlineError`.
    pub fn compute_penalty(&self, deadlines: &Vec<Deadline>, extension: Option<&Extension>) -> (r:
        Result<u64, Error>)
        ensures
            schedule_ok(deadlines@) ==> r == Ok::<u64, Error>(
                penalty_at(self.time as int, deadlines@, hours_of(extension)) as u64,
            ),
            !schedule_ok(deadlines@) ==> r == Err::<u64, Error>(Error::InvalidDeadlineError),
    {
        let hours: u32 = match extension {
            Some(e) => e.hours,
            None => 0,
        };
        penalty_for_time(self.time, deadlines, hours)
    }

    /// Compute the total score of this submission using the assignment's deadlines and any
    /// extension given to this individual student.
    pub fn score(&self, deadlines: &Vec<Deadline>, extension: Option<&Extension>) -> (r: Result<
        Score,
        Error,
    >)
        requires
            self.wf(),
        ensures
            schedule_ok(deadlines@) ==> r == Ok::<Score, Error>(
                score_of(self.tests@, penalty_at(self.time as int, deadlines@, hours_of(extension))),
            ),
            !schedule_ok(deadlines@) ==> r == Err::<Score, Error>(Error::InvalidDeadlineError),
            r matches Ok(s) ==> s.bounded(),
    {
        match self.compute_penalty(deadlines, extension) {
            Ok(p) => {
                proof {
                    lemma_penalty_range(self.time as int, deadlines@, hours_of(extension));
                }
                Ok(self.scaled(p))
            },
            Err(e) => Err(e),
        }
    }

    /// Validate this submission against a canonical submission: true iff both hold the same
    /// test cases (by name, ordering key and maximum score), each as many times.
    pub fn validate_with_canonical(&self, canonical: &Submission) -> (r: bool)
        ensures
            r == suites_match(self.tests@, canonical.tests@),
    {
        broadcast use vstd::seq_lib::group_to_multiset_ensures;

        let ghost mine = test_keys(self.tests@).to_multiset();
        let ghost theirs = test_keys(canonical.tests@);
        let mut rest: Vec<TestCase> = Vec::new();
        let mut i: usize = 0;
        while i < self.tests.len()
            invariant
                0 <= i <= self.tests.len(),
                rest@ == self.tests@.subrange(0, i as int),
            decreases self.tests.len() - i,
        {
            rest.push(self.tests[i].copied());
            i = i + 1;
        }
        assert(rest@ =~= self.tests@);
        assert(theirs.subrange(0, 0) =~= Seq::<TestKey>::empty());
        let mut j: usize = 0;
        while j < canonical.tests.len()
            invariant
                0 <= j <= canonical.tests.len(),
                theirs == test_keys(canonical.tests@),
                mine == test_keys(self.tests@).to_multiset(),
                test_keys(rest@).to_multiset().add(theirs.subrange(0, j as int).to_multiset()) == mine,
            decreases canonical.tests.len() - j,
        {
            let c = &canonical.tests[j];
            let ghost k = test_key(*c);
            assert(theirs.subrange(0, j + 1) =~= theirs.subrange(0, j as int).push(k));
            let mut p: usize = 0;
            while p < rest.len() && !rest[p].matches(c)
                invariant
                    0 <= p <= rest.len(),
                    k == test_key(*c),
                    forall|q: int| 0 <= q < p ==> test_key(#[trigger] rest@[q]) != k,
                decreases rest.len() - p,
            {
                p = p + 1;
            }
            if p == rest.len() {
                proof {
                    assert(!test_keys(rest@).contains(k)) by {
                        if test_keys(rest@).contains(k) {
                            let q = choose|q: int| 0 <= q < test_keys(rest@).len() && test_keys(rest@)[q] == k;
                            assert(test_key(rest@[q]) == k);
                        }
                    }
                    assert(theirs.subrange(0, j + 1) =~= theirs.subrange(0, j as int).push(k));
                    lemma_prefix_count(theirs, j + 1, k);
                    vstd::seq_lib::to_multiset_build(theirs.subrange(0, j as int), k);
                    vstd::seq_lib::to_multiset_contains(test_keys(rest@), k);
                    assert(test_keys(rest@).to_multiset().count(k) == 0);
                    assert(mine.count(k) < theirs.to_multiset().count(k));
                }
                return false;
            }
            proof {
                let ks = test_keys(rest@);
                assert(theirs.subrange(0, j + 1) =~= theirs.subrange(0, j as int).push(k));
                assert(ks[p as int] == k);
                vstd::seq_lib::to_multiset_remove(ks, p as int);
                vstd::seq_lib::to_multiset_build(theirs.subrange(0, j as int), k);
                vstd::seq_lib::to_multiset_contains(ks, k);
                assert(test_keys(rest@.remove(p as int)) =~= ks.remove(p as int));
                assert(ks.remove(p as int).to_multiset() =~= ks.to_multiset().remove(k));
                assert(ks.to_multiset().count(k) > 0);
                assert(ks.to_multiset().remove(k).add(theirs.subrange(0, j as int).to_multiset().insert(k))
                    =~= ks.to_multiset().add(theirs.subrange(0, j as int).to_multiset()));
            }
            rest.remove(p);
            j = j + 1;
        }
        assert(theirs.subrange(0, j as int) =~= theirs);
        if rest.len() == 0 {
            assert(test_keys(rest@) =~= Seq::<TestKey>::empty());
            assert(mine =~= theirs.to_multiset());
            true
        } else {
            assert(mine.len() == test_keys(rest@).len() + theirs.len());
            false
        }
    }
}

/// A submission made exactly at the first cutoff plus the grace buffer bears no
/// penalty, whatever extension its student has.
pub proof fn lemma_no_penalty_at_grace(deadlines: Seq<Deadline>, hours: int, time: int)
    requires
        deadlines.len() > 0,
        deadlines[0].1 == 0,
        hours >= 0,
        time == deadlines[0].0 + GRACE_NANOS,
    ensures
        penalty_at(time, deadlines, hours) == 0,
{
}

/// Cutoffs in non-decreasing order, as the engine expects them.
pub open spec fn cutoffs_sorted(deadlines: Seq<Deadline>) -> bool {
    forall|i: int, j: int| 0 <= i <= j < deadlines.len() ==> deadlines[i].0 <= deadlines[j].0
}

/// A submission made after the last tier's effective cutoff loses every point: its
/// penalty is a full loss and its score is zero, whatever its raw score.
pub proof fn lemma_full_loss_after_last_cutoff(
    deadlines: Seq<Deadline>,
    hours: int,
    time: int,
    tests: Seq<TestCase>,
)
    requires
        deadlines.len() > 0,
        cutoffs_sorted(deadlines),
        time > deadlines.last().0 + allowance(hours),
    ensures
        penalty_at(time, deadlines, hours) == PENALTY_SCALE,
        score_of(tests, penalty_at(time, deadlines, hours)).earned == 0,
{
    lemma_after_all_cutoffs(deadlines, hours, time);
}

proof fn lemma_after_all_cutoffs(deadlines: Seq<Deadline>, hours: int, time: int)
    requires
        cutoffs_sorted(deadlines),
        deadlines.len() > 0 ==> time > deadlines.last().0 + allowance(hours),
    ensures
        penalty_at(time, deadlines, hours) == PENALTY_SCALE,
    decreases deadlines.len(),
{
    if deadlines.len() > 0 {
        assert(deadlines[0].0 <= deadlines.last().0);
        let rest = deadlines.drop_first();
        if rest.len() > 0 {
            assert(rest.last() == deadlines.last());
        }
        assert forall|i: int, j: int| 0 <= i <= j < rest.len() implies rest[i].0 <= rest[j].0 by {
            assert(rest[i] == deadlines[i + 1] && rest[j] == deadlines[j + 1]);
        }
        lemma_after_all_cutoffs(rest, hours, time);
    }
}

/// Every submission matches itself.
pub proof fn lemma_validate_reflexive(s: Submission)
    ensures
        suites_match(s.tests@, s.tests@),
{
}

/// Matching does not depend on which side is the canonical one.
pub proof fn lemma_validate_symmetric(a: Submission, b: Submission)
    ensures
        suites_match(a.tests@, b.tests@) == suites_match(b.tests@, a.tests@),
{
}

/// A submission with a different number of test cases than the canonical one, such as one
/// with an extra unmatched case, does not match it, in either direction.
pub proof fn lemma_validate_needs_equal_counts(a: Submission, b: Submission)
    requires
        a.tests@.len() != b.tests@.len(),
    ensures
        !suites_match(a.tests@, b.tests@),
        !suites_match(b.tests@, a.tests@),
{
    broadcast use vstd::seq_lib::group_to_multiset_ensures;

    assert(test_keys(a.tests@).len() == a.tests@.len());
    assert(test_keys(b.tests@).len() == b.tests@.len());
    vstd::seq_lib::to_multiset_len(test_keys(a.tests@));
    vstd::seq_lib::to_multiset_len(test_keys(b.tests@));
}

/// A collection of submissions for a particular assignment.
pub struct SubmissionSet<'r> {
    pub roster: &'r Roster,
    pub submissions: Vec<Submission>,
}

/// Whether a submission belongs to `uid` and was made no later than `before`, if given.
pub open spec fn eligible(s: Submission, uid: Seq<char>, before: Option<i128>) -> bool {
    s.student@ == uid && (before matches Some(b) ==> s.time <= b)
}

/// The latest eligible submission: scanning in order, a later time replaces the
/// current pick, so among equal times the first stays.
pub open spec fn latest_index(
    subs: Seq<Submission>,
    uid: Seq<char>,
    before: Option<i128>,
) -> Option<int>
    decreases subs.len(),
{
    if subs.len() == 0 {
        None
    } else {
        let prev = latest_index(subs.drop_last(), uid, before);
        let last = subs.len() - 1;
        if eligible(subs[last], uid, before) && (prev matches Some(p) ==> subs[last].time
            > subs[p].time) {
            Some(last)
        } else {
            prev
        }
    }
}

/// The first submission of `uid` marked active.
pub open spec fn active_index(subs: Seq<Submission>, uid: Seq<char>) -> Option<int>
    decreases subs.len(),
{
    if subs.len() == 0 {
        None
    } else {
        match active_index(subs.drop_last(), uid) {
            Some(i) => Some(i),
            None => if subs.last().student@ == uid && subs.last().active {
                Some(subs.len() - 1)
            } else {
                None
            },
        }
    }
}

pub proof fn lemma_latest_index_range(subs: Seq<Submission>, uid: Seq<char>, before: Option<i128>)
    ensures
        latest_index(subs, uid, before) matches Some(i) ==> 0 <= i < subs.len() && eligible(
            subs[i],
            uid,
            before,
        ),
    decreases subs.len(),
{
    if subs.len() > 0 {
        lemma_latest_index_range(subs.drop_last(), uid, before);
    }
}

/// The latest submission, stated directly: it is eligible, no eligible submission is
/// later, and every earlier eligible one is strictly earlier in time; with none eligible
/// there is none.
pub proof fn lemma_latest_index_is_latest(
    subs: Seq<Submission>,
    uid: Seq<char>,
    before: Option<i128>,
)
    ensures
        latest_index(subs, uid, before) matches Some(i) ==> {
            &&& 0 <= i < subs.len()
            &&& eligible(subs[i], uid, before)
            &&& forall|j: int| 0 <= j < subs.len() && eligible(#[trigger] subs[j], uid, before) ==> subs[j].time <= subs[i].time
            &&& forall|j: int| 0 <= j < i && eligible(#[trigger] subs[j], uid, before) ==> subs[j].time < subs[i].time
        },
        latest_index(subs, uid, before) is None ==> forall|j: int| 0 <= j < subs.len() ==> !eligible(#[trigger] subs[j], uid, before),
    decreases subs.len(),
{
    if subs.len() > 0 {
        let prev = subs.drop_last();
        let last = subs.len() - 1;
        lemma_latest_index_is_latest(prev, uid, before);
        assert forall|j: int| 0 <= j < prev.len() implies #[trigger] prev[j] == subs[j] by {}
        match latest_index(subs, uid, before) {
            Some(i) => {
                assert forall|j: int| 0 <= j < subs.len() && eligible(#[trigger] subs[j], uid, before) implies subs[j].time <= subs[i].time by {
                    if j < last {
                        assert(eligible(prev[j], uid, before));
                    }
                }
                assert forall|j: int| 0 <= j < i && eligible(#[trigger] subs[j], uid, before) implies subs[j].time < subs[i].time by {
                    assert(eligible(prev[j], uid, before));
                }
            },
            None => {
                assert forall|j: int| 0 <= j < subs.len() implies !eligible(#[trigger] subs[j], uid, before) by {
                    if j < last {
                        assert(!eligible(prev[j], uid, before));
                    }
                }
            },
        }
    }
}

/// Among submissions tied at the latest time, the first in collection order is the one
/// picked: every eligible submission with the picked time comes at or after it.
pub proof fn lemma_latest_first_of_ties(
    subs: Seq<Submission>,
    uid: Seq<char>,
    before: Option<i128>,
    j: int,
)
    requires
        latest_index(subs, uid, before) is Some,
        0 <= j < subs.len(),
        eligible(subs[j], uid, before),
        subs[j].time == subs[latest_index(subs, uid, before)->Some_0].time,
    ensures
        latest_index(subs, uid, before)->Some_0 <= j,
{
    lemma_latest_index_is_latest(subs, uid, before);
}

pub proof fn lemma_active_index_range(subs: Seq<Submission>, uid: Seq<char>)
    ensures
        active_index(subs, uid) matches Some(i) ==> 0 <= i < subs.len() && subs[i].student@ == uid
            && subs[i].active,
    decreases subs.len(),
{
    if subs.len() > 0 {
        lemma_active_index_range(subs.drop_last(), uid);
    }
}

impl<'r> SubmissionSet<'r> {
    /// Get an empty submission set, whose students will be looked up in `roster`.
    pub fn new(roster: &'r Roster) -> (r: SubmissionSet<'r>)
        ensures
            r.roster == roster,
            r.submissions@.len() == 0,
    {
        SubmissionSet { roster, submissions: Vec::new() }
    }

    /// Position of the most recent submission of a student no later than `before`, if given.
    pub fn latest_position(&self, uid: &str, before: Option<i128>) -> (r: Option<usize>)
        ensures
            r matches Some(i) ==> latest_index(self.submissions@, uid@, before) == Some(i as int),
            r is None ==> latest_index(self.submissions@, uid@, before) is None,
    {
        let mut latest: Option<usize> = None;
        let mut i: usize = 0;
        while i < self.submissions.len()
            invariant
                0 <= i <= self.submissions.len(),
                latest matches Some(l) ==> l < i && latest_index(
                    self.submissions@.subrange(0, i as int),
                    uid@,
                    before,
                ) == Some(l as int),
                latest is None ==> latest_index(self.submissions@.subrange(0, i as int), uid@, before)
                    is None,
            decreases self.submissions.len() - i,
        {
            let s = &self.submissions[i];
            assert(self.submissions@.subrange(0, i + 1).drop_last() =~= self.submissions@.subrange(
                0,
                i as int,
            ));
            let fits = match before {
                Some(b) => s.time <= b,
                None => true,
            };
            if text_eq(s.student.as_str(), uid) && fits {
                match latest {
                    Some(l) => {
                        if s.time > self.submissions[l].time {
                            latest = Some(i);
                        }
                    },
                    None => {
                        latest = Some(i);
                    },
                }
            }
            i = i + 1;
        }
        assert(self.submissions@.subrange(0, i as int) =~= self.submissions@);
        latest
    }

    /// Find the most recent submission for a particular student at or before the given
    /// timestamp, if provided; among submissions made at the same time, the first one.
    pub fn get_latest_submission(&self, student: &Student, before: Option<i128>) -> (r: Option<
        &Submission,
    >)
        ensures
            r matches Some(s) ==> latest_index(self.submissions@, student.uid@, before) matches Some(
                i,
            ) && 0 <= i < self.submissions@.len() && *s == self.submissions@[i],
            r is None ==> latest_index(self.submissions@, student.uid@, before) is None,
    {
        proof {
            lemma_latest_index_range(self.submissions@, student.uid@, before);
        }
        match self.latest_position(student.uid.as_str(), before) {
            Some(i) => Some(&self.submissions[i]),
            None => None,
        }
    }

    /// Position of the active submission of a student.
    pub fn active_position(&self, uid: &str) -> (r: Option<usize>)
        ensures
            r matches Some(i) ==> active_index(self.submissions@, uid@) == Some(i as int),
            r is None ==> active_index(self.submissions@, uid@) is None,
    {
        let mut i: usize = 0;
        while i < self.submissions.len()
            invariant
                0 <= i <= self.submissions.len(),
                active_index(self.submissions@.subrange(0, i as int), uid@) is None,
            decreases self.submissions.len() - i,
        {
            assert(self.submissions@.subrange(0, i + 1).drop_last() =~= self.submissions@.subrange(
                0,
                i as int,
            ));
            if text_eq(self.submissions[i].student.as_str(), uid) && self.submissions[i].active {
                proof {
                    lemma_active_index_prefix(self.submissions@, uid@, i as int + 1);
                }
                return Some(i);
            }
            i = i + 1;
        }
        assert(self.submissions@.subrange(0, i as int) =~= self.submissions@);
        None
    }

    /// Get the active submission for a particular student.  Will return None if the student has no
    /// active submission.
    pub fn get_active_submission(&self, student: &Student) -> (r: Option<&Submission>)
        ensures
            r matches Some(s) ==> active_index(self.submissions@, student.uid@) matches Some(i) && 0
                <= i < self.submissions@.len() && *s == self.submissions@[i],
            r is None ==> active_index(self.submissions@, student.uid@) is None,
    {
        proof {
            lemma_active_index_range(self.submissions@, student.uid@);
        }
        match self.active_position(student.uid.as_str()) {
            Some(i) => Some(&self.submissions[i]),
            None => None,
        }
    }
}

/// Once a prefix holds an active submission, longer prefixes pick the same one.
proof fn lemma_active_index_prefix(subs: Seq<Submission>, uid: Seq<char>, m: int)
    requires
        0 <= m <= subs.len(),
        active_index(subs.subrange(0, m), uid) is Some,
    ensures
        active_index(subs, uid) == active_index(subs.subrange(0, m), uid),
    decreases subs.len() - m,
{
    if m < subs.len() {
        assert(subs.subrange(0, m + 1).drop_last() =~= subs.subrange(0, m));
        lemma_active_index_prefix(subs, uid, m + 1);
    } else {
        assert(subs.subrange(0, m) =~= subs);
    }
}

pub proof fn lemma_penalty_range(time: int, deadlines: Seq<Deadline>, hours: int)
    requires
        forall|i: int| 0 <= i < deadlines.len() ==> #[trigger] deadlines[i].1 <= PENALTY_SCALE,
    ensures
        0 <= penalty_at(time, deadlines, hours) <= PENALTY_SCALE,
    decreases deadlines.len(),
{
    if deadlines.len() > 0 {
        assert forall|i: int| 0 <= i < deadlines.drop_first().len() implies #[trigger] deadlines.drop_first()[i].1
            <= PENALTY_SCALE by {
            assert(deadlines.drop_first()[i] == deadlines[i + 1]);
        }
        lemma_penalty_range(time, deadlines.drop_first(), hours);
    }
}

/// A deadline tier: its cutoff (nanoseconds since the Unix epoch, UTC) and the
/// penalty (in millionths) for a submission made before it.
pub type Deadline = (i128, u64);

/// The extra time, in nanoseconds, that every cutoff gets for a student with
/// `hours` of extension.
pub open spec fn allowance(hours: int) -> int {
    GRACE_NANOS + hours * HOUR_NANOS
}

/// A schedule is usable when it is non-empty, its first tier is penalty-free
/// and no penalty exceeds a full loss.
pub open spec fn schedule_ok(deadlines: Seq<Deadline>) -> bool {
    &&& deadlines.len() > 0
    &&& deadlines[0].1 == 0
    &&& forall|i: int| 0 <= i < deadlines.len() ==> #[trigger] deadlines[i].1 <= PENALTY_SCALE
}

/// The penalty of a submission made at `time`: that of the first tier whose
/// effective cutoff is at or after `time`, or a full loss when there is none.
pub open spec fn penalty_at(time: int, deadlines: Seq<Deadline>, hours: int) -> int
    decreases deadlines.len(),
{
    if deadlines.len() == 0 {
        PENALTY_SCALE as int
    } else if time <= deadlines[0].0 + allowance(hours) {
        deadlines[0].1 as int
    } else {
        penalty_at(time, deadlines.drop_first(), hours)
    }
}

/// Whether `time <= cutoff + extra`, computed without overflow.
pub fn at_or_before(time: i128, cutoff: i128, extra: i128) -> (r: bool)
    requires
        extra >= 0,
    ensures
        r == (time <= cutoff + extra),
{
    if cutoff > i128::MAX - extra {
        true
    } else {
        time <= cutoff + extra
    }
}

/// The extra time for an extension of `hours`, in nanoseconds.
pub fn allowance_nanos(hours: u32) -> (r: i128)
    ensures
        r == allowance(hours as int),
        r >= 0,
{
    GRACE_NANOS + (hours as i128) * HOUR_NANOS
}

/// Whether the schedule is usable: non-empty, penalty-free first, no penalty above a full loss.
pub fn schedule_valid(deadlines: &Vec<Deadline>) -> (r: bool)
    ensures
        r == schedule_ok(deadlines@),
{
    if deadlines.len() == 0 || deadlines[0].1 != 0 {
        return false;
    }
    let mut i: usize = 0;
    while i < deadlines.len()
        invariant
            0 <= i <= deadlines.len(),
            forall|j: int| 0 <= j < i ==> #[trigger] deadlines@[j].1 <= PENALTY_SCALE,
        decreases deadlines.len() - i,
    {
        if deadlines[i].1 > PENALTY_SCALE {
            return false;
        }
        i = i + 1;
    }
    true
}

/// Checks the schedule and gives the penalty of a submission made at `time`.
pub fn penalty_for_time(
    time: i128,
    deadlines: &Vec<Deadline>,
    hours: u32,
) -> (r: Result<u64, Error>)
    ensures
        r matches Ok(p) ==> schedule_ok(deadlines@) && p == penalty_at(time as int, deadlines@, hours as int),
        r matches Err(e) ==> !schedule_ok(deadlines@) && e == Error::InvalidDeadlineError,
{
    if !schedule_valid(deadlines) {
        return Err(Error::InvalidDeadlineError);
    }
    let extra = allowance_nanos(hours);
    let mut k: usize = 0;
    assert(deadlines@.subrange(0, deadlines@.len() as int) =~= deadlines@);
    while k < deadlines.len()
        invariant
            0 <= k <= deadlines.len(),
            schedule_ok(deadlines@),
            extra == allowance(hours as int),
            penalty_at(time as int, deadlines@, hours as int)
                == penalty_at(time as int, deadlines@.subrange(k as int, deadlines@.len() as int), hours as int),
        decreases deadlines.len() - k,
    {
        let rest = Ghost(deadlines@.subrange(k as int, deadlines@.len() as int));
        assert(rest@.drop_first() =~= deadlines@.subrange(k + 1, deadlines@.len() as int));
        if at_or_before(time, deadlines[k].0, extra) {
            return Ok(deadlines[k].1);
        }
        k = k + 1;
    }
    assert(deadlines@.subrange(k as int, deadlines@.len() as int) =~= Seq::<Deadline>::empty());
    Ok(PENALTY_SCALE)
}

} // verus!
