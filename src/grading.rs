//! Selection of each student's best admissible submission: candidates per
//! deadline tier, the validation gate against the canonical submission, and the
//! final grades.

use vstd::prelude::*;
use vstd::string::StrSliceExecFns;
use crate::decimal::{parse_micros, parse_unsigned, unsigned_value};
use crate::export::{all_wf, micros};
use crate::extensions::{extension_hours, hours_of_found, Extension, ExtensionSet};
use crate::report::{grades_csv, grades_ok, grades_text, parts_csv, parts_text, sort_by_number};
use crate::roster::{first_uid_index, Student};
use crate::table::opt_int;
use crate::submissions::{
    active_index, allowance, allowance_nanos, hours_of, latest_index, lemma_active_index_range,
    lemma_latest_index_range, lemma_penalty_range, penalty_at, perfect, schedule_ok,
    schedule_valid, score_gt, score_of, suites_match, Deadline, Score, Submission, SubmissionSet,
    TestCase, HOUR_NANOS, PENALTY_SCALE,
};
use crate::time::{instant_nanos, nanos_of, offset_instant, parse_with_offset, NANOS_PER_SEC};

verus! {

/// A student's candidate submissions, as positions in the submission set: the
/// active one, and for each tier the latest one within its effective cutoff.
pub struct Candidates {
    /// The student's position on the roster.
    pub student: usize,
    /// The active submission, if the student has one.
    pub active: Option<usize>,
    pub latest: Vec<Option<usize>>,
}

/// The grade of one student: their position on the roster, the winning
/// submission's position, and its penalty in millionths.
#[derive(Debug, PartialEq, Eq, Structural, Clone, Copy)]
pub struct Grade {
    pub student: usize,
    pub submission: usize,
    pub penalty: u64,
}

/// Why a run stops before any grade is produced.
#[derive(Debug)]
pub enum GradeError {
    /// The deadline schedule is empty, starts with a penalty, or holds a penalty above a full loss.
    InvalidDeadlines,
    /// No student on the roster has the canonical university ID.
    CanonicalStudentNotFound,
    /// The canonical student has no active submission.
    CanonicalSubmissionNotFound,
    /// The canonical submission did not receive full points.
    CanonicalNotPerfect,
    /// These candidate submissions do not match the canonical test suite.
    InvalidSubmissions(Vec<u64>),
}

/// A candidate set in the spec: roster position, active position, tier picks.
pub type CandidateView = (int, Option<int>, Seq<Option<int>>);

impl Candidates {
    pub open spec fn view_of(&self) -> CandidateView {
        (self.student as int, opt_int(self.active), self.latest@.map_values(|o: Option<usize>| opt_int(o)))
    }
}

/// `x`, or the largest `i128` where `x` is larger: no submission time lies beyond it.
pub open spec fn capped(x: int) -> i128 {
    if x > i128::MAX {
        i128::MAX
    } else {
        x as i128
    }
}

/// For each tier, the latest submission of `uid` at or before the tier's cutoff plus the
/// grace buffer and the student's extension.
pub open spec fn tier_picks(
    subs: Seq<Submission>,
    uid: Seq<char>,
    deadlines: Seq<Deadline>,
    hours: int,
) -> Seq<Option<int>> {
    Seq::new(
        deadlines.len(),
        |t: int| latest_index(subs, uid, Some(capped(deadlines[t].0 + allowance(hours)))),
    )
}

/// The candidate sets of the first `n` students on the roster, in roster order: one per
/// student, its active submission if any, and its pick for each tier.
pub open spec fn candidates_of(
    students: Seq<Student>,
    n: int,
    subs: Seq<Submission>,
    deadlines: Seq<Deadline>,
    exts: Seq<Extension>,
) -> Seq<CandidateView>
    decreases n,
{
    if n <= 0 {
        Seq::empty()
    } else {
        let prev = candidates_of(students, n - 1, subs, deadlines, exts);
        let uid = students[n - 1].uid@;
        prev.push((n - 1, active_index(subs, uid), tier_picks(subs, uid, deadlines, extension_hours(exts, uid))))
    }
}

/// IDs of the tier picks that fail validation, in order.
pub open spec fn invalid_picks(
    subs: Seq<Submission>,
    canonical: Seq<TestCase>,
    picks: Seq<Option<int>>,
) -> Seq<u64>
    decreases picks.len(),
{
    if picks.len() == 0 {
        Seq::empty()
    } else {
        let prev = invalid_picks(subs, canonical, picks.drop_last());
        match picks.last() {
            Some(l) => if suites_match(subs[l].tests@, canonical) {
                prev
            } else {
                prev.push(subs[l].id)
            },
            None => prev,
        }
    }
}

/// IDs of the candidates that fail validation: for each candidate set, the active
/// submission, then the tier picks.
pub open spec fn invalid_ids(
    subs: Seq<Submission>,
    canonical: Seq<TestCase>,
    cands: Seq<CandidateView>,
) -> Seq<u64>
    decreases cands.len(),
{
    if cands.len() == 0 {
        Seq::empty()
    } else {
        let c = cands.last();
        let active = match c.1 {
            Some(a) => if suites_match(subs[a].tests@, canonical) {
                Seq::empty()
            } else {
                seq![subs[a].id]
            },
            None => Seq::empty(),
        };
        invalid_ids(subs, canonical, cands.drop_last()) + active + invalid_picks(subs, canonical, c.2)
    }
}

/// The score of submission `i` under the schedule and `hours` of extension.
pub open spec fn score_at(
    subs: Seq<Submission>,
    i: int,
    deadlines: Seq<Deadline>,
    hours: int,
) -> Score {
    score_of(subs[i].tests@, penalty_at(subs[i].time as int, deadlines, hours))
}

/// The winner among the active submission and the tier picks: a pick replaces the
/// current winner only with a strictly greater score, so ties keep the active
/// submission, then the earliest tier's pick.  With no candidate there is no winner.
pub open spec fn best_of(
    subs: Seq<Submission>,
    active: Option<int>,
    picks: Seq<Option<int>>,
    deadlines: Seq<Deadline>,
    hours: int,
) -> Option<int>
    decreases picks.len(),
{
    if picks.len() == 0 {
        active
    } else {
        let b = best_of(subs, active, picks.drop_last(), deadlines, hours);
        match (picks.last(), b) {
            (Some(l), Some(w)) => if score_gt(score_at(subs, l, deadlines, hours), score_at(subs, w, deadlines, hours)) {
                Some(l)
            } else {
                b
            },
            (Some(l), None) => Some(l),
            (None, _) => b,
        }
    }
}

/// The grades of the candidate sets, in order: each winner whose penalty is below a full
/// loss.  A student without any candidate has no winner and no grade.
pub open spec fn grades_of(
    students: Seq<Student>,
    subs: Seq<Submission>,
    deadlines: Seq<Deadline>,
    exts: Seq<Extension>,
    cands: Seq<CandidateView>,
) -> Seq<Grade>
    decreases cands.len(),
{
    if cands.len() == 0 {
        Seq::empty()
    } else {
        let prev = grades_of(students, subs, deadlines, exts, cands.drop_last());
        let c = cands.last();
        let hours = extension_hours(exts, students[c.0].uid@);
        match best_of(subs, c.1, c.2, deadlines, hours) {
            Some(w) => {
                let p = penalty_at(subs[w].time as int, deadlines, hours);
                if p < PENALTY_SCALE {
                    prev.push(Grade { student: c.0 as usize, submission: w as usize, penalty: p as u64 })
                } else {
                    prev
                }
            },
            None => prev,
        }
    }
}

/// Positions in a candidate set are positions of the submission set.
pub open spec fn candidate_ok(c: CandidateView, n_subs: int) -> bool {
    &&& c.1 matches Some(a) ==> 0 <= a < n_subs
    &&& forall|t: int| 0 <= t < c.2.len() ==> (#[trigger] c.2[t] matches Some(l) ==> 0 <= l < n_subs)
}

/// `cutoff + extra`, or the largest `i128` where that is larger.
pub fn capped_add(cutoff: i128, extra: i128) -> (r: i128)
    requires
        extra >= 0,
    ensures
        r == capped(cutoff + extra),
{
    if cutoff > i128::MAX - extra {
        i128::MAX
    } else {
        cutoff + extra
    }
}

/// Every position in a candidate set is a submission of student `uid`.
pub open spec fn owned_by(subs: Seq<Submission>, uid: Seq<char>, active: Option<int>, picks: Seq<Option<int>>) -> bool {
    &&& active matches Some(a) ==> subs[a].student@ == uid
    &&& forall|t: int| 0 <= t < picks.len() ==> (#[trigger] picks[t] matches Some(l) ==> subs[l].student@ == uid)
}

/// The candidate sets of the first `n` students: one per student, in range, each holding
/// only that student's submissions.
pub open spec fn candidates_sound(students: Seq<Student>, subs: Seq<Submission>, cands: Seq<CandidateView>) -> bool {
    forall|k: int| 0 <= k < cands.len() ==> {
        let c = #[trigger] cands[k];
        &&& candidate_ok(c, subs.len() as int)
        &&& 0 <= c.0 < students.len()
        &&& owned_by(subs, students[c.0].uid@, c.1, c.2)
    }
}

pub proof fn lemma_candidates_ok(
    students: Seq<Student>,
    n: int,
    subs: Seq<Submission>,
    deadlines: Seq<Deadline>,
    exts: Seq<Extension>,
)
    requires
        0 <= n <= students.len(),
    ensures
        candidates_sound(students, subs, candidates_of(students, n, subs, deadlines, exts)),
        candidates_of(students, n, subs, deadlines, exts).len() == n,
        forall|k: int| 0 <= k < n ==> (#[trigger] candidates_of(students, n, subs, deadlines, exts)[k]).0 == k,
    decreases n,
{
    if n > 0 {
        lemma_candidates_ok(students, n - 1, subs, deadlines, exts);
        let uid = students[n - 1].uid@;
        lemma_active_index_range(subs, uid);
        let picks = tier_picks(subs, uid, deadlines, extension_hours(exts, uid));
        assert forall|t: int| 0 <= t < picks.len() implies (#[trigger] picks[t] matches Some(l) ==> 0 <= l < subs.len() && subs[l].student@ == uid) by {
            lemma_latest_index_range(subs, uid, Some(capped(deadlines[t].0 + allowance(extension_hours(exts, uid)))));
        }
        let prev = candidates_of(students, n - 1, subs, deadlines, exts);
        let all = candidates_of(students, n, subs, deadlines, exts);
        assert forall|k: int| 0 <= k < all.len() implies {
            let c = #[trigger] all[k];
            &&& candidate_ok(c, subs.len() as int)
            &&& 0 <= c.0 < students.len()
            &&& owned_by(subs, students[c.0].uid@, c.1, c.2)
        } by {
            if k < prev.len() {
                assert(all[k] == prev[k]);
            }
        }
        assert forall|k: int| 0 <= k < n implies (#[trigger] all[k]).0 == k by {
            if k < prev.len() {
                assert(all[k] == prev[k]);
            }
        }
    }
}

/// A grade of a roster student for one of that student's own submissions.
pub open spec fn grade_owned(students: Seq<Student>, subs: Seq<Submission>, g: Grade) -> bool {
    &&& g.student < students.len()
    &&& g.submission < subs.len()
    &&& subs[g.submission as int].student@ == students[g.student as int].uid@
}

proof fn lemma_grades_owned(
    students: Seq<Student>,
    subs: Seq<Submission>,
    deadlines: Seq<Deadline>,
    exts: Seq<Extension>,
    cands: Seq<CandidateView>,
)
    requires
        students.len() <= usize::MAX,
        subs.len() <= usize::MAX,
        candidates_sound(students, subs, cands),
    ensures
        forall|k: int| 0 <= k < grades_of(students, subs, deadlines, exts, cands).len() ==> grade_owned(
            students,
            subs,
            #[trigger] grades_of(students, subs, deadlines, exts, cands)[k],
        ),
    decreases cands.len(),
{
    if cands.len() > 0 {
        let prev = cands.drop_last();
        assert(candidates_sound(students, subs, prev)) by {
            assert forall|k: int| 0 <= k < prev.len() implies #[trigger] prev[k] == cands[k] by {}
        }
        lemma_grades_owned(students, subs, deadlines, exts, prev);
        let c = cands[cands.len() - 1];
        let uid = students[c.0].uid@;
        let hours = extension_hours(exts, uid);
        lemma_best_of_range(subs, c.1, c.2, deadlines, hours, uid);
        let gp = grades_of(students, subs, deadlines, exts, prev);
        let g = grades_of(students, subs, deadlines, exts, cands);
        assert forall|k: int| 0 <= k < g.len() implies grade_owned(students, subs, #[trigger] g[k]) by {
            if k < gp.len() {
                assert(g[k] == gp[k]);
            }
        }
    }
}

/// A student without submissions is left out of the grades entirely: every grade belongs
/// to a roster student and names one of that student's own submissions.
pub proof fn lemma_graded_students_submitted(
    students: Seq<Student>,
    subs: Seq<Submission>,
    deadlines: Seq<Deadline>,
    exts: Seq<Extension>,
)
    requires
        students.len() <= usize::MAX,
        subs.len() <= usize::MAX,
    ensures
        forall|k: int| 0 <= k < grades_of(students, subs, deadlines, exts, candidates_of(students, students.len() as int, subs, deadlines, exts)).len()
            ==> grade_owned(
            students,
            subs,
            #[trigger] grades_of(students, subs, deadlines, exts, candidates_of(students, students.len() as int, subs, deadlines, exts))[k],
        ),
{
    lemma_candidates_ok(students, students.len() as int, subs, deadlines, exts);
    lemma_grades_owned(students, subs, deadlines, exts, candidates_of(students, students.len() as int, subs, deadlines, exts));
}

/// The candidate sets of the roster's students.
pub fn collect_candidates(
    set: &SubmissionSet,
    deadlines: &Vec<Deadline>,
    extensions: &ExtensionSet,
) -> (r: Vec<Candidates>)
    ensures
        r@.map_values(|c: Candidates| c.view_of()) == candidates_of(set.roster.students@, set.roster.students@.len() as int, set.submissions@, deadlines@, extensions.extensions@),
{
    let students = &set.roster.students;
    let mut out: Vec<Candidates> = Vec::new();
    let mut n: usize = 0;
    while n < students.len()
        invariant
            0 <= n <= students.len(),
            students == set.roster.students,
            out@.map_values(|c: Candidates| c.view_of()) == candidates_of(students@, n as int, set.submissions@, deadlines@, extensions.extensions@),
        decreases students.len() - n,
    {
        let student = &students[n];
        let active = set.active_position(student.uid.as_str());
        let hours = extensions.hours_for(student);
        let extra = allowance_nanos(hours);
        let mut latest: Vec<Option<usize>> = Vec::new();
        let mut t: usize = 0;
        while t < deadlines.len()
            invariant
                0 <= t <= deadlines.len(),
                extra == allowance(hours as int),
                latest@.len() == t,
                forall|k: int| 0 <= k < t ==> opt_int(#[trigger] latest@[k]) == latest_index(set.submissions@, student.uid@, Some(capped(deadlines@[k].0 + allowance(hours as int)))),
            decreases deadlines.len() - t,
        {
            let before = capped_add(deadlines[t].0, extra);
            let l = set.latest_position(student.uid.as_str(), Some(before));
            latest.push(l);
            t = t + 1;
        }
        let c = Candidates { student: n, active, latest };
        assert(c.view_of().2 =~= tier_picks(set.submissions@, student.uid@, deadlines@, hours as int));
        assert(c.view_of().1 == active_index(set.submissions@, student.uid@));
        let ghost before_push = out@;
        out.push(c);
        assert(out@.map_values(|c: Candidates| c.view_of()) =~= before_push.map_values(|c: Candidates| c.view_of()).push(c.view_of()));
        n = n + 1;
    }
    out
}

/// IDs of the candidates that do not match the canonical test suite: for each candidate
/// set in order, its active submission, then its tier picks.
pub fn invalid_submission_ids(
    set: &SubmissionSet,
    cands: &Vec<Candidates>,
    canonical: &Submission,
) -> (r: Vec<u64>)
    requires
        forall|k: int| 0 <= k < cands@.len() ==> candidate_ok(#[trigger] cands@[k].view_of(), set.submissions@.len() as int),
    ensures
        r@ == invalid_ids(set.submissions@, canonical.tests@, cands@.map_values(|c: Candidates| c.view_of())),
{
    let ghost views = cands@.map_values(|c: Candidates| c.view_of());
    let ghost subs = set.submissions@;
    let ghost canon = canonical.tests@;
    let mut out: Vec<u64> = Vec::new();
    let mut i: usize = 0;
    assert(views.subrange(0, 0) =~= Seq::<CandidateView>::empty());
    while i < cands.len()
        invariant
            0 <= i <= cands.len(),
            views == cands@.map_values(|c: Candidates| c.view_of()),
            subs == set.submissions@,
            canon == canonical.tests@,
            forall|k: int| 0 <= k < cands@.len() ==> candidate_ok(#[trigger] cands@[k].view_of(), set.submissions@.len() as int),
            out@ == invalid_ids(subs, canon, views.subrange(0, i as int)),
        decreases cands.len() - i,
    {
        let c = &cands[i];
        let ghost v = c.view_of();
        assert(views[i as int] == v);
        assert(candidate_ok(v, subs.len() as int));
        assert(views.subrange(0, i + 1).drop_last() =~= views.subrange(0, i as int));
        let ghost base = out@;
        match c.active {
            Some(a) => {
                let a = &set.submissions[a];
                if !a.validate_with_canonical(canonical) {
                    out.push(a.id);
                }
            },
            None => {},
        }
        let ghost with_active = out@;
        assert(v.2.subrange(0, 0) =~= Seq::<Option<int>>::empty());
        let mut t: usize = 0;
        while t < c.latest.len()
            invariant
                0 <= t <= c.latest.len(),
                v == c.view_of(),
                candidate_ok(v, subs.len() as int),
                subs == set.submissions@,
                canon == canonical.tests@,
                out@ == with_active + invalid_picks(subs, canon, v.2.subrange(0, t as int)),
            decreases c.latest.len() - t,
        {
            assert(v.2.subrange(0, t + 1).drop_last() =~= v.2.subrange(0, t as int));
            assert(v.2[t as int] == opt_int(c.latest@[t as int]));
            match c.latest[t] {
                Some(l) => {
                    assert(v.2[t as int] == Some(l as int));
                    let s = &set.submissions[l];
                    if !s.validate_with_canonical(canonical) {
                        out.push(s.id);
                    }
                },
                None => {},
            }
            t = t + 1;
        }
        assert(v.2.subrange(0, t as int) =~= v.2);
        assert(out@ =~= invalid_ids(subs, canon, views.subrange(0, i + 1)));
        i = i + 1;
    }
    assert(views.subrange(0, i as int) =~= views);
    out
}

/// The best candidate of one student: the highest score, ties kept by the active
/// submission, then by the earliest tier's pick; none when the student has no candidate.
pub fn best_submission(
    set: &SubmissionSet,
    c: &Candidates,
    deadlines: &Vec<Deadline>,
    extension: Option<&Extension>,
) -> (r: Option<usize>)
    requires
        schedule_ok(deadlines@),
        all_wf(set.submissions@),
        candidate_ok(c.view_of(), set.submissions@.len() as int),
    ensures
        opt_int(r) == best_of(set.submissions@, c.view_of().1, c.view_of().2, deadlines@, hours_of(extension)),
        r matches Some(w) ==> w < set.submissions@.len(),
{
    let ghost subs = set.submissions@;
    let ghost hours = hours_of(extension);
    let ghost v = c.view_of();
    let mut best: Option<usize> = c.active;
    let mut best_score = Score { earned: 0, possible: 1 };
    if let Some(a) = c.active {
        best_score = match set.submissions[a].score(deadlines, extension) {
            Ok(s) => s,
            Err(_) => {
                proof {
                    assert(false);
                }
                Score { earned: 0, possible: 1 }
            },
        };
    }
    assert(v.2.subrange(0, 0) =~= Seq::<Option<int>>::empty());
    let mut t: usize = 0;
    while t < c.latest.len()
        invariant
            0 <= t <= c.latest.len(),
            v == c.view_of(),
            hours == hours_of(extension),
            subs == set.submissions@,
            schedule_ok(deadlines@),
            all_wf(subs),
            candidate_ok(v, subs.len() as int),
            opt_int(best) == best_of(subs, v.1, v.2.subrange(0, t as int), deadlines@, hours),
            best matches Some(b) ==> b < subs.len() && best_score == score_at(subs, b as int, deadlines@, hours)
                && best_score.bounded(),
        decreases c.latest.len() - t,
    {
        assert(v.2.subrange(0, t + 1).drop_last() =~= v.2.subrange(0, t as int));
        assert(v.2.subrange(0, t + 1).last() == v.2[t as int]);
        assert(v.2[t as int] == opt_int(c.latest@[t as int]));
        match c.latest[t] {
            Some(l) => {
                assert(v.2[t as int] == Some(l as int));
                assert(subs[l as int].wf());
                match set.submissions[l].score(deadlines, extension) {
                    Ok(s) => {
                        assert(s == score_at(subs, l as int, deadlines@, hours));
                        let replace = match best {
                            Some(_) => s.exceeds(&best_score),
                            None => true,
                        };
                        if replace {
                            best = Some(l);
                            best_score = s;
                        }
                        assert(opt_int(best) == best_of(subs, v.1, v.2.subrange(0, t + 1), deadlines@, hours));
                    },
                    Err(_) => {
                        proof {
                            assert(false);
                        }
                    },
                }
            },
            None => {},
        }
        t = t + 1;
    }
    assert(v.2.subrange(0, t as int) =~= v.2);
    best
}

/// The inputs are usable and the canonical submission is trustworthy.
pub open spec fn canonical_ok(
    students: Seq<Student>,
    subs: Seq<Submission>,
    canonical_uid: Seq<char>,
) -> bool {
    &&& first_uid_index(students, canonical_uid) is Some
    &&& active_index(subs, canonical_uid) matches Some(c) && perfect(subs[c].tests@)
}

/// The kinds of `GradeError`.
#[derive(Debug, PartialEq, Eq, Structural, Clone, Copy)]
pub enum GradeFailure {
    InvalidDeadlines,
    CanonicalStudentNotFound,
    CanonicalSubmissionNotFound,
    CanonicalNotPerfect,
    InvalidSubmissions,
}

/// A run's result as plain values: the grades, or the kind of error with the invalid IDs
/// (none but for invalid submissions).
pub type Outcome = Result<Seq<Grade>, (GradeFailure, Seq<u64>)>;

pub open spec fn outcome_of(r: &Result<Vec<Grade>, GradeError>) -> Outcome {
    match r {
        Ok(g) => Ok(g@),
        Err(GradeError::InvalidDeadlines) => Err((GradeFailure::InvalidDeadlines, Seq::empty())),
        Err(GradeError::CanonicalStudentNotFound) => Err((GradeFailure::CanonicalStudentNotFound, Seq::empty())),
        Err(GradeError::CanonicalSubmissionNotFound) => Err((GradeFailure::CanonicalSubmissionNotFound, Seq::empty())),
        Err(GradeError::CanonicalNotPerfect) => Err((GradeFailure::CanonicalNotPerfect, Seq::empty())),
        Err(GradeError::InvalidSubmissions(ids)) => Err((GradeFailure::InvalidSubmissions, ids@)),
    }
}

/// The result of a run: a bad schedule stops it first, then a missing or imperfect canonical
/// submission, then invalid candidates; otherwise the grades of the candidate sets.
pub open spec fn grade_outcome(
    students: Seq<Student>,
    subs: Seq<Submission>,
    deadlines: Seq<Deadline>,
    exts: Seq<Extension>,
    canonical_uid: Seq<char>,
) -> Outcome {
    let fail = |f: GradeFailure| Err::<Seq<Grade>, (GradeFailure, Seq<u64>)>((f, Seq::empty()));
    if !schedule_ok(deadlines) {
        fail(GradeFailure::InvalidDeadlines)
    } else if first_uid_index(students, canonical_uid) is None {
        fail(GradeFailure::CanonicalStudentNotFound)
    } else {
        match active_index(subs, canonical_uid) {
            None => fail(GradeFailure::CanonicalSubmissionNotFound),
            Some(c) => if !perfect(subs[c].tests@) {
                fail(GradeFailure::CanonicalNotPerfect)
            } else {
                let cands = candidates_of(students, students.len() as int, subs, deadlines, exts);
                let bad = invalid_ids(subs, subs[c].tests@, cands);
                if bad.len() > 0 {
                    Err((GradeFailure::InvalidSubmissions, bad))
                } else {
                    Ok(grades_of(students, subs, deadlines, exts, cands))
                }
            },
        }
    }
}

/// Compute the grades of a run.  A student without any candidate submission gets no
/// grade; neither does one whose best submission has lost every point.
///
/// # Errors
///
/// A bad schedule, a canonical submission that is missing or imperfect, or candidates that
/// do not match the canonical test suite (all of their IDs) stop the run.
pub fn grade(
    set: &SubmissionSet,
    deadlines: &Vec<Deadline>,
    extensions: &ExtensionSet,
    canonical_uid: &str,
) -> (r: Result<Vec<Grade>, GradeError>)
    requires
        all_wf(set.submissions@),
    ensures
        outcome_of(&r) == grade_outcome(set.roster.students@, set.submissions@, deadlines@, extensions.extensions@, canonical_uid@),
        r matches Ok(g) ==> forall|k: int| 0 <= k < g@.len() ==> grade_owned(set.roster.students@, set.submissions@, #[trigger] g@[k]),
{
    if !schedule_valid(deadlines) {
        return Err(GradeError::InvalidDeadlines);
    }
    let cands = collect_candidates(set, deadlines, extensions);
    let ghost students = set.roster.students@;
    let ghost subs = set.submissions@;
    let ghost views = cands@.map_values(|c: Candidates| c.view_of());
    proof {
        lemma_candidates_ok(students, students.len() as int, subs, deadlines@, extensions.extensions@);
    }
    if set.roster.index_of_uid(canonical_uid).is_none() {
        return Err(GradeError::CanonicalStudentNotFound);
    }
    proof {
        lemma_active_index_range(subs, canonical_uid@);
    }
    let canonical = match set.active_position(canonical_uid) {
        Some(c) => &set.submissions[c],
        None => {
            return Err(GradeError::CanonicalSubmissionNotFound);
        },
    };
    if !canonical.is_perfect() {
        return Err(GradeError::CanonicalNotPerfect);
    }
    assert forall|k: int| 0 <= k < cands@.len() implies candidate_ok(#[trigger] cands@[k].view_of(), subs.len() as int) by {
        assert(views[k] == cands@[k].view_of());
        assert(candidate_ok(views[k], subs.len() as int));
    }
    let invalid = invalid_submission_ids(set, &cands, canonical);
    if invalid.len() > 0 {
        return Err(GradeError::InvalidSubmissions(invalid));
    }
    let mut grades: Vec<Grade> = Vec::new();
    let mut i: usize = 0;
    assert(views.subrange(0, 0) =~= Seq::<CandidateView>::empty());
    while i < cands.len()
        invariant
            0 <= i <= cands.len(),
            views == cands@.map_values(|c: Candidates| c.view_of()),
            views == candidates_of(students, students.len() as int, subs, deadlines@, extensions.extensions@),
            students == set.roster.students@,
            subs == set.submissions@,
            schedule_ok(deadlines@),
            all_wf(subs),
            candidates_sound(students, subs, views),
            grades@ == grades_of(students, subs, deadlines@, extensions.extensions@, views.subrange(0, i as int)),
        decreases cands.len() - i,
    {
        let c = &cands[i];
        assert(views[i as int] == c.view_of());
        assert(views.subrange(0, i + 1).drop_last() =~= views.subrange(0, i as int));
        assert(views.subrange(0, i + 1).last() == c.view_of());
        let student = &set.roster.students[c.student];
        let extension = extensions.find(student);
        proof {
            hours_of_found(extensions.extensions@, student.uid@, extension);
        }
        assert(candidate_ok(views[i as int], subs.len() as int));
        let winner = best_submission(set, c, deadlines, extension);
        let ghost hours = extension_hours(extensions.extensions@, students[c.student as int].uid@);
        assert(opt_int(winner) == best_of(subs, views[i as int].1, views[i as int].2, deadlines@, hours));
        if let Some(w) = winner {
            proof {
                lemma_penalty_range(subs[w as int].time as int, deadlines@, hours);
            }
            match set.submissions[w].compute_penalty(deadlines, extension) {
                Ok(p) => {
                    if p < PENALTY_SCALE {
                        grades.push(Grade { student: c.student, submission: w, penalty: p });
                    }
                },
                Err(_) => {
                    proof {
                        assert(false);
                    }
                },
            }
        }
        assert(grades@ =~= grades_of(students, subs, deadlines@, extensions.extensions@, views.subrange(0, i + 1)));
        i = i + 1;
    }
    assert(views.subrange(0, i as int) =~= views);
    proof {
        assert(students.len() == set.roster.students.len());
        assert(subs.len() == set.submissions.len());
        lemma_graded_students_submitted(students, subs, deadlines@, extensions.extensions@);
    }
    Ok(grades)
}

/// Why a deadline schedule could not be built from its text.
#[derive(Debug, PartialEq, Eq, Structural)]
pub enum ScheduleError {
    /// The due date is not `%Y-%m-%d %H:%M %z`.
    InvalidDueDate,
    /// The tier at this position is not `hours,penalty`.
    InvalidTier(usize),
}

/// `p` is the position of the only `,` in `s`.
pub open spec fn only_comma(s: Seq<char>, p: int) -> bool {
    0 <= p < s.len() && s[p] == ',' && forall|q: int| 0 <= q < s.len() && q != p ==> s[q] != ','
}

/// A later tier written `hours,penalty`: whole hours after the due date, and a penalty
/// fraction as a decimal, held in millionths.
pub open spec fn tier_of(due: int, arg: Seq<char>) -> Option<(int, u64)> {
    if exists|p: int| only_comma(arg, p) {
        let p = choose|p: int| only_comma(arg, p);
        match (unsigned_value(arg.subrange(0, p)), micros(arg.subrange(p + 1, arg.len() as int))) {
            (Some(h), Some(penalty)) => if h <= u32::MAX {
                Some((due + h * HOUR_NANOS, penalty))
            } else {
                None
            },
            _ => None,
        }
    } else {
        None
    }
}

/// The instant of a due date written `%Y-%m-%d %H:%M %z`.
pub open spec fn due_of(text: Seq<char>) -> Option<int> {
    match offset_instant(text, "%Y-%m-%d %H:%M %z"@) {
        Some(t) => Some(nanos_of(t)),
        None => None,
    }
}

/// Reads one later tier.
fn parse_tier(due: i128, arg: &str) -> (r: Option<Deadline>)
    requires
        i64::MIN * NANOS_PER_SEC <= due <= i64::MAX * NANOS_PER_SEC + u32::MAX,
    ensures
        r matches Some(d) ==> tier_of(due as int, arg@) == Some((d.0 as int, d.1)),
        r is None ==> tier_of(due as int, arg@) is None,
{
    let n = arg.unicode_len();
    let mut p: usize = 0;
    while p < n && arg.get_char(p) != ','
        invariant
            0 <= p <= n == arg@.len(),
            forall|q: int| 0 <= q < p ==> arg@[q] != ',',
        decreases n - p,
    {
        p = p + 1;
    }
    if p == n {
        proof {
            assert(!exists|q: int| only_comma(arg@, q));
        }
        return None;
    }
    let mut q: usize = p + 1;
    while q < n && arg.get_char(q) != ','
        invariant
            p < q <= n == arg@.len(),
            forall|k: int| p < k < q ==> arg@[k] != ',',
        decreases n - q,
    {
        q = q + 1;
    }
    if q < n {
        proof {
            assert forall|k: int| !only_comma(arg@, k) by {
                if only_comma(arg@, k) {
                    if k != p {
                        assert(arg@[p as int] == ',');
                    } else {
                        assert(arg@[q as int] == ',');
                    }
                }
            }
        }
        return None;
    }
    proof {
        assert(only_comma(arg@, p as int));
        assert forall|k: int| only_comma(arg@, k) implies k == p by {
            if k != p {
                assert(arg@[p as int] == ',');
            }
        }
    }
    let hours = match parse_unsigned(arg.substring_char(0, p), u32::MAX as u64) {
        Some(h) => h,
        None => return None,
    };
    let penalty = match parse_micros(arg.substring_char(p + 1, n)) {
        Some(v) => v,
        None => return None,
    };
    assert(hours * HOUR_NANOS <= u32::MAX * HOUR_NANOS) by (nonlinear_arith)
        requires hours <= u32::MAX;
    Some((due + hours as i128 * HOUR_NANOS, penalty))
}

/// Builds the deadline schedule: the due date, penalty-free, then one tier for each
/// `hours,penalty` argument, in the given order.
///
/// # Errors
///
/// A due date that is not `%Y-%m-%d %H:%M %z` gives `InvalidDueDate`; a tier that is
/// not `hours,penalty` gives `InvalidTier` with its position.
pub fn build_schedule(due: &str, tiers: &Vec<String>) -> (r: Result<Vec<Deadline>, ScheduleError>)
    ensures
        due_of(due@) is None ==> r == Err::<Vec<Deadline>, ScheduleError>(ScheduleError::InvalidDueDate),
        due_of(due@) matches Some(d) ==> {
            &&& r matches Ok(v) ==> v@.len() == tiers@.len() + 1 && v@[0] == (d as i128, 0u64)
                && forall|t: int| 0 <= t < tiers@.len() ==> tier_of(d, #[trigger] tiers@[t]@) == Some(
                    (v@[t + 1].0 as int, v@[t + 1].1),
                )
            &&& r matches Err(e) ==> e matches ScheduleError::InvalidTier(t) && t < tiers@.len()
                && tier_of(d, tiers@[t as int]@) is None && forall|k: int| 0 <= k < t ==> #[trigger] tier_of(d, tiers@[k]@) is Some
        },
{
    let at = match parse_with_offset(due, "%Y-%m-%d %H:%M %z") {
        Some(at) => at,
        None => return Err(ScheduleError::InvalidDueDate),
    };
    let d = instant_nanos(at);
    assert(at.0 * NANOS_PER_SEC <= i64::MAX * NANOS_PER_SEC) by (nonlinear_arith)
        requires at.0 <= i64::MAX;
    assert(at.0 * NANOS_PER_SEC >= i64::MIN * NANOS_PER_SEC) by (nonlinear_arith)
        requires at.0 >= i64::MIN;
    let mut out: Vec<Deadline> = Vec::new();
    out.push((d, 0));
    let mut t: usize = 0;
    while t < tiers.len()
        invariant
            0 <= t <= tiers.len(),
            due_of(due@) == Some(d as int),
            i64::MIN * NANOS_PER_SEC <= d <= i64::MAX * NANOS_PER_SEC + u32::MAX,
            out@.len() == t + 1,
            out@[0] == (d, 0u64),
            forall|k: int| 0 <= k < t ==> tier_of(d as int, #[trigger] tiers@[k]@) == Some(
                (out@[k + 1].0 as int, out@[k + 1].1),
            ),
        decreases tiers.len() - t,
    {
        match parse_tier(d, tiers[t].as_str()) {
            Some(tier) => {
                out.push(tier);
            },
            None => {
                return Err(ScheduleError::InvalidTier(t));
            },
        }
        t = t + 1;
    }
    Ok(out)
}

proof fn lemma_best_of_range(
    subs: Seq<Submission>,
    active: Option<int>,
    picks: Seq<Option<int>>,
    deadlines: Seq<Deadline>,
    hours: int,
    uid: Seq<char>,
)
    requires
        candidate_ok((0, active, picks), subs.len() as int),
        owned_by(subs, uid, active, picks),
    ensures
        best_of(subs, active, picks, deadlines, hours) matches Some(w) ==> 0 <= w < subs.len()
            && subs[w].student@ == uid,
    decreases picks.len(),
{
    if picks.len() > 0 {
        let prev = picks.drop_last();
        assert forall|t: int| 0 <= t < prev.len() implies (#[trigger] prev[t] matches Some(l) ==> 0 <= l < subs.len() && subs[l].student@ == uid) by {
            assert(prev[t] == picks[t]);
        }
        lemma_best_of_range(subs, active, prev, deadlines, hours, uid);
        assert(picks.last() == picks[picks.len() - 1]);
    }
}

pub proof fn lemma_grades_in_range(
    students: Seq<Student>,
    subs: Seq<Submission>,
    deadlines: Seq<Deadline>,
    exts: Seq<Extension>,
    cands: Seq<CandidateView>,
)
    requires
        schedule_ok(deadlines),
        students.len() <= usize::MAX,
        subs.len() <= usize::MAX,
        candidates_sound(students, subs, cands),
    ensures
        grades_ok(students, subs, grades_of(students, subs, deadlines, exts, cands)),
    decreases cands.len(),
{
    if cands.len() > 0 {
        let prev = cands.drop_last();
        assert(candidates_sound(students, subs, prev)) by {
            assert forall|k: int| 0 <= k < prev.len() implies #[trigger] prev[k] == cands[k] by {}
        }
        lemma_grades_in_range(students, subs, deadlines, exts, prev);
        let c = cands[cands.len() - 1];
        let uid = students[c.0].uid@;
        let hours = extension_hours(exts, uid);
        lemma_best_of_range(subs, c.1, c.2, deadlines, hours, uid);
        if let Some(w) = best_of(subs, c.1, c.2, deadlines, hours) {
            lemma_penalty_range(subs[w].time as int, deadlines, hours);
        }
        let gp = grades_of(students, subs, deadlines, exts, prev);
        let g = grades_of(students, subs, deadlines, exts, cands);
        assert forall|k: int| 0 <= k < g.len() implies {
            let x = #[trigger] g[k];
            x.student < students.len() && x.submission < subs.len() && x.penalty <= PENALTY_SCALE
        } by {
            if k < gp.len() {
                assert(g[k] == gp[k]);
            }
        }
    }
}

/// The text of a run's files.
pub struct Report {
    /// One row per test of each graded student's winning submission, then a summary row.
    pub grades: String,
    /// The canonical submission's tests with their maximum points.
    pub parts: String,
}

/// Grades a run and writes the text of its grades and parts files; errors as `grade`.
pub fn grade_report(
    set: &SubmissionSet,
    deadlines: &Vec<Deadline>,
    extensions: &ExtensionSet,
    canonical_uid: &str,
) -> (r: Result<Report, GradeError>)
    requires
        all_wf(set.submissions@),
    ensures
        ({
            let students = set.roster.students@;
            let subs = set.submissions@;
            let outcome = grade_outcome(students, subs, deadlines@, extensions.extensions@, canonical_uid@);
            &&& outcome is Err ==> (r matches Err(e) && outcome_of(&Err(e)) == outcome)
            &&& outcome matches Ok(g) ==> (r matches Ok(rep) && rep.grades@ == grades_text(students, subs, g)
                && rep.parts@ == parts_text(sort_by_number(subs[active_index(subs, canonical_uid@)->Some_0].tests@)))
        }),
{
    let grades = match grade(set, deadlines, extensions, canonical_uid) {
        Ok(g) => g,
        Err(e) => return Err(e),
    };
    let ghost students = set.roster.students@;
    let ghost subs = set.submissions@;
    proof {
        lemma_candidates_ok(students, students.len() as int, subs, deadlines@, extensions.extensions@);
        assert(students.len() == set.roster.students.len());
        assert(subs.len() == set.submissions.len());
        lemma_grades_in_range(students, subs, deadlines@, extensions.extensions@, candidates_of(students, students.len() as int, subs, deadlines@, extensions.extensions@));
        lemma_active_index_range(subs, canonical_uid@);
    }
    let text = grades_csv(set.roster, &set.submissions, &grades);
    let c = match set.active_position(canonical_uid) {
        Some(c) => c,
        None => {
            proof {
                assert(false);
            }
            0
        },
    };
    let parts = parts_csv(&set.submissions[c]);
    Ok(Report { grades: text, parts })
}

} // verus!
