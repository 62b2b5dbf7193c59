//! Results depend on the values the inputs hold, not on which copies hold them:
//! rosters, submissions and extensions with the same views grade to the same
//! outcome and the same rows.  Loading identical texts gives inputs with the same
//! views, so repeated runs on identical inputs write identical rows.

use vstd::prelude::*;
use crate::export::{entries_of, entry_of, export_text_of, submission_view, test_view, views_of};
use crate::yaml::Yaml;
use crate::extensions::{extension_hours, extension_view, first_extension_index, Extension};
use crate::roster::{first_uid_index, student_view, Student};
use crate::grading::{
    best_of, candidate_ok, candidates_of, grade_outcome, grades_of, invalid_ids, invalid_picks,
    lemma_candidates_ok, lemma_grades_in_range, score_at, tier_picks, CandidateView, Grade,
};
use crate::report::{
    grades_ok, grades_text, insert_by_number, parts_text, sort_by_number, test_rows,
};
use crate::submissions::{
    active_index, latest_index, perfect, suites_match, test_keys, total_max, total_score,
    Deadline, Submission, TestCase,
};

verus! {

pub open spec fn same_students(a: Seq<Student>, b: Seq<Student>) -> bool {
    a.map_values(|s: Student| student_view(s)) == b.map_values(|s: Student| student_view(s))
}

pub open spec fn same_extensions(a: Seq<Extension>, b: Seq<Extension>) -> bool {
    a.map_values(|e: Extension| extension_view(e)) == b.map_values(|e: Extension| extension_view(e))
}

pub open spec fn same_tests(a: Seq<TestCase>, b: Seq<TestCase>) -> bool {
    a.map_values(|t: TestCase| test_view(t)) == b.map_values(|t: TestCase| test_view(t))
}

proof fn lemma_same_students_at(a: Seq<Student>, b: Seq<Student>, i: int)
    requires
        same_students(a, b),
        0 <= i < a.len(),
    ensures
        a.len() == b.len(),
        a[i].uid@ == b[i].uid@,
        a[i].directory_id@ == b[i].directory_id@,
{
    lemma_same_len_students(a, b);
    assert(a.map_values(|s: Student| student_view(s))[i] == student_view(a[i]));
    assert(b.map_values(|s: Student| student_view(s))[i] == student_view(b[i]));
}

proof fn lemma_same_subs_at(a: Seq<Submission>, b: Seq<Submission>, i: int)
    requires
        views_of(a) == views_of(b),
        0 <= i < a.len(),
    ensures
        a.len() == b.len(),
        a[i].id == b[i].id,
        a[i].student@ == b[i].student@,
        a[i].time == b[i].time,
        a[i].active == b[i].active,
        same_tests(a[i].tests@, b[i].tests@),
{
    lemma_same_len_subs(a, b);
    assert(views_of(a)[i] == submission_view(a[i]));
    assert(views_of(b)[i] == submission_view(b[i]));
}

proof fn lemma_same_tests_at(a: Seq<TestCase>, b: Seq<TestCase>, i: int)
    requires
        same_tests(a, b),
        0 <= i < a.len(),
    ensures
        a.len() == b.len(),
        test_view(a[i]) == test_view(b[i]),
{
    assert(a.map_values(|t: TestCase| test_view(t)).len() == a.len());
    assert(b.map_values(|t: TestCase| test_view(t)).len() == b.len());
    assert(a.map_values(|t: TestCase| test_view(t))[i] == test_view(a[i]));
    assert(b.map_values(|t: TestCase| test_view(t))[i] == test_view(b[i]));
}

pub proof fn lemma_same_tests_keys(a: Seq<TestCase>, b: Seq<TestCase>)
    requires
        same_tests(a, b),
    ensures
        test_keys(a) == test_keys(b),
        total_score(a) == total_score(b),
        total_max(a) == total_max(b),
{
    assert(a.len() == b.len()) by {
        assert(a.map_values(|t: TestCase| test_view(t)).len() == a.len());
        assert(b.map_values(|t: TestCase| test_view(t)).len() == b.len());
    }
    assert forall|i: int| 0 <= i < a.len() implies test_keys(a)[i] == test_keys(b)[i] by {
        lemma_same_tests_at(a, b, i);
    }
    assert(test_keys(a) =~= test_keys(b));
    crate::export::lemma_totals_view(a);
    crate::export::lemma_totals_view(b);
}

proof fn lemma_same_len_students(a: Seq<Student>, b: Seq<Student>)
    requires
        same_students(a, b),
    ensures
        a.len() == b.len(),
{
    assert(a.map_values(|s: Student| student_view(s)).len() == a.len());
    assert(b.map_values(|s: Student| student_view(s)).len() == b.len());
}

proof fn lemma_same_len_subs(a: Seq<Submission>, b: Seq<Submission>)
    requires
        views_of(a) == views_of(b),
    ensures
        a.len() == b.len(),
{
    assert(views_of(a).len() == a.len());
    assert(views_of(b).len() == b.len());
}

pub proof fn lemma_same_uid_index(a: Seq<Student>, b: Seq<Student>, uid: Seq<char>)
    requires
        same_students(a, b),
    ensures
        first_uid_index(a, uid) == first_uid_index(b, uid),
    decreases a.len(),
{
    lemma_same_len_students(a, b);
    if a.len() > 0 {
        lemma_same_students_at(a, b, 0);
        assert(same_students(a.drop_first(), b.drop_first())) by {
            assert(a.drop_first().map_values(|s: Student| student_view(s)) =~= a.map_values(|s: Student| student_view(s)).drop_first());
            assert(b.drop_first().map_values(|s: Student| student_view(s)) =~= b.map_values(|s: Student| student_view(s)).drop_first());
        }
        lemma_same_uid_index(a.drop_first(), b.drop_first(), uid);
    }
}

pub proof fn lemma_same_extension_hours(a: Seq<Extension>, b: Seq<Extension>, uid: Seq<char>)
    requires
        same_extensions(a, b),
    ensures
        first_extension_index(a, uid) == first_extension_index(b, uid),
        extension_hours(a, uid) == extension_hours(b, uid),
    decreases a.len(),
{
    let va = a.map_values(|e: Extension| extension_view(e));
    let vb = b.map_values(|e: Extension| extension_view(e));
    assert(va.len() == a.len() && vb.len() == b.len());
    if a.len() > 0 {
        assert(va[0] == extension_view(a[0]) && vb[0] == extension_view(b[0]));
        assert(same_extensions(a.drop_first(), b.drop_first())) by {
            assert(a.drop_first().map_values(|e: Extension| extension_view(e)) =~= va.drop_first());
            assert(b.drop_first().map_values(|e: Extension| extension_view(e)) =~= vb.drop_first());
        }
        lemma_same_extension_hours(a.drop_first(), b.drop_first(), uid);
        crate::extensions::lemma_first_extension_index(a, uid);
        if let Some(i) = first_extension_index(a, uid) {
            assert(va[i] == extension_view(a[i]) && vb[i] == extension_view(b[i]));
        }
    }
}

proof fn lemma_views_drop_last(a: Seq<Submission>, b: Seq<Submission>)
    requires
        views_of(a) == views_of(b),
        a.len() > 0,
    ensures
        views_of(a.drop_last()) == views_of(b.drop_last()),
{
    lemma_same_len_subs(a, b);
    assert(views_of(a.drop_last()) =~= views_of(a).drop_last());
    assert(views_of(b.drop_last()) =~= views_of(b).drop_last());
}

pub proof fn lemma_same_active_index(a: Seq<Submission>, b: Seq<Submission>, uid: Seq<char>)
    requires
        views_of(a) == views_of(b),
    ensures
        active_index(a, uid) == active_index(b, uid),
    decreases a.len(),
{
    lemma_same_len_subs(a, b);
    if a.len() > 0 {
        lemma_views_drop_last(a, b);
        lemma_same_active_index(a.drop_last(), b.drop_last(), uid);
        lemma_same_subs_at(a, b, a.len() - 1);
    }
}

pub proof fn lemma_same_latest_index(
    a: Seq<Submission>,
    b: Seq<Submission>,
    uid: Seq<char>,
    before: Option<i128>,
)
    requires
        views_of(a) == views_of(b),
    ensures
        latest_index(a, uid, before) == latest_index(b, uid, before),
    decreases a.len(),
{
    lemma_same_len_subs(a, b);
    if a.len() > 0 {
        lemma_views_drop_last(a, b);
        lemma_same_latest_index(a.drop_last(), b.drop_last(), uid, before);
        lemma_same_subs_at(a, b, a.len() - 1);
        crate::submissions::lemma_latest_index_range(a.drop_last(), uid, before);
        if let Some(p) = latest_index(a.drop_last(), uid, before) {
            lemma_same_subs_at(a, b, p);
        }
    }
}

pub proof fn lemma_same_suites(
    a: Seq<TestCase>,
    b: Seq<TestCase>,
    c: Seq<TestCase>,
    d: Seq<TestCase>,
)
    requires
        same_tests(a, b),
        same_tests(c, d),
    ensures
        suites_match(a, c) == suites_match(b, d),
        perfect(a) == perfect(b),
{
    lemma_same_tests_keys(a, b);
    lemma_same_tests_keys(c, d);
}

proof fn lemma_same_tier_picks(
    a: Seq<Submission>,
    b: Seq<Submission>,
    uid: Seq<char>,
    deadlines: Seq<Deadline>,
    hours: int,
)
    requires
        views_of(a) == views_of(b),
    ensures
        tier_picks(a, uid, deadlines, hours) == tier_picks(b, uid, deadlines, hours),
{
    assert forall|t: int| 0 <= t < deadlines.len() implies tier_picks(a, uid, deadlines, hours)[t] == tier_picks(b, uid, deadlines, hours)[t] by {
        lemma_same_latest_index(a, b, uid, Some(crate::grading::capped(deadlines[t].0 + crate::submissions::allowance(hours))));
    }
    assert(tier_picks(a, uid, deadlines, hours) =~= tier_picks(b, uid, deadlines, hours));
}

proof fn lemma_same_candidates(
    s1: Seq<Student>,
    s2: Seq<Student>,
    n: int,
    a: Seq<Submission>,
    b: Seq<Submission>,
    deadlines: Seq<Deadline>,
    e1: Seq<Extension>,
    e2: Seq<Extension>,
)
    requires
        same_students(s1, s2),
        views_of(a) == views_of(b),
        same_extensions(e1, e2),
        0 <= n <= s1.len(),
    ensures
        candidates_of(s1, n, a, deadlines, e1) == candidates_of(s2, n, b, deadlines, e2),
    decreases n,
{
    if n > 0 {
        lemma_same_candidates(s1, s2, n - 1, a, b, deadlines, e1, e2);
        lemma_same_students_at(s1, s2, n - 1);
        let uid = s1[n - 1].uid@;
        lemma_same_active_index(a, b, uid);
        lemma_same_extension_hours(e1, e2, uid);
        lemma_same_tier_picks(a, b, uid, deadlines, extension_hours(e1, uid));
    }
}

proof fn lemma_same_invalid_picks(
    a: Seq<Submission>,
    b: Seq<Submission>,
    c1: Seq<TestCase>,
    c2: Seq<TestCase>,
    picks: Seq<Option<int>>,
)
    requires
        views_of(a) == views_of(b),
        same_tests(c1, c2),
        forall|t: int| 0 <= t < picks.len() ==> (#[trigger] picks[t] matches Some(l) ==> 0 <= l < a.len()),
    ensures
        invalid_picks(a, c1, picks) == invalid_picks(b, c2, picks),
    decreases picks.len(),
{
    if picks.len() > 0 {
        let prev = picks.drop_last();
        assert forall|t: int| 0 <= t < prev.len() implies (#[trigger] prev[t] matches Some(l) ==> 0 <= l < a.len()) by {
            assert(prev[t] == picks[t]);
        }
        lemma_same_invalid_picks(a, b, c1, c2, prev);
        assert(picks.last() == picks[picks.len() - 1]);
        if let Some(l) = picks.last() {
            lemma_same_subs_at(a, b, l);
            lemma_same_suites(a[l].tests@, b[l].tests@, c1, c2);
        }
    }
}

proof fn lemma_same_invalid_ids(
    a: Seq<Submission>,
    b: Seq<Submission>,
    c1: Seq<TestCase>,
    c2: Seq<TestCase>,
    cands: Seq<CandidateView>,
)
    requires
        views_of(a) == views_of(b),
        same_tests(c1, c2),
        forall|k: int| 0 <= k < cands.len() ==> candidate_ok(#[trigger] cands[k], a.len() as int),
    ensures
        invalid_ids(a, c1, cands) == invalid_ids(b, c2, cands),
    decreases cands.len(),
{
    if cands.len() > 0 {
        let prev = cands.drop_last();
        assert forall|k: int| 0 <= k < prev.len() implies candidate_ok(#[trigger] prev[k], a.len() as int) by {
            assert(prev[k] == cands[k]);
        }
        lemma_same_invalid_ids(a, b, c1, c2, prev);
        let c = cands.last();
        assert(candidate_ok(cands[cands.len() - 1], a.len() as int));
        if let Some(x) = c.1 {
            lemma_same_subs_at(a, b, x);
            lemma_same_suites(a[x].tests@, b[x].tests@, c1, c2);
        }
        lemma_same_invalid_picks(a, b, c1, c2, c.2);
    }
}

proof fn lemma_same_score_at(
    a: Seq<Submission>,
    b: Seq<Submission>,
    i: int,
    deadlines: Seq<Deadline>,
    hours: int,
)
    requires
        views_of(a) == views_of(b),
        0 <= i < a.len(),
    ensures
        score_at(a, i, deadlines, hours) == score_at(b, i, deadlines, hours),
{
    lemma_same_subs_at(a, b, i);
    lemma_same_tests_keys(a[i].tests@, b[i].tests@);
}

proof fn lemma_same_best_of(
    a: Seq<Submission>,
    b: Seq<Submission>,
    active: Option<int>,
    picks: Seq<Option<int>>,
    deadlines: Seq<Deadline>,
    hours: int,
)
    requires
        views_of(a) == views_of(b),
        candidate_ok((0, active, picks), a.len() as int),
    ensures
        best_of(a, active, picks, deadlines, hours) == best_of(b, active, picks, deadlines, hours),
        best_of(a, active, picks, deadlines, hours) matches Some(w) ==> 0 <= w < a.len(),
    decreases picks.len(),
{
    if picks.len() > 0 {
        let prev = picks.drop_last();
        assert forall|t: int| 0 <= t < prev.len() implies (#[trigger] prev[t] matches Some(l) ==> 0 <= l < a.len()) by {
            assert(prev[t] == picks[t]);
        }
        lemma_same_best_of(a, b, active, prev, deadlines, hours);
        assert(picks.last() == picks[picks.len() - 1]);
        if let Some(w) = best_of(a, active, prev, deadlines, hours) {
            lemma_same_score_at(a, b, w, deadlines, hours);
        }
        if let Some(l) = picks.last() {
            lemma_same_score_at(a, b, l, deadlines, hours);
        }
    }
}

proof fn lemma_same_grades(
    s1: Seq<Student>,
    s2: Seq<Student>,
    a: Seq<Submission>,
    b: Seq<Submission>,
    deadlines: Seq<Deadline>,
    e1: Seq<Extension>,
    e2: Seq<Extension>,
    cands: Seq<CandidateView>,
)
    requires
        same_students(s1, s2),
        views_of(a) == views_of(b),
        same_extensions(e1, e2),
        forall|k: int| 0 <= k < cands.len() ==> {
            let c = #[trigger] cands[k];
            candidate_ok(c, a.len() as int) && 0 <= c.0 < s1.len()
        },
    ensures
        grades_of(s1, a, deadlines, e1, cands) == grades_of(s2, b, deadlines, e2, cands),
    decreases cands.len(),
{
    if cands.len() > 0 {
        let prev = cands.drop_last();
        assert forall|k: int| 0 <= k < prev.len() implies {
            let c = #[trigger] prev[k];
            candidate_ok(c, a.len() as int) && 0 <= c.0 < s1.len()
        } by {
            assert(prev[k] == cands[k]);
        }
        lemma_same_grades(s1, s2, a, b, deadlines, e1, e2, prev);
        let c = cands.last();
        assert(candidate_ok(cands[cands.len() - 1], a.len() as int));
        lemma_same_students_at(s1, s2, c.0);
        let uid = s1[c.0].uid@;
        lemma_same_extension_hours(e1, e2, uid);
        let hours = extension_hours(e1, uid);
        assert(candidate_ok((0, c.1, c.2), a.len() as int));
        lemma_same_best_of(a, b, c.1, c.2, deadlines, hours);
        if let Some(w) = best_of(a, c.1, c.2, deadlines, hours) {
            lemma_same_subs_at(a, b, w);
        }
    }
}

/// Grading looks at the values that its inputs hold: rosters, submission sets and
/// extensions with equal views come to the same outcome.
pub proof fn lemma_same_outcome(
    s1: Seq<Student>,
    s2: Seq<Student>,
    a: Seq<Submission>,
    b: Seq<Submission>,
    deadlines: Seq<Deadline>,
    e1: Seq<Extension>,
    e2: Seq<Extension>,
    canonical_uid: Seq<char>,
)
    requires
        same_students(s1, s2),
        views_of(a) == views_of(b),
        same_extensions(e1, e2),
    ensures
        grade_outcome(s1, a, deadlines, e1, canonical_uid) == grade_outcome(s2, b, deadlines, e2, canonical_uid),
{
    lemma_same_len_students(s1, s2);
    lemma_same_len_subs(a, b);
    lemma_same_uid_index(s1, s2, canonical_uid);
    lemma_same_active_index(a, b, canonical_uid);
    lemma_same_candidates(s1, s2, s1.len() as int, a, b, deadlines, e1, e2);
    lemma_candidates_ok(s1, s1.len() as int, a, deadlines, e1);
    crate::submissions::lemma_active_index_range(a, canonical_uid);
    if let Some(c) = active_index(a, canonical_uid) {
        lemma_same_subs_at(a, b, c);
        lemma_same_suites(a[c].tests@, b[c].tests@, a[c].tests@, b[c].tests@);
        let cands = candidates_of(s1, s1.len() as int, a, deadlines, e1);
        lemma_same_invalid_ids(a, b, a[c].tests@, b[c].tests@, cands);
        lemma_same_grades(s1, s2, a, b, deadlines, e1, e2, cands);
    }
}

proof fn lemma_same_tests_split(a: Seq<TestCase>, b: Seq<TestCase>)
    requires
        same_tests(a, b),
        a.len() > 0,
    ensures
        a.len() == b.len(),
        same_tests(a.drop_last(), b.drop_last()),
        test_view(a.last()) == test_view(b.last()),
{
    lemma_same_tests_at(a, b, a.len() - 1);
    assert(a.drop_last().map_values(|t: TestCase| test_view(t)) =~= a.map_values(|t: TestCase| test_view(t)).drop_last());
    assert(b.drop_last().map_values(|t: TestCase| test_view(t)) =~= b.map_values(|t: TestCase| test_view(t)).drop_last());
}

proof fn lemma_same_tests_push(a: Seq<TestCase>, b: Seq<TestCase>, x: TestCase, y: TestCase)
    requires
        same_tests(a, b),
        test_view(x) == test_view(y),
    ensures
        same_tests(a.push(x), b.push(y)),
{
    assert(a.push(x).map_values(|t: TestCase| test_view(t)) =~= a.map_values(|t: TestCase| test_view(t)).push(test_view(x)));
    assert(b.push(y).map_values(|t: TestCase| test_view(t)) =~= b.map_values(|t: TestCase| test_view(t)).push(test_view(y)));
}

proof fn lemma_same_insert(a: Seq<TestCase>, b: Seq<TestCase>, x: TestCase, y: TestCase)
    requires
        same_tests(a, b),
        test_view(x) == test_view(y),
    ensures
        same_tests(insert_by_number(a, x), insert_by_number(b, y)),
    decreases a.len(),
{
    if a.len() == 0 {
        assert(b.map_values(|t: TestCase| test_view(t)).len() == b.len());
        lemma_same_tests_push(a, b, x, y);
        assert(a.push(x) =~= seq![x]);
        assert(b.push(y) =~= seq![y]);
    } else {
        lemma_same_tests_split(a, b);
        if x.number < a.last().number {
            lemma_same_insert(a.drop_last(), b.drop_last(), x, y);
            lemma_same_tests_push(insert_by_number(a.drop_last(), x), insert_by_number(b.drop_last(), y), a.last(), b.last());
        } else {
            lemma_same_tests_push(a, b, x, y);
        }
    }
}

proof fn lemma_same_sort(a: Seq<TestCase>, b: Seq<TestCase>)
    requires
        same_tests(a, b),
    ensures
        same_tests(sort_by_number(a), sort_by_number(b)),
    decreases a.len(),
{
    if a.len() == 0 {
        assert(b.map_values(|t: TestCase| test_view(t)).len() == b.len());
        assert(sort_by_number(a).map_values(|t: TestCase| test_view(t)) =~= sort_by_number(b).map_values(|t: TestCase| test_view(t)));
    } else {
        lemma_same_tests_split(a, b);
        lemma_same_sort(a.drop_last(), b.drop_last());
        lemma_same_insert(sort_by_number(a.drop_last()), sort_by_number(b.drop_last()), a.last(), b.last());
    }
}

proof fn lemma_same_rows(login: Seq<char>, a: Seq<TestCase>, b: Seq<TestCase>)
    requires
        same_tests(a, b),
    ensures
        test_rows(login, a) == test_rows(login, b),
        parts_text(a) == parts_text(b),
    decreases a.len(),
{
    if a.len() == 0 {
        assert(b.map_values(|t: TestCase| test_view(t)).len() == b.len());
    } else {
        lemma_same_tests_split(a, b);
        lemma_same_rows(login, a.drop_last(), b.drop_last());
    }
}

proof fn lemma_same_grades_text(
    s1: Seq<Student>,
    s2: Seq<Student>,
    a: Seq<Submission>,
    b: Seq<Submission>,
    grades: Seq<Grade>,
)
    requires
        same_students(s1, s2),
        views_of(a) == views_of(b),
        grades_ok(s1, a, grades),
    ensures
        grades_text(s1, a, grades) == grades_text(s2, b, grades),
    decreases grades.len(),
{
    if grades.len() > 0 {
        let prev = grades.drop_last();
        assert forall|k: int| 0 <= k < prev.len() implies {
            let g = #[trigger] prev[k];
            g.student < s1.len() && g.submission < a.len() && g.penalty <= crate::submissions::PENALTY_SCALE
        } by {
            assert(prev[k] == grades[k]);
        }
        lemma_same_grades_text(s1, s2, a, b, prev);
        let g = grades.last();
        assert(grades[grades.len() - 1] == g);
        lemma_same_students_at(s1, s2, g.student as int);
        lemma_same_subs_at(a, b, g.submission as int);
        lemma_same_sort(a[g.submission as int].tests@, b[g.submission as int].tests@);
        lemma_same_rows(s1[g.student as int].directory_id@, sort_by_number(a[g.submission as int].tests@), sort_by_number(b[g.submission as int].tests@));
    }
}

/// Repeated runs on the same inputs write the same rows: rosters, submission sets and
/// extensions with equal views come to the same outcome, and its grades and parts files
/// hold the same text.  Loading the same texts gives inputs with equal views, since the
/// loaders' contracts state the views they produce.
pub proof fn lemma_same_inputs_same_rows(
    s1: Seq<Student>,
    s2: Seq<Student>,
    a: Seq<Submission>,
    b: Seq<Submission>,
    deadlines: Seq<Deadline>,
    e1: Seq<Extension>,
    e2: Seq<Extension>,
    canonical_uid: Seq<char>,
)
    requires
        same_students(s1, s2),
        views_of(a) == views_of(b),
        same_extensions(e1, e2),
        s1.len() <= usize::MAX,
        a.len() <= usize::MAX,
    ensures
        grade_outcome(s1, a, deadlines, e1, canonical_uid) == grade_outcome(s2, b, deadlines, e2, canonical_uid),
        grade_outcome(s1, a, deadlines, e1, canonical_uid) matches Ok(g) ==> grades_text(s1, a, g) == grades_text(s2, b, g)
            && parts_text(sort_by_number(a[active_index(a, canonical_uid)->Some_0].tests@))
                == parts_text(sort_by_number(b[active_index(b, canonical_uid)->Some_0].tests@)),
{
    lemma_same_outcome(s1, s2, a, b, deadlines, e1, e2, canonical_uid);
    if let Ok(g) = grade_outcome(s1, a, deadlines, e1, canonical_uid) {
        lemma_candidates_ok(s1, s1.len() as int, a, deadlines, e1);
        lemma_grades_in_range(s1, a, deadlines, e1, candidates_of(s1, s1.len() as int, a, deadlines, e1));
        lemma_same_grades_text(s1, s2, a, b, g);
        lemma_same_active_index(a, b, canonical_uid);
        crate::submissions::lemma_active_index_range(a, canonical_uid);
        let c = active_index(a, canonical_uid)->Some_0;
        lemma_same_subs_at(a, b, c);
        lemma_same_sort(a[c].tests@, b[c].tests@);
        lemma_same_rows(Seq::empty(), sort_by_number(a[c].tests@), sort_by_number(b[c].tests@));
    }
}

proof fn lemma_same_entries(s1: Seq<Student>, s2: Seq<Student>, entries: Seq<(Yaml, Yaml)>)
    requires
        same_students(s1, s2),
    ensures
        entries_of(s1, entries) == entries_of(s2, entries),
    decreases entries.len(),
{
    if entries.len() > 0 {
        lemma_same_entries(s1, s2, entries.drop_last());
        let data = entries.last().1;
        if let Some(Yaml::List(subs)) = crate::yaml::yaml_get(data, ":submitters"@) {
            if subs@.len() == 1 {
                if let Some(Yaml::Str(sid)) = crate::yaml::yaml_get(subs@[0], ":sid"@) {
                    lemma_same_uid_index(s1, s2, sid@);
                }
            }
        }
        assert(entry_of(s1, entries.last().0, data) == entry_of(s2, entries.last().0, data));
    }
}

/// The same export text, read against rosters with equal views, gives the same submissions.
pub proof fn lemma_same_export(s1: Seq<Student>, s2: Seq<Student>, text: Seq<char>)
    requires
        same_students(s1, s2),
    ensures
        export_text_of(s1, text) == export_text_of(s2, text),
{
    if let Some(Yaml::Dict(entries)) = crate::yaml::yaml_document(text) {
        lemma_same_entries(s1, s2, entries@);
    }
}

} // verus!
