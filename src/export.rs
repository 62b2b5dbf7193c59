//! Reading the autograder's submission export: a mapping from
//! `submission_<id>` to each student's active submission, which carries the
//! student's earlier attempts in its optional history.  A record is skipped
//! when its status is not `processed` or its results' output reports that it
//! timed out; an entry is skipped whole when its student is not on the roster.

use vstd::prelude::*;
use vstd::string::StrSliceExecFns;
use crate::decimal::{
    decimal_micros, parse_micros, parse_signed_micros, parse_unsigned, signed_micros, unsigned_value,
};
use crate::roster::{first_uid_index, Student};
use crate::text::{contains_text, occurs_in, text_eq};
use crate::submissions::{total_max, total_score, Error, Submission, SubmissionSet, TestCase, MAX_TOTAL};
use crate::time::{instant_nanos, naive_utc_instant, nanos_of, parse_naive_utc};
use crate::yaml::{parse_yaml, yaml_document, yaml_get, Yaml};

verus! {

/// Where an export is malformed: the ID of the submission concerned, where known, and the
/// place of the fault.
pub type Fault = (Option<u64>, usize);

/// A test case as plain values: name, ordering key, score and maximum score.
pub type TestView = (Seq<char>, i64, u64, u64);

/// A submission as plain values: ID, student's university ID, time, tests, active flag.
pub type SubmissionView = (u64, Seq<char>, i128, Seq<TestView>, bool);

pub open spec fn test_view(t: TestCase) -> TestView {
    (t.name@, t.number, t.score, t.max)
}

pub open spec fn submission_view(s: Submission) -> SubmissionView {
    (s.id, s.student@, s.time, s.tests@.map_values(|t: TestCase| test_view(t)), s.active)
}

pub open spec fn views_of(subs: Seq<Submission>) -> Seq<SubmissionView> {
    subs.map_values(|s: Submission| submission_view(s))
}

/// A decimal in millionths, where it fits a `u64`.
pub open spec fn micros(t: Seq<char>) -> Option<u64> {
    match decimal_micros(t) {
        Some(v) => if v <= u64::MAX {
            Some(v as u64)
        } else {
            None
        },
        None => None,
    }
}

/// A test result: a mapping with a string `name`, a string `number` holding a number
/// that may carry a sign and an exponent,
/// and numbers `score` and `max_score`.  A missing or mistyped field is fault 3, an
/// ordering key that is not a decimal fault 20, points that are not one fault 2.
pub open spec fn test_of(t: Yaml) -> Result<TestView, usize> {
    match (yaml_get(t, "name"@), yaml_get(t, "number"@), yaml_get(t, "score"@), yaml_get(t, "max_score"@)) {
        (Some(Yaml::Str(n)), Some(Yaml::Str(k)), Some(Yaml::Number(s)), Some(Yaml::Number(m))) => {
            match signed_micros(k@) {
                Some(k) => match (micros(s@), micros(m@)) {
                    (Some(s), Some(m)) => Ok((n@, k, s, m)),
                    _ => Err(2),
                },
                None => Err(20),
            }
        },
        _ => Err(3),
    }
}

/// The test results of a list, in order; the first bad one decides the fault.
pub open spec fn tests_of(items: Seq<Yaml>) -> Result<Seq<TestView>, usize>
    decreases items.len(),
{
    if items.len() == 0 {
        Ok(Seq::empty())
    } else {
        match tests_of(items.drop_last()) {
            Ok(prev) => match test_of(items.last()) {
                Ok(t) => Ok(prev.push(t)),
                Err(f) => Err(f),
            },
            Err(f) => Err(f),
        }
    }
}

pub open spec fn view_score(tests: Seq<TestView>) -> int
    decreases tests.len(),
{
    if tests.len() == 0 {
        0
    } else {
        view_score(tests.drop_last()) + tests.last().2
    }
}

pub open spec fn view_max(tests: Seq<TestView>) -> int
    decreases tests.len(),
{
    if tests.len() == 0 {
        0
    } else {
        view_max(tests.drop_last()) + tests.last().3
    }
}

/// A record as a submission: its `:created_at` time and the tests of its `:results`.
/// Faults: a time that does not parse 0, no string time 1, no results 5, no test list 4,
/// a bad test as `test_of`, totals beyond `MAX_TOTAL` 2.
pub open spec fn record_of(
    id: u64,
    uid: Seq<char>,
    active: bool,
    data: Yaml,
) -> Result<SubmissionView, usize> {
    match yaml_get(data, ":created_at"@) {
        Some(Yaml::Str(t)) => match naive_utc_instant(t@, "%Y-%m-%d %H:%M:%S.%f Z"@) {
            Some(at) => match yaml_get(data, ":results"@) {
                Some(results) => match yaml_get(results, "tests"@) {
                    Some(Yaml::List(items)) => match tests_of(items@) {
                        Ok(tests) => if view_score(tests) <= MAX_TOTAL && view_max(tests) <= MAX_TOTAL {
                            Ok((id, uid, nanos_of(at) as i128, tests, active))
                        } else {
                            Err(2)
                        },
                        Err(f) => Err(f),
                    },
                    _ => Err(4),
                },
                None => Err(5),
            },
            None => Err(0),
        },
        _ => Err(1),
    }
}

pub(crate) proof fn lemma_totals_view(tests: Seq<TestCase>)
    ensures
        total_score(tests) == view_score(tests.map_values(|t: TestCase| test_view(t))),
        total_max(tests) == view_max(tests.map_values(|t: TestCase| test_view(t))),
    decreases tests.len(),
{
    if tests.len() > 0 {
        lemma_totals_view(tests.drop_last());
        assert(tests.map_values(|t: TestCase| test_view(t)).drop_last() =~= tests.drop_last().map_values(
            |t: TestCase| test_view(t),
        ));
    }
}

/// Reads a test result.
fn load_test(t: &Yaml) -> (r: Result<TestCase, usize>)
    ensures
        r matches Ok(c) ==> test_of(*t) == Ok::<TestView, usize>(test_view(c)),
        r matches Err(f) ==> test_of(*t) == Err::<TestView, usize>(f),
{
    let (name, number, score, max) = match (t.get("name"), t.get("number"), t.get("score"), t.get("max_score")) {
        (Some(Yaml::Str(n)), Some(Yaml::Str(k)), Some(Yaml::Number(s)), Some(Yaml::Number(m))) => (n, k, s, m),
        _ => return Err(3),
    };
    let number = match parse_signed_micros(number.as_str()) {
        Some(v) => v,
        None => return Err(20),
    };
    let score = match parse_micros(score.as_str()) {
        Some(v) => v,
        None => return Err(2),
    };
    let max = match parse_micros(max.as_str()) {
        Some(v) => v,
        None => return Err(2),
    };
    Ok(TestCase { name: name.clone(), number, score, max })
}

/// Reads a list of test results.
fn load_tests(items: &Vec<Yaml>) -> (r: Result<Vec<TestCase>, usize>)
    ensures
        r matches Ok(tests) ==> tests_of(items@) == Ok::<Seq<TestView>, usize>(tests@.map_values(|t: TestCase| test_view(t))),
        r matches Err(f) ==> tests_of(items@) == Err::<Seq<TestView>, usize>(f),
{
        let mut tests: Vec<TestCase> = Vec::new();
        let mut i: usize = 0;
        assert(items@.subrange(0, 0) =~= Seq::<Yaml>::empty());
        assert(tests@.map_values(|t: TestCase| test_view(t)) =~= Seq::<TestView>::empty());
        while i < items.len()
            invariant
                0 <= i <= items.len(),
                tests_of(items@.subrange(0, i as int)) == Ok::<Seq<TestView>, usize>(
                    tests@.map_values(|t: TestCase| test_view(t)),
                ),
            decreases items.len() - i,
        {
            assert(items@.subrange(0, i + 1).drop_last() =~= items@.subrange(0, i as int));
            assert(items@.subrange(0, i + 1).last() == items@[i as int]);
            match load_test(&items[i]) {
                Ok(c) => {
                    let ghost before = tests@;
                    tests.push(c);
                    assert(tests@.map_values(|t: TestCase| test_view(t)) =~= before.map_values(
                        |t: TestCase| test_view(t),
                    ).push(test_view(c)));
                },
                Err(f) => {
                    proof {
                        lemma_tests_of_prefix(items@, i + 1);
                    }
                    return Err(f);
                },
            }
            i = i + 1;
        }
        assert(items@.subrange(0, i as int) =~= items@);
        Ok(tests)
}

impl Submission {
    /// Convert the record of a submission into a `Submission`.
    ///
    /// # Errors
    ///
    /// If the record is malformed, or its totals exceed `MAX_TOTAL`, returns
    /// `SubmissionFormatError` with the submission's ID and the fault that `record_of` names.
    pub fn load(
        id: u64,
        student: &Student,
        active: bool,
        data: &Yaml,
    ) -> (r: Result<Submission, Error>)
        ensures
            r matches Ok(s) ==> record_of(id, student.uid@, active, *data) == Ok::<SubmissionView, usize>(submission_view(s))
                && s.wf(),
            r matches Err(e) ==> record_of(id, student.uid@, active, *data) matches Err(f)
                && e == Error::SubmissionFormatError(Some(id), f),
    {
        let fail = |f: usize| -> (r: Result<Submission, Error>)
            ensures
                r == Err::<Submission, Error>(Error::SubmissionFormatError(Some(id), f)),
            { Err(Error::SubmissionFormatError(Some(id), f)) };
        let at = match data.get(":created_at") {
            Some(Yaml::Str(t)) => match parse_naive_utc(t.as_str(), "%Y-%m-%d %H:%M:%S.%f Z") {
                Some(at) => at,
                None => return fail(0),
            },
            _ => return fail(1),
        };
        let items = match data.get(":results") {
            Some(results) => match results.get("tests") {
                Some(Yaml::List(items)) => items,
                _ => return fail(4),
            },
            None => return fail(5),
        };
        let tests = match load_tests(items) {
            Ok(tests) => tests,
            Err(f) => return fail(f),
        };
        let s = Submission { id, student: student.uid.clone(), time: instant_nanos(at), tests, active };
        let (score, max) = s.totals();
        proof {
            lemma_totals_view(s.tests@);
        }
        if score > MAX_TOTAL as u128 || max > MAX_TOTAL as u128 {
            return fail(2);
        }
        proof {
            assert(nanos_of(at) as i128 == s.time);
        }
        Ok(s)
    }
}

/// A prefix that fails to read makes the whole list fail.
proof fn lemma_tests_of_prefix(items: Seq<Yaml>, m: int)
    requires
        0 <= m <= items.len(),
        tests_of(items.subrange(0, m)) is Err,
    ensures
        tests_of(items) == tests_of(items.subrange(0, m)),
    decreases items.len() - m,
{
    if m < items.len() {
        assert(items.subrange(0, m + 1).drop_last() =~= items.subrange(0, m));
        lemma_tests_of_prefix(items, m + 1);
    } else {
        assert(items.subrange(0, m) =~= items);
    }
}

/// Whether a key starts with `submission_`.
pub open spec fn submission_key(name: Seq<char>) -> bool {
    name.len() >= 11 && name.subrange(0, 11) == "submission_"@
}

/// The ID in a key `submission_<id>`.
pub open spec fn key_id(name: Seq<char>) -> Option<u64> {
    if submission_key(name) {
        match unsigned_value(name.subrange(11, name.len() as int)) {
            Some(v) => if v <= u64::MAX {
                Some(v as u64)
            } else {
                None
            },
            None => None,
        }
    } else {
        None
    }
}

/// Whether a record's output reports that the autograder timed out.
pub open spec fn timed_out(data: Yaml) -> bool {
    yaml_get(data, ":results"@) matches Some(results) && yaml_get(results, "output"@) matches Some(
        Yaml::Str(o),
    ) && occurs_in(o@, "timed out"@)
}

/// Whether a record's `:status` says processed; `None` when it has no string status.
pub open spec fn processed(data: Yaml) -> Option<bool> {
    match yaml_get(data, ":status"@) {
        Some(Yaml::Str(st)) => Some(st@ == "processed"@),
        _ => None,
    }
}

/// A record that holds a graded result: processed, and not timed out.
pub open spec fn record_or_skip(
    id: u64,
    uid: Seq<char>,
    active: bool,
    data: Yaml,
) -> Result<Seq<SubmissionView>, Fault> {
    if timed_out(data) {
        Ok(Seq::empty())
    } else {
        match record_of(id, uid, active, data) {
            Ok(sv) => Ok(seq![sv]),
            Err(f) => Err((Some(id), f)),
        }
    }
}

/// One entry of a history list.  Faults: no numeric `:id` 16, one that is not a
/// non-negative `i64` 15, no string status 21.
pub open spec fn history_item(
    h: Yaml,
    parent: u64,
    uid: Seq<char>,
) -> Result<Seq<SubmissionView>, Fault> {
    match yaml_get(h, ":id"@) {
        Some(Yaml::Number(t)) => match unsigned_value(t@) {
            Some(v) => if v <= i64::MAX {
                let hid = v as u64;
                match processed(h) {
                    Some(true) => record_or_skip(hid, uid, false, h),
                    Some(false) => Ok(Seq::empty()),
                    None => Err((Some(hid), 21)),
                }
            } else {
                Err((None, 15))
            },
            None => Err((None, 15)),
        },
        _ => Err((Some(parent), 16)),
    }
}

/// A history list, in order; the first malformed entry decides the error.
pub open spec fn history_of(
    items: Seq<Yaml>,
    parent: u64,
    uid: Seq<char>,
) -> Result<Seq<SubmissionView>, Fault>
    decreases items.len(),
{
    if items.len() == 0 {
        Ok(Seq::empty())
    } else {
        match history_of(items.drop_last(), parent, uid) {
            Ok(prev) => match history_item(items.last(), parent, uid) {
                Ok(more) => Ok(prev + more),
                Err(e) => Err(e),
            },
            Err(e) => Err(e),
        }
    }
}

/// The submissions of a student resolved on the roster: the active record, when it is
/// processed, then its history.  The history list is optional: a missing one is empty, one
/// that is not a list is fault 17.
pub open spec fn student_records(
    id: u64,
    uid: Seq<char>,
    processed: bool,
    data: Yaml,
) -> Result<Seq<SubmissionView>, Fault> {
    let active = if processed {
        record_or_skip(id, uid, true, data)
    } else {
        Ok(Seq::empty())
    };
    match active {
        Ok(active) => match yaml_get(data, ":history"@) {
            Some(Yaml::List(h)) => match history_of(h@, id, uid) {
                Ok(hs) => Ok(active + hs),
                Err(e) => Err(e),
            },
            Some(_) => Err((Some(id), 17)),
            None => Ok(active),
        },
        Err(e) => Err(e),
    }
}

/// The university ID of a record's only submitter.  Faults: no submitter list 14, not
/// exactly one submitter 10, a submitter that is not a mapping 13 or has no string `:sid` 12.
pub open spec fn submitter_of(data: Yaml) -> Result<Seq<char>, usize> {
    match yaml_get(data, ":submitters"@) {
        Some(Yaml::List(subs)) => if subs@.len() != 1 {
            Err(10)
        } else if !(subs@[0] is Dict) {
            Err(13)
        } else {
            match yaml_get(subs@[0], ":sid"@) {
                Some(Yaml::Str(sid)) => Ok(sid@),
                _ => Err(12),
            }
        },
        _ => Err(14),
    }
}

/// One entry of the export: the active record and its history.  An active record that is
/// not processed is skipped, its history still read; a student not on the roster adds
/// nothing.  Faults: a key that is not a string 9, not `submission_` 8, or without a number
/// after it 7; no string status 21; a bad submitter as `submitter_of`, except that an
/// unprocessed entry without a proper submitter is skipped whole.
pub open spec fn entry_of(
    students: Seq<Student>,
    name: Yaml,
    data: Yaml,
) -> Result<Seq<SubmissionView>, Fault> {
    match name {
        Yaml::Str(n) => if !submission_key(n@) {
            Err((None, 8))
        } else {
            match key_id(n@) {
                Some(id) => match processed(data) {
                    Some(p) => match submitter_of(data) {
                        Ok(sid) => if first_uid_index(students, sid) is None {
                            Ok(Seq::empty())
                        } else {
                            student_records(id, sid, p, data)
                        },
                        Err(f) => if p {
                            Err((Some(id), f))
                        } else {
                            Ok(Seq::empty())
                        },
                    },
                    None => Err((Some(id), 21)),
                },
                None => Err((None, 7)),
            }
        },
        _ => Err((None, 9)),
    }
}

pub open spec fn entries_of(
    students: Seq<Student>,
    entries: Seq<(Yaml, Yaml)>,
) -> Result<Seq<SubmissionView>, Fault>
    decreases entries.len(),
{
    if entries.len() == 0 {
        Ok(Seq::empty())
    } else {
        match entries_of(students, entries.drop_last()) {
            Ok(prev) => match entry_of(students, entries.last().0, entries.last().1) {
                Ok(more) => Ok(prev + more),
                Err(e) => Err(e),
            },
            Err(e) => Err(e),
        }
    }
}

/// The submissions of an export document, in document order; `Err` names the first
/// fault.  A document that is not a mapping is fault 18.
pub open spec fn export_of(
    students: Seq<Student>,
    doc: Yaml,
) -> Result<Seq<SubmissionView>, Fault> {
    match doc {
        Yaml::Dict(entries) => entries_of(students, entries@),
        _ => Err((None, 18)),
    }
}

/// The submissions of an export given as YAML text; text that is not YAML is fault 6.
pub open spec fn export_text_of(
    students: Seq<Student>,
    text: Seq<char>,
) -> Result<Seq<SubmissionView>, Fault> {
    match yaml_document(text) {
        Some(doc) => export_of(students, doc),
        None => Err((None, 6)),
    }
}

pub open spec fn all_wf(subs: Seq<Submission>) -> bool {
    forall|i: int| 0 <= i < subs.len() ==> (#[trigger] subs[i]).wf()
}

proof fn lemma_views_append(a: Seq<Submission>, b: Seq<Submission>)
    ensures
        views_of(a + b) == views_of(a) + views_of(b),
        all_wf(a) && all_wf(b) ==> all_wf(a + b),
{
    assert(views_of(a + b) =~= views_of(a) + views_of(b));
    if all_wf(a) && all_wf(b) {
        assert forall|i: int| 0 <= i < (a + b).len() implies (#[trigger] (a + b)[i]).wf() by {
            if i >= a.len() {
                assert((a + b)[i] == b[i - a.len()]);
            }
        }
    }
}

/// Whether a key starts with `submission_`.
fn is_submission_key(name: &str) -> (r: bool)
    ensures
        r == submission_key(name@),
{
    proof {
        reveal_strlit("submission_");
    }
    let n = name.unicode_len();
    n >= 11 && text_eq(name.substring_char(0, 11), "submission_")
}

/// Reads the ID of a key `submission_<id>`.
fn load_key_id(name: &str) -> (r: Option<u64>)
    ensures
        r matches Some(v) ==> key_id(name@) == Some(v),
        r is None ==> key_id(name@) is None,
{
    if !is_submission_key(name) {
        return None;
    }
    let n = name.unicode_len();
    let rest = name.substring_char(11, n);
    parse_unsigned(rest, u64::MAX)
}

fn is_timed_out(data: &Yaml) -> (r: bool)
    ensures
        r == timed_out(*data),
{
    match data.get(":results") {
        Some(results) => match results.get("output") {
            Some(Yaml::Str(o)) => contains_text(o.as_str(), "timed out"),
            _ => false,
        },
        None => false,
    }
}

fn is_processed(data: &Yaml) -> (r: Option<bool>)
    ensures
        r == processed(*data),
{
    match data.get(":status") {
        Some(Yaml::Str(st)) => Some(text_eq(st.as_str(), "processed")),
        _ => None,
    }
}

fn load_record(
    id: u64,
    student: &Student,
    active: bool,
    data: &Yaml,
) -> (r: Result<Vec<Submission>, Error>)
    ensures
        r matches Ok(v) ==> record_or_skip(id, student.uid@, active, *data) == Ok::<Seq<SubmissionView>, Fault>(views_of(v@)) && all_wf(v@),
        r matches Err(e) ==> record_or_skip(id, student.uid@, active, *data) matches Err(x) && e == Error::SubmissionFormatError(x.0, x.1),
{
    if is_timed_out(data) {
        let v: Vec<Submission> = Vec::new();
        assert(views_of(v@) =~= Seq::<SubmissionView>::empty());
        return Ok(v);
    }
    match Submission::load(id, student, active, data) {
        Ok(s) => {
            let mut v: Vec<Submission> = Vec::new();
            v.push(s);
            assert(views_of(v@) =~= seq![submission_view(s)]);
            Ok(v)
        },
        Err(e) => Err(e),
    }
}

fn load_history_item(
    h: &Yaml,
    parent: u64,
    student: &Student,
) -> (r: Result<Vec<Submission>, Error>)
    ensures
        r matches Ok(v) ==> history_item(*h, parent, student.uid@) == Ok::<Seq<SubmissionView>, Fault>(views_of(v@)) && all_wf(v@),
        r matches Err(e) ==> history_item(*h, parent, student.uid@) matches Err(x) && e == Error::SubmissionFormatError(x.0, x.1),
{
    let hid = match h.get(":id") {
        Some(Yaml::Number(t)) => match parse_unsigned(t.as_str(), i64::MAX as u64) {
            Some(v) => v,
            None => return Err(Error::SubmissionFormatError(None, 15)),
        },
        _ => return Err(Error::SubmissionFormatError(Some(parent), 16)),
    };
    match is_processed(h) {
        Some(true) => load_record(hid, student, false, h),
        Some(false) => {
            let v: Vec<Submission> = Vec::new();
            assert(views_of(v@) =~= Seq::<SubmissionView>::empty());
            Ok(v)
        },
        None => Err(Error::SubmissionFormatError(Some(hid), 21)),
    }
}

fn load_history(
    items: &Vec<Yaml>,
    parent: u64,
    student: &Student,
) -> (r: Result<Vec<Submission>, Error>)
    ensures
        r matches Ok(v) ==> history_of(items@, parent, student.uid@) == Ok::<Seq<SubmissionView>, Fault>(views_of(v@)) && all_wf(v@),
        r matches Err(e) ==> history_of(items@, parent, student.uid@) matches Err(x) && e == Error::SubmissionFormatError(x.0, x.1),
{
    let mut out: Vec<Submission> = Vec::new();
    let mut i: usize = 0;
    assert(views_of(out@) =~= Seq::<SubmissionView>::empty());
    while i < items.len()
        invariant
            0 <= i <= items.len(),
            history_of(items@.subrange(0, i as int), parent, student.uid@) == Ok::<Seq<SubmissionView>, Fault>(views_of(out@)),
            all_wf(out@),
        decreases items.len() - i,
    {
        assert(items@.subrange(0, i + 1).drop_last() =~= items@.subrange(0, i as int));
        assert(items@.subrange(0, i + 1).last() == items@[i as int]);
        match load_history_item(&items[i], parent, student) {
            Ok(mut more) => {
                let ghost before = out@;
                let ghost added = more@;
                out.append(&mut more);
                proof {
                    lemma_views_append(before, added);
                }
            },
            Err(e) => {
                proof {
                    lemma_history_prefix(items@, parent, student.uid@, i + 1);
                }
                return Err(e);
            },
        }
        i = i + 1;
    }
    assert(items@.subrange(0, i as int) =~= items@);
    Ok(out)
}

/// An error in a prefix of the history is the error of the whole history.
proof fn lemma_history_prefix(items: Seq<Yaml>, parent: u64, uid: Seq<char>, m: int)
    requires
        0 <= m <= items.len(),
        history_of(items.subrange(0, m), parent, uid) is Err,
    ensures
        history_of(items, parent, uid) == history_of(items.subrange(0, m), parent, uid),
    decreases items.len() - m,
{
    if m < items.len() {
        assert(items.subrange(0, m + 1).drop_last() =~= items.subrange(0, m));
        lemma_history_prefix(items, parent, uid, m + 1);
    } else {
        assert(items.subrange(0, m) =~= items);
    }
}

fn load_student_records(
    id: u64,
    student: &Student,
    processed: bool,
    data: &Yaml,
) -> (r: Result<Vec<Submission>, Error>)
    ensures
        r matches Ok(v) ==> student_records(id, student.uid@, processed, *data) == Ok::<
            Seq<SubmissionView>,
            Fault,
        >(views_of(v@)) && all_wf(v@),
        r matches Err(e) ==> student_records(id, student.uid@, processed, *data) matches Err(x)
            && e == Error::SubmissionFormatError(x.0, x.1),
{
    let mut out = if processed {
        match load_record(id, student, true, data) {
            Ok(v) => v,
            Err(e) => return Err(e),
        }
    } else {
        let v: Vec<Submission> = Vec::new();
        assert(views_of(v@) =~= Seq::<SubmissionView>::empty());
        v
    };
    match data.get(":history") {
        Some(Yaml::List(h)) => match load_history(h, id, student) {
            Ok(mut more) => {
                let ghost before = out@;
                let ghost added = more@;
                out.append(&mut more);
                proof {
                    lemma_views_append(before, added);
                }
                Ok(out)
            },
            Err(e) => Err(e),
        },
        Some(_) => Err(Error::SubmissionFormatError(Some(id), 17)),
        None => Ok(out),
    }
}

/// The university ID of a record's only submitter.
fn load_submitter(data: &Yaml) -> (r: Result<&String, usize>)
    ensures
        r matches Ok(sid) ==> submitter_of(*data) == Ok::<Seq<char>, usize>(sid@),
        r matches Err(f) ==> submitter_of(*data) == Err::<Seq<char>, usize>(f),
{
    match data.get(":submitters") {
        Some(Yaml::List(subs)) => {
            if subs.len() != 1 {
                return Err(10);
            }
            match &subs[0] {
                Yaml::Dict(_) => {},
                _ => return Err(13),
            }
            match subs[0].get(":sid") {
                Some(Yaml::Str(sid)) => Ok(sid),
                _ => Err(12),
            }
        },
        _ => Err(14),
    }
}

impl<'r> SubmissionSet<'r> {
    /// Whether every submission's totals stay within `MAX_TOTAL`, as loading ensures.
    pub fn scores_fit(&self) -> (r: bool)
        ensures
            r == all_wf(self.submissions@),
    {
        let mut i: usize = 0;
        while i < self.submissions.len()
            invariant
                0 <= i <= self.submissions.len(),
                forall|j: int| 0 <= j < i ==> (#[trigger] self.submissions@[j]).wf(),
            decreases self.submissions.len() - i,
        {
            let (score, max) = self.submissions[i].totals();
            if score > MAX_TOTAL as u128 || max > MAX_TOTAL as u128 {
                return false;
            }
            i = i + 1;
        }
        true
    }

    /// The submissions of one export entry.
    fn load_entry(&self, name: &Yaml, data: &Yaml) -> (r: Result<Vec<Submission>, Error>)
        ensures
            r matches Ok(v) ==> entry_of(self.roster.students@, *name, *data) == Ok::<Seq<SubmissionView>, Fault>(views_of(v@)) && all_wf(v@),
            r matches Err(e) ==> entry_of(self.roster.students@, *name, *data) matches Err(x) && e == Error::SubmissionFormatError(x.0, x.1),
    {
        let id = match name {
            Yaml::Str(n) => {
                if !is_submission_key(n.as_str()) {
                    return Err(Error::SubmissionFormatError(None, 8));
                }
                match load_key_id(n.as_str()) {
                    Some(id) => id,
                    None => return Err(Error::SubmissionFormatError(None, 7)),
                }
            },
            _ => return Err(Error::SubmissionFormatError(None, 9)),
        };
        let nothing: Vec<Submission> = Vec::new();
        assert(views_of(nothing@) =~= Seq::<SubmissionView>::empty());
        let processed = match is_processed(data) {
            Some(p) => p,
            None => return Err(Error::SubmissionFormatError(Some(id), 21)),
        };
        let sid = match load_submitter(data) {
            Ok(sid) => sid,
            Err(f) => {
                if processed {
                    return Err(Error::SubmissionFormatError(Some(id), f));
                }
                return Ok(nothing);
            },
        };
        let student = match self.roster.find_student_by_uid(sid.clone()) {
            Some(student) => student,
            None => return Ok(nothing),
        };
        proof {
            crate::roster::lemma_first_uid_index(self.roster.students@, sid@);
        }
        load_student_records(id, student, processed, data)
    }

    /// Adds the submissions of an export document, in document order, and returns how many
    /// were added.  Records that are not processed or that timed out are skipped, and so are
    /// entries whose student is not on the roster.
    ///
    /// # Errors
    ///
    /// If the document is not a mapping of `submission_<id>` keys to well-formed records,
    /// returns `SubmissionFormatError` with the first fault that `export_of` names: the ID
    /// of the submission concerned, where known, and the place of the fault.  Nothing is
    /// added then.
    pub fn load_document(&mut self, doc: &Yaml) -> (r: Result<usize, Error>)
        ensures
            final(self).roster == old(self).roster,
            export_of(old(self).roster.students@, *doc) matches Ok(vs) ==> r == Ok::<usize, Error>(vs.len() as usize)
                && views_of(final(self).submissions@) == views_of(old(self).submissions@) + vs,
            export_of(old(self).roster.students@, *doc) matches Err(x) ==> r == Err::<usize, Error>(Error::SubmissionFormatError(x.0, x.1))
                && final(self).submissions@ == old(self).submissions@,
            all_wf(old(self).submissions@) ==> all_wf(final(self).submissions@),
    {
        let entries = match doc {
            Yaml::Dict(entries) => entries,
            _ => return Err(Error::SubmissionFormatError(None, 18)),
        };
        let mut out: Vec<Submission> = Vec::new();
        let mut i: usize = 0;
        assert(views_of(out@) =~= Seq::<SubmissionView>::empty());
        while i < entries.len()
            invariant
                0 <= i <= entries.len(),
                *doc == Yaml::Dict(*entries),
                entries_of(self.roster.students@, entries@.subrange(0, i as int)) == Ok::<Seq<SubmissionView>, Fault>(views_of(out@)),
                all_wf(out@),
            decreases entries.len() - i,
        {
            assert(entries@.subrange(0, i + 1).drop_last() =~= entries@.subrange(0, i as int));
            assert(entries@.subrange(0, i + 1).last() == entries@[i as int]);
            match self.load_entry(&entries[i].0, &entries[i].1) {
                Ok(mut more) => {
                    let ghost before = out@;
                    let ghost added = more@;
                    out.append(&mut more);
                    proof {
                        lemma_views_append(before, added);
                    }
                },
                Err(e) => {
                    proof {
                        lemma_entries_prefix(self.roster.students@, entries@, i + 1);
                    }
                    return Err(e);
                },
            }
            i = i + 1;
        }
        assert(entries@.subrange(0, i as int) =~= entries@);
        let count = out.len();
        let ghost before = self.submissions@;
        let ghost added = out@;
        self.submissions.append(&mut out);
        proof {
            lemma_views_append(before, added);
        }
        Ok(count)
    }

    /// Adds the submissions of an export given as YAML text; see `load_document`.
    ///
    /// # Errors
    ///
    /// Text that is not YAML gives `SubmissionFormatError(None, 6)`; otherwise as
    /// `load_document`.
    pub fn load(&mut self, text: &str) -> (r: Result<usize, Error>)
        ensures
            final(self).roster == old(self).roster,
            export_text_of(old(self).roster.students@, text@) matches Ok(vs) ==> r == Ok::<usize, Error>(vs.len() as usize)
                && views_of(final(self).submissions@) == views_of(old(self).submissions@) + vs,
            export_text_of(old(self).roster.students@, text@) matches Err(x) ==> r == Err::<usize, Error>(Error::SubmissionFormatError(x.0, x.1))
                && final(self).submissions@ == old(self).submissions@,
            all_wf(old(self).submissions@) ==> all_wf(final(self).submissions@),
    {
        match parse_yaml(text) {
            Some(doc) => self.load_document(&doc),
            None => Err(Error::SubmissionFormatError(None, 6)),
        }
    }
}

/// An error in a prefix of the entries is the error of the whole export.
proof fn lemma_entries_prefix(students: Seq<Student>, entries: Seq<(Yaml, Yaml)>, m: int)
    requires
        0 <= m <= entries.len(),
        entries_of(students, entries.subrange(0, m)) is Err,
    ensures
        entries_of(students, entries) == entries_of(students, entries.subrange(0, m)),
    decreases entries.len() - m,
{
    if m < entries.len() {
        assert(entries.subrange(0, m + 1).drop_last() =~= entries.subrange(0, m));
        lemma_entries_prefix(students, entries, m + 1);
    } else {
        assert(entries.subrange(0, m) =~= entries);
    }
}

/// Why a record of the export was skipped.
#[derive(Debug, PartialEq, Eq, Structural, Clone, Copy)]
pub enum SkipReason {
    /// Its status is neither `processed` nor `failed`: testing had not finished.
    Unfinished,
    /// Its status is `failed`, an expected end for an autograder run.
    Failed,
    /// Its output reports that it timed out.
    TimedOut,
    /// Its student is not on the roster; the whole entry is skipped.
    UnknownStudent,
}

/// Whether a record's status is `failed`.
pub open spec fn failed(data: Yaml) -> bool {
    yaml_get(data, ":status"@) matches Some(Yaml::Str(st)) && st@ == "failed"@
}

/// Why a record with a string status that is not `processed` was skipped.
pub open spec fn unprocessed_reason(data: Yaml) -> SkipReason {
    if failed(data) {
        SkipReason::Failed
    } else {
        SkipReason::Unfinished
    }
}

/// The skip of one record of a resolved student, if it is skipped.
pub open spec fn record_skip(id: u64, data: Yaml) -> Seq<(u64, SkipReason)> {
    match processed(data) {
        Some(false) => seq![(id, unprocessed_reason(data))],
        Some(true) => if timed_out(data) {
            seq![(id, SkipReason::TimedOut)]
        } else {
            Seq::empty()
        },
        None => Seq::empty(),
    }
}

pub open spec fn history_skips(items: Seq<Yaml>) -> Seq<(u64, SkipReason)>
    decreases items.len(),
{
    if items.len() == 0 {
        Seq::empty()
    } else {
        let h = items.last();
        let more = match yaml_get(h, ":id"@) {
            Some(Yaml::Number(t)) => match unsigned_value(t@) {
                Some(v) => if v <= i64::MAX {
                    record_skip(v as u64, h)
                } else {
                    Seq::empty()
                },
                None => Seq::empty(),
            },
            _ => Seq::empty(),
        };
        history_skips(items.drop_last()) + more
    }
}

/// The records of one entry that loading skips, with the reason, in document order.
pub open spec fn entry_skips(students: Seq<Student>, name: Yaml, data: Yaml) -> Seq<(u64, SkipReason)> {
    match name {
        Yaml::Str(n) => match key_id(n@) {
            Some(id) => match processed(data) {
                Some(p) => match submitter_of(data) {
                    Ok(sid) => if first_uid_index(students, sid) is None {
                        seq![(id, SkipReason::UnknownStudent)]
                    } else {
                        record_skip(id, data) + match yaml_get(data, ":history"@) {
                            Some(Yaml::List(h)) => history_skips(h@),
                            _ => Seq::empty(),
                        }
                    },
                    Err(_) => if p {
                        Seq::empty()
                    } else {
                        seq![(id, unprocessed_reason(data))]
                    },
                },
                None => Seq::empty(),
            },
            None => Seq::empty(),
        },
        _ => Seq::empty(),
    }
}

pub open spec fn entries_skips(students: Seq<Student>, entries: Seq<(Yaml, Yaml)>) -> Seq<(u64, SkipReason)>
    decreases entries.len(),
{
    if entries.len() == 0 {
        Seq::empty()
    } else {
        entries_skips(students, entries.drop_last()) + entry_skips(students, entries.last().0, entries.last().1)
    }
}

/// The records of an export that loading skips, with the reason, in document order.
pub open spec fn export_skips(students: Seq<Student>, text: Seq<char>) -> Seq<(u64, SkipReason)> {
    match yaml_document(text) {
        Some(Yaml::Dict(entries)) => entries_skips(students, entries@),
        _ => Seq::empty(),
    }
}

fn is_failed(data: &Yaml) -> (r: bool)
    ensures
        r == failed(*data),
{
    match data.get(":status") {
        Some(Yaml::Str(st)) => text_eq(st.as_str(), "failed"),
        _ => false,
    }
}

fn unprocessed_reason_of(data: &Yaml) -> (r: SkipReason)
    ensures
        r == unprocessed_reason(*data),
{
    if is_failed(data) {
        SkipReason::Failed
    } else {
        SkipReason::Unfinished
    }
}

fn push_record_skip(out: &mut Vec<(u64, SkipReason)>, id: u64, data: &Yaml)
    ensures
        final(out)@ == old(out)@ + record_skip(id, *data),
{
    match is_processed(data) {
        Some(false) => {
            out.push((id, unprocessed_reason_of(data)));
            assert(final(out)@ =~= old(out)@ + record_skip(id, *data));
        },
        Some(true) => {
            if is_timed_out(data) {
                out.push((id, SkipReason::TimedOut));
                assert(final(out)@ =~= old(out)@ + record_skip(id, *data));
            } else {
                assert(final(out)@ =~= old(out)@ + record_skip(id, *data));
            }
        },
        None => {
            assert(final(out)@ =~= old(out)@ + record_skip(id, *data));
        },
    }
}

fn push_history_skips(out: &mut Vec<(u64, SkipReason)>, items: &Vec<Yaml>)
    ensures
        final(out)@ == old(out)@ + history_skips(items@),
{
    let ghost start = out@;
    let mut i: usize = 0;
    assert(items@.subrange(0, 0) =~= Seq::<Yaml>::empty());
    assert(out@ =~= start + history_skips(items@.subrange(0, 0)));
    while i < items.len()
        invariant
            0 <= i <= items.len(),
            out@ == start + history_skips(items@.subrange(0, i as int)),
        decreases items.len() - i,
    {
        assert(items@.subrange(0, i + 1).drop_last() =~= items@.subrange(0, i as int));
        assert(items@.subrange(0, i + 1).last() == items@[i as int]);
        let h = &items[i];
        let ghost before = out@;
        match h.get(":id") {
            Some(Yaml::Number(t)) => match parse_unsigned(t.as_str(), i64::MAX as u64) {
                Some(v) => push_record_skip(out, v, h),
                None => {},
            },
            _ => {},
        }
        assert(out@ =~= start + history_skips(items@.subrange(0, i + 1)));
        i = i + 1;
    }
    assert(items@.subrange(0, i as int) =~= items@);
}

impl<'r> SubmissionSet<'r> {
    fn push_entry_skips(&self, out: &mut Vec<(u64, SkipReason)>, name: &Yaml, data: &Yaml)
        ensures
            final(out)@ == old(out)@ + entry_skips(self.roster.students@, *name, *data),
    {
        let id = match name {
            Yaml::Str(n) => match load_key_id(n.as_str()) {
                Some(id) => id,
                None => {
                    assert(final(out)@ =~= old(out)@ + entry_skips(self.roster.students@, *name, *data));
                    return;
                },
            },
            _ => {
                assert(final(out)@ =~= old(out)@ + entry_skips(self.roster.students@, *name, *data));
                return;
            },
        };
        let processed = match is_processed(data) {
            Some(p) => p,
            None => {
                assert(final(out)@ =~= old(out)@ + entry_skips(self.roster.students@, *name, *data));
                return;
            },
        };
        match load_submitter(data) {
            Ok(sid) => {
                if self.roster.index_of_uid(sid.as_str()).is_none() {
                    out.push((id, SkipReason::UnknownStudent));
                    assert(final(out)@ =~= old(out)@ + entry_skips(self.roster.students@, *name, *data));
                    return;
                }
                push_record_skip(out, id, data);
                match data.get(":history") {
                    Some(Yaml::List(h)) => push_history_skips(out, h),
                    _ => {},
                }
                assert(final(out)@ =~= old(out)@ + entry_skips(self.roster.students@, *name, *data));
            },
            Err(_) => {
                if !processed {
                    out.push((id, unprocessed_reason_of(data)));
                }
                assert(final(out)@ =~= old(out)@ + entry_skips(self.roster.students@, *name, *data));
            },
        }
    }

    /// The records of an export given as YAML text that `load` skips, with the reason, in
    /// document order: unfinished or failed records, timed-out ones, and entries whose
    /// student is not on the roster.
    pub fn skipped(&self, text: &str) -> (r: Vec<(u64, SkipReason)>)
        ensures
            r@ == export_skips(self.roster.students@, text@),
    {
        let mut out: Vec<(u64, SkipReason)> = Vec::new();
        let doc = match parse_yaml(text) {
            Some(doc) => doc,
            None => return out,
        };
        let entries = match &doc {
            Yaml::Dict(entries) => entries,
            _ => return out,
        };
        let mut i: usize = 0;
        assert(entries@.subrange(0, 0) =~= Seq::<(Yaml, Yaml)>::empty());
        assert(out@ =~= entries_skips(self.roster.students@, entries@.subrange(0, 0)));
        while i < entries.len()
            invariant
                0 <= i <= entries.len(),
                doc == Yaml::Dict(*entries),
                doc == yaml_document(text@)->Some_0,
                yaml_document(text@) is Some,
                out@ == entries_skips(self.roster.students@, entries@.subrange(0, i as int)),
            decreases entries.len() - i,
        {
            assert(entries@.subrange(0, i + 1).drop_last() =~= entries@.subrange(0, i as int));
            assert(entries@.subrange(0, i + 1).last() == entries@[i as int]);
            self.push_entry_skips(&mut out, &entries[i].0, &entries[i].1);
            i = i + 1;
        }
        assert(entries@.subrange(0, i as int) =~= entries@);
        out
    }
}

} // verus!
