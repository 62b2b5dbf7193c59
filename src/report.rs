//! The text of a run's results: one row per test of each graded student's
//! winning submission, a summary row per student, the rubric's parts, and the
//! IDs of invalid submissions.

use vstd::prelude::*;
use vstd::string::{StrSliceExecFns, StringExecFns};
use crate::decimal::pow10;
use crate::grading::Grade;
use crate::roster::{Roster, Student};
use crate::submissions::{Submission, TestCase, PENALTY_SCALE};

verus! {

pub open spec fn digit_char(d: int) -> char {
    if d == 0 {
        '0'
    } else if d == 1 {
        '1'
    } else if d == 2 {
        '2'
    } else if d == 3 {
        '3'
    } else if d == 4 {
        '4'
    } else if d == 5 {
        '5'
    } else if d == 6 {
        '6'
    } else if d == 7 {
        '7'
    } else if d == 8 {
        '8'
    } else {
        '9'
    }
}

/// The decimal digits of `n`.
pub open spec fn nat_text(n: nat) -> Seq<char>
    decreases n,
{
    if n < 10 {
        seq![digit_char(n as int)]
    } else {
        nat_text(n / 10).push(digit_char((n % 10) as int))
    }
}

/// `s` with zeros in front, to `width` characters.
pub open spec fn zero_pad(s: Seq<char>, width: nat) -> Seq<char>
    decreases width - s.len(),
{
    if s.len() >= width {
        s
    } else {
        zero_pad(seq!['0'] + s, width)
    }
}

/// `s` without its trailing zeros.
pub open spec fn strip_zeros(s: Seq<char>) -> Seq<char>
    decreases s.len(),
{
    if s.len() > 0 && s.last() == '0' {
        strip_zeros(s.drop_last())
    } else {
        s
    }
}

/// A value held in millionths, written as a decimal without trailing zeros:
/// `2500000` is `2.5`, `10000000` is `10`.
pub open spec fn micros_text(v: nat) -> Seq<char> {
    let whole = nat_text(v / 1_000_000);
    if v % 1_000_000 == 0 {
        whole
    } else {
        whole + seq!['.'] + strip_zeros(zero_pad(nat_text(v % 1_000_000), 6))
    }
}

/// The text of one decimal digit.
fn digit_text(d: u64) -> (r: &'static str)
    requires
        d < 10,
    ensures
        r@ == seq![digit_char(d as int)],
{
    proof {
        reveal_strlit("0");
        reveal_strlit("1");
        reveal_strlit("2");
        reveal_strlit("3");
        reveal_strlit("4");
        reveal_strlit("5");
        reveal_strlit("6");
        reveal_strlit("7");
        reveal_strlit("8");
        reveal_strlit("9");
    }
    if d == 0 {
        "0"
    } else if d == 1 {
        "1"
    } else if d == 2 {
        "2"
    } else if d == 3 {
        "3"
    } else if d == 4 {
        "4"
    } else if d == 5 {
        "5"
    } else if d == 6 {
        "6"
    } else if d == 7 {
        "7"
    } else if d == 8 {
        "8"
    } else {
        "9"
    }
}

/// The decimal digits of `n`, without sign or padding.
fn u64_text(n: u64) -> (r: String)
    ensures
        r@ == nat_text(n as nat),
    decreases n,
{
    if n < 10 {
        String::from_str(digit_text(n))
    } else {
        let mut out = u64_text(n / 10);
        out.append(digit_text(n % 10));
        out
    }
}

/// Writes a value held in millionths as a decimal without trailing zeros.
pub fn format_micros(v: u64) -> (r: String)
    ensures
        r@ == micros_text(v as nat),
{
    let mut out = u64_text(v / 1_000_000);
    let frac = v % 1_000_000;
    if frac == 0 {
        return out;
    }
    let mut digits = u64_text(frac);
    proof {
        reveal_strlit("0");
        reveal_strlit(".");
        lemma_pow10_six();
        lemma_nat_text_len(frac as nat, 6);
    }
    while digits.as_str().unicode_len() < 6
        invariant
            zero_pad(digits@, 6) == zero_pad(nat_text(frac as nat), 6),
            digits@.len() <= 6,
        decreases 6 - digits@.len(),
    {
        proof {
            reveal_strlit("0");
        }
        let mut padded = String::from_str("0");
        padded.append(digits.as_str());
        assert(padded@ == seq!['0'] + digits@);
        digits = padded;
    }
    let ghost padded = digits@;
    assert(zero_pad(padded, 6) == padded);
    let mut k: usize = digits.as_str().unicode_len();
    assert(padded.subrange(0, k as int) =~= padded);
    while k > 0 && digits.as_str().get_char(k - 1) == '0'
        invariant
            0 <= k <= padded.len(),
            digits@ == padded,
            strip_zeros(padded) == strip_zeros(padded.subrange(0, k as int)),
        decreases k,
    {
        assert(padded.subrange(0, k - 1) =~= padded.subrange(0, k as int).drop_last());
        k = k - 1;
    }
    let kept = digits.as_str().substring_char(0, k);
    assert(strip_zeros(padded.subrange(0, k as int)) == padded.subrange(0, k as int));
    out.append(".");
    out.append(kept);
    out
}

proof fn lemma_pow10_six()
    ensures
        pow10(6) == 1_000_000,
{
    assert(pow10(0) == 1);
    assert(pow10(1) == 10);
    assert(pow10(2) == 100);
    assert(pow10(3) == 1000);
    assert(pow10(4) == 10000);
    assert(pow10(5) == 100000);
}

/// A number below `10^k` has at most `k` digits.
proof fn lemma_nat_text_len(n: nat, k: nat)
    requires
        n < pow10(k),
        k >= 1,
    ensures
        nat_text(n).len() <= k,
    decreases n,
{
    if n >= 10 {
        assert(pow10(k) == 10 * pow10((k - 1) as nat));
        if k == 1 {
            assert(pow10(0) == 1);
        }
        lemma_nat_text_len(n / 10, (k - 1) as nat);
    }
}

/// `t` placed into `sorted` after every test whose ordering key is not larger.
pub open spec fn insert_by_number(sorted: Seq<TestCase>, t: TestCase) -> Seq<TestCase>
    decreases sorted.len(),
{
    if sorted.len() == 0 {
        seq![t]
    } else if t.number < sorted.last().number {
        insert_by_number(sorted.drop_last(), t).push(sorted.last())
    } else {
        sorted.push(t)
    }
}

/// The tests ordered by their ordering key; tests with equal keys keep their order.
pub open spec fn sort_by_number(tests: Seq<TestCase>) -> Seq<TestCase>
    decreases tests.len(),
{
    if tests.len() == 0 {
        Seq::empty()
    } else {
        insert_by_number(sort_by_number(tests.drop_last()), tests.last())
    }
}

proof fn lemma_insert_at(sorted: Seq<TestCase>, t: TestCase, p: int)
    requires
        0 <= p <= sorted.len(),
        forall|i: int| p <= i < sorted.len() ==> t.number < #[trigger] sorted[i].number,
        p > 0 ==> sorted[p - 1].number <= t.number,
    ensures
        insert_by_number(sorted, t) == sorted.insert(p, t),
    decreases sorted.len(),
{
    if sorted.len() == 0 {
        assert(sorted.insert(p, t) =~= seq![t]);
    } else if p == sorted.len() {
        assert(sorted.insert(p, t) =~= sorted.push(t));
    } else {
        let rest = sorted.drop_last();
        assert forall|i: int| p <= i < rest.len() implies t.number < #[trigger] rest[i].number by {
            assert(rest[i] == sorted[i]);
        }
        lemma_insert_at(rest, t, p);
        assert(sorted.insert(p, t) =~= rest.insert(p, t).push(sorted.last()));
    }
}

/// A copy of the tests, ordered by their ordering key; equal keys keep their order.
pub fn sorted_tests(tests: &Vec<TestCase>) -> (r: Vec<TestCase>)
    ensures
        r@ == sort_by_number(tests@),
{
    let mut out: Vec<TestCase> = Vec::new();
    let mut i: usize = 0;
    while i < tests.len()
        invariant
            0 <= i <= tests.len(),
            out@ == sort_by_number(tests@.subrange(0, i as int)),
        decreases tests.len() - i,
    {
        assert(tests@.subrange(0, i + 1).drop_last() =~= tests@.subrange(0, i as int));
        let t = tests[i].copied();
        let mut p: usize = out.len();
        while p > 0 && t.number < out[p - 1].number
            invariant
                0 <= p <= out.len(),
                forall|k: int| p <= k < out@.len() ==> t.number < #[trigger] out@[k].number,
            decreases p,
        {
            p = p - 1;
        }
        proof {
            lemma_insert_at(out@, t, p as int);
        }
        out.insert(p, t);
        i = i + 1;
    }
    assert(tests@.subrange(0, i as int) =~= tests@);
    out
}

/// The row of one test: login, test name, awarded points.
pub open spec fn test_row(login: Seq<char>, t: TestCase) -> Seq<char> {
    login + ","@ + t.name@ + ","@ + micros_text(t.score as nat) + ",\n"@
}

pub open spec fn test_rows(login: Seq<char>, tests: Seq<TestCase>) -> Seq<char>
    decreases tests.len(),
{
    if tests.len() == 0 {
        Seq::empty()
    } else {
        test_rows(login, tests.drop_last()) + test_row(login, tests.last())
    }
}

/// The summary row of a student: the share kept after the penalty, marked late when
/// there is a penalty.
pub open spec fn summary_row(login: Seq<char>, penalty: u64) -> Seq<char> {
    if penalty == 0 {
        login + ",*,*1,\n"@
    } else {
        login + ",*,*"@ + micros_text((PENALTY_SCALE - penalty) as nat) + ",Late\n"@
    }
}

/// The rows of one grade: its winning submission's tests by ordering key, then the summary.
pub open spec fn grade_rows(students: Seq<Student>, subs: Seq<Submission>, g: Grade) -> Seq<char> {
    let login = students[g.student as int].directory_id@;
    test_rows(login, sort_by_number(subs[g.submission as int].tests@)) + summary_row(login, g.penalty)
}

pub open spec fn grades_text(
    students: Seq<Student>,
    subs: Seq<Submission>,
    grades: Seq<Grade>,
) -> Seq<char>
    decreases grades.len(),
{
    if grades.len() == 0 {
        Seq::empty()
    } else {
        grades_text(students, subs, grades.drop_last()) + grade_rows(students, subs, grades.last())
    }
}

/// Grades point at students on the roster and at submissions of the set, with a penalty
/// short of a full loss.
pub open spec fn grades_ok(
    students: Seq<Student>,
    subs: Seq<Submission>,
    grades: Seq<Grade>,
) -> bool {
    forall|k: int| 0 <= k < grades.len() ==> {
        let g = #[trigger] grades[k];
        g.student < students.len() && g.submission < subs.len() && g.penalty <= PENALTY_SCALE
    }
}

impl Submission {
    /// The rows of this submission's tests, ordered by ordering key, for the student with
    /// login `login`.
    pub fn to_rows(&self, login: &String) -> (r: String)
        ensures
            r@ == test_rows(login@, sort_by_number(self.tests@)),
    {
        let tests = sorted_tests(&self.tests);
        let mut out = String::new();
        let mut t: usize = 0;
        assert(tests@.subrange(0, 0) =~= Seq::<TestCase>::empty());
        while t < tests.len()
            invariant
                0 <= t <= tests.len(),
                out@ == test_rows(login@, tests@.subrange(0, t as int)),
            decreases tests.len() - t,
        {
            assert(tests@.subrange(0, t + 1).drop_last() =~= tests@.subrange(0, t as int));
            push_test_row(&mut out, login, &tests[t]);
            t = t + 1;
        }
        assert(tests@.subrange(0, t as int) =~= tests@);
        out
    }
}

/// Appends the rows of one test.
fn push_test_row(out: &mut String, login: &String, t: &TestCase)
    ensures
        final(out)@ == old(out)@ + test_row(login@, *t),
{
    out.append(login.as_str());
    out.append(",");
    out.append(t.name.as_str());
    out.append(",");
    let score = format_micros(t.score);
    out.append(score.as_str());
    out.append(",\n");
    assert(final(out)@ =~= old(out)@ + test_row(login@, *t));
}

/// The text of the grades file: for each grade in order, one row per test of its winning
/// submission, ordered by ordering key, then a summary row.
pub fn grades_csv(roster: &Roster, subs: &Vec<Submission>, grades: &Vec<Grade>) -> (r: String)
    requires
        grades_ok(roster.students@, subs@, grades@),
    ensures
        r@ == grades_text(roster.students@, subs@, grades@),
{
    let mut out = String::new();
    let mut i: usize = 0;
    while i < grades.len()
        invariant
            0 <= i <= grades.len(),
            grades_ok(roster.students@, subs@, grades@),
            out@ == grades_text(roster.students@, subs@, grades@.subrange(0, i as int)),
        decreases grades.len() - i,
    {
        let g = grades[i];
        assert(grades@.subrange(0, i + 1).drop_last() =~= grades@.subrange(0, i as int));
        assert(grades@[i as int] == g);
        let login = &roster.students[g.student].directory_id;
        let rows = subs[g.submission].to_rows(login);
        out.append(rows.as_str());
        let ghost with_tests = out@;
        out.append(login.as_str());
        if g.penalty == 0 {
            out.append(",*,*1,\n");
        } else {
            out.append(",*,*");
            let kept = format_micros(PENALTY_SCALE - g.penalty);
            out.append(kept.as_str());
            out.append(",Late\n");
        }
        assert(out@ =~= with_tests + summary_row(login@, g.penalty));
        assert(out@ =~= grades_text(roster.students@, subs@, grades@.subrange(0, i + 1)));
        i = i + 1;
    }
    assert(grades@.subrange(0, i as int) =~= grades@);
    out
}

/// The row of one part of the rubric: test name and maximum points.
pub open spec fn part_row(t: TestCase) -> Seq<char> {
    t.name@ + ","@ + micros_text(t.max as nat) + "\n"@
}

pub open spec fn parts_text(tests: Seq<TestCase>) -> Seq<char>
    decreases tests.len(),
{
    if tests.len() == 0 {
        Seq::empty()
    } else {
        parts_text(tests.drop_last()) + part_row(tests.last())
    }
}

/// The text of the parts file: the canonical submission's tests by ordering key, each with
/// its maximum points.
pub fn parts_csv(canonical: &Submission) -> (r: String)
    ensures
        r@ == parts_text(sort_by_number(canonical.tests@)),
{
    let tests = sorted_tests(&canonical.tests);
    let mut out = String::new();
    let mut t: usize = 0;
    assert(tests@.subrange(0, 0) =~= Seq::<TestCase>::empty());
    while t < tests.len()
        invariant
            0 <= t <= tests.len(),
            out@ == parts_text(tests@.subrange(0, t as int)),
        decreases tests.len() - t,
    {
        assert(tests@.subrange(0, t + 1).drop_last() =~= tests@.subrange(0, t as int));
        let ghost before = out@;
        out.append(tests[t].name.as_str());
        out.append(",");
        let max = format_micros(tests[t].max);
        out.append(max.as_str());
        out.append("\n");
        assert(out@ =~= before + part_row(tests@[t as int]));
        t = t + 1;
    }
    assert(tests@.subrange(0, t as int) =~= tests@);
    out
}

pub open spec fn ids_text(ids: Seq<u64>) -> Seq<char>
    decreases ids.len(),
{
    if ids.len() == 0 {
        Seq::empty()
    } else {
        ids_text(ids.drop_last()) + nat_text(ids.last() as nat) + "\n"@
    }
}

/// The text listing invalid submission IDs, one per line.
pub fn invalid_ids_text(ids: &Vec<u64>) -> (r: String)
    ensures
        r@ == ids_text(ids@),
{
    let mut out = String::new();
    let mut i: usize = 0;
    assert(ids@.subrange(0, 0) =~= Seq::<u64>::empty());
    while i < ids.len()
        invariant
            0 <= i <= ids.len(),
            out@ == ids_text(ids@.subrange(0, i as int)),
        decreases ids.len() - i,
    {
        assert(ids@.subrange(0, i + 1).drop_last() =~= ids@.subrange(0, i as int));
        let ghost before = out@;
        let id = u64_text(ids[i]);
        out.append(id.as_str());
        out.append("\n");
        assert(out@ =~= before + nat_text(ids@[i as int] as nat) + "\n"@);
        i = i + 1;
    }
    assert(ids@.subrange(0, i as int) =~= ids@);
    out
}

} // verus!
