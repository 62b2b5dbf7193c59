//! The course roster: students and their lookup by university ID.

use vstd::prelude::*;
use vstd::string::StrSliceExecFns;
use crate::table::{row_view, rows_view, column_index, field, find_column, get_field, csv_records, opt_int, read_records};
use crate::text::text_eq;

verus! {

/// The types of errors that can be produced within and returned from this module.
#[derive(Debug, PartialEq, Eq, Structural)]
pub enum Error {
    RosterReadError,
    RosterFormatError(usize),
}

/// Represents a single student, with the information from the roster.
pub struct Student {
    /// The student's name, which is optional.
    pub name: Option<String>,
    /// The student's university ID.
    pub uid: String,
    /// The student's directory ID (their login username).
    pub directory_id: String,
}

/// Students are the same student when their university IDs are equal.
impl PartialEq for Student {
    fn eq(&self, other: &Student) -> (r: bool)
        ensures
            r == (self.uid@ == other.uid@),
    {
        self.uid == other.uid
    }
}

impl vstd::std_specs::cmp::PartialEqSpecImpl for Student {
    open spec fn obeys_eq_spec() -> bool {
        true
    }

    open spec fn eq_spec(&self, other: &Student) -> bool {
        self.uid@ == other.uid@
    }
}

impl Eq for Student {

}

/// Represents the course roster which contains all of the students.
pub struct Roster {
    pub students: Vec<Student>,
}

/// The position of the first student in `students` with university ID `uid`.
pub open spec fn first_uid_index(students: Seq<Student>, uid: Seq<char>) -> Option<int>
    decreases students.len(),
{
    if students.len() == 0 {
        None
    } else if students[0].uid@ == uid {
        Some(0)
    } else {
        match first_uid_index(students.drop_first(), uid) {
            Some(i) => Some(i + 1),
            None => None,
        }
    }
}

pub proof fn lemma_first_uid_index(students: Seq<Student>, uid: Seq<char>)
    ensures
        first_uid_index(students, uid) matches Some(i) ==> 0 <= i < students.len()
            && students[i].uid@ == uid
            && forall|j: int| 0 <= j < i ==> #[trigger] students[j].uid@ != uid,
        first_uid_index(students, uid) is None ==> forall|j: int|
            0 <= j < students.len() ==> #[trigger] students[j].uid@ != uid,
    decreases students.len(),
{
    if students.len() > 0 {
        lemma_first_uid_index(students.drop_first(), uid);
        assert forall|j: int| 1 <= j < students.len() implies #[trigger] students[j].uid@
            == students.drop_first()[j - 1].uid@ by {}
    }
}

/// A student as plain values: optional name, university ID, directory ID.
pub type StudentView = (Option<Seq<char>>, Seq<char>, Seq<char>);

pub open spec fn student_view(s: Student) -> StudentView {
    (
        match s.name {
            Some(n) => Some(n@),
            None => None,
        },
        s.uid@,
        s.directory_id@,
    )
}

/// A roster row: its `UID` and `DID` fields, and its `Name` unless that is missing or empty.
pub open spec fn student_of(header: Seq<Seq<char>>, row: Seq<Seq<char>>) -> Option<StudentView> {
    match (field(row, column_index(header, "UID"@)), field(row, column_index(header, "DID"@))) {
        (Some(uid), Some(did)) => Some(
            (
                match field(row, column_index(header, "Name"@)) {
                    Some(n) => if n.len() == 0 {
                        None
                    } else {
                        Some(n)
                    },
                    None => None,
                },
                uid,
                did,
            ),
        ),
        _ => None,
    }
}

/// The students of the data rows; `Err` holds the 1-based number of the first bad row.
pub open spec fn students_of(
    header: Seq<Seq<char>>,
    rows: Seq<Seq<Seq<char>>>,
) -> Result<Seq<StudentView>, int>
    decreases rows.len(),
{
    if rows.len() == 0 {
        Ok(Seq::empty())
    } else {
        match students_of(header, rows.drop_last()) {
            Ok(prev) => match student_of(header, rows.last()) {
                Some(s) => Ok(prev.push(s)),
                None => Err(rows.len() as int),
            },
            Err(e) => Err(e),
        }
    }
}

/// The roster of a CSV text with a header row naming the columns `UID`, `DID` and,
/// optionally, `Name`; `Err` holds the 1-based number of the first bad data row.
pub open spec fn roster_of(text: Seq<char>) -> Result<Seq<StudentView>, int> {
    let (rows, failed) = csv_records(text);
    if rows.len() == 0 {
        if failed {
            Err(1)
        } else {
            Ok(Seq::empty())
        }
    } else {
        match students_of(rows[0], rows.drop_first()) {
            Ok(v) => if failed {
                Err(rows.len() as int)
            } else {
                Ok(v)
            },
            Err(e) => Err(e),
        }
    }
}

/// An error in the first rows is the error of the whole table.
proof fn lemma_students_prefix(header: Seq<Seq<char>>, rows: Seq<Seq<Seq<char>>>, m: int)
    requires
        0 <= m <= rows.len(),
        students_of(header, rows.subrange(0, m)) is Err,
    ensures
        students_of(header, rows) == students_of(header, rows.subrange(0, m)),
    decreases rows.len() - m,
{
    if m < rows.len() {
        assert(rows.subrange(0, m + 1).drop_last() =~= rows.subrange(0, m));
        lemma_students_prefix(header, rows, m + 1);
    } else {
        assert(rows.subrange(0, m) =~= rows);
    }
}

impl Roster {
    /// Reads the roster from the text of its CSV file, whose header row names the columns
    /// `UID`, `DID` and, optionally, `Name`.
    ///
    /// # Errors
    ///
    /// If a row cannot be read or lacks a field, returns `RosterFormatError` with the
    /// 1-based number of the first such data row.
    pub fn load(text: &str) -> (r: Result<Roster, Error>)
        ensures
            roster_of(text@) matches Ok(v) ==> r matches Ok(roster) && roster.students@.map_values(
                |s: Student| student_view(s),
            ) == v,
            roster_of(text@) matches Err(e) ==> r matches Err(Error::RosterFormatError(n)) && n == e,
    {
        let (rows, failed) = read_records(text);
        if rows.len() == 0 {
            if failed {
                return Err(Error::RosterFormatError(1));
            }
            let students: Vec<Student> = Vec::new();
            assert(students@.map_values(|s: Student| student_view(s)) =~= Seq::<StudentView>::empty());
            return Ok(Roster { students });
        }
        let header = &rows[0];
        let uid_col = find_column(header, "UID");
        let did_col = find_column(header, "DID");
        let name_col = find_column(header, "Name");
        let ghost rv = rows_view(rows);
        assert(rv.len() == rows@.len());
        assert(rv[0] == row_view(rows@[0]));
        let ghost data = rv.drop_first();
        let mut students: Vec<Student> = Vec::new();
        let mut i: usize = 1;
        assert(data.subrange(0, 0) =~= Seq::<Seq<Seq<char>>>::empty());
        assert(students@.map_values(|s: Student| student_view(s)) =~= Seq::<StudentView>::empty());
        while i < rows.len()
            invariant
                1 <= i <= rows.len(),
                rv == rows_view(rows),
                rv == csv_records(text@).0,
                failed == csv_records(text@).1,
                data == rv.drop_first(),
                row_view(*header) == rv[0],
                opt_int(uid_col) == column_index(row_view(*header), "UID"@),
                opt_int(did_col) == column_index(row_view(*header), "DID"@),
                opt_int(name_col) == column_index(row_view(*header), "Name"@),
                students_of(row_view(*header), data.subrange(0, i - 1)) == Ok::<Seq<StudentView>, int>(
                    students@.map_values(|s: Student| student_view(s)),
                ),
            decreases rows.len() - i,
        {
            let row = &rows[i];
            assert(data.subrange(0, i as int).drop_last() =~= data.subrange(0, i - 1));
            assert(data.subrange(0, i as int).last() == rv[i as int]);
            assert(rv[i as int] == row_view(rows@[i as int]));
            let uid = get_field(row, uid_col);
            let did = get_field(row, did_col);
            match (uid, did) {
                (Some(uid), Some(did)) => {
                    let name = match get_field(row, name_col) {
                        Some(n) => if n.as_str().unicode_len() == 0 {
                            None
                        } else {
                            Some(n.clone())
                        },
                        None => None,
                    };
                    let st = Student { name, uid: uid.clone(), directory_id: did.clone() };
                    let ghost before = students@;
                    students.push(st);
                    assert(students@.map_values(|s: Student| student_view(s)) =~= before.map_values(
                        |s: Student| student_view(s),
                    ).push(student_view(st)));
                },
                _ => {
                    proof {
                        assert(student_of(row_view(*header), rv[i as int]) is None);
                        assert(students_of(row_view(*header), data.subrange(0, i as int)) == Err::<Seq<StudentView>, int>(i as int));
                        lemma_students_prefix(row_view(*header), data, i as int);
                    }
                    return Err(Error::RosterFormatError(i));
                },
            }
            i = i + 1;
        }
        assert(data.subrange(0, i - 1) =~= data);
        if failed {
            return Err(Error::RosterFormatError(rows.len()));
        }
        Ok(Roster { students })
    }

    /// Position of the first student with university ID `uid`.
    pub fn index_of_uid(&self, uid: &str) -> (r: Option<usize>)
        ensures
            r matches Some(i) ==> first_uid_index(self.students@, uid@) == Some(i as int),
            r is None ==> first_uid_index(self.students@, uid@) is None,
    {
        proof {
            lemma_first_uid_index(self.students@, uid@);
        }
        let mut i: usize = 0;
        while i < self.students.len()
            invariant
                0 <= i <= self.students.len(),
                forall|j: int| 0 <= j < i ==> #[trigger] self.students@[j].uid@ != uid@,
            decreases self.students.len() - i,
        {
            if text_eq(self.students[i].uid.as_str(), uid) {
                proof {
                    lemma_first_uid_index(self.students@, uid@);
                    if let Some(k) = first_uid_index(self.students@, uid@) {
                        assert(self.students@[k].uid@ == uid@);
                        assert(self.students@[i as int].uid@ == uid@);
                    }
                }
                return Some(i);
            }
            i = i + 1;
        }
        None
    }

    /// Lookup a Student by their university id (UID): the first one on the roster.
    pub fn find_student_by_uid(&self, uid: String) -> (r: Option<&Student>)
        ensures
            r matches Some(s) ==> first_uid_index(self.students@, uid@) matches Some(i) && 0 <= i
                < self.students@.len() && *s == self.students@[i],
            r is None ==> first_uid_index(self.students@, uid@) is None,
    {
        proof {
            lemma_first_uid_index(self.students@, uid@);
        }
        match self.index_of_uid(uid.as_str()) {
            Some(i) => Some(&self.students[i]),
            None => None,
        }
    }
}

} // verus!
