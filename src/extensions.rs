//! Individual students' deadline extensions and their lookup.

use vstd::prelude::*;
use crate::roster::Student;
use crate::decimal::{parse_unsigned, unsigned_value};
use crate::table::{row_view, rows_view, column_index, csv_records, field, find_column, get_field, opt_int, read_records};
use crate::text::text_eq;

verus! {

/// The types of errors that can be produced within and returned from this module.
#[derive(Debug, PartialEq, Eq, Structural)]
pub enum Error {
    ExtensionsReadError,
    ExtensionsFormatError(usize),
}

/// Represents a single extension: a student's university ID and the number of
/// hours by which their deadlines move.
pub struct Extension {
    pub uid: String,
    pub hours: u32,
}

/// Contains a list of extensions, each of which maps the student's UID to the number of hours
/// their deadline was extended.
pub struct ExtensionSet {
    pub extensions: Vec<Extension>,
}

/// The position of the first extension in `exts` granted to university ID `uid`.
pub open spec fn first_extension_index(exts: Seq<Extension>, uid: Seq<char>) -> Option<int>
    decreases exts.len(),
{
    if exts.len() == 0 {
        None
    } else if exts[0].uid@ == uid {
        Some(0)
    } else {
        match first_extension_index(exts.drop_first(), uid) {
            Some(i) => Some(i + 1),
            None => None,
        }
    }
}

/// The hours granted to university ID `uid`: those of its first extension, or none.
pub open spec fn extension_hours(exts: Seq<Extension>, uid: Seq<char>) -> int {
    match first_extension_index(exts, uid) {
        Some(i) => exts[i].hours as int,
        None => 0,
    }
}

pub proof fn lemma_first_extension_index(exts: Seq<Extension>, uid: Seq<char>)
    ensures
        first_extension_index(exts, uid) matches Some(i) ==> 0 <= i < exts.len() && exts[i].uid@
            == uid && forall|j: int| 0 <= j < i ==> #[trigger] exts[j].uid@ != uid,
        first_extension_index(exts, uid) is None ==> forall|j: int|
            0 <= j < exts.len() ==> #[trigger] exts[j].uid@ != uid,
    decreases exts.len(),
{
    if exts.len() > 0 {
        lemma_first_extension_index(exts.drop_first(), uid);
        assert forall|j: int| 1 <= j < exts.len() implies #[trigger] exts[j].uid@
            == exts.drop_first()[j - 1].uid@ by {}
    }
}

/// What `find` returns carries the hours that the spec grants.
pub proof fn hours_of_found(exts: Seq<Extension>, uid: Seq<char>, found: Option<&Extension>)
    requires
        found matches Some(e) ==> first_extension_index(exts, uid) matches Some(i) && 0 <= i
            < exts.len() && *e == exts[i],
        found is None ==> first_extension_index(exts, uid) is None,
    ensures
        crate::submissions::hours_of(found) == extension_hours(exts, uid),
{
}

/// An extension as plain values: university ID and hours.
pub type ExtensionView = (Seq<char>, u32);

pub open spec fn extension_view(e: Extension) -> ExtensionView {
    (e.uid@, e.hours)
}

/// An extensions row: its `UID` field, and its `Hours` field as a `u32`.
pub open spec fn extension_of(header: Seq<Seq<char>>, row: Seq<Seq<char>>) -> Option<ExtensionView> {
    match (field(row, column_index(header, "UID"@)), field(row, column_index(header, "Hours"@))) {
        (Some(uid), Some(h)) => match unsigned_value(h) {
            Some(v) => if v <= u32::MAX {
                Some((uid, v as u32))
            } else {
                None
            },
            None => None,
        },
        _ => None,
    }
}

/// The extensions of the data rows; `Err` holds the 1-based number of the first bad row.
pub open spec fn extensions_of(
    header: Seq<Seq<char>>,
    rows: Seq<Seq<Seq<char>>>,
) -> Result<Seq<ExtensionView>, int>
    decreases rows.len(),
{
    if rows.len() == 0 {
        Ok(Seq::empty())
    } else {
        match extensions_of(header, rows.drop_last()) {
            Ok(prev) => match extension_of(header, rows.last()) {
                Some(e) => Ok(prev.push(e)),
                None => Err(rows.len() as int),
            },
            Err(e) => Err(e),
        }
    }
}

/// The extensions of a CSV text with a header row naming the columns `UID` and `Hours`.
pub open spec fn extension_table_of(text: Seq<char>) -> Result<Seq<ExtensionView>, int> {
    let (rows, failed) = csv_records(text);
    if rows.len() == 0 {
        if failed {
            Err(1)
        } else {
            Ok(Seq::empty())
        }
    } else {
        match extensions_of(rows[0], rows.drop_first()) {
            Ok(v) => if failed {
                Err(rows.len() as int)
            } else {
                Ok(v)
            },
            Err(e) => Err(e),
        }
    }
}

/// An error in the first rows is the error of the whole table.
proof fn lemma_extensions_prefix(header: Seq<Seq<char>>, rows: Seq<Seq<Seq<char>>>, m: int)
    requires
        0 <= m <= rows.len(),
        extensions_of(header, rows.subrange(0, m)) is Err,
    ensures
        extensions_of(header, rows) == extensions_of(header, rows.subrange(0, m)),
    decreases rows.len() - m,
{
    if m < rows.len() {
        assert(rows.subrange(0, m + 1).drop_last() =~= rows.subrange(0, m));
        lemma_extensions_prefix(header, rows, m + 1);
    } else {
        assert(rows.subrange(0, m) =~= rows);
    }
}

impl ExtensionSet {
    /// Reads the extensions from the text of their CSV file, whose header row names the
    /// columns `UID` and `Hours`.
    ///
    /// # Errors
    ///
    /// If a row cannot be read, lacks a field or holds hours that are not a `u32`, returns
    /// `ExtensionsFormatError` with the 1-based number of the first such data row.
    pub fn load(text: &str) -> (r: Result<ExtensionSet, Error>)
        ensures
            extension_table_of(text@) matches Ok(v) ==> r matches Ok(set) && set.extensions@.map_values(
                |e: Extension| extension_view(e),
            ) == v,
            extension_table_of(text@) matches Err(e) ==> r matches Err(Error::ExtensionsFormatError(n)) && n == e,
    {
        let (rows, failed) = read_records(text);
        if rows.len() == 0 {
            if failed {
                return Err(Error::ExtensionsFormatError(1));
            }
            let extensions: Vec<Extension> = Vec::new();
            assert(extensions@.map_values(|e: Extension| extension_view(e)) =~= Seq::<ExtensionView>::empty());
            return Ok(ExtensionSet { extensions });
        }
        let header = &rows[0];
        let uid_col = find_column(header, "UID");
        let hours_col = find_column(header, "Hours");
        let ghost rv = rows_view(rows);
        assert(rv.len() == rows@.len());
        assert(rv[0] == row_view(rows@[0]));
        let ghost data = rv.drop_first();
        let mut extensions: Vec<Extension> = Vec::new();
        let mut i: usize = 1;
        assert(data.subrange(0, 0) =~= Seq::<Seq<Seq<char>>>::empty());
        assert(extensions@.map_values(|e: Extension| extension_view(e)) =~= Seq::<ExtensionView>::empty());
        while i < rows.len()
            invariant
                1 <= i <= rows.len(),
                rv == rows_view(rows),
                rv == csv_records(text@).0,
                failed == csv_records(text@).1,
                data == rv.drop_first(),
                row_view(*header) == rv[0],
                opt_int(uid_col) == column_index(row_view(*header), "UID"@),
                opt_int(hours_col) == column_index(row_view(*header), "Hours"@),
                extensions_of(row_view(*header), data.subrange(0, i - 1)) == Ok::<Seq<ExtensionView>, int>(
                    extensions@.map_values(|e: Extension| extension_view(e)),
                ),
            decreases rows.len() - i,
        {
            let row = &rows[i];
            assert(data.subrange(0, i as int).drop_last() =~= data.subrange(0, i - 1));
            assert(data.subrange(0, i as int).last() == rv[i as int]);
            assert(rv[i as int] == row_view(rows@[i as int]));
            let hours = match get_field(row, hours_col) {
                Some(h) => parse_unsigned(h.as_str(), u32::MAX as u64),
                None => None,
            };
            match (get_field(row, uid_col), hours) {
                (Some(uid), Some(h)) => {
                    let e = Extension { uid: uid.clone(), hours: h as u32 };
                    let ghost before = extensions@;
                    extensions.push(e);
                    assert(extensions@.map_values(|e: Extension| extension_view(e)) =~= before.map_values(
                        |e: Extension| extension_view(e),
                    ).push(extension_view(e)));
                },
                _ => {
                    proof {
                        assert(extension_of(row_view(*header), rv[i as int]) is None);
                        assert(extensions_of(row_view(*header), data.subrange(0, i as int)) == Err::<Seq<ExtensionView>, int>(i as int));
                        lemma_extensions_prefix(row_view(*header), data, i as int);
                    }
                    return Err(Error::ExtensionsFormatError(i));
                },
            }
            i = i + 1;
        }
        assert(data.subrange(0, i - 1) =~= data);
        if failed {
            return Err(Error::ExtensionsFormatError(rows.len()));
        }
        Ok(ExtensionSet { extensions })
    }

    /// Get an empty extension set.
    pub fn empty() -> (r: ExtensionSet)
        ensures
            r.extensions@.len() == 0,
    {
        ExtensionSet { extensions: Vec::new() }
    }

    /// Look for an extension for a particular student.  There should not be multiple entries for a
    /// single student, so if there are, the first one will be returned.
    pub fn find(&self, student: &Student) -> (r: Option<&Extension>)
        ensures
            r matches Some(e) ==> first_extension_index(self.extensions@, student.uid@) matches Some(
                i,
            ) && 0 <= i < self.extensions@.len() && *e == self.extensions@[i],
            r is None ==> first_extension_index(self.extensions@, student.uid@) is None,
    {
        let mut i: usize = 0;
        while i < self.extensions.len()
            invariant
                0 <= i <= self.extensions.len(),
                forall|j: int| 0 <= j < i ==> #[trigger] self.extensions@[j].uid@ != student.uid@,
            decreases self.extensions.len() - i,
        {
            if text_eq(self.extensions[i].uid.as_str(), student.uid.as_str()) {
                proof {
                    lemma_first_extension_index(self.extensions@, student.uid@);
                    if let Some(k) = first_extension_index(self.extensions@, student.uid@) {
                        assert(self.extensions@[k].uid@ == student.uid@);
                        assert(self.extensions@[i as int].uid@ == student.uid@);
                    }
                }
                return Some(&self.extensions[i]);
            }
            i = i + 1;
        }
        proof {
            lemma_first_extension_index(self.extensions@, student.uid@);
            if let Some(k) = first_extension_index(self.extensions@, student.uid@) {
                assert(self.extensions@[k].uid@ == student.uid@);
            }
        }
        None
    }

    /// The hours of extension granted to a student, zero when there is none.
    pub fn hours_for(&self, student: &Student) -> (r: u32)
        ensures
            r == extension_hours(self.extensions@, student.uid@),
    {
        match self.find(student) {
            Some(e) => e.hours,
            None => 0,
        }
    }
}

} // verus!
