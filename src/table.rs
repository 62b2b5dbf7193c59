//! Comma-separated tables with a header row, read through the csv crate.

use vstd::prelude::*;
use crate::text::text_eq;

verus! {

/// The records of a CSV text, the header row first, as far as they could be read, and
/// whether reading stopped at an error.
pub uninterp spec fn csv_records(text: Seq<char>) -> (Seq<Seq<Seq<char>>>, bool);

/// The fields of a record as character sequences.
pub open spec fn row_view(row: Vec<String>) -> Seq<Seq<char>> {
    row@.map_values(|f: String| f@)
}

/// The records of a table as sequences of character sequences.
pub open spec fn rows_view(rows: Vec<Vec<String>>) -> Seq<Seq<Seq<char>>> {
    rows@.map_values(|r: Vec<String>| row_view(r))
}

/// Relies on the csv crate's `Reader` (no header handling, fields as written): each
/// record's fields in order until the first record that fails to read, and whether
/// one failed.  A record whose length differs from the first one's fails.
#[verifier::external_body]
pub fn read_records(text: &str) -> (r: (Vec<Vec<String>>, bool))
    ensures
        rows_view(r.0) == csv_records(text@).0,
        r.1 == csv_records(text@).1,
{
    let mut reader = csv::ReaderBuilder::new().has_headers(false).from_reader(text.as_bytes());
    let mut rows: Vec<Vec<String>> = Vec::new();
    for record in reader.records() {
        match record {
            Ok(rec) => rows.push(rec.iter().map(|f| f.to_string()).collect()),
            Err(_) => return (rows, true),
        }
    }
    (rows, false)
}

/// The position of the first header cell named `name`.
pub open spec fn column_index(header: Seq<Seq<char>>, name: Seq<char>) -> Option<int>
    decreases header.len(),
{
    if header.len() == 0 {
        None
    } else {
        match column_index(header.drop_last(), name) {
            Some(i) => Some(i),
            None => if header.last() == name {
                Some(header.len() - 1)
            } else {
                None
            },
        }
    }
}

/// The field of `row` in column `col`, if the row has it.
pub open spec fn field(row: Seq<Seq<char>>, col: Option<int>) -> Option<Seq<char>> {
    match col {
        Some(c) => if 0 <= c < row.len() {
            Some(row[c])
        } else {
            None
        },
        None => None,
    }
}

proof fn lemma_column_prefix(header: Seq<Seq<char>>, name: Seq<char>, m: int)
    requires
        0 <= m <= header.len(),
        column_index(header.subrange(0, m), name) is Some,
    ensures
        column_index(header, name) == column_index(header.subrange(0, m), name),
    decreases header.len() - m,
{
    if m < header.len() {
        assert(header.subrange(0, m + 1).drop_last() =~= header.subrange(0, m));
        lemma_column_prefix(header, name, m + 1);
    } else {
        assert(header.subrange(0, m) =~= header);
    }
}

/// The position of the first header cell named `name`.
pub fn find_column(header: &Vec<String>, name: &str) -> (r: Option<usize>)
    ensures
        r matches Some(i) ==> column_index(row_view(*header), name@) == Some(i as int) && i
            < header@.len(),
        r is None ==> column_index(row_view(*header), name@) is None,
{
    let ghost hv = row_view(*header);
    let mut i: usize = 0;
    assert(hv.subrange(0, 0) =~= Seq::<Seq<char>>::empty());
    while i < header.len()
        invariant
            0 <= i <= header.len(),
            hv == row_view(*header),
            column_index(hv.subrange(0, i as int), name@) is None,
        decreases header.len() - i,
    {
        assert(hv.subrange(0, i + 1).drop_last() =~= hv.subrange(0, i as int));
        assert(hv[i as int] == header@[i as int]@);
        if text_eq(header[i].as_str(), name) {
            proof {
                assert(hv.subrange(0, i + 1).last() == hv[i as int]);
                lemma_column_prefix(hv, name@, i + 1);
            }
            return Some(i);
        }
        i = i + 1;
    }
    assert(hv.subrange(0, i as int) =~= hv);
    None
}

/// The field of `row` in column `col`, if the row has it.
pub fn get_field(row: &Vec<String>, col: Option<usize>) -> (r: Option<&String>)
    ensures
        r matches Some(s) ==> field(row_view(*row), opt_int(col)) == Some(s@),
        r is None ==> field(row_view(*row), opt_int(col)) is None,
{
    assert(row_view(*row).len() == row@.len());
    match col {
        Some(c) => if c < row.len() {
            Some(&row[c])
        } else {
            None
        },
        None => None,
    }
}

/// A position, if any, as an integer.
pub open spec fn opt_int(o: Option<usize>) -> Option<int> {
    match o {
        Some(i) => Some(i as int),
        None => None,
    }
}

} // verus!
