//! The rows of a CSV file.

use vstd::prelude::*;

use crate::text;

verus! {

/// The rows the `csv` crate's reader yields for a file's bytes, read without a
/// header, with rows of any length and without the lines that start with
/// `comment`. A row that is not UTF-8 is an error.
pub uninterp spec fn csv_rows(bytes: Seq<u8>, comment: Option<u8>) -> Seq<
    Result<Seq<Seq<char>>, Seq<char>>,
>;

/// What a row is.
pub open spec fn row_view(r: Result<Vec<String>, String>) -> Result<Seq<Seq<char>>, Seq<char>> {
    match r {
        Ok(cells) => Ok(text::texts(cells@)),
        Err(e) => Err(e@),
    }
}

pub open spec fn row_views(v: Seq<Result<Vec<String>, String>>) -> Seq<
    Result<Seq<Seq<char>>, Seq<char>>,
> {
    v.map_values(|r: Result<Vec<String>, String>| row_view(r))
}

/// `csv::Reader::records` over `bytes`, as plain cells. How a file is cut into
/// rows and cells is left to `csv_rows`.
#[verifier::external_body]
pub(crate) fn read_rows(bytes: &[u8], comment: Option<u8>) -> (r: Vec<
    Result<Vec<String>, String>,
>)
    ensures
        row_views(r@) == csv_rows(bytes@, comment),
{
    csv::ReaderBuilder::new()
        .has_headers(false)
        .flexible(true)
        .comment(comment)
        .from_reader(bytes)
        .records()
        .map(|row| row.map(|cells| cells.iter().map(String::from).collect()))
        .map(|row| row.map_err(|e| e.to_string()))
        .collect()
}

/// The cell at `i`, or nothing.
pub open spec fn cell(row: Seq<Seq<char>>, i: int) -> Seq<char> {
    if 0 <= i < row.len() {
        row[i]
    } else {
        Seq::empty()
    }
}

/// The cell at `i`, or nothing.
pub fn cell_of(row: &Vec<String>, i: usize) -> (r: &str)
    ensures
        r@ == cell(text::texts(row@), i as int),
{
    if i < row.len() {
        assert(text::texts(row@)[i as int] == row@[i as int]@);
        row[i].as_str()
    } else {
        let none: &'static str = "";
        proof {
            reveal_strlit("");
            assert(none@ =~= Seq::empty());
        }
        none
    }
}

} // verus!
