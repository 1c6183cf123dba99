//! Rows of delimited text: splitting them into fields and dropping the
//! blank fields that stray delimiters leave behind.

use vstd::prelude::*;

verus! {

/// The error type of the csv reader.
#[verifier::external_type_specification]
#[verifier::external_body]
pub struct ExCsvError(csv::Error);

/// The rows, each a sequence of fields, that the csv reader yields for
/// `text` when it is set up without a header row, with the given field
/// delimiter, and with or without allowing rows of unequal length; `None`
/// where the reader reports an error.
pub uninterp spec fn csv_rows(text: Seq<u8>, delimiter: u8, flexible: bool) -> Option<
    Seq<Seq<Seq<char>>>,
>;

/// Why a text could not be read as rows.
#[derive(Clone, Copy, Debug, PartialEq, Eq, Structural)]
pub enum ReadError {
    /// The csv reader reported an error.
    Malformed,
}

/// The fields of a row as sequences of characters.
pub open spec fn fields_of(row: Vec<String>) -> Seq<Seq<char>> {
    row@.map_values(|f: String| f@)
}

/// The rows as sequences of fields.
pub open spec fn rows_of(rows: Seq<Vec<String>>) -> Seq<Seq<Seq<char>>> {
    rows.map_values(|row: Vec<String>| fields_of(row))
}

/// The fields that are not empty, in order.
pub open spec fn non_blank(fields: Seq<Seq<char>>) -> Seq<Seq<char>>
    decreases fields.len(),
{
    if fields.len() == 0 {
        Seq::empty()
    } else if fields.last().len() == 0 {
        non_blank(fields.drop_last())
    } else {
        non_blank(fields.drop_last()).push(fields.last())
    }
}

/// Every row without its blank fields.
pub open spec fn without_blanks(rows: Seq<Seq<Seq<char>>>) -> Seq<Seq<Seq<char>>> {
    rows.map_values(|fields: Seq<Seq<char>>| non_blank(fields))
}

/// Runs `csv::ReaderBuilder` over `text`, with `has_headers(false)` and the
/// given `delimiter` and `flexible`, and collects what `Reader::records`
/// yields, each `StringRecord` as the vector of its fields. The first error
/// that the reader reports is returned. The contract claims only that the
/// outcome is a function of the three arguments, named `csv_rows`.
#[verifier::external_body]
fn split_rows(text: &Vec<u8>, delimiter: u8, flexible: bool) -> (r: Result<
    Vec<Vec<String>>,
    csv::Error,
>)
    ensures
        r.is_ok() == csv_rows(text@, delimiter, flexible).is_some(),
        r matches Ok(rows) ==> Some(rows_of(rows@)) == csv_rows(text@, delimiter, flexible),
{
    let mut builder = csv::ReaderBuilder::new();
    builder.has_headers(false).flexible(flexible).delimiter(delimiter);
    let mut reader = builder.from_reader(text.as_slice());
    let mut rows: Vec<Vec<String>> = Vec::new();
    for record in reader.records() {
        rows.push(record?.iter().map(|field| field.to_string()).collect());
    }
    Ok(rows)
}

/// The fields of `row` that are not empty, in order.
pub fn drop_blank_fields(row: &Vec<String>) -> (kept: Vec<String>)
    ensures
        fields_of(kept) == non_blank(fields_of(*row)),
{
    let mut kept: Vec<String> = Vec::new();
    let mut i: usize = 0;
    while i < row.len()
        invariant
            i <= row@.len(),
            fields_of(kept) == non_blank(fields_of(*row).take(i as int)),
        decreases row@.len() - i,
    {
        let ghost before = fields_of(kept);
        proof {
            let next = fields_of(*row).take(i + 1);
            assert(next.drop_last() == fields_of(*row).take(i as int));
            assert(next.last() == row@[i as int]@);
        }
        if !row[i].as_str().is_empty() {
            kept.push(row[i].clone());
            proof {
                assert(fields_of(kept) =~= before.push(row@[i as int]@));
            }
        }
        i = i + 1;
    }
    proof {
        assert(fields_of(*row).take(row@.len() as int) == fields_of(*row));
    }
    kept
}

/// Every row of `rows` without its blank fields.
pub fn drop_blank_fields_in(rows: &Vec<Vec<String>>) -> (cleaned: Vec<Vec<String>>)
    ensures
        rows_of(cleaned@) == without_blanks(rows_of(rows@)),
{
    let mut cleaned: Vec<Vec<String>> = Vec::new();
    let mut i: usize = 0;
    while i < rows.len()
        invariant
            i <= rows@.len(),
            cleaned@.len() == i,
            forall|j: int|
                0 <= j < i ==> fields_of(#[trigger] cleaned@[j]) == non_blank(fields_of(rows@[j])),
        decreases rows@.len() - i,
    {
        cleaned.push(drop_blank_fields(&rows[i]));
        i = i + 1;
    }
    proof {
        assert(rows_of(cleaned@) =~= without_blanks(rows_of(rows@)));
    }
    cleaned
}

/// The rows of a text whose fields are separated by single spaces, rows of
/// unequal length allowed, each row without its blank fields. The text is
/// refused where the csv reader refuses it.
pub fn km_test_rows(text: &Vec<u8>) -> (r: Result<Vec<Vec<String>>, ReadError>)
    ensures
        r.is_ok() == csv_rows(text@, 0x20, true).is_some(),
        r matches Ok(rows) ==> rows_of(rows@) == without_blanks(
            csv_rows(text@, 0x20, true).unwrap(),
        ),
        r matches Err(e) ==> e == ReadError::Malformed,
{
    match split_rows(text, 0x20, true) {
        Ok(rows) => Ok(drop_blank_fields_in(&rows)),
        Err(_) => Err(ReadError::Malformed),
    }
}

} // verus!
