//! Boards that come in as text: an array of rows, each an array of numbers.

use vstd::prelude::*;

verus! {

/// `serde_json::Error`: why a text was not accepted.
#[verifier::external_type_specification]
#[verifier::external_body]
pub struct ExJsonError(serde_json::Error);

/// The rows of numbers for which a text stands: what `serde_json::from_str`
/// makes of the text as a list of lists of bytes, and `None` for a text that
/// it does not accept as one.
pub uninterp spec fn json_number_rows(text: Seq<char>) -> Option<Seq<Seq<u8>>>;

/// The rows of a list of rows.
pub open spec fn rows_of(rows: Seq<Vec<u8>>) -> Seq<Seq<u8>> {
    rows.map_values(|row: Vec<u8>| row@)
}

/// `serde_json::from_str` for a list of lists of bytes. What comes back
/// depends on the text alone: the rows for which it stands, or an error
/// where it stands for none.
#[verifier::external_body]
fn parse_number_rows(text: &str) -> (r: Result<Vec<Vec<u8>>, serde_json::Error>)
    ensures
        match r {
            Ok(rows) => json_number_rows(text@) == Some(rows_of(rows@)),
            Err(_) => json_number_rows(text@) is None,
        },
{
    serde_json::from_str(text)
}

/// The numbers of all rows, one row after the other.
pub fn flatten_rows(rows: &Vec<Vec<u8>>) -> (r: Vec<u8>)
    ensures
        r@ == rows_of(rows@).flatten(),
{
    let mut out: Vec<u8> = Vec::new();
    let mut i: usize = 0;
    assert(rows_of(rows@).take(0) =~= Seq::<Seq<u8>>::empty());
    while i < rows.len()
        invariant
            i <= rows.len(),
            out@ == rows_of(rows@).take(i as int).flatten(),
        decreases rows.len() - i,
    {
        let row = &rows[i];
        let ghost before = out@;
        let mut j: usize = 0;
        assert(before + row@.take(0) =~= before);
        while j < row.len()
            invariant
                j <= row.len(),
                out@ == before + row@.take(j as int),
            decreases row.len() - j,
        {
            out.push(row[j]);
            assert(out@ =~= before + row@.take(j + 1));
            j += 1;
        }
        proof {
            assert(row@.take(row.len() as int) =~= row@);
            let done = rows_of(rows@).take(i as int);
            done.lemma_flatten_push(row@);
            assert(rows_of(rows@).take(i + 1) =~= done.push(row@));
        }
        i += 1;
    }
    assert(rows_of(rows@).take(rows.len() as int) =~= rows_of(rows@));
    out
}

/// The message for a text that is no board.
pub open spec fn parse_error_text() -> Seq<char> {
    seq![
        'C', 'a', 'n', 'n', 'o', 't', ' ', 'p', 'a', 'r', 's', 'e', ' ', 'i', 'n', 'p', 'u', 't',
        ' ', 'f', 'i', 'l', 'e',
    ]
}

/// The numbers of a board that is written as an array of rows, row by row;
/// an error for a text that is no array of arrays of numbers below 256.
pub fn board_vec_from_json(contents: &str) -> (r: Result<Vec<u8>, String>)
    ensures
        match json_number_rows(contents@) {
            Some(rows) => r is Ok && r.unwrap()@ == rows.flatten(),
            None => r is Err && r.unwrap_err()@ == parse_error_text(),
        },
{
    match parse_number_rows(contents) {
        Ok(rows) => Ok(flatten_rows(&rows)),
        Err(_) => {
            proof {
                reveal_strlit("Cannot parse input file");
            }
            let message = "Cannot parse input file".to_owned();
            assert(message@ =~= parse_error_text());
            Err(message)
        },
    }
}

} // verus!
