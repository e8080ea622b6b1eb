//! The texts that go out: a stream of boards, to a file as one array of
//! nested arrays, or to a reader as plain text.

use crate::board::{Board, BoardElement};
use crate::grid::Grid;
use crate::text::{comma_before, display_text, json_row, json_rows, json_text};
use crate::values::decimal_text;
use vstd::prelude::*;

verus! {

/// The board as nested arrays: an array of rows, each an array of numbers,
/// `0` for an unknown cell.
pub fn board_to_json_str<B: Board>(board: &B) -> (s: String)
    ensures
        s@ == json_text(board@),
{
    let mut s = "[".to_owned();
    let size = B::size();
    let mut row: usize = 0;
    proof {
        reveal_strlit("[");
        reveal_strlit(",");
        reveal_strlit("]");
        board.lemma_view();
        assert(s@ =~= seq!['['] + json_rows(board@, 0));
    }
    while row < size
        invariant
            row <= size,
            size == B::spec_size(),
            board@.size == size,
            s@ == seq!['['] + json_rows(board@, row as int),
            "["@ == seq!['['],
            ","@ == seq![','],
            "]"@ == seq![']'],
        decreases size - row,
    {
        let ghost before = s@;
        if row > 0 {
            s.push_str(",");
        }
        s.push_str("[");
        let ghost opened = s@;
        assert(opened =~= before + comma_before(row as int) + seq!['['] + json_row(
            board@,
            row as int,
            0,
        ));
        let mut col: usize = 0;
        while col < size
            invariant
                row < size,
                col <= size,
                size == B::spec_size(),
                board@.size == size,
                s@ == before + comma_before(row as int) + seq!['['] + json_row(
                    board@,
                    row as int,
                    col as int,
                ),
                ","@ == seq![','],
            decreases size - col,
        {
            let ghost cells = s@;
            if col > 0 {
                s.push_str(",");
            }
            s.push_str(board.get(&(row, col)).to_string().as_str());
            assert(s@ =~= before + comma_before(row as int) + seq!['['] + json_row(
                board@,
                row as int,
                col + 1,
            )) by {
                assert(s@ =~= cells + comma_before(col as int) + decimal_text(
                    board@.cells[row as int][col as int],
                ));
            }
            col += 1;
        }
        s.push_str("]");
        assert(s@ =~= seq!['['] + json_rows(board@, row + 1));
        row += 1;
    }
    s.push_str("]");
    s
}

/// What opens the output: the opening bracket of the array in a file,
/// nothing for a reader.
pub fn output_init(to_file: bool) -> (r: Option<String>)
    ensures
        to_file ==> r is Some && r.unwrap()@ == seq!['['],
        !to_file ==> r is None,
{
    proof {
        reveal_strlit("[");
    }
    if to_file {
        Some("[".to_owned())
    } else {
        None
    }
}

/// What stands between two items of the output: a comma in a file, nothing
/// for a reader.
pub fn output_separator(to_file: bool) -> (r: Option<String>)
    ensures
        to_file ==> r is Some && r.unwrap()@ == seq![','],
        !to_file ==> r is None,
{
    proof {
        reveal_strlit(",");
    }
    if to_file {
        Some(",".to_owned())
    } else {
        None
    }
}

/// What closes the output: the closing bracket of the array in a file,
/// nothing for a reader.
pub fn output_finish(to_file: bool) -> (r: Option<String>)
    ensures
        to_file ==> r is Some && r.unwrap()@ == seq![']'],
        !to_file ==> r is None,
{
    proof {
        reveal_strlit("]");
    }
    if to_file {
        Some("]".to_owned())
    } else {
        None
    }
}

/// A board as one item of the output: nested arrays in a file, plain text
/// for a reader.
pub fn output_board<B: Board>(to_file: bool, board: &B) -> (s: String)
    ensures
        s@ == (if to_file {
            json_text(board@)
        } else {
            display_text(board@)
        }),
{
    if to_file {
        board_to_json_str(board)
    } else {
        board.to_string()
    }
}

/// The pieces of a question with its solution, in the order in which they
/// are written: in a file the object `{"q":` question `,"a":` solution `}`,
/// for a reader the two boards under their headings.
pub open spec fn question_texts(to_file: bool, question: Grid, solution: Grid) -> Seq<Seq<char>> {
    if to_file {
        seq![
            seq!['{', '"', 'q', '"', ':'],
            json_text(question),
            seq![',', '"', 'a', '"', ':'],
            json_text(solution),
            seq!['}'],
        ]
    } else {
        seq![
            seq!['Q', 'u', 'e', 's', 't', 'i', 'o', 'n', ':', ' '],
            display_text(question),
            seq!['S', 'o', 'l', 'u', 't', 'i', 'o', 'n', ':', ' '],
            display_text(solution),
        ]
    }
}

/// The texts of the pieces of a list.
pub open spec fn texts_of(pieces: Seq<String>) -> Seq<Seq<char>> {
    pieces.map_values(|s: String| s@)
}

/// A question with its solution as the pieces that are written one after
/// the other.
pub fn output_board_with_solution<B: Board>(to_file: bool, board: &B, solution: &B) -> (r: Vec<
    String,
>)
    ensures
        texts_of(r@) == question_texts(to_file, board@, solution@),
{
    let mut pieces: Vec<String> = Vec::new();
    if to_file {
        proof {
            reveal_strlit("{\"q\":");
            reveal_strlit(",\"a\":");
            reveal_strlit("}");
        }
        pieces.push("{\"q\":".to_owned());
        pieces.push(board_to_json_str(board));
        pieces.push(",\"a\":".to_owned());
        pieces.push(board_to_json_str(solution));
        pieces.push("}".to_owned());
    } else {
        proof {
            reveal_strlit("Question: ");
            reveal_strlit("Solution: ");
        }
        pieces.push("Question: ".to_owned());
        pieces.push(board.to_string());
        pieces.push("Solution: ".to_owned());
        pieces.push(solution.to_string());
    }
    assert(texts_of(pieces@) =~~= question_texts(to_file, board@, solution@));
    pieces
}

/// The separator as a piece of its own where one is due in a file, and
/// nothing elsewhere.
pub open spec fn separator_texts(to_file: bool, due: bool) -> Seq<Seq<char>> {
    if to_file && due {
        seq![seq![',']]
    } else {
        Seq::empty()
    }
}

/// The pieces that are written for the solution that is found as number `i`,
/// counted from zero: the separator before every solution but the first,
/// then the board.
pub fn output_solution<B: Board>(to_file: bool, i: usize, solution: &B) -> (r: Vec<String>)
    ensures
        texts_of(r@) == separator_texts(to_file, i > 0) + seq![
            if to_file {
                json_text(solution@)
            } else {
                display_text(solution@)
            },
        ],
{
    let mut pieces: Vec<String> = Vec::new();
    if i > 0 {
        match output_separator(to_file) {
            Some(separator) => pieces.push(separator),
            None => {},
        }
    }
    pieces.push(output_board(to_file, solution));
    assert(texts_of(pieces@) =~~= separator_texts(to_file, i > 0) + seq![
        if to_file {
            json_text(solution@)
        } else {
            display_text(solution@)
        },
    ]);
    pieces
}

/// The pieces that are written for question number `j` of solution number
/// `i`, both counted from zero: the separator before every question but the
/// very first, then the question with its solution.
pub fn output_question<B: Board>(
    to_file: bool,
    i: usize,
    j: usize,
    question: &B,
    solution: &B,
) -> (r: Vec<String>)
    ensures
        texts_of(r@) == separator_texts(to_file, i > 0 || j > 0) + question_texts(
            to_file,
            question@,
            solution@,
        ),
{
    let mut pieces: Vec<String> = Vec::new();
    if i > 0 || j > 0 {
        match output_separator(to_file) {
            Some(separator) => pieces.push(separator),
            None => {},
        }
    }
    let ghost before = pieces@;
    let mut rest = output_board_with_solution(to_file, question, solution);
    let ghost added = rest@;
    pieces.append(&mut rest);
    assert(texts_of(pieces@) =~~= texts_of(before) + texts_of(added));
    assert(texts_of(before) =~~= separator_texts(to_file, i > 0 || j > 0));
    pieces
}

} // verus!
