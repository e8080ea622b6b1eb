//! How a board is written down: for a reader, and as nested arrays.

use crate::grid::Grid;
use crate::values::decimal_text;
use vstd::prelude::*;

verus! {

/// `String::push_str`: the text is appended to the string.
pub assume_specification[ String::push_str ](s: &mut String, string: &str)
    ensures
        final(s)@ == old(s)@ + string@,
;

/// What follows the cell at row `i`, column `j` in the text for a reader: a
/// comma within a row, a semicolon and a line break between rows, and the
/// closing bracket behind the last cell.
pub open spec fn cell_end(size: int, i: int, j: int) -> Seq<char> {
    if j < size - 1 {
        seq![',']
    } else if i < size - 1 {
        seq![';', '\n', ' ']
    } else {
        seq![']']
    }
}

/// The first `upto` cells of row `i` in the text for a reader.
pub open spec fn display_row(g: Grid, i: int, upto: int) -> Seq<char>
    decreases upto,
{
    if upto <= 0 {
        Seq::empty()
    } else {
        display_row(g, i, upto - 1) + decimal_text(g.cells[i][upto - 1]) + cell_end(
            g.size as int,
            i,
            upto - 1,
        )
    }
}

/// The first `upto` rows in the text for a reader.
pub open spec fn display_rows(g: Grid, upto: int) -> Seq<char>
    decreases upto,
{
    if upto <= 0 {
        Seq::empty()
    } else {
        display_rows(g, upto - 1) + display_row(g, upto - 1, g.size as int)
    }
}

/// The text of a grid for a reader, such as `[1,2;` and, on a new line, ` 3,4]`.
pub open spec fn display_text(g: Grid) -> Seq<char> {
    seq!['['] + display_rows(g, g.size as int)
}

/// A comma before every item of a list but the first.
pub open spec fn comma_before(k: int) -> Seq<char> {
    if k > 0 {
        seq![',']
    } else {
        Seq::empty()
    }
}

/// The first `upto` cells of row `i` as items of an array.
pub open spec fn json_row(g: Grid, i: int, upto: int) -> Seq<char>
    decreases upto,
{
    if upto <= 0 {
        Seq::empty()
    } else {
        json_row(g, i, upto - 1) + comma_before(upto - 1) + decimal_text(g.cells[i][upto - 1])
    }
}

/// The first `upto` rows as items of an array of arrays.
pub open spec fn json_rows(g: Grid, upto: int) -> Seq<char>
    decreases upto,
{
    if upto <= 0 {
        Seq::empty()
    } else {
        json_rows(g, upto - 1) + comma_before(upto - 1) + seq!['['] + json_row(
            g,
            upto - 1,
            g.size as int,
        ) + seq![']']
    }
}

/// A grid as an array of its rows, each an array of numbers, `0` for an
/// unknown cell: `[[1,2],[3,4]]`.
pub open spec fn json_text(g: Grid) -> Seq<char> {
    seq!['['] + json_rows(g, g.size as int) + seq![']']
}

/// How many binary digits the text of a set has: eight, or as many as its
/// largest member asks for.
pub open spec fn mask_width(set: Set<nat>, domain: nat) -> nat
    decreases domain,
{
    if domain <= 8 {
        8
    } else if set.contains(domain) {
        domain
    } else {
        mask_width(set, (domain - 1) as nat)
    }
}

/// A set of values as binary digits, the digit of value 1 last: `1` for a
/// member, `0` for any other value.
pub open spec fn mask_text(set: Set<nat>, domain: nat) -> Seq<char> {
    Seq::new(
        mask_width(set, domain),
        |i: int|
            if set.contains((mask_width(set, domain) - i) as nat) {
                '1'
            } else {
                '0'
            },
    )
}

/// Appends the binary digit for a value: `1` for a member, `0` for any other.
pub(crate) fn push_bit(s: &mut String, member: bool)
    ensures
        final(s)@ == old(s)@.push(
            if member {
                '1'
            } else {
                '0'
            },
        ),
{
    proof {
        reveal_strlit("1");
        reveal_strlit("0");
    }
    let ghost before = s@;
    if member {
        s.push_str("1");
        assert(s@ =~= before.push('1'));
    } else {
        s.push_str("0");
        assert(s@ =~= before.push('0'));
    }
}

} // verus!
