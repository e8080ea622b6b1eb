//! The 9x9 board: values 1 to 9, blocks of 3x3.

use crate::board::{push_if_member, values_of, Board, BoardElement, ElementSet};
use crate::grid::Grid;
use crate::slots::Slot;
use crate::values::{ascending, complement_of, decimal_text};
use vstd::prelude::*;

verus! {

/// An element of a 9x9 board; `U0` is the unknown element.
#[derive(Copy, Clone, Debug, PartialEq, Eq, Structural)]
pub enum Board9x9Element {
    U0,
    U1,
    U2,
    U3,
    U4,
    U5,
    U6,
    U7,
    U8,
    U9,
}

impl Board9x9Element {
    /// The element with number `n`.
    pub fn from(n: u8) -> (r: Self)
        requires
            n <= 9,
        ensures
            r.value() == n,
    {
        match n {
            0 => Self::U0,
            1 => Self::U1,
            2 => Self::U2,
            3 => Self::U3,
            4 => Self::U4,
            5 => Self::U5,
            6 => Self::U6,
            7 => Self::U7,
            8 => Self::U8,
            _ => Self::U9,
        }
    }
}

impl Default for Board9x9Element {
    fn default() -> (r: Self)
        ensures
            r == Board9x9Element::U0,
    {
        Self::U0
    }
}

impl BoardElement for Board9x9Element {
    open spec fn value(&self) -> nat {
        match self {
            Self::U0 => 0,
            Self::U1 => 1,
            Self::U2 => 2,
            Self::U3 => 3,
            Self::U4 => 4,
            Self::U5 => 5,
            Self::U6 => 6,
            Self::U7 => 7,
            Self::U8 => 8,
            Self::U9 => 9,
        }
    }

    open spec fn domain() -> nat {
        9
    }

    proof fn lemma_value_in_domain(&self) {
    }

    proof fn lemma_value_determines(a: Self, b: Self) {
    }

    proof fn lemma_default_is_unknown(e: Self) {
    }

    fn is_unknown(&self) -> (b: bool) {
        match self {
            Self::U0 => true,
            _ => false,
        }
    }

    fn to_string(&self) -> (s: String) {
        proof {
            reveal_strlit("0");
            reveal_strlit("1");
            reveal_strlit("2");
            reveal_strlit("3");
            reveal_strlit("4");
            reveal_strlit("5");
            reveal_strlit("6");
            reveal_strlit("7");
            reveal_strlit("8");
            reveal_strlit("9");
        }
        let text = match self {
            Self::U0 => "0",
            Self::U1 => "1",
            Self::U2 => "2",
            Self::U3 => "3",
            Self::U4 => "4",
            Self::U5 => "5",
            Self::U6 => "6",
            Self::U7 => "7",
            Self::U8 => "8",
            Self::U9 => "9",
        };
        let s = text.to_owned();
        assert(s@ =~= decimal_text(self.value()));
        s
    }
}

/// A set of values of a 9x9 board: bit `k - 1` is set when `k` is a member.
#[derive(Copy, Clone, Debug)]
pub struct Board9x9ElementSet(u16);

/// What the bitwise operations do to the nine value bits.
proof fn lemma_bits9(a: u16, b: u16)
    by (bit_vector)
    ensures
        ((a & b) & 1 != 0) == (a & 1 != 0 && b & 1 != 0),
        ((a & b) & 2 != 0) == (a & 2 != 0 && b & 2 != 0),
        ((a & b) & 4 != 0) == (a & 4 != 0 && b & 4 != 0),
        ((a & b) & 8 != 0) == (a & 8 != 0 && b & 8 != 0),
        ((a & b) & 16 != 0) == (a & 16 != 0 && b & 16 != 0),
        ((a & b) & 32 != 0) == (a & 32 != 0 && b & 32 != 0),
        ((a & b) & 64 != 0) == (a & 64 != 0 && b & 64 != 0),
        ((a & b) & 128 != 0) == (a & 128 != 0 && b & 128 != 0),
        ((a & b) & 256 != 0) == (a & 256 != 0 && b & 256 != 0),
        ((!a & 511) & 1 != 0) == (a & 1 == 0),
        ((!a & 511) & 2 != 0) == (a & 2 == 0),
        ((!a & 511) & 4 != 0) == (a & 4 == 0),
        ((!a & 511) & 8 != 0) == (a & 8 == 0),
        ((!a & 511) & 16 != 0) == (a & 16 == 0),
        ((!a & 511) & 32 != 0) == (a & 32 == 0),
        ((!a & 511) & 64 != 0) == (a & 64 == 0),
        ((!a & 511) & 128 != 0) == (a & 128 == 0),
        ((!a & 511) & 256 != 0) == (a & 256 == 0),
        (a >> 0) & 1 == (if a & 1 != 0 { 1u16 } else { 0u16 }),
        (a >> 1) & 1 == (if a & 2 != 0 { 1u16 } else { 0u16 }),
        (a >> 2) & 1 == (if a & 4 != 0 { 1u16 } else { 0u16 }),
        (a >> 3) & 1 == (if a & 8 != 0 { 1u16 } else { 0u16 }),
        (a >> 4) & 1 == (if a & 16 != 0 { 1u16 } else { 0u16 }),
        (a >> 5) & 1 == (if a & 32 != 0 { 1u16 } else { 0u16 }),
        (a >> 6) & 1 == (if a & 64 != 0 { 1u16 } else { 0u16 }),
        (a >> 7) & 1 == (if a & 128 != 0 { 1u16 } else { 0u16 }),
        (a >> 8) & 1 == (if a & 256 != 0 { 1u16 } else { 0u16 }),
        0u16 & 1 == 0
            && 0u16 & 2 == 0
            && 0u16 & 4 == 0
            && 0u16 & 8 == 0
            && 0u16 & 16 == 0
            && 0u16 & 32 == 0
            && 0u16 & 64 == 0
            && 0u16 & 128 == 0
            && 0u16 & 256 == 0,
{
}

/// What setting one value bit does to the nine value bits.
proof fn lemma_set_bit9(a: u16, m: u16)
    by (bit_vector)
    requires
        m == 1 || m == 2 || m == 4 || m == 8 || m == 16 || m == 32 || m == 64 || m == 128 || m == 256,
    ensures
        ((a | m) & 1 != 0) == (a & 1 != 0 || m == 1),
        ((a | m) & 2 != 0) == (a & 2 != 0 || m == 2),
        ((a | m) & 4 != 0) == (a & 4 != 0 || m == 4),
        ((a | m) & 8 != 0) == (a & 8 != 0 || m == 8),
        ((a | m) & 16 != 0) == (a & 16 != 0 || m == 16),
        ((a | m) & 32 != 0) == (a & 32 != 0 || m == 32),
        ((a | m) & 64 != 0) == (a & 64 != 0 || m == 64),
        ((a | m) & 128 != 0) == (a & 128 != 0 || m == 128),
        ((a | m) & 256 != 0) == (a & 256 != 0 || m == 256),
{
}

impl Board9x9ElementSet {
    /// The bit mask that stands for the set.
    pub closed spec fn bits(&self) -> u16 {
        self.0
    }

    /// Whether the bit of value `v` is set in `bits`.
    pub open spec fn has(bits: u16, v: nat) -> bool {
        (v == 1 && bits & 1 != 0)
            || (v == 2 && bits & 2 != 0)
            || (v == 3 && bits & 4 != 0)
            || (v == 4 && bits & 8 != 0)
            || (v == 5 && bits & 16 != 0)
            || (v == 6 && bits & 32 != 0)
            || (v == 7 && bits & 64 != 0)
            || (v == 8 && bits & 128 != 0)
            || (v == 9 && bits & 256 != 0)
    }

    /// The members are the values whose bit is set.
    pub proof fn lemma_members(&self)
        ensures
            forall|v: nat| self@.contains(v) == Self::has(self.bits(), v),
    {
    }
}

impl Default for Board9x9ElementSet {
    fn default() -> (r: Self)
        ensures
            r.bits() == 0,
            r@ == Set::<nat>::empty(),
    {
        let r = Board9x9ElementSet(0);
        proof {
            lemma_bits9(0, 0);
            assert(r@ =~= Set::<nat>::empty());
        }
        r
    }
}

impl ElementSet for Board9x9ElementSet {
    type Element = Board9x9Element;

    closed spec fn view(&self) -> Set<nat> {
        Set::new(|v: nat| Self::has(self.0, v))
    }

    proof fn lemma_view_in_domain(&self) {
    }

    proof fn lemma_default_is_empty(s: Self) {
    }

    fn intersect(&self, other: &Self) -> (r: Self)
        ensures
            r.bits() == self.bits() & other.bits(),
    {
        let r = Self(self.0 & other.0);
        proof {
            lemma_bits9(self.0, other.0);
            assert(r@ =~= self@.intersect(other@));
        }
        r
    }

    fn complement(&self) -> (r: Self)
        ensures
            r.bits() == !self.bits() & 511,
    {
        let r = Self(!self.0 & 511);
        proof {
            lemma_bits9(self.0, 0);
            assert(r@ =~= complement_of(9, self@));
        }
        r
    }

    fn count(&self) -> (n: usize) {
        let mut count: u16 = 0;
        let mut i: u16 = 0;
        proof {
            lemma_bits9(self.0, 0);
            crate::values::lemma_ascending_len(self@, 9);
        }
        while i < 9
            invariant
                i <= 9,
                count == ascending(self@, i as nat).len(),
                count <= i,
                (self.0 >> 0) & 1 == (if self.0 & 1 != 0 { 1u16 } else { 0u16 }),
                (self.0 >> 1) & 1 == (if self.0 & 2 != 0 { 1u16 } else { 0u16 }),
                (self.0 >> 2) & 1 == (if self.0 & 4 != 0 { 1u16 } else { 0u16 }),
                (self.0 >> 3) & 1 == (if self.0 & 8 != 0 { 1u16 } else { 0u16 }),
                (self.0 >> 4) & 1 == (if self.0 & 16 != 0 { 1u16 } else { 0u16 }),
                (self.0 >> 5) & 1 == (if self.0 & 32 != 0 { 1u16 } else { 0u16 }),
                (self.0 >> 6) & 1 == (if self.0 & 64 != 0 { 1u16 } else { 0u16 }),
                (self.0 >> 7) & 1 == (if self.0 & 128 != 0 { 1u16 } else { 0u16 }),
                (self.0 >> 8) & 1 == (if self.0 & 256 != 0 { 1u16 } else { 0u16 }),
            decreases 9 - i,
        {
            assert(self@.contains((i + 1) as nat) == Self::has(self.0, (i + 1) as nat));
            count += (self.0 >> i) & 1;
            i += 1;
        }
        count as usize
    }

    fn insert(&mut self, elem: &Self::Element)
        ensures
            final(self).bits() == (match *elem {
                Board9x9Element::U0 => old(self).bits(),
                Board9x9Element::U1 => old(self).bits() | 1,
                Board9x9Element::U2 => old(self).bits() | 2,
                Board9x9Element::U3 => old(self).bits() | 4,
                Board9x9Element::U4 => old(self).bits() | 8,
                Board9x9Element::U5 => old(self).bits() | 16,
                Board9x9Element::U6 => old(self).bits() | 32,
                Board9x9Element::U7 => old(self).bits() | 64,
                Board9x9Element::U8 => old(self).bits() | 128,
                Board9x9Element::U9 => old(self).bits() | 256,
            }),
    {
        let ghost before = self.0;
        match elem {
            Self::Element::U1 => self.0 |= 1,
            Self::Element::U2 => self.0 |= 2,
            Self::Element::U3 => self.0 |= 4,
            Self::Element::U4 => self.0 |= 8,
            Self::Element::U5 => self.0 |= 16,
            Self::Element::U6 => self.0 |= 32,
            Self::Element::U7 => self.0 |= 64,
            Self::Element::U8 => self.0 |= 128,
            Self::Element::U9 => self.0 |= 256,
            _ => {},
        }
        proof {
            if elem.value() != 0 {
                let m: u16 = match *elem {
                    Board9x9Element::U0 => 0u16,
                    Board9x9Element::U1 => 1u16,
                    Board9x9Element::U2 => 2u16,
                    Board9x9Element::U3 => 4u16,
                    Board9x9Element::U4 => 8u16,
                    Board9x9Element::U5 => 16u16,
                    Board9x9Element::U6 => 32u16,
                    Board9x9Element::U7 => 64u16,
                    Board9x9Element::U8 => 128u16,
                    Board9x9Element::U9 => 256u16,
                };
                lemma_set_bit9(before, m);
                assert(self@ =~= old(self)@.insert(elem.value()));
            }
        }
    }

    fn elements(&self) -> (r: Vec<Self::Element>) {
        let mut result: Vec<Self::Element> = Vec::new();
        assert(values_of(result@) =~= ascending(self@, 0));
        push_if_member(&mut result, self.0 & 1 != 0, Self::Element::U1, Ghost(self@));
        push_if_member(&mut result, self.0 & 2 != 0, Self::Element::U2, Ghost(self@));
        push_if_member(&mut result, self.0 & 4 != 0, Self::Element::U3, Ghost(self@));
        push_if_member(&mut result, self.0 & 8 != 0, Self::Element::U4, Ghost(self@));
        push_if_member(&mut result, self.0 & 16 != 0, Self::Element::U5, Ghost(self@));
        push_if_member(&mut result, self.0 & 32 != 0, Self::Element::U6, Ghost(self@));
        push_if_member(&mut result, self.0 & 64 != 0, Self::Element::U7, Ghost(self@));
        push_if_member(&mut result, self.0 & 128 != 0, Self::Element::U8, Ghost(self@));
        push_if_member(&mut result, self.0 & 256 != 0, Self::Element::U9, Ghost(self@));
        result
    }

    fn to_string(&self) -> (s: String) {
        let mut s = String::new();
        proof {
            reveal_with_fuel(crate::text::mask_width, 2);
        }
        if self.0 & 256 != 0 {
            crate::text::push_bit(&mut s, true);
        }
        crate::text::push_bit(&mut s, self.0 & 128 != 0);
        crate::text::push_bit(&mut s, self.0 & 64 != 0);
        crate::text::push_bit(&mut s, self.0 & 32 != 0);
        crate::text::push_bit(&mut s, self.0 & 16 != 0);
        crate::text::push_bit(&mut s, self.0 & 8 != 0);
        crate::text::push_bit(&mut s, self.0 & 4 != 0);
        crate::text::push_bit(&mut s, self.0 & 2 != 0);
        crate::text::push_bit(&mut s, self.0 & 1 != 0);
        assert(s@ =~= crate::text::mask_text(self@, 9));
        s
    }
}

/// A 9x9 board, row by row.
#[derive(Debug)]
pub struct Board9x9 {
    board: [Board9x9Element; 81],
}

/// The grid that eighty-one elements make, row by row.
pub open spec fn grid9x9(cells: Seq<Board9x9Element>) -> Grid {
    Grid {
        size: 9,
        block: 3,
        cells: Seq::new(9, |r: int| Seq::new(9, |c: int| cells[r * 9 + c].value())),
    }
}

/// Replacing one of the eighty-one elements writes its number into the grid.
proof fn lemma_grid9x9_update(cells: Seq<Board9x9Element>, slot: Slot, e: Board9x9Element)
    requires
        cells.len() == 81,
        slot.0 < 9,
        slot.1 < 9,
    ensures
        grid9x9(cells.update(slot.0 * 9 + slot.1, e)) == grid9x9(cells).put(slot, e.value()),
{
    let a = grid9x9(cells.update(slot.0 * 9 + slot.1, e));
    let b = grid9x9(cells).put(slot, e.value());
    assert forall|r: int| 0 <= r < 9 implies #[trigger] a.cells[r] =~= b.cells[r] by {
    }
    assert(a.cells =~= b.cells);
}

proof fn lemma_clone9x9(a: Board9x9, b: Board9x9)
    requires
        cloned(a, b),
    ensures
        a == b,
{
}

impl Board9x9 {
    pub fn new(board: [Board9x9Element; 81]) -> (r: Self)
        ensures
            r@ == grid9x9(board@),
    {
        Self { board }
    }

    /// Whether `values` can stand on a board: 81 numbers, none above 9.
    pub fn is_valid_u8_vec(values: &Vec<u8>) -> (r: bool)
        ensures
            r == (values.len() == 81 && forall|i: int| 0 <= i < 81 ==> values[i] <= 9),
    {
        if values.len() != 81 {
            return false;
        }
        let mut i: usize = 0;
        while i < 81
            invariant
                i <= 81,
                values.len() == 81,
                forall|j: int| 0 <= j < i ==> values[j] <= 9,
            decreases 81 - i,
        {
            if values[i] > 9 {
                return false;
            }
            i += 1;
        }
        true
    }

    /// The board that holds `values`, row by row; `0` is an unknown cell.
    pub fn from_u8_vec(values: &Vec<u8>) -> (r: Self)
        requires
            values.len() == 81,
            forall|i: int| 0 <= i < 81 ==> values[i] <= 9,
        ensures
            r@ == Grid::of_numbers(9, 3, values@),
    {
        let mut board = [Board9x9Element::U0; 81];
        let mut i: usize = 0;
        while i < 81
            invariant
                i <= 81,
                values.len() == 81,
                forall|j: int| 0 <= j < 81 ==> values[j] <= 9,
                forall|j: int| 0 <= j < i ==> (#[trigger] board[j]).value() == values[j],
            decreases 81 - i,
        {
            board[i] = Board9x9Element::from(values[i]);
            i += 1;
        }
        let r = Self { board };
        proof {
            let a = r@;
            let b = Grid::of_numbers(9, 3, values@);
            assert forall|row: int| 0 <= row < 9 implies #[trigger] a.cells[row]
                =~= b.cells[row] by {
                assert forall|c: int| 0 <= c < 9 implies a.cells[row][c] == b.cells[row][c] by {
                    assert(board[row * 9 + c].value() == values[row * 9 + c]);
                }
            }
            assert(a.cells =~= b.cells);
        }
        r
    }
}

impl Clone for Board9x9 {
    fn clone(&self) -> (r: Self)
        ensures
            r == *self,
    {
        Self { board: self.board }
    }
}

impl Default for Board9x9 {
    fn default() -> (r: Self)
        ensures
            r@ == grid9x9(Seq::new(81, |i: int| Board9x9Element::U0)),
    {
        let r = Self { board: [Board9x9Element::U0; 81] };
        assert(r.board@ =~= Seq::new(81, |i: int| Board9x9Element::U0));
        r
    }
}

impl Board for Board9x9 {
    type Element = Board9x9Element;

    type ElementSet = Board9x9ElementSet;

    closed spec fn view(&self) -> Grid {
        grid9x9(self.board@)
    }

    open spec fn spec_size() -> usize {
        9
    }

    open spec fn spec_block_size() -> usize {
        3
    }

    proof fn lemma_shape() {
    }

    proof fn lemma_view(&self) {
        assert(Self::spec_block_size() == 3);
        assert(self@.wf());
    }

    proof fn lemma_view_determines(a: Self, b: Self) {
        assert forall|i: int| 0 <= i < 81 implies a.board@[i] == b.board@[i] by {
            let r = i / 9;
            let c = i % 9;
            assert(0 <= r < 9 && 0 <= c < 9 && r * 9 + c == i);
            assert(grid9x9(a.board@).cells[r][c] == a.board@[i].value());
            assert(grid9x9(b.board@).cells[r][c] == b.board@[i].value());
        }
        assert(a.board@ =~= b.board@);
        assert(a.board == b.board);
    }

    proof fn lemma_clone(a: Self, b: Self) {
        lemma_clone9x9(a, b);
    }

    fn size() -> (n: usize) {
        9
    }

    fn block_size() -> (n: usize) {
        3
    }

    fn get(&self, slot: &Slot) -> (r: &Self::Element) {
        let index = slot.0 * 9 + slot.1;
        &self.board[index]
    }

    fn get_mut(&mut self, slot: &Slot) -> (r: &mut Self::Element) {
        let index = slot.0 * 9 + slot.1;
        let r = &mut self.board[index];
        proof {
            lemma_grid9x9_update(old(self).board@, *slot, *final(r));
        }
        r
    }
}

} // verus!
