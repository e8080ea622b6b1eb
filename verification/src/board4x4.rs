//! The 4x4 board: values 1 to 4, blocks of 2x2.

use crate::board::{push_if_member, values_of, Board, BoardElement, ElementSet};
use crate::grid::Grid;
use crate::slots::Slot;
use crate::values::{ascending, complement_of, decimal_text};
use vstd::prelude::*;

verus! {

/// An element of a 4x4 board; `U0` is the unknown element.
#[derive(Copy, Clone, Debug, PartialEq, Eq, Structural)]
pub enum Board4x4Element {
    U0,
    U1,
    U2,
    U3,
    U4,
}

impl Board4x4Element {
    /// The element with number `n`.
    pub fn from(n: u8) -> (r: Self)
        requires
            n <= 4,
        ensures
            r.value() == n,
    {
        match n {
            0 => Self::U0,
            1 => Self::U1,
            2 => Self::U2,
            3 => Self::U3,
            _ => Self::U4,
        }
    }
}

impl Default for Board4x4Element {
    fn default() -> (r: Self)
        ensures
            r == Board4x4Element::U0,
    {
        Self::U0
    }
}

impl BoardElement for Board4x4Element {
    open spec fn value(&self) -> nat {
        match self {
            Self::U0 => 0,
            Self::U1 => 1,
            Self::U2 => 2,
            Self::U3 => 3,
            Self::U4 => 4,
        }
    }

    open spec fn domain() -> nat {
        4
    }

    proof fn lemma_value_in_domain(&self) {
    }

    proof fn lemma_value_determines(a: Self, b: Self) {
    }

    proof fn lemma_default_is_unknown(e: Self) {
    }

    fn is_unknown(&self) -> (b: bool) {
        match self {
            Self::U0 => true,
            _ => false,
        }
    }

    fn to_string(&self) -> (s: String) {
        proof {
            reveal_strlit("0");
            reveal_strlit("1");
            reveal_strlit("2");
            reveal_strlit("3");
            reveal_strlit("4");
        }
        let text = match self {
            Self::U0 => "0",
            Self::U1 => "1",
            Self::U2 => "2",
            Self::U3 => "3",
            Self::U4 => "4",
        };
        let s = text.to_owned();
        assert(s@ =~= decimal_text(self.value()));
        s
    }
}

/// A set of values of a 4x4 board: bit `k - 1` is set when `k` is a member.
#[derive(Copy, Clone, Debug)]
pub struct Board4x4ElementSet(u8);

/// What the bitwise operations do to the four value bits.
proof fn lemma_bits4(a: u8, b: u8)
    by (bit_vector)
    ensures
        ((a & b) & 1 != 0) == (a & 1 != 0 && b & 1 != 0),
        ((a & b) & 2 != 0) == (a & 2 != 0 && b & 2 != 0),
        ((a & b) & 4 != 0) == (a & 4 != 0 && b & 4 != 0),
        ((a & b) & 8 != 0) == (a & 8 != 0 && b & 8 != 0),
        ((!a & 15) & 1 != 0) == (a & 1 == 0),
        ((!a & 15) & 2 != 0) == (a & 2 == 0),
        ((!a & 15) & 4 != 0) == (a & 4 == 0),
        ((!a & 15) & 8 != 0) == (a & 8 == 0),
        (a >> 0) & 1 == (if a & 1 != 0 { 1u8 } else { 0u8 }),
        (a >> 1) & 1 == (if a & 2 != 0 { 1u8 } else { 0u8 }),
        (a >> 2) & 1 == (if a & 4 != 0 { 1u8 } else { 0u8 }),
        (a >> 3) & 1 == (if a & 8 != 0 { 1u8 } else { 0u8 }),
        0u8 & 1 == 0 && 0u8 & 2 == 0 && 0u8 & 4 == 0 && 0u8 & 8 == 0,
{
}

/// What setting one value bit does to the four value bits.
proof fn lemma_set_bit4(a: u8, m: u8)
    by (bit_vector)
    requires
        m == 1 || m == 2 || m == 4 || m == 8,
    ensures
        ((a | m) & 1 != 0) == (a & 1 != 0 || m == 1),
        ((a | m) & 2 != 0) == (a & 2 != 0 || m == 2),
        ((a | m) & 4 != 0) == (a & 4 != 0 || m == 4),
        ((a | m) & 8 != 0) == (a & 8 != 0 || m == 8),
{
}

impl Board4x4ElementSet {
    /// The bit mask that stands for the set.
    pub closed spec fn bits(&self) -> u8 {
        self.0
    }

    /// Whether the bit of value `v` is set in `bits`.
    pub open spec fn has(bits: u8, v: nat) -> bool {
        (v == 1 && bits & 1 != 0) || (v == 2 && bits & 2 != 0) || (v == 3 && bits & 4 != 0) || (v
            == 4 && bits & 8 != 0)
    }

    /// The members are the values whose bit is set.
    pub proof fn lemma_members(&self)
        ensures
            forall|v: nat| self@.contains(v) == Self::has(self.bits(), v),
    {
    }
}

impl Default for Board4x4ElementSet {
    fn default() -> (r: Self)
        ensures
            r.bits() == 0,
            r@ == Set::<nat>::empty(),
    {
        let r = Board4x4ElementSet(0);
        proof {
            lemma_bits4(0, 0);
            assert(r@ =~= Set::<nat>::empty());
        }
        r
    }
}

impl ElementSet for Board4x4ElementSet {
    type Element = Board4x4Element;

    closed spec fn view(&self) -> Set<nat> {
        Set::new(|v: nat| Self::has(self.0, v))
    }

    proof fn lemma_view_in_domain(&self) {
    }

    proof fn lemma_default_is_empty(s: Self) {
    }

    fn intersect(&self, other: &Self) -> (r: Self)
        ensures
            r.bits() == self.bits() & other.bits(),
    {
        let r = Self(self.0 & other.0);
        proof {
            lemma_bits4(self.0, other.0);
            assert(r@ =~= self@.intersect(other@));
        }
        r
    }

    fn complement(&self) -> (r: Self)
        ensures
            r.bits() == !self.bits() & 15,
    {
        let r = Self(!self.0 & 15);
        proof {
            lemma_bits4(self.0, 0);
            assert(r@ =~= complement_of(4, self@));
        }
        r
    }

    fn count(&self) -> (n: usize) {
        let mut count: u8 = 0;
        let mut i: u8 = 0;
        proof {
            lemma_bits4(self.0, 0);
            crate::values::lemma_ascending_len(self@, 4);
        }
        while i < 4
            invariant
                i <= 4,
                count == ascending(self@, i as nat).len(),
                count <= i,
                (self.0 >> 0) & 1 == (if self.0 & 1 != 0 { 1u8 } else { 0u8 }),
                (self.0 >> 1) & 1 == (if self.0 & 2 != 0 { 1u8 } else { 0u8 }),
                (self.0 >> 2) & 1 == (if self.0 & 4 != 0 { 1u8 } else { 0u8 }),
                (self.0 >> 3) & 1 == (if self.0 & 8 != 0 { 1u8 } else { 0u8 }),
            decreases 4 - i,
        {
            assert(self@.contains((i + 1) as nat) == Self::has(self.0, (i + 1) as nat));
            count += (self.0 >> i) & 1;
            i += 1;
        }
        count as usize
    }

    fn insert(&mut self, elem: &Self::Element)
        ensures
            final(self).bits() == (match *elem {
                Board4x4Element::U0 => old(self).bits(),
                Board4x4Element::U1 => old(self).bits() | 1,
                Board4x4Element::U2 => old(self).bits() | 2,
                Board4x4Element::U3 => old(self).bits() | 4,
                Board4x4Element::U4 => old(self).bits() | 8,
            }),
    {
        let ghost before = self.0;
        match elem {
            Self::Element::U1 => self.0 |= 1,
            Self::Element::U2 => self.0 |= 2,
            Self::Element::U3 => self.0 |= 4,
            Self::Element::U4 => self.0 |= 8,
            _ => {},
        }
        proof {
            if elem.value() != 0 {
                let m: u8 = if elem.value() == 1 {
                    1u8
                } else if elem.value() == 2 {
                    2u8
                } else if elem.value() == 3 {
                    4u8
                } else {
                    8u8
                };
                lemma_set_bit4(before, m);
                assert(self@ =~= old(self)@.insert(elem.value()));
            }
        }
    }

    fn elements(&self) -> (r: Vec<Self::Element>) {
        let mut result: Vec<Self::Element> = Vec::new();
        assert(values_of(result@) =~= ascending(self@, 0));
        push_if_member(&mut result, self.0 & 1 != 0, Self::Element::U1, Ghost(self@));
        push_if_member(&mut result, self.0 & 2 != 0, Self::Element::U2, Ghost(self@));
        push_if_member(&mut result, self.0 & 4 != 0, Self::Element::U3, Ghost(self@));
        push_if_member(&mut result, self.0 & 8 != 0, Self::Element::U4, Ghost(self@));
        result
    }

    fn to_string(&self) -> (s: String) {
        let mut s = String::new();
        crate::text::push_bit(&mut s, false);
        crate::text::push_bit(&mut s, false);
        crate::text::push_bit(&mut s, false);
        crate::text::push_bit(&mut s, false);
        crate::text::push_bit(&mut s, self.0 & 8 != 0);
        crate::text::push_bit(&mut s, self.0 & 4 != 0);
        crate::text::push_bit(&mut s, self.0 & 2 != 0);
        crate::text::push_bit(&mut s, self.0 & 1 != 0);
        assert(s@ =~= crate::text::mask_text(self@, 4));
        s
    }
}

/// A 4x4 board, row by row.
#[derive(Debug)]
pub struct Board4x4 {
    board: [Board4x4Element; 16],
}

/// The grid that sixteen elements make, row by row.
pub open spec fn grid4x4(cells: Seq<Board4x4Element>) -> Grid {
    Grid {
        size: 4,
        block: 2,
        cells: Seq::new(4, |r: int| Seq::new(4, |c: int| cells[r * 4 + c].value())),
    }
}

/// Replacing one of the sixteen elements writes its number into the grid.
proof fn lemma_grid4x4_update(cells: Seq<Board4x4Element>, slot: Slot, e: Board4x4Element)
    requires
        cells.len() == 16,
        slot.0 < 4,
        slot.1 < 4,
    ensures
        grid4x4(cells.update(slot.0 * 4 + slot.1, e)) == grid4x4(cells).put(slot, e.value()),
{
    let a = grid4x4(cells.update(slot.0 * 4 + slot.1, e));
    let b = grid4x4(cells).put(slot, e.value());
    assert forall|r: int| 0 <= r < 4 implies #[trigger] a.cells[r] =~= b.cells[r] by {
    }
    assert(a.cells =~= b.cells);
}

proof fn lemma_clone4x4(a: Board4x4, b: Board4x4)
    requires
        cloned(a, b),
    ensures
        a == b,
{
}

impl Board4x4 {
    pub fn new(board: [Board4x4Element; 16]) -> (r: Self)
        ensures
            r@ == grid4x4(board@),
    {
        Self { board }
    }

    /// Whether `values` can stand on a board: 16 numbers, none above 4.
    pub fn is_valid_u8_vec(values: &Vec<u8>) -> (r: bool)
        ensures
            r == (values.len() == 16 && forall|i: int| 0 <= i < 16 ==> values[i] <= 4),
    {
        if values.len() != 16 {
            return false;
        }
        let mut i: usize = 0;
        while i < 16
            invariant
                i <= 16,
                values.len() == 16,
                forall|j: int| 0 <= j < i ==> values[j] <= 4,
            decreases 16 - i,
        {
            if values[i] > 4 {
                return false;
            }
            i += 1;
        }
        true
    }

    /// The board that holds `values`, row by row; `0` is an unknown cell.
    pub fn from_u8_vec(values: &Vec<u8>) -> (r: Self)
        requires
            values.len() == 16,
            forall|i: int| 0 <= i < 16 ==> values[i] <= 4,
        ensures
            r@ == Grid::of_numbers(4, 2, values@),
    {
        let mut board = [Board4x4Element::U0; 16];
        let mut i: usize = 0;
        while i < 16
            invariant
                i <= 16,
                values.len() == 16,
                forall|j: int| 0 <= j < 16 ==> values[j] <= 4,
                forall|j: int| 0 <= j < i ==> (#[trigger] board[j]).value() == values[j],
            decreases 16 - i,
        {
            board[i] = Board4x4Element::from(values[i]);
            i += 1;
        }
        let r = Self { board };
        proof {
            let a = r@;
            let b = Grid::of_numbers(4, 2, values@);
            assert forall|row: int| 0 <= row < 4 implies #[trigger] a.cells[row]
                =~= b.cells[row] by {
                assert forall|c: int| 0 <= c < 4 implies a.cells[row][c] == b.cells[row][c] by {
                    assert(board[row * 4 + c].value() == values[row * 4 + c]);
                }
            }
            assert(a.cells =~= b.cells);
        }
        r
    }
}

impl Clone for Board4x4 {
    fn clone(&self) -> (r: Self)
        ensures
            r == *self,
    {
        Self { board: self.board }
    }
}

impl Default for Board4x4 {
    fn default() -> (r: Self)
        ensures
            r@ == grid4x4(Seq::new(16, |i: int| Board4x4Element::U0)),
    {
        let r = Self { board: [Board4x4Element::U0; 16] };
        assert(r.board@ =~= Seq::new(16, |i: int| Board4x4Element::U0));
        r
    }
}

impl Board for Board4x4 {
    type Element = Board4x4Element;

    type ElementSet = Board4x4ElementSet;

    closed spec fn view(&self) -> Grid {
        grid4x4(self.board@)
    }

    open spec fn spec_size() -> usize {
        4
    }

    open spec fn spec_block_size() -> usize {
        2
    }

    proof fn lemma_shape() {
    }

    proof fn lemma_view(&self) {
        assert(Self::spec_block_size() == 2);
        assert(self@.wf());
    }

    proof fn lemma_view_determines(a: Self, b: Self) {
        assert forall|i: int| 0 <= i < 16 implies a.board@[i] == b.board@[i] by {
            let r = i / 4;
            let c = i % 4;
            assert(0 <= r < 4 && 0 <= c < 4 && r * 4 + c == i);
            assert(grid4x4(a.board@).cells[r][c] == a.board@[i].value());
            assert(grid4x4(b.board@).cells[r][c] == b.board@[i].value());
        }
        assert(a.board@ =~= b.board@);
        assert(a.board == b.board);
    }

    proof fn lemma_clone(a: Self, b: Self) {
        lemma_clone4x4(a, b);
    }

    fn size() -> (n: usize) {
        4
    }

    fn block_size() -> (n: usize) {
        2
    }

    fn get(&self, slot: &Slot) -> (r: &Self::Element) {
        let index = slot.0 * 4 + slot.1;
        &self.board[index]
    }

    fn get_mut(&mut self, slot: &Slot) -> (r: &mut Self::Element) {
        let index = slot.0 * 4 + slot.1;
        let r = &mut self.board[index];
        proof {
            lemma_grid4x4_update(old(self).board@, *slot, *final(r));
        }
        r
    }
}

} // verus!
