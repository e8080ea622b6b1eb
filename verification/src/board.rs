//! The capabilities of a board: its elements, the sets of its elements, and
//! the board itself with the operations that every board shares.

use crate::grid::Grid;
use crate::slots::{
    slots_of_block, slots_of_board, slots_of_column, slots_of_diagonals, slots_of_row,
    BlockSlotIterator, ColumnSlotIterator, DiagonalSlotIterator, RowSlotIterator, Slot,
    SlotIterator,
};
use crate::random::{lemma_same_items, shuffle_thread};
use crate::text::{cell_end, display_row, display_rows, display_text, mask_text};
use crate::values::{ascending, complement_of, decimal_text};
use vstd::prelude::*;

verus! {

/// The numbers for which the elements of `s` stand.
pub open spec fn values_of<E: BoardElement>(s: Seq<E>) -> Seq<nat> {
    s.map_values(|e: E| e.value())
}

/// What stands in a cell: "unknown", or one of the values `1..=domain()`.
pub trait BoardElement: Copy + Clone + Default + std::fmt::Debug {
    /// `0` for the unknown element, `k` for the `k`-th value.
    spec fn value(&self) -> nat;

    /// How many values there are.
    spec fn domain() -> nat;

    proof fn lemma_value_in_domain(&self)
        ensures
            self.value() <= Self::domain(),
    ;

    /// An element is known by its number.
    proof fn lemma_value_determines(a: Self, b: Self)
        requires
            a.value() == b.value(),
        ensures
            a == b,
    ;

    /// The default element is the unknown one.
    proof fn lemma_default_is_unknown(e: Self)
        requires
            call_ensures(Self::default, (), e),
        ensures
            e.value() == 0,
    ;

    /// Check if this board element is unknown
    fn is_unknown(&self) -> (b: bool)
        ensures
            b == (self.value() == 0),
    ;

    /// Check if this board element is an answer: the inverse of `is_unknown`
    fn is_answer(&self) -> (b: bool)
        ensures
            b == (self.value() != 0),
    {
        !self.is_unknown()
    }

    /// The element's number in decimal digits
    fn to_string(&self) -> (s: String)
        ensures
            s@ == decimal_text(self.value()),
    ;
}

/// A set of elements. The unknown element is never a member.
pub trait ElementSet: Default + Copy + Clone {
    type Element: BoardElement;

    /// The numbers of the members.
    spec fn view(&self) -> Set<nat>;

    proof fn lemma_view_in_domain(&self)
        ensures
            forall|v: nat| self@.contains(v) ==> 1 <= v <= Self::Element::domain(),
    ;

    /// The default set is empty.
    proof fn lemma_default_is_empty(s: Self)
        requires
            call_ensures(Self::default, (), s),
        ensures
            s@ == Set::<nat>::empty(),
    ;

    /// Get the intersection between two element sets
    fn intersect(&self, other: &Self) -> (r: Self)
        ensures
            r@ == self@.intersect(other@),
    ;

    /// Get the complement of this set over the whole set of values
    fn complement(&self) -> (r: Self)
        ensures
            r@ == complement_of(Self::Element::domain(), self@),
    ;

    /// Count the number of elements inside the set
    fn count(&self) -> (n: usize)
        ensures
            n == self@.len(),
    ;

    /// Insert a new element into the set; the unknown element is left out
    fn insert(&mut self, elem: &Self::Element)
        ensures
            final(self)@ == (if elem.value() == 0 {
                old(self)@
            } else {
                old(self)@.insert(elem.value())
            }),
    ;

    /// Get all the elements of the set, smaller values first
    fn elements(&self) -> (r: Vec<Self::Element>)
        ensures
            values_of(r@) == ascending(self@, Self::Element::domain()),
    ;

    /// The set as at least eight binary digits, the digit of value 1 last
    fn to_string(&self) -> (s: String)
        ensures
            s@ == mask_text(self@, Self::Element::domain()),
    ;
}

/// Appends `elem` to an enumeration of `set` that has come to the value
/// before it, if `elem` is a member.
pub(crate) fn push_if_member<E: BoardElement>(
    list: &mut Vec<E>,
    member: bool,
    elem: E,
    Ghost(set): Ghost<Set<nat>>,
)
    requires
        elem.value() >= 1,
        values_of(old(list)@) == ascending(set, (elem.value() - 1) as nat),
        member == set.contains(elem.value()),
    ensures
        values_of(final(list)@) == ascending(set, elem.value()),
{
    if member {
        list.push(elem);
    }
    assert(values_of(list@) =~= ascending(set, elem.value()));
}

/// What filling in the determined answers did to a board.
#[derive(Clone, Copy, PartialEq, Eq, Structural, Debug)]
pub enum FillResult {
    Modified,
    Unmodified,
    Unsatisfied,
}

impl Grid {
    /// Aggregating one more slot adds the number that stands there, if any.
    pub proof fn lemma_values_over_push(self, done: Seq<Slot>, s: Slot)
        ensures
            self.values_over(done.push(s)) == (if self.at(s) == 0 {
                self.values_over(done)
            } else {
                self.values_over(done).insert(self.at(s))
            }),
            self.values_over(Seq::<Slot>::empty()) == Set::<nat>::empty(),
    {
        let more = done.push(s);
        let target = if self.at(s) == 0 {
            self.values_over(done)
        } else {
            self.values_over(done).insert(self.at(s))
        };
        assert forall|v: nat| self.values_over(more).contains(v) == target.contains(v) by {
            if self.values_over(more).contains(v) {
                let i = choose|i: int| 0 <= i < more.len() && self.at(#[trigger] more[i]) == v;
                if i < done.len() {
                    assert(self.at(done[i]) == v);
                }
            }
            if target.contains(v) {
                if self.values_over(done).contains(v) {
                    let i = choose|i: int| 0 <= i < done.len() && self.at(#[trigger] done[i]) == v;
                    assert(self.at(more[i]) == v);
                } else {
                    assert(self.at(more[done.len() as int]) == v);
                }
            }
        }
        assert(self.values_over(more) =~= target);
        assert(self.values_over(Seq::<Slot>::empty()) =~= Set::<nat>::empty());
    }
}

/// A square board of elements, with the rules of the puzzle.
pub trait Board: Sized + Clone + std::fmt::Debug {
    /// The element that is stored inside the board.
    type Element: BoardElement;

    /// The sets of those elements.
    type ElementSet: ElementSet<Element = Self::Element>;

    /// The numbers on the board.
    spec fn view(&self) -> Grid;

    spec fn spec_size() -> usize;

    spec fn spec_block_size() -> usize;

    /// The blocks tile the board, and the elements have one value per column.
    proof fn lemma_shape()
        ensures
            Self::spec_block_size() > 0,
            Self::spec_block_size() * Self::spec_block_size() == Self::spec_size(),
            Self::Element::domain() == Self::spec_size(),
    ;

    /// Every board is a well-formed grid of the board's size.
    proof fn lemma_view(&self)
        ensures
            self@.wf(),
            self@.size == Self::spec_size(),
            self@.block == Self::spec_block_size(),
    ;

    /// A board is known by its numbers.
    proof fn lemma_view_determines(a: Self, b: Self)
        requires
            a@ == b@,
        ensures
            a == b,
    ;

    /// A clone holds the same numbers.
    proof fn lemma_clone(a: Self, b: Self)
        requires
            cloned(a, b),
        ensures
            a@ == b@,
    ;

    /// The overall size of the board: 4 for a 4x4 board, 9 for a 9x9 board.
    fn size() -> (n: usize)
        ensures
            n == Self::spec_size(),
    ;

    /// The size of a block inside the board: 2 for a 4x4 board, 3 for a 9x9 board.
    fn block_size() -> (n: usize)
        ensures
            n == Self::spec_block_size(),
    ;

    /// Getting the element at a slot
    fn get(&self, slot: &Slot) -> (r: &Self::Element)
        requires
            slot.0 < Self::spec_size(),
            slot.1 < Self::spec_size(),
        ensures
            r.value() == self@.at(*slot),
    ;

    /// Getting the element at a slot for writing
    fn get_mut(&mut self, slot: &Slot) -> (r: &mut Self::Element)
        requires
            slot.0 < Self::spec_size(),
            slot.1 < Self::spec_size(),
        ensures
            r.value() == old(self)@.at(*slot),
            final(self)@ == old(self)@.put(*slot, final(r).value()),
    ;

    /// Setting an item at the given slot
    fn set(&mut self, slot: &Slot, item: Self::Element)
        requires
            slot.0 < Self::spec_size(),
            slot.1 < Self::spec_size(),
        ensures
            final(self)@ == old(self)@.put(*slot, item.value()),
    {
        *self.get_mut(slot) = item;
    }

    /// Turn the whole board into a string for display
    fn to_string(&self) -> (s: String)
        ensures
            s@ == display_text(self@),
    {
        let mut s = "[".to_owned();
        let size = Self::size();
        let mut i: usize = 0;
        proof {
            reveal_strlit("[");
            reveal_strlit(",");
            reveal_strlit(";\n ");
            reveal_strlit("]");
            self.lemma_view();
            assert(s@ =~= seq!['['] + display_rows(self@, 0));
        }
        while i < size
            invariant
                i <= size,
                size == Self::spec_size(),
                self@.size == size,
                s@ == seq!['['] + display_rows(self@, i as int),
                ","@ == seq![','],
                ";\n "@ == seq![';', '\n', ' '],
                "]"@ == seq![']'],
            decreases size - i,
        {
            let mut j: usize = 0;
            let ghost before = s@;
            assert(s@ =~= before + display_row(self@, i as int, 0));
            while j < size
                invariant
                    i < size,
                    j <= size,
                    size == Self::spec_size(),
                    self@.size == size,
                    s@ == before + display_row(self@, i as int, j as int),
                    ","@ == seq![','],
                    ";\n "@ == seq![';', '\n', ' '],
                    "]"@ == seq![']'],
                decreases size - j,
            {
                let ghost row = s@;
                s.push_str(self.get(&(i, j)).to_string().as_str());
                if j < size - 1 {
                    s.push_str(",");
                } else if i < size - 1 {
                    s.push_str(";\n ");
                } else {
                    s.push_str("]");
                }
                assert(s@ =~= before + display_row(self@, i as int, j + 1)) by {
                    assert(s@ =~= row + decimal_text(self@.cells[i as int][j as int]) + cell_end(
                        size as int,
                        i as int,
                        j as int,
                    ));
                }
                j += 1;
            }
            assert(s@ =~= seq!['['] + display_rows(self@, i + 1));
            i += 1;
        }
        s
    }

    /// Get all the slots, row by row
    fn slots() -> (r: SlotIterator)
        ensures
            r@ == slots_of_board(Self::spec_size()),
    {
        SlotIterator::new(Self::size())
    }

    /// Get all the unknown slots, in the order of `slots`
    fn unknown_slots(&self) -> (r: Vec<Slot>)
        ensures
            r@ == self@.unknown_seq(),
    {
        let mut out: Vec<Slot> = Vec::new();
        let mut it = Self::slots();
        let ghost all = it@;
        let ghost done = Seq::<Slot>::empty();
        let ghost unknown = |s: Slot| self@.at(s) == 0;
        proof {
            self.lemma_view();
            assert forall|i: int| 0 <= i < all.len() implies self@.in_range(#[trigger] all[i]) by {
                crate::slots::lemma_area_rows_contains((0, 0), Self::spec_size(), 0, all[i]);
            }
        }
        loop
            invariant
                done + it@ == all,
                out@ == done.filter(unknown),
                unknown == (|s: Slot| self@.at(s) == 0),
                self@.size == Self::spec_size(),
                forall|i: int| 0 <= i < all.len() ==> self@.in_range(#[trigger] all[i]),
            ensures
                out@ == all.filter(unknown),
            decreases it@.len(),
        {
            match it.next() {
                Some(slot) => {
                    proof {
                        assert(all[done.len() as int] == slot);
                        done.lemma_filter_push(slot, unknown);
                        assert(done.push(slot) + it@ =~= all);
                        done = done.push(slot);
                    }
                    if self.get(&slot).is_unknown() {
                        out.push(slot);
                    }
                },
                None => {
                    proof {
                        assert(done =~= all);
                    }
                    break ;
                },
            }
        }
        out
    }

    /// Check if the board contains at least one unknown slot
    fn has_unknown_slot(&self) -> (r: bool)
        ensures
            r == !self@.is_full(),
    {
        let mut it = Self::slots();
        let ghost all = it@;
        let ghost done = Seq::<Slot>::empty();
        proof {
            self.lemma_view();
            assert forall|s: Slot| self@.in_range(s) == all.contains(s) by {
                crate::slots::lemma_area_rows_contains((0, 0), Self::spec_size(), 0, s);
            }
        }
        loop
            invariant
                done + it@ == all,
                self@.size == Self::spec_size(),
                forall|s: Slot| self@.in_range(s) == all.contains(s),
                forall|i: int| 0 <= i < done.len() ==> self@.at(#[trigger] done[i]) != 0,
            decreases it@.len(),
        {
            match it.next() {
                Some(slot) => {
                    proof {
                        assert(all[done.len() as int] == slot);
                        assert(all.contains(slot));
                        assert(done.push(slot) + it@ =~= all);
                    }
                    if self.get(&slot).is_unknown() {
                        return true;
                    }
                    proof {
                        done = done.push(slot);
                    }
                },
                None => {
                    proof {
                        assert(done =~= all);
                        assert forall|s: Slot| self@.in_range(s) implies #[trigger] self@.at(s)
                            != 0 by {
                            assert(all.contains(s));
                            let i = choose|i: int| 0 <= i < all.len() && all[i] == s;
                            assert(self@.at(done[i]) != 0);
                        }
                    }
                    return false;
                },
            }
        }
    }

    /// Get all the slots in the given row
    fn row_slots(row: usize) -> (r: RowSlotIterator)
        ensures
            r@ == slots_of_row(Self::spec_size(), row),
    {
        RowSlotIterator::new(Self::size(), row)
    }

    /// Get all the slots in the given column
    fn column_slots(column: usize) -> (r: ColumnSlotIterator)
        ensures
            r@ == slots_of_column(Self::spec_size(), column),
    {
        ColumnSlotIterator::new(Self::size(), column)
    }

    /// Get all the slots in the block that the given slot resides in
    fn block_slots(slot: &Slot) -> (r: BlockSlotIterator)
        requires
            slot.0 < Self::spec_size(),
            slot.1 < Self::spec_size(),
        ensures
            r@ == slots_of_block(Self::spec_block_size(), *slot),
    {
        proof {
            Self::lemma_shape();
            crate::grid::lemma_block_bounds(Self::spec_block_size(), slot.0);
            crate::grid::lemma_block_bounds(Self::spec_block_size(), slot.1);
        }
        let x = slot.0 - slot.0 % Self::block_size();
        let y = slot.1 - slot.1 % Self::block_size();
        BlockSlotIterator::new(Self::block_size(), (x, y))
    }

    /// Get the slots on the diagonals that the given slot resides on.
    ///
    /// There are several cases:
    /// - Slot is on both diagonals
    /// - Slot is on only major diagonal
    /// - Slot is on only minor diagonal
    /// - Slot is on neither
    fn diagonal_slots(slot: &Slot) -> (r: DiagonalSlotIterator)
        requires
            slot.0 < Self::spec_size(),
            slot.1 < Self::spec_size(),
        ensures
            r@ == slots_of_diagonals(Self::spec_size(), *slot),
    {
        let on_major = slot.0 == slot.1;
        let on_minor = slot.0 == Self::size() - slot.1 - 1;
        if on_major && on_minor {
            DiagonalSlotIterator::Both { size: Self::size(), major: true, i: 0 }
        } else if on_major {
            DiagonalSlotIterator::Major { size: Self::size(), i: 0 }
        } else if on_minor {
            DiagonalSlotIterator::Minor { size: Self::size(), i: 0 }
        } else {
            DiagonalSlotIterator::Nothing
        }
    }

    /// Get the element set for a given row
    fn row_elements(&self, row: usize) -> (set: Self::ElementSet)
        requires
            row < Self::spec_size(),
        ensures
            set@ == self@.row_values(row),
    {
        let mut set = Self::ElementSet::default();
        let mut it = Self::row_slots(row);
        let ghost all = it@;
        let ghost done = Seq::<Slot>::empty();
        proof {
            self.lemma_view();
            Self::ElementSet::lemma_default_is_empty(set);
            self@.lemma_values_over_push(done, (0, 0));
        }
        loop
            invariant
                done + it@ == all,
                set@ == self@.values_over(done),
                forall|i: int| 0 <= i < all.len() ==> self@.in_range(#[trigger] all[i]),
                self@.size == Self::spec_size(),
            ensures
                set@ == self@.values_over(all),
            decreases it@.len(),
        {
            match it.next() {
                Some(slot) => {
                    proof {
                        assert(all[done.len() as int] == slot);
                        assert(done.push(slot) + it@ =~= all);
                        self@.lemma_values_over_push(done, slot);
                        done = done.push(slot);
                    }
                    set.insert(self.get(&slot));
                },
                None => {
                    proof {
                        assert(done =~= all);
                    }
                    break ;
                },
            }
        }
        set
    }

    /// Get the element set for a given column
    fn column_elements(&self, column: usize) -> (set: Self::ElementSet)
        requires
            column < Self::spec_size(),
        ensures
            set@ == self@.column_values(column),
    {
        let mut set = Self::ElementSet::default();
        let mut it = Self::column_slots(column);
        let ghost all = it@;
        let ghost done = Seq::<Slot>::empty();
        proof {
            self.lemma_view();
            Self::ElementSet::lemma_default_is_empty(set);
            self@.lemma_values_over_push(done, (0, 0));
        }
        loop
            invariant
                done + it@ == all,
                set@ == self@.values_over(done),
                forall|i: int| 0 <= i < all.len() ==> self@.in_range(#[trigger] all[i]),
                self@.size == Self::spec_size(),
            ensures
                set@ == self@.values_over(all),
            decreases it@.len(),
        {
            match it.next() {
                Some(slot) => {
                    proof {
                        assert(all[done.len() as int] == slot);
                        assert(done.push(slot) + it@ =~= all);
                        self@.lemma_values_over_push(done, slot);
                        done = done.push(slot);
                    }
                    set.insert(self.get(&slot));
                },
                None => {
                    proof {
                        assert(done =~= all);
                    }
                    break ;
                },
            }
        }
        set
    }

    /// Get the element set for a block that the slot resides in
    fn block_elements(&self, slot: &Slot) -> (set: Self::ElementSet)
        requires
            slot.0 < Self::spec_size(),
            slot.1 < Self::spec_size(),
        ensures
            set@ == self@.block_values(*slot),
    {
        let mut set = Self::ElementSet::default();
        let mut it = Self::block_slots(slot);
        let ghost all = it@;
        let ghost done = Seq::<Slot>::empty();
        proof {
            self.lemma_view();
            Self::ElementSet::lemma_default_is_empty(set);
            self@.lemma_values_over_push(done, (0, 0));
            assert forall|i: int| 0 <= i < all.len() implies self@.in_range(#[trigger] all[i]) by {
                assert(all.contains(all[i]));
                self@.lemma_block_slots(*slot, all[i]);
            }
        }
        loop
            invariant
                done + it@ == all,
                set@ == self@.values_over(done),
                forall|i: int| 0 <= i < all.len() ==> self@.in_range(#[trigger] all[i]),
                self@.size == Self::spec_size(),
            ensures
                set@ == self@.values_over(all),
            decreases it@.len(),
        {
            match it.next() {
                Some(slot) => {
                    proof {
                        assert(all[done.len() as int] == slot);
                        assert(done.push(slot) + it@ =~= all);
                        self@.lemma_values_over_push(done, slot);
                        done = done.push(slot);
                    }
                    set.insert(self.get(&slot));
                },
                None => {
                    proof {
                        assert(done =~= all);
                    }
                    break ;
                },
            }
        }
        set
    }

    /// Get the element set for the diagonals that the slot resides on; the
    /// empty set when it lies on neither
    fn diagonal_elements(&self, slot: &Slot) -> (set: Self::ElementSet)
        requires
            slot.0 < Self::spec_size(),
            slot.1 < Self::spec_size(),
        ensures
            set@ == self@.diagonal_values(*slot),
    {
        let mut set = Self::ElementSet::default();
        let mut it = Self::diagonal_slots(slot);
        let ghost all = it@;
        let ghost done = Seq::<Slot>::empty();
        proof {
            self.lemma_view();
            Self::ElementSet::lemma_default_is_empty(set);
            self@.lemma_values_over_push(done, (0, 0));
            crate::slots::lemma_diagonals_in_range(Self::spec_size(), *slot);
        }
        loop
            invariant
                done + it@ == all,
                set@ == self@.values_over(done),
                forall|i: int| 0 <= i < all.len() ==> self@.in_range(#[trigger] all[i]),
                self@.size == Self::spec_size(),
            ensures
                set@ == self@.values_over(all),
            decreases it@.len(),
        {
            match it.next() {
                Some(slot) => {
                    proof {
                        assert(all[done.len() as int] == slot);
                        assert(done.push(slot) + it@ =~= all);
                        self@.lemma_values_over_push(done, slot);
                        done = done.push(slot);
                    }
                    set.insert(self.get(&slot));
                },
                None => {
                    proof {
                        assert(done =~= all);
                    }
                    break ;
                },
            }
        }
        set
    }

    /// Get all the possible answers
    ///
    /// A possible answer for a given slot is a number that is not appearing inside
    /// its row, its column and its block. The diagonals do not count.
    fn possible_answers(&self, slot: &Slot) -> (r: Self::ElementSet)
        requires
            slot.0 < Self::spec_size(),
            slot.1 < Self::spec_size(),
        ensures
            r@ == self@.candidates(*slot),
            forall|v: nat| r@.contains(v) ==> 1 <= v <= Self::spec_size(),
    {
        let row_ans = self.row_elements(slot.0).complement();
        let col_ans = self.column_elements(slot.1).complement();
        let blk_ans = self.block_elements(slot).complement();
        let r = row_ans.intersect(&col_ans).intersect(&blk_ans);
        proof {
            self.lemma_view();
            Self::lemma_shape();
            assert(r@ =~= self@.candidates(*slot));
        }
        r
    }

    /// Put unknowns at the first `amount` slots of `slots`
    fn put_unknowns(&mut self, slots: &Vec<Slot>, amount: usize)
        requires
            amount <= slots.len(),
            forall|i: int|
                0 <= i < slots.len() ==> (#[trigger] slots[i]).0 < Self::spec_size() && slots[i].1
                    < Self::spec_size(),
        ensures
            final(self)@ == old(self)@.cleared(slots@.take(amount as int)),
    {
        let mut i: usize = 0;
        while i < amount
            invariant
                i <= amount <= slots.len(),
                forall|j: int|
                    0 <= j < slots.len() ==> (#[trigger] slots[j]).0 < Self::spec_size()
                        && slots[j].1 < Self::spec_size(),
                self@ == old(self)@.cleared(slots@.take(i as int)),
            decreases amount - i,
        {
            let unknown = Self::Element::default();
            proof {
                Self::Element::lemma_default_is_unknown(unknown);
                assert(slots@.take(i + 1).drop_last() =~= slots@.take(i as int));
            }
            self.set(&slots[i], unknown);
            i += 1;
        }
    }

    /// Put (`amount`) unknowns at random locations inside the board
    fn put_random_unknowns(&mut self, amount: usize)
        requires
            amount <= Self::spec_size() * Self::spec_size(),
        ensures
            exists|chosen: Seq<Slot>|
                {
                    &&& chosen.len() == amount
                    &&& chosen.no_duplicates()
                    &&& forall|i: int|
                        0 <= i < chosen.len() ==> old(self)@.in_range(#[trigger] chosen[i])
                    &&& final(self)@ == #[trigger] old(self)@.cleared(chosen)
                },
            old(self)@.extends(final(self)@),
            old(self)@.is_full() ==> final(self)@.unknowns().len() == amount,
            old(self)@.is_solution() ==> final(self)@.solutions().contains(old(self)@),
    {
        let mut all_slots = Self::slots().collect();
        let ghost in_order = all_slots@;
        let mut rng = rand::thread_rng();
        shuffle_thread(&mut all_slots, &mut rng);
        proof {
            self.lemma_view();
            crate::slots::lemma_area_rows_len((0, 0), Self::spec_size(), 0);
            crate::slots::lemma_area_rows_no_duplicates((0, 0), Self::spec_size(), 0);
            lemma_same_items(in_order, all_slots@);
            assert forall|i: int| 0 <= i < all_slots.len() implies self@.in_range(
                #[trigger] all_slots[i],
            ) by {
                assert(all_slots@.contains(all_slots[i]));
                crate::slots::lemma_area_rows_contains((0, 0), Self::spec_size(), 0, all_slots[i]);
            }
        }
        self.put_unknowns(&all_slots, amount);
        proof {
            let chosen = all_slots@.take(amount as int);
            old(self)@.lemma_cleared(chosen);
        }
    }

    /// Find the slots that only contain one possible answer, and fill that answer
    /// in, in one pass over the board.
    ///
    /// If at least one slot is modified during this process, the result is "Modified"
    /// If no slot is modified, the result is "Unmodified"
    /// If there's one slot that contain no possible answer, then the result is
    /// "Unsatisfied", and the pass ends there.
    fn put_determined_answers(&mut self) -> (r: FillResult)
        ensures
            (final(self)@, r) == old(self)@.propagate(slots_of_board(Self::spec_size())),
            final(self)@.extends(old(self)@),
            r == FillResult::Unmodified ==> final(self)@ == old(self)@,
            r != FillResult::Unsatisfied ==> final(self)@.solutions() == old(self)@.solutions(),
            r == FillResult::Unsatisfied ==> old(self)@.solutions() == Set::<Grid>::empty(),
            old(self)@.consistent() ==> final(self)@.consistent(),
            final(self)@.unknowns().len() <= old(self)@.unknowns().len(),
    {
        let mut modified = false;
        let mut it = Self::slots();
        let ghost all = it@;
        let ghost start = self@;
        proof {
            self.lemma_view();
            Self::lemma_shape();
            assert forall|i: int| 0 <= i < all.len() implies start.in_range(#[trigger] all[i]) by {
                crate::slots::lemma_area_rows_contains((0, 0), Self::spec_size(), 0, all[i]);
            }
            start.lemma_propagate(all);
        }
        loop
            invariant
                after_write(modified, self@.propagate(it@)) == start.propagate(all),
                forall|i: int| 0 <= i < it@.len() ==> start.in_range(#[trigger] it@[i]),
                forall|i: int| 0 <= i < all.len() ==> start.in_range(#[trigger] all[i]),
                start.size == Self::spec_size(),
                start.wf(),
                start == old(self)@,
                all == slots_of_board(Self::spec_size()),
            ensures
                (self@, pass_result(modified)) == start.propagate(all),
            decreases it@.len(),
        {
            let ghost rest = it@;
            match it.next() {
                Some(slot) => {
                    let ghost before = self@;
                    proof {
                        self.lemma_view();
                        Self::lemma_shape();
                        assert(rest[0] == slot);
                        assert(rest.skip(1) == it@);
                        assert forall|i: int| 0 <= i < it@.len() implies start.in_range(
                            #[trigger] it@[i],
                        ) by {
                            assert(it@[i] == rest[i + 1]);
                        }
                    }
                    if self.get(&slot).is_unknown() {
                        let answers = self.possible_answers(&slot);
                        proof {
                            self@.lemma_candidates(slot);
                        }
                        match answers.count() {
                            0 => {
                                assert(before.propagate(rest) == (before, FillResult::Unsatisfied));
                                proof {
                                    start.lemma_propagate(all);
                                }
                                return FillResult::Unsatisfied;
                            },
                            1 => {
                                let found = answers.elements();
                                proof {
                                    crate::values::lemma_ascending_single(
                                        answers@,
                                        Self::spec_size() as nat,
                                    );
                                    assert(values_of(found@).len() == 1);
                                    assert(values_of(found@)[0] == found@[0].value());
                                }
                                self.set(&slot, found[0]);
                                modified = true;
                                assert(before.propagate(rest) == after_write(
                                    true,
                                    self@.propagate(it@),
                                ));
                            },
                            _ => {
                                assert(before.propagate(rest) == before.propagate(it@));
                            },
                        }
                    } else {
                        assert(before.propagate(rest) == before.propagate(it@));
                    }
                },
                None => {
                    break ;
                },
            }
        }
        if modified {
            FillResult::Modified
        } else {
            FillResult::Unmodified
        }
    }
}

/// The result of a pass of which a part is done: `modified` says whether
/// that part wrote a cell, `outcome` is what the rest of the pass gives.
pub open spec fn after_write(modified: bool, outcome: (Grid, FillResult)) -> (Grid, FillResult) {
    (
        outcome.0,
        if outcome.1 == FillResult::Unsatisfied {
            FillResult::Unsatisfied
        } else if modified {
            FillResult::Modified
        } else {
            outcome.1
        },
    )
}

/// The result of a pass that came to its end.
pub open spec fn pass_result(modified: bool) -> FillResult {
    if modified {
        FillResult::Modified
    } else {
        FillResult::Unmodified
    }
}

} // verus!
