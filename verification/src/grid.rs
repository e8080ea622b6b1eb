//! The mathematical model of a board: a square grid of numbers, `0` for an
//! empty cell, and what it means to complete one.

use crate::board::FillResult;
use crate::slots::{
    block_begin, lemma_area_rows_contains, slots_of_block, slots_of_board,
    slots_of_column, slots_of_diagonals, slots_of_row, Slot,
};
use crate::values::{all_values, lemma_all_values};
use vstd::prelude::*;

verus! {

/// A grid of edge `size` with blocks of edge `block`; `cells[r][c]` is the
/// number at row `r`, column `c`, and `0` stands for an empty cell.
#[verifier::ext_equal]
pub struct Grid {
    pub size: usize,
    pub block: usize,
    pub cells: Seq<Seq<nat>>,
}

impl Grid {
    /// The grid of edge `size` that holds `numbers`, row by row.
    pub open spec fn of_numbers(size: usize, block: usize, numbers: Seq<u8>) -> Grid {
        Grid {
            size,
            block,
            cells: Seq::new(
                size as nat,
                |r: int| Seq::new(size as nat, |c: int| numbers[r * size + c] as nat),
            ),
        }
    }

    /// The blocks tile the grid, the grid is square, and no cell holds more
    /// than `size`.
    pub open spec fn wf(self) -> bool {
        &&& self.block > 0
        &&& self.block * self.block == self.size
        &&& self.cells.len() == self.size
        &&& forall|r: int| 0 <= r < self.size ==> (#[trigger] self.cells[r]).len() == self.size
        &&& forall|s: Slot| self.in_range(s) ==> #[trigger] self.at(s) <= self.size
    }

    pub open spec fn in_range(self, s: Slot) -> bool {
        s.0 < self.size && s.1 < self.size
    }

    /// The number at `s`.
    pub open spec fn at(self, s: Slot) -> nat {
        self.cells[s.0 as int][s.1 as int]
    }

    /// The grid with `v` written at `s`.
    pub open spec fn put(self, s: Slot, v: nat) -> Grid {
        Grid {
            size: self.size,
            block: self.block,
            cells: self.cells.update(s.0 as int, self.cells[s.0 as int].update(s.1 as int, v)),
        }
    }

    /// The numbers, other than `0`, that stand at the slots of `slots`.
    pub open spec fn values_over(self, slots: Seq<Slot>) -> Set<nat> {
        Set::new(
            |v: nat|
                v != 0 && exists|i: int|
                    0 <= i < slots.len() && self.at(#[trigger] slots[i]) == v,
        )
    }

    pub open spec fn row_values(self, row: usize) -> Set<nat> {
        self.values_over(slots_of_row(self.size, row))
    }

    pub open spec fn column_values(self, column: usize) -> Set<nat> {
        self.values_over(slots_of_column(self.size, column))
    }

    /// The numbers in the block that holds `s`.
    pub open spec fn block_values(self, s: Slot) -> Set<nat> {
        self.values_over(slots_of_block(self.block, s))
    }

    /// The numbers on the diagonals through `s`.
    pub open spec fn diagonal_values(self, s: Slot) -> Set<nat> {
        self.values_over(slots_of_diagonals(self.size, s))
    }

    /// The values that neither the row, the column nor the block of `s` holds.
    pub open spec fn candidates(self, s: Slot) -> Set<nat> {
        Set::new(
            |v: nat|
                1 <= v <= self.size && !self.row_values(s.0).contains(v)
                    && !self.column_values(s.1).contains(v) && !self.block_values(s).contains(v),
        )
    }

    pub open spec fn same_block(self, a: Slot, b: Slot) -> bool {
        block_begin(self.block, a) == block_begin(self.block, b)
    }

    /// Two slots that share a row, a column or a block.
    pub open spec fn linked(self, a: Slot, b: Slot) -> bool {
        a.0 == b.0 || a.1 == b.1 || self.same_block(a, b)
    }

    /// Two different slots that share a row, a column or a block.
    pub open spec fn peers(self, a: Slot, b: Slot) -> bool {
        a != b && self.linked(a, b)
    }

    /// No number stands at two slots that are peers.
    pub open spec fn consistent(self) -> bool {
        forall|a: Slot, b: Slot|
            self.in_range(a) && self.in_range(b) && #[trigger] self.peers(a, b) && self.at(a) != 0
                ==> self.at(a) != self.at(b)
    }

    pub open spec fn is_full(self) -> bool {
        forall|s: Slot| self.in_range(s) ==> #[trigger] self.at(s) != 0
    }

    /// A full grid in which no row, column or block holds a number twice.
    pub open spec fn is_solution(self) -> bool {
        self.wf() && self.is_full() && self.consistent()
    }

    /// `self` has the shape of `base` and agrees with it wherever `base` is filled.
    pub open spec fn extends(self, base: Grid) -> bool {
        &&& self.size == base.size
        &&& self.block == base.block
        &&& forall|s: Slot|
            base.in_range(s) && base.at(s) != 0 ==> #[trigger] self.at(s) == base.at(s)
    }

    /// `self` is a solution that fills in the empty cells of `base`.
    pub open spec fn completes(self, base: Grid) -> bool {
        self.is_solution() && self.extends(base)
    }

    /// All solutions of the puzzle that `self` poses.
    pub open spec fn solutions(self) -> Set<Grid> {
        Set::new(|s: Grid| s.completes(self))
    }

    /// The empty slots.
    pub open spec fn unknowns(self) -> Set<Slot> {
        Set::new(|s: Slot| self.in_range(s) && self.at(s) == 0)
    }

    /// The empty slots in the order of a walk over the board.
    pub open spec fn unknown_seq(self) -> Seq<Slot> {
        slots_of_board(self.size).filter(|s: Slot| self.at(s) == 0)
    }
}

/// Blocks lie within the grid, and the slots of a block are those whose own
/// block begins where it begins.
pub proof fn lemma_block_bounds(block: usize, x: usize)
    requires
        block > 0,
        x < block * block,
    ensures
        x - x % block + block <= block * block,
        x % block < block,
        x % block <= x,
        forall|y: int|
            x - x % block <= y < x - x % block + block ==> y - #[trigger] (y % (block as int)) == x
                - x % block,
{
    let b = block as int;
    let xi = x as int;
    vstd::arithmetic::div_mod::lemma_fundamental_div_mod(xi, b);
    vstd::arithmetic::div_mod::lemma_mod_pos_bound(xi, b);
    let q = xi / b;
    assert(xi - xi % b == b * q);
    assert(q < b) by (nonlinear_arith)
        requires
            b * q <= xi,
            xi < b * b,
            b > 0,
    ;
    assert(b * q + b <= b * b) by (nonlinear_arith)
        requires
            q < b,
            b > 0,
    ;
    assert forall|y: int| xi - xi % b <= y < xi - xi % b + b implies y - #[trigger] (y % b) == xi
        - xi % b by {
        let r = y - b * q;
        assert(y == q * b + r) by (nonlinear_arith)
            requires
                r == y - b * q,
        ;
        vstd::arithmetic::div_mod::lemma_fundamental_div_mod_converse(y, b, q, r);
    }
}

impl Grid {
    /// The slots of the block of `s` are the slots in range that share its block.
    pub proof fn lemma_block_slots(self, s: Slot, t: Slot)
        requires
            self.wf(),
            self.in_range(s),
        ensures
            slots_of_block(self.block, s).contains(t) <==> self.in_range(t) && self.same_block(
                s,
                t,
            ),
            block_begin(self.block, s).0 + self.block <= self.size,
            block_begin(self.block, s).1 + self.block <= self.size,
    {
        lemma_block_bounds(self.block, s.0);
        lemma_block_bounds(self.block, s.1);
        let begin = block_begin(self.block, s);
        lemma_area_rows_contains(begin, self.block, 0, t);
        if self.in_range(t) {
            lemma_block_bounds(self.block, t.0);
            lemma_block_bounds(self.block, t.1);
        }
        if slots_of_block(self.block, s).contains(t) {
            assert(t.0 - (t.0 as int) % (self.block as int) == begin.0);
            assert(t.1 - (t.1 as int) % (self.block as int) == begin.1);
        }
    }

    /// What writing a cell changes.
    pub proof fn lemma_put(self, s: Slot, v: nat)
        requires
            self.wf(),
            self.in_range(s),
            v <= self.size,
        ensures
            self.put(s, v).wf(),
            self.put(s, v).at(s) == v,
            forall|t: Slot| self.in_range(t) && t != s ==> #[trigger] self.put(s, v).at(t) == self.at(t),
            forall|t: Slot| self.put(s, v).in_range(t) == self.in_range(t),
    {
        let g = self.put(s, v);
        assert forall|t: Slot| g.in_range(t) implies #[trigger] g.at(t) <= g.size by {
            if t != s {
                assert(self.at(t) <= self.size);
            }
        }
        assert forall|r: int| 0 <= r < g.size implies (#[trigger] g.cells[r]).len() == g.size by {
            assert(self.cells[r].len() == self.size);
        }
    }

    /// Two well-formed grids of one shape with the same numbers are the same grid.
    pub proof fn lemma_equal(self, other: Grid)
        requires
            self.wf(),
            other.wf(),
            self.size == other.size,
            self.block == other.block,
            forall|s: Slot| self.in_range(s) ==> #[trigger] self.at(s) == other.at(s),
        ensures
            self == other,
    {
        assert forall|r: int| 0 <= r < self.size implies #[trigger] self.cells[r] == other.cells[r] by {
            assert(self.cells[r].len() == self.size);
            assert(other.cells[r].len() == self.size);
            assert forall|c: int| 0 <= c < self.size implies self.cells[r][c] == other.cells[r][c] by {
                let s: Slot = (r as usize, c as usize);
                assert(self.in_range(s));
                assert(self.at(s) == other.at(s));
            }
            assert(self.cells[r] =~= other.cells[r]);
        }
        assert(self.cells =~= other.cells);
    }

    /// The values of the row, the column and the block of `s` are the
    /// numbers that stand at the slots linked to `s`.
    pub proof fn lemma_linked_values(self, s: Slot, v: nat)
        requires
            self.wf(),
            self.in_range(s),
            v != 0,
        ensures
            (self.row_values(s.0).contains(v) || self.column_values(s.1).contains(v)
                || self.block_values(s).contains(v)) <==> (exists|t: Slot|
                self.in_range(t) && #[trigger] self.linked(s, t) && self.at(t) == v),
    {
        let row = slots_of_row(self.size, s.0);
        let col = slots_of_column(self.size, s.1);
        let blk = slots_of_block(self.block, s);
        if self.row_values(s.0).contains(v) {
            let i = choose|i: int| 0 <= i < row.len() && self.at(#[trigger] row[i]) == v;
            let t = row[i];
            assert(self.in_range(t) && self.linked(s, t) && self.at(t) == v);
        }
        if self.column_values(s.1).contains(v) {
            let i = choose|i: int| 0 <= i < col.len() && self.at(#[trigger] col[i]) == v;
            let t = col[i];
            assert(self.in_range(t) && self.linked(s, t) && self.at(t) == v);
        }
        if self.block_values(s).contains(v) {
            let i = choose|i: int| 0 <= i < blk.len() && self.at(#[trigger] blk[i]) == v;
            let t = blk[i];
            assert(blk.contains(t));
            self.lemma_block_slots(s, t);
            assert(self.in_range(t) && self.linked(s, t) && self.at(t) == v);
        }
        if exists|t: Slot| self.in_range(t) && #[trigger] self.linked(s, t) && self.at(t) == v {
            let t = choose|t: Slot|
                self.in_range(t) && #[trigger] self.linked(s, t) && self.at(t) == v;
            self.lemma_block_slots(s, t);
            if t.0 == s.0 {
                assert(row[t.1 as int] == t);
                assert(self.row_values(s.0).contains(v));
            } else if t.1 == s.1 {
                assert(col[t.0 as int] == t);
                assert(self.column_values(s.1).contains(v));
            } else {
                assert(blk.contains(t));
                let i = choose|i: int| 0 <= i < blk.len() && blk[i] == t;
                assert(self.at(blk[i]) == v);
                assert(self.block_values(s).contains(v));
            }
        }
    }
}

impl Grid {
    /// In a solution of a puzzle, the number at a slot that the puzzle leaves
    /// empty is one of the slot's candidates.
    pub proof fn lemma_solution_value_is_candidate(self, sol: Grid, k: Slot)
        requires
            self.wf(),
            sol.completes(self),
            self.in_range(k),
            self.at(k) == 0,
        ensures
            self.candidates(k).contains(sol.at(k)),
    {
        let v = sol.at(k);
        assert(sol.in_range(k));
        assert(v != 0);
        assert(v <= sol.size);
        self.lemma_linked_values(k, v);
        if exists|t: Slot| self.in_range(t) && #[trigger] self.linked(k, t) && self.at(t) == v {
            let t = choose|t: Slot|
                self.in_range(t) && #[trigger] self.linked(k, t) && self.at(t) == v;
            assert(sol.at(t) == v);
            assert(sol.peers(t, k));
        }
    }

    /// The solutions of a puzzle with one more cell filled are the solutions
    /// of the puzzle that hold that number there.
    pub proof fn lemma_put_solutions(self, k: Slot, v: nat, sol: Grid)
        requires
            self.wf(),
            self.in_range(k),
            self.at(k) == 0,
            1 <= v <= self.size,
        ensures
            sol.completes(self.put(k, v)) <==> (sol.completes(self) && sol.at(k) == v),
    {
        self.lemma_put(k, v);
        let g = self.put(k, v);
        if sol.completes(g) {
            assert(sol.at(k) == g.at(k));
            assert forall|s: Slot| self.in_range(s) && self.at(s) != 0 implies #[trigger] sol.at(s)
                == self.at(s) by {
                assert(g.at(s) == self.at(s));
            }
        }
        if sol.completes(self) && sol.at(k) == v {
            assert forall|s: Slot| g.in_range(s) && g.at(s) != 0 implies #[trigger] sol.at(s)
                == g.at(s) by {
                if s != k {
                    assert(g.at(s) == self.at(s));
                }
            }
        }
    }

    /// Writing a candidate into an empty cell of a consistent grid keeps it
    /// consistent.
    pub proof fn lemma_put_consistent(self, k: Slot, v: nat)
        requires
            self.wf(),
            self.in_range(k),
            self.at(k) == 0,
            self.consistent(),
            self.candidates(k).contains(v),
        ensures
            self.put(k, v).consistent(),
    {
        self.lemma_put(k, v);
        self.lemma_linked_values(k, v);
        let g = self.put(k, v);
        assert forall|a: Slot, b: Slot|
            g.in_range(a) && g.in_range(b) && #[trigger] g.peers(a, b) && g.at(a) != 0 implies g.at(
            a,
        ) != g.at(b) by {
            if a == k {
                assert(g.at(b) == self.at(b));
                assert(self.linked(k, b));
            } else if b == k {
                assert(g.at(a) == self.at(a));
                assert(self.linked(k, a));
            } else {
                assert(g.at(a) == self.at(a));
                assert(g.at(b) == self.at(b));
                assert(self.peers(a, b));
            }
        }
    }

    /// A grid has finitely many empty slots.
    pub proof fn lemma_unknowns_finite(self)
        ensures
            self.unknowns().finite(),
    {
        let all = slots_of_board(self.size);
        assert forall|s: Slot| self.unknowns().contains(s) implies all.to_set().contains(s) by {
            lemma_area_rows_contains((0, 0), self.size, 0, s);
        }
        vstd::seq_lib::seq_to_set_is_finite(all);
        vstd::set_lib::lemma_set_subset_finite(all.to_set(), self.unknowns());
    }

    /// Filling an empty cell leaves one empty slot fewer; clearing a filled
    /// one leaves one more.
    pub proof fn lemma_put_unknowns(self, k: Slot, v: nat)
        requires
            self.wf(),
            self.in_range(k),
            v <= self.size,
        ensures
            v != 0 ==> self.put(k, v).unknowns() == self.unknowns().remove(k),
            v == 0 ==> self.put(k, v).unknowns() == self.unknowns().insert(k),
            v != 0 && self.at(k) == 0 ==> self.put(k, v).unknowns().len() + 1
                == self.unknowns().len(),
            v != 0 && self.at(k) != 0 ==> self.put(k, v).unknowns().len()
                == self.unknowns().len(),
    {
        self.lemma_put(k, v);
        self.lemma_unknowns_finite();
        let g = self.put(k, v);
        if v != 0 {
            assert forall|s: Slot| g.unknowns().contains(s) == self.unknowns().remove(k).contains(
                s,
            ) by {
                if s != k && self.in_range(s) {
                    assert(g.at(s) == self.at(s));
                }
            }
            assert(g.unknowns() =~= self.unknowns().remove(k));
        } else {
            assert forall|s: Slot| g.unknowns().contains(s) == self.unknowns().insert(k).contains(
                s,
            ) by {
                if s != k && self.in_range(s) {
                    assert(g.at(s) == self.at(s));
                }
            }
            assert(g.unknowns() =~= self.unknowns().insert(k));
        }
    }

    /// A grid is full exactly when it has no empty slot.
    pub proof fn lemma_full_has_no_unknowns(self)
        ensures
            self.is_full() <==> self.unknowns().len() == 0,
            self.is_full() <==> self.unknowns() == Set::<Slot>::empty(),
    {
        self.lemma_unknowns_finite();
        if self.is_full() {
            assert(self.unknowns() =~= Set::<Slot>::empty());
        }
        if self.unknowns().len() == 0 {
            assert forall|s: Slot| self.in_range(s) implies #[trigger] self.at(s) != 0 by {
                if self.at(s) == 0 {
                    assert(self.unknowns().contains(s));
                }
            }
        }
    }
}

impl Grid {
    /// One pass over `slots`, in their order: an empty slot without a
    /// candidate ends the pass as unsatisfied, an empty slot with one
    /// candidate is filled with it, and every other slot is left as it is.
    /// The result is the grid after the pass and what the pass did.
    pub open spec fn propagate(self, slots: Seq<Slot>) -> (Grid, FillResult)
        decreases slots.len(),
    {
        if slots.len() == 0 {
            (self, FillResult::Unmodified)
        } else if self.at(slots[0]) != 0 {
            self.propagate(slots.skip(1))
        } else if self.candidates(slots[0]).len() == 0 {
            (self, FillResult::Unsatisfied)
        } else if self.candidates(slots[0]).len() == 1 {
            let (g, r) = self.put(slots[0], self.candidates(slots[0]).choose()).propagate(
                slots.skip(1),
            );
            (
                g,
                if r == FillResult::Unsatisfied {
                    FillResult::Unsatisfied
                } else {
                    FillResult::Modified
                },
            )
        } else {
            self.propagate(slots.skip(1))
        }
    }

    /// The candidates of a slot are finitely many values of the grid.
    pub proof fn lemma_candidates(self, s: Slot)
        ensures
            self.candidates(s).finite(),
            self.candidates(s).len() <= self.size,
            forall|v: nat| self.candidates(s).contains(v) ==> 1 <= v <= self.size,
    {
        crate::values::lemma_ascending_len(self.candidates(s), self.size as nat);
    }

    /// A slot without candidates leaves the puzzle without solutions.
    pub proof fn lemma_no_candidate_no_solution(self, k: Slot)
        requires
            self.wf(),
            self.in_range(k),
            self.at(k) == 0,
            self.candidates(k).len() == 0,
        ensures
            self.solutions() == Set::<Grid>::empty(),
    {
        self.lemma_candidates(k);
        self.candidates(k).lemma_len0_is_empty();
        assert forall|sol: Grid| !self.solutions().contains(sol) by {
            if sol.completes(self) {
                self.lemma_solution_value_is_candidate(sol, k);
            }
        }
        assert(self.solutions() =~= Set::<Grid>::empty());
    }

    /// Filling a slot with its only candidate keeps the solutions.
    pub proof fn lemma_single_candidate_keeps_solutions(self, k: Slot)
        requires
            self.wf(),
            self.in_range(k),
            self.at(k) == 0,
            self.candidates(k).len() == 1,
        ensures
            self.candidates(k).contains(self.candidates(k).choose()),
            self.put(k, self.candidates(k).choose()).solutions() == self.solutions(),
    {
        let c = self.candidates(k);
        let v = c.choose();
        self.lemma_candidates(k);
        Set::lemma_is_singleton(c);
        assert(c.contains(v));
        assert forall|sol: Grid|
            self.put(k, v).solutions().contains(sol) == self.solutions().contains(sol) by {
            self.lemma_put_solutions(k, v, sol);
            if sol.completes(self) {
                self.lemma_solution_value_is_candidate(sol, k);
            }
        }
        assert(self.put(k, v).solutions() =~= self.solutions());
    }

    /// What a pass keeps: the shape, the filled cells, the solutions and the
    /// consistency of the grid.
    pub proof fn lemma_propagate(self, slots: Seq<Slot>)
        requires
            self.wf(),
            forall|i: int| 0 <= i < slots.len() ==> self.in_range(#[trigger] slots[i]),
        ensures
            ({
                let (g, r) = self.propagate(slots);
                &&& g.wf()
                &&& g.extends(self)
                &&& g.unknowns().subset_of(self.unknowns())
                &&& g.unknowns().len() <= self.unknowns().len()
                &&& (r == FillResult::Unmodified ==> g == self)
                &&& (r != FillResult::Unsatisfied ==> g.solutions() == self.solutions())
                &&& (r == FillResult::Unsatisfied ==> self.solutions() == Set::<Grid>::empty())
                &&& (self.consistent() ==> g.consistent())
            }),
        decreases slots.len(),
    {
        self.lemma_unknowns_finite();
        if slots.len() == 0 {
        } else {
            let k = slots[0];
            let rest = slots.skip(1);
            assert forall|i: int| 0 <= i < rest.len() implies self.in_range(#[trigger] rest[i]) by {
                assert(rest[i] == slots[i + 1]);
            }
            if self.at(k) != 0 {
                self.lemma_propagate(rest);
            } else if self.candidates(k).len() == 0 {
                self.lemma_no_candidate_no_solution(k);
            } else if self.candidates(k).len() == 1 {
                let v = self.candidates(k).choose();
                self.lemma_single_candidate_keeps_solutions(k);
                self.lemma_candidates(k);
                self.lemma_put(k, v);
                self.lemma_put_unknowns(k, v);
                if self.consistent() {
                    self.lemma_put_consistent(k, v);
                }
                let mid = self.put(k, v);
                mid.lemma_propagate(rest);
                let (g, r) = mid.propagate(rest);
                assert(g.extends(self)) by {
                    assert forall|s: Slot| self.in_range(s) && self.at(s) != 0 implies #[trigger] g.at(
                        s,
                    ) == self.at(s) by {
                        assert(mid.at(s) == self.at(s));
                    }
                }
                vstd::set_lib::lemma_len_subset(g.unknowns(), mid.unknowns());
                if r == FillResult::Unsatisfied {
                    assert(self.solutions() == Set::<Grid>::empty());
                }
            } else {
                self.lemma_propagate(rest);
            }
        }
    }
}

impl Grid {
    /// The grid with the slots of `slots` emptied.
    pub open spec fn cleared(self, slots: Seq<Slot>) -> Grid
        decreases slots.len(),
    {
        if slots.len() == 0 {
            self
        } else {
            self.cleared(slots.drop_last()).put(slots.last(), 0)
        }
    }

    /// Emptying slots empties those slots and leaves the others as they are.
    pub proof fn lemma_cleared(self, slots: Seq<Slot>)
        requires
            self.wf(),
            forall|i: int| 0 <= i < slots.len() ==> self.in_range(#[trigger] slots[i]),
        ensures
            self.cleared(slots).wf(),
            self.cleared(slots).size == self.size,
            self.cleared(slots).block == self.block,
            forall|s: Slot|
                self.in_range(s) ==> #[trigger] self.cleared(slots).at(s) == (if slots.contains(s) {
                    0
                } else {
                    self.at(s)
                }),
            self.extends(self.cleared(slots)),
            self.cleared(slots).unknowns() == self.unknowns().union(slots.to_set()),
            self.is_full() && slots.no_duplicates() ==> self.cleared(slots).unknowns().len()
                == slots.len(),
            self.is_solution() ==> self.cleared(slots).solutions().contains(self),
        decreases slots.len(),
    {
        let g = self.cleared(slots);
        if slots.len() > 0 {
            let init = slots.drop_last();
            let mid = self.cleared(init);
            assert forall|i: int| 0 <= i < init.len() implies self.in_range(#[trigger] init[i]) by {
                assert(init[i] == slots[i]);
            }
            self.lemma_cleared(init);
            mid.lemma_put(slots.last(), 0);
            assert forall|s: Slot| self.in_range(s) implies #[trigger] g.at(s) == (if slots.contains(
                s,
            ) {
                0
            } else {
                self.at(s)
            }) by {
                if s == slots.last() {
                    assert(slots[slots.len() - 1] == s);
                } else {
                    assert(g.at(s) == mid.at(s));
                    if init.contains(s) {
                        let i = choose|i: int| 0 <= i < init.len() && init[i] == s;
                        assert(slots[i] == s);
                    }
                    if slots.contains(s) {
                        let i = choose|i: int| 0 <= i < slots.len() && slots[i] == s;
                        assert(init[i] == s);
                    }
                }
            }
        }
        assert forall|s: Slot| g.unknowns().contains(s) == self.unknowns().union(
            slots.to_set(),
        ).contains(s) by {
            if slots.contains(s) {
                let i = choose|i: int| 0 <= i < slots.len() && slots[i] == s;
                assert(self.in_range(slots[i]));
            }
        }
        assert(g.unknowns() =~= self.unknowns().union(slots.to_set()));
        if self.is_full() && slots.no_duplicates() {
            self.lemma_full_has_no_unknowns();
            assert(g.unknowns() =~= slots.to_set());
            slots.unique_seq_to_set();
        }
    }
}

impl Grid {
    /// In a solution, a group of `size` slots that are linked with one
    /// another holds every value, each once.
    pub proof fn lemma_group_is_complete(self, slots: Seq<Slot>)
        requires
            self.is_solution(),
            slots.len() == self.size,
            slots.no_duplicates(),
            forall|i: int| 0 <= i < slots.len() ==> self.in_range(#[trigger] slots[i]),
            forall|i: int, j: int|
                0 <= i < slots.len() && 0 <= j < slots.len() ==> self.linked(slots[i], slots[j]),
        ensures
            self.values_over(slots) == all_values(self.size as nat),
            self.values_over(slots).len() == self.size,
            forall|i: int, j: int|
                0 <= i < j < slots.len() ==> self.at(slots[i]) != self.at(slots[j]),
    {
        let numbers = Seq::new(slots.len(), |i: int| self.at(slots[i]));
        assert forall|i: int, j: int| 0 <= i < j < slots.len() implies self.at(slots[i]) != self.at(
            slots[j],
        ) by {
            assert(self.peers(slots[i], slots[j]));
        }
        assert(numbers.no_duplicates());
        numbers.unique_seq_to_set();
        vstd::seq_lib::seq_to_set_is_finite(numbers);
        lemma_all_values(self.size as nat);
        assert forall|v: nat| numbers.to_set().contains(v) implies all_values(
            self.size as nat,
        ).contains(v) by {
            let i = choose|i: int| 0 <= i < numbers.len() && numbers[i] == v;
            assert(self.at(slots[i]) != 0);
            assert(self.at(slots[i]) <= self.size);
        }
        vstd::set_lib::lemma_subset_equality(numbers.to_set(), all_values(self.size as nat));
        assert forall|v: nat| self.values_over(slots).contains(v) == numbers.to_set().contains(
            v,
        ) by {
            if self.values_over(slots).contains(v) {
                let i = choose|i: int| 0 <= i < slots.len() && self.at(#[trigger] slots[i]) == v;
                assert(numbers[i] == v);
            }
            if numbers.to_set().contains(v) {
                let i = choose|i: int| 0 <= i < numbers.len() && numbers[i] == v;
                assert(self.at(slots[i]) == v);
                assert(self.at(slots[i]) != 0);
            }
        }
        assert(self.values_over(slots) =~= numbers.to_set());
    }

    /// In a solution, every row, every column and every block holds each of
    /// the `size` values, and none of them twice.
    pub proof fn lemma_solution_groups(self, s: Slot)
        requires
            self.is_solution(),
            self.in_range(s),
        ensures
            self.row_values(s.0) == all_values(self.size as nat),
            self.column_values(s.1) == all_values(self.size as nat),
            self.block_values(s) == all_values(self.size as nat),
            self.row_values(s.0).len() == self.size,
            self.column_values(s.1).len() == self.size,
            self.block_values(s).len() == self.size,
            forall|a: Slot, b: Slot|
                self.in_range(a) && self.in_range(b) && #[trigger] self.peers(a, b) ==> self.at(a)
                    != self.at(b),
    {
        self.lemma_group_is_complete(slots_of_row(self.size, s.0));
        self.lemma_group_is_complete(slots_of_column(self.size, s.1));
        let blk = slots_of_block(self.block, s);
        crate::slots::lemma_area_rows_len(block_begin(self.block, s), self.block, 0);
        self.lemma_block_slots(s, s);
        crate::slots::lemma_area_rows_no_duplicates(block_begin(self.block, s), self.block, 0);
        assert forall|i: int| 0 <= i < blk.len() implies self.in_range(#[trigger] blk[i])
            && self.same_block(s, blk[i]) by {
            assert(blk.contains(blk[i]));
            self.lemma_block_slots(s, blk[i]);
        }
        self.lemma_group_is_complete(blk);
    }
}

} // verus!
