//! The theory of the backtracking search: what a stack of puzzles has yet to
//! yield, why the search ends, and what it yields when nothing is left to chance.

use crate::board::FillResult;
use crate::grid::Grid;
use crate::slots::{lemma_area_rows_contains, slots_of_board, Slot};
use crate::values::{ascending, lemma_ascending, lemma_ascending_len};
use vstd::prelude::*;

verus! {

/// The solutions of the puzzles on a stack.
pub open spec fn solutions_of(stack: Seq<Grid>) -> Set<Grid> {
    Set::new(|s: Grid| exists|i: int| 0 <= i < stack.len() && s.completes(#[trigger] stack[i]))
}

pub open spec fn all_wf(stack: Seq<Grid>) -> bool {
    forall|i: int| 0 <= i < stack.len() ==> (#[trigger] stack[i]).wf()
}

pub open spec fn all_consistent(stack: Seq<Grid>) -> bool {
    forall|i: int| 0 <= i < stack.len() ==> (#[trigger] stack[i]).consistent()
}

/// No two puzzles of the stack share a solution.
pub open spec fn disjoint(stack: Seq<Grid>) -> bool {
    forall|i: int, j: int, s: Grid|
        #![trigger s.completes(stack[i]), s.completes(stack[j])]
        0 <= i < j < stack.len() && s.completes(stack[i]) ==> !s.completes(stack[j])
}

/// Every grid of `stack` fills in some grid of `base`.
pub open spec fn each_extends(stack: Seq<Grid>, base: Seq<Grid>) -> bool {
    forall|i: int| 0 <= i < stack.len() ==> fills_some(#[trigger] stack[i], base)
}

/// `g` fills in some grid of `base`.
pub open spec fn fills_some(g: Grid, base: Seq<Grid>) -> bool {
    exists|j: int| 0 <= j < base.len() && g.extends(#[trigger] base[j])
}

/// The work that a puzzle with `unknowns` empty cells may cost on a board
/// with `size` values: more than `size` puzzles with one empty cell fewer.
pub open spec fn weight(size: nat, unknowns: nat) -> nat
    decreases unknowns,
{
    if unknowns == 0 {
        1
    } else {
        (size + 1) * weight(size, (unknowns - 1) as nat)
    }
}

/// The work of one puzzle.
pub open spec fn weight_of(g: Grid) -> nat {
    weight(g.size as nat, g.unknowns().len())
}

/// The work that is left on a stack: it falls with every step of the search.
pub open spec fn work(stack: Seq<Grid>) -> nat
    decreases stack.len(),
{
    if stack.len() == 0 {
        0
    } else {
        work(stack.drop_last()) + weight_of(stack.last())
    }
}

/// The puzzles that arise from `g` when `k` is filled with each of `values`.
pub open spec fn branches(g: Grid, k: Slot, values: Seq<nat>) -> Seq<Grid> {
    Seq::new(values.len(), |i: int| g.put(k, values[i]))
}

pub proof fn lemma_weight(size: nat, a: nat, b: nat)
    requires
        a <= b,
    ensures
        1 <= weight(size, a) <= weight(size, b),
    decreases b,
{
    if a == 0 {
        if b > 0 {
            lemma_weight(size, 0, (b - 1) as nat);
            assert(weight(size, (b - 1) as nat) <= (size + 1) * weight(size, (b - 1) as nat))
                by (nonlinear_arith)
                requires
                    weight(size, (b - 1) as nat) >= 1,
            ;
        }
    } else {
        lemma_weight(size, (a - 1) as nat, (b - 1) as nat);
        assert((size + 1) * weight(size, (a - 1) as nat) <= (size + 1) * weight(
            size,
            (b - 1) as nat,
        )) by (nonlinear_arith)
            requires
                weight(size, (a - 1) as nat) <= weight(size, (b - 1) as nat),
        ;
        assert(1 <= (size + 1) * weight(size, (a - 1) as nat)) by (nonlinear_arith)
            requires
                1 <= weight(size, (a - 1) as nat),
        ;
    }
}

pub proof fn lemma_work_concat(a: Seq<Grid>, b: Seq<Grid>)
    ensures
        work(a + b) == work(a) + work(b),
    decreases b.len(),
{
    if b.len() == 0 {
        assert(a + b =~= a);
    } else {
        lemma_work_concat(a, b.drop_last());
        assert((a + b).drop_last() =~= a + b.drop_last());
        assert((a + b).last() == b.last());
    }
}

pub proof fn lemma_work_push(a: Seq<Grid>, g: Grid)
    ensures
        work(a.push(g)) == work(a) + weight_of(g),
        weight_of(g) >= 1,
{
    assert(a.push(g).drop_last() =~= a);
    lemma_weight(g.size as nat, 0, g.unknowns().len());
}

/// Filling one empty cell in `values.len()` ways costs that many times the
/// work of a puzzle with one empty cell fewer.
pub proof fn lemma_branches_work(g: Grid, k: Slot, values: Seq<nat>)
    requires
        g.wf(),
        g.in_range(k),
        g.at(k) == 0,
        forall|i: int| 0 <= i < values.len() ==> 1 <= #[trigger] values[i] <= g.size,
    ensures
        g.unknowns().len() >= 1,
        work(branches(g, k, values)) == values.len() * weight(
            g.size as nat,
            (g.unknowns().len() - 1) as nat,
        ),
    decreases values.len(),
{
    g.lemma_unknowns_finite();
    assert(g.unknowns().contains(k));
    if g.unknowns().len() == 0 {
        g.unknowns().lemma_len0_is_empty();
    }
    let w = weight(g.size as nat, (g.unknowns().len() - 1) as nat);
    if values.len() == 0 {
        assert(0 * w == 0) by (nonlinear_arith);
    } else {
        let init = values.drop_last();
        lemma_branches_work(g, k, init);
        assert(branches(g, k, values).drop_last() =~= branches(g, k, init));
        let v = values.last();
        g.lemma_put_unknowns(k, v);
        assert(branches(g, k, values).last() == g.put(k, v));
        assert(weight_of(g.put(k, v)) == w);
        assert(values.len() * w == init.len() * w + w) by (nonlinear_arith)
            requires
                values.len() == init.len() + 1,
        ;
    }
}

/// Fewer than `size + 1` puzzles with one empty cell fewer cost less than the
/// puzzle that they come from.
pub proof fn lemma_branches_cost_less(g: Grid, k: Slot, values: Seq<nat>)
    requires
        g.wf(),
        g.in_range(k),
        g.at(k) == 0,
        values.len() <= g.size,
        forall|i: int| 0 <= i < values.len() ==> 1 <= #[trigger] values[i] <= g.size,
    ensures
        work(branches(g, k, values)) < weight_of(g),
{
    lemma_branches_work(g, k, values);
    let u = g.unknowns().len();
    let w = weight(g.size as nat, (u - 1) as nat);
    lemma_weight(g.size as nat, 0, (u - 1) as nat);
    assert(values.len() * w < (g.size + 1) * w) by (nonlinear_arith)
        requires
            values.len() <= g.size,
            w >= 1,
    ;
}

pub proof fn lemma_solutions_concat(a: Seq<Grid>, b: Seq<Grid>)
    ensures
        solutions_of(a + b) == solutions_of(a).union(solutions_of(b)),
{
    let ab = a + b;
    assert forall|s: Grid| solutions_of(ab).contains(s) == solutions_of(a).union(
        solutions_of(b),
    ).contains(s) by {
        if solutions_of(ab).contains(s) {
            let i = choose|i: int| 0 <= i < ab.len() && s.completes(#[trigger] ab[i]);
            if i < a.len() {
                assert(s.completes(a[i]));
            } else {
                assert(s.completes(b[i - a.len()]));
            }
        }
        if solutions_of(a).contains(s) {
            let i = choose|i: int| 0 <= i < a.len() && s.completes(#[trigger] a[i]);
            assert(s.completes(ab[i]));
        }
        if solutions_of(b).contains(s) {
            let i = choose|i: int| 0 <= i < b.len() && s.completes(#[trigger] b[i]);
            assert(s.completes(ab[a.len() + i]));
        }
    }
    assert(solutions_of(ab) =~= solutions_of(a).union(solutions_of(b)));
}

pub proof fn lemma_solutions_single(g: Grid)
    ensures
        solutions_of(seq![g]) == g.solutions(),
        solutions_of(Seq::<Grid>::empty()) == Set::<Grid>::empty(),
{
    let one = seq![g];
    assert forall|s: Grid| solutions_of(one).contains(s) == g.solutions().contains(s) by {
        if s.completes(g) {
            assert(s.completes(one[0]));
        }
    }
    assert(solutions_of(one) =~= g.solutions());
    assert(solutions_of(Seq::<Grid>::empty()) =~= Set::<Grid>::empty());
}

/// The solutions of a stack are those below its top and those of its top.
pub proof fn lemma_solutions_pop(stack: Seq<Grid>)
    requires
        stack.len() > 0,
    ensures
        solutions_of(stack) == solutions_of(stack.drop_last()).union(stack.last().solutions()),
{
    lemma_solutions_concat(stack.drop_last(), seq![stack.last()]);
    lemma_solutions_single(stack.last());
    assert(stack.drop_last() + seq![stack.last()] =~= stack);
}

/// Branching on an empty slot over all its candidates keeps the solutions.
pub proof fn lemma_branches_solutions(g: Grid, k: Slot, values: Seq<nat>)
    requires
        g.wf(),
        g.in_range(k),
        g.at(k) == 0,
        forall|v: nat| values.contains(v) <==> g.candidates(k).contains(v),
    ensures
        solutions_of(branches(g, k, values)) == g.solutions(),
{
    let ch = branches(g, k, values);
    assert forall|s: Grid| solutions_of(ch).contains(s) == g.solutions().contains(s) by {
        if solutions_of(ch).contains(s) {
            let i = choose|i: int| 0 <= i < ch.len() && s.completes(#[trigger] ch[i]);
            assert(values.contains(values[i]));
            g.lemma_put_solutions(k, values[i], s);
        }
        if s.completes(g) {
            g.lemma_solution_value_is_candidate(s, k);
            let v = s.at(k);
            assert(values.contains(v));
            let i = choose|i: int| 0 <= i < values.len() && values[i] == v;
            g.lemma_put_solutions(k, v, s);
            assert(s.completes(ch[i]));
        }
    }
    assert(solutions_of(ch) =~= g.solutions());
}

/// A full grid has itself for its only solution if it is consistent, and
/// none if it is not.
pub proof fn lemma_full_solutions(g: Grid)
    requires
        g.wf(),
        g.is_full(),
    ensures
        g.consistent() ==> g.solutions() == set![g],
        !g.consistent() ==> g.solutions() == Set::<Grid>::empty(),
{
    assert forall|s: Grid| s.completes(g) implies s == g by {
        g.lemma_equal(s);
    }
    if g.consistent() {
        assert(g.completes(g));
        assert(g.solutions() =~= set![g]);
    } else {
        assert(g.solutions() =~= Set::<Grid>::empty());
    }
}

/// The walk over the empty slots yields each empty slot of the grid, and
/// nothing else.
pub proof fn lemma_unknown_seq(g: Grid)
    ensures
        forall|i: int|
            0 <= i < g.unknown_seq().len() ==> g.in_range(#[trigger] g.unknown_seq()[i]) && g.at(
                g.unknown_seq()[i],
            ) == 0,
        forall|s: Slot| g.in_range(s) && g.at(s) == 0 ==> g.unknown_seq().contains(s),
{
    let all = slots_of_board(g.size);
    let empty = |s: Slot| g.at(s) == 0;
    let found = g.unknown_seq();
    assert forall|i: int| 0 <= i < found.len() implies g.in_range(#[trigger] found[i]) && g.at(
        found[i],
    ) == 0 by {
        all.lemma_filter_pred(empty, i);
        assert(found.contains(found[i]));
        all.lemma_filter_contains_rev(empty, found[i]);
        lemma_area_rows_contains((0, 0), g.size, 0, found[i]);
    }
    assert forall|s: Slot| g.in_range(s) && g.at(s) == 0 implies found.contains(s) by {
        lemma_area_rows_contains((0, 0), g.size, 0, s);
        let i = choose|i: int| 0 <= i < all.len() && all[i] == s;
        all.lemma_filter_contains(empty, i);
    }
}

/// How many candidates the `i`-th of `slots` has.
pub open spec fn count_at(g: Grid, slots: Seq<Slot>, i: int) -> nat {
    g.candidates(slots[i]).len()
}

/// `slots[i]` has candidates, no slot with candidates has fewer, and no
/// earlier slot has as few.
pub open spec fn is_least_constrained(g: Grid, slots: Seq<Slot>, i: int) -> bool {
    &&& 0 <= i < slots.len()
    &&& count_at(g, slots, i) > 0
    &&& forall|j: int|
        0 <= j < slots.len() && #[trigger] count_at(g, slots, j) > 0 ==> count_at(g, slots, i)
            <= count_at(g, slots, j)
    &&& forall|j: int| 0 <= j < i ==> #[trigger] count_at(g, slots, j) != count_at(g, slots, i)
}

/// The first of `slots` with the fewest candidates, but at least one; `None`
/// where no slot has a candidate.
pub open spec fn least_constrained(g: Grid, slots: Seq<Slot>) -> Option<Slot> {
    if exists|i: int| is_least_constrained(g, slots, i) {
        Some(slots[choose|i: int| is_least_constrained(g, slots, i)])
    } else {
        None
    }
}

pub proof fn lemma_least_constrained_unique(g: Grid, slots: Seq<Slot>, i: int, j: int)
    requires
        is_least_constrained(g, slots, i),
        is_least_constrained(g, slots, j),
    ensures
        i == j,
{
    assert(count_at(g, slots, i) <= count_at(g, slots, j));
    assert(count_at(g, slots, j) <= count_at(g, slots, i));
}

/// What becomes of the puzzle on top of the stack.
pub enum Expansion {
    /// It has no solution.
    Dead,
    /// It is filled, and is yielded as this grid.
    Solved(Grid),
    /// It gives way to these puzzles, the last of which is taken up next.
    Branch(Seq<Grid>),
}

/// One step of the search on one puzzle, with nothing left to chance: a pass
/// that fills the determined answers, then a branch on the first least
/// constrained empty slot over its candidates in increasing order.
pub open spec fn expand(g: Grid) -> Expansion {
    let (h, r) = g.propagate(slots_of_board(g.size));
    if r == FillResult::Unsatisfied {
        Expansion::Dead
    } else if h.is_full() {
        Expansion::Solved(h)
    } else {
        match least_constrained(h, h.unknown_seq()) {
            None => Expansion::Branch(Seq::empty()),
            Some(k) => Expansion::Branch(
                branches(h, k, ascending(h.candidates(k), h.size as nat)),
            ),
        }
    }
}

/// What a branch keeps, whichever empty slot it takes and in whichever order
/// it tries the candidates.
pub proof fn lemma_branch(g: Grid, k: Slot, values: Seq<nat>)
    requires
        g.wf(),
        g.in_range(k),
        g.at(k) == 0,
        values.len() == g.candidates(k).len(),
        forall|v: nat| values.contains(v) <==> g.candidates(k).contains(v),
    ensures
        all_wf(branches(g, k, values)),
        work(branches(g, k, values)) < weight_of(g),
        solutions_of(branches(g, k, values)) == g.solutions(),
        each_extends(branches(g, k, values), seq![g]),
        g.consistent() ==> all_consistent(branches(g, k, values)),
{
    let ch = branches(g, k, values);
    g.lemma_candidates(k);
    assert forall|i: int| 0 <= i < values.len() implies 1 <= #[trigger] values[i] <= g.size by {
        assert(values.contains(values[i]));
    }
    lemma_branches_cost_less(g, k, values);
    lemma_branches_solutions(g, k, values);
    assert forall|i: int| 0 <= i < ch.len() implies (#[trigger] ch[i]).wf() && ch[i].extends(g)
        && (g.consistent() ==> ch[i].consistent()) by {
        assert(values.contains(values[i]));
        g.lemma_put(k, values[i]);
        if g.consistent() {
            g.lemma_put_consistent(k, values[i]);
        }
    }
    assert forall|i: int| 0 <= i < ch.len() implies fills_some(#[trigger] ch[i], seq![g]) by {
        assert(ch[i].extends(seq![g][0]));
    }
}

/// Where no empty slot has a candidate, a puzzle with an empty slot has no solution.
pub proof fn lemma_no_branch(g: Grid)
    requires
        g.wf(),
        !g.is_full(),
        forall|i: int| 0 <= i < g.unknown_seq().len() ==> count_at(g, g.unknown_seq(), i) == 0,
    ensures
        g.solutions() == Set::<Grid>::empty(),
{
    lemma_unknown_seq(g);
    let k = choose|k: Slot| g.in_range(k) && g.at(k) == 0;
    assert(g.unknown_seq().contains(k));
    let i = choose|i: int| 0 <= i < g.unknown_seq().len() && g.unknown_seq()[i] == k;
    assert(count_at(g, g.unknown_seq(), i) == 0);
    g.lemma_no_candidate_no_solution(k);
}

/// What one step of the search keeps.
pub proof fn lemma_expand(g: Grid)
    requires
        g.wf(),
    ensures
        match expand(g) {
            Expansion::Dead => g.solutions() == Set::<Grid>::empty(),
            Expansion::Solved(h) => {
                &&& h.wf()
                &&& h.is_full()
                &&& h.extends(g)
                &&& h.solutions() == g.solutions()
                &&& (g.consistent() ==> h.consistent())
            },
            Expansion::Branch(ch) => {
                &&& all_wf(ch)
                &&& work(ch) < weight_of(g)
                &&& solutions_of(ch) == g.solutions()
                &&& each_extends(ch, seq![g])
                &&& (g.consistent() ==> all_consistent(ch))
            },
        },
{
    let all = slots_of_board(g.size);
    assert forall|i: int| 0 <= i < all.len() implies g.in_range(#[trigger] all[i]) by {
        lemma_area_rows_contains((0, 0), g.size, 0, all[i]);
    }
    g.lemma_propagate(all);
    let (h, r) = g.propagate(all);
    if r != FillResult::Unsatisfied && !h.is_full() {
        let slots = h.unknown_seq();
        lemma_unknown_seq(h);
        lemma_weight(g.size as nat, h.unknowns().len(), g.unknowns().len());
        if exists|i: int| is_least_constrained(h, slots, i) {
            let i = choose|i: int| is_least_constrained(h, slots, i);
            let k = slots[i];
            let values = ascending(h.candidates(k), h.size as nat);
            h.lemma_candidates(k);
            lemma_ascending(h.candidates(k), h.size as nat);
            lemma_ascending_len(h.candidates(k), h.size as nat);
            assert forall|v: nat| values.contains(v) <==> h.candidates(k).contains(v) by {
                if values.contains(v) {
                    let j = choose|j: int| 0 <= j < values.len() && values[j] == v;
                    assert(h.candidates(k).contains(values[j]));
                }
            }
            lemma_branch(h, k, values);
            let ch = branches(h, k, values);
            assert forall|i: int| 0 <= i < ch.len() implies fills_some(
                #[trigger] ch[i],
                seq![g],
            ) by {
                assert(fills_some(ch[i], seq![h]));
                lemma_extends_transitive(ch[i], h, g);
                assert(ch[i].extends(seq![g][0]));
            }
        } else {
            assert forall|i: int| 0 <= i < slots.len() implies count_at(h, slots, i) == 0 by {
                if count_at(h, slots, i) > 0 {
                    lemma_some_least_constrained(h, slots, i);
                }
            }
            lemma_no_branch(h);
            assert(work(Seq::<Grid>::empty()) == 0);
            lemma_weight(g.size as nat, 0, g.unknowns().len());
            assert(solutions_of(Seq::<Grid>::empty()) =~= Set::<Grid>::empty());
        }
    }
}

/// Filling in is transitive.
pub proof fn lemma_extends_transitive(a: Grid, b: Grid, c: Grid)
    requires
        a.extends(b),
        b.extends(c),
    ensures
        a.extends(c),
{
    assert forall|s: Slot| c.in_range(s) && c.at(s) != 0 implies #[trigger] a.at(s) == c.at(s) by {
        assert(b.at(s) == c.at(s));
    }
}

/// The search with nothing left to chance: the puzzle on top of the stack is
/// taken off and expanded, until one is solved or the stack is empty. The
/// result is what is yielded, if anything, and the stack that is left.
pub open spec fn search(stack: Seq<Grid>) -> (Option<Grid>, Seq<Grid>)
    decreases work(stack),
    when all_wf(stack)
{
    if stack.len() == 0 {
        (None, stack)
    } else {
        match expand(stack.last()) {
            Expansion::Dead => {
                proof {
                    lemma_work_push(stack.drop_last(), stack.last());
                    assert(stack.drop_last().push(stack.last()) =~= stack);
                }
                search(stack.drop_last())
            },
            Expansion::Solved(h) => (Some(h), stack.drop_last()),
            Expansion::Branch(ch) => {
                proof {
                    lemma_expand(stack.last());
                    lemma_work_concat(stack.drop_last(), ch);
                }
                search(stack.drop_last() + ch)
            },
        }
    }
}

/// What the search keeps while it works on a stack that began as `start`:
/// the solutions that are yet to be yielded, the filled cells and the
/// consistency of the puzzles, and, with nothing left to chance, what it will
/// yield next. The work that is left never grows.
pub open spec fn search_keeps(cur: Seq<Grid>, start: Seq<Grid>, random: bool) -> bool {
    &&& all_wf(cur)
    &&& all_wf(start)
    &&& solutions_of(cur) == solutions_of(start)
    &&& each_extends(cur, start)
    &&& (all_consistent(start) ==> all_consistent(cur))
    &&& (disjoint(start) ==> disjoint(cur))
    &&& work(cur) <= work(start)
    &&& (!random ==> search(cur) == search(start))
}

pub proof fn lemma_keeps_at_start(start: Seq<Grid>, random: bool)
    requires
        all_wf(start),
    ensures
        search_keeps(start, start, random),
{
    assert forall|i: int| 0 <= i < start.len() implies fills_some(#[trigger] start[i], start) by {
        assert(start[i].extends(start[i]));
    }
}

/// The pass over the puzzle on top of the stack, as `expand` makes it.
pub open spec fn top_pass(cur: Seq<Grid>) -> (Grid, FillResult) {
    cur.last().propagate(slots_of_board(cur.last().size))
}

proof fn lemma_top(cur: Seq<Grid>, start: Seq<Grid>)
    requires
        cur.len() > 0,
        all_wf(cur),
        each_extends(cur, start),
    ensures
        cur.drop_last().push(cur.last()) == cur,
        work(cur) == work(cur.drop_last()) + weight_of(cur.last()),
        weight_of(cur.last()) >= 1,
        solutions_of(cur) == solutions_of(cur.drop_last()).union(cur.last().solutions()),
        all_wf(cur.drop_last()),
        each_extends(cur.drop_last(), start),
        all_consistent(cur) ==> all_consistent(cur.drop_last()) && cur.last().consistent(),
        fills_some(cur.last(), start),
        disjoint(cur) ==> disjoint(cur.drop_last()) && forall|s: Grid|
            s.completes(cur.last()) ==> !solutions_of(cur.drop_last()).contains(s),
{
    let rest = cur.drop_last();
    if disjoint(cur) {
        assert forall|i: int, j: int, s: Grid|
            #![trigger s.completes(rest[i]), s.completes(rest[j])]
            0 <= i < j < rest.len() && s.completes(rest[i]) implies !s.completes(rest[j]) by {
            assert(rest[i] == cur[i] && rest[j] == cur[j]);
            assert(s.completes(cur[i]) ==> !s.completes(cur[j]));
        }
        assert forall|s: Grid| s.completes(cur.last()) implies !solutions_of(rest).contains(
            s,
        ) by {
            if solutions_of(rest).contains(s) {
                let i = choose|i: int| 0 <= i < rest.len() && s.completes(#[trigger] rest[i]);
                assert(rest[i] == cur[i]);
                assert(s.completes(cur[i]) ==> !s.completes(cur[cur.len() - 1]));
            }
        }
    }
    assert(rest.push(cur.last()) =~= cur);
    lemma_work_push(rest, cur.last());
    lemma_solutions_pop(cur);
    assert forall|i: int| 0 <= i < rest.len() implies (#[trigger] rest[i]).wf() by {
        assert(rest[i] == cur[i]);
    }
    assert forall|i: int| 0 <= i < rest.len() implies fills_some(#[trigger] rest[i], start) by {
        assert(rest[i] == cur[i]);
    }
    if all_consistent(cur) {
        assert forall|i: int| 0 <= i < rest.len() implies (#[trigger] rest[i]).consistent() by {
            assert(rest[i] == cur[i]);
        }
        assert(cur[cur.len() - 1].consistent());
    }
    assert(cur.last() == cur[cur.len() - 1]);
}

/// A puzzle that the pass finds unsatisfied is dropped.
pub proof fn lemma_keeps_dead(cur: Seq<Grid>, start: Seq<Grid>, random: bool)
    requires
        search_keeps(cur, start, random),
        cur.len() > 0,
        top_pass(cur).1 == FillResult::Unsatisfied,
    ensures
        search_keeps(cur.drop_last(), start, random),
        work(cur.drop_last()) < work(cur),
{
    lemma_top(cur, start);
    lemma_expand(cur.last());
    assert(solutions_of(cur.drop_last()) =~= solutions_of(cur));
}

/// A puzzle with an empty slot, none of whose empty slots has a candidate,
/// is dropped.
pub proof fn lemma_keeps_stuck(cur: Seq<Grid>, start: Seq<Grid>, random: bool)
    requires
        search_keeps(cur, start, random),
        cur.len() > 0,
        top_pass(cur).1 != FillResult::Unsatisfied,
        !top_pass(cur).0.is_full(),
        forall|s: Slot|
            top_pass(cur).0.in_range(s) && top_pass(cur).0.at(s) == 0 ==> top_pass(
                cur,
            ).0.candidates(s).len() == 0,
    ensures
        search_keeps(cur.drop_last(), start, random),
        work(cur.drop_last()) < work(cur),
{
    lemma_top(cur, start);
    let g = cur.last();
    let h = top_pass(cur).0;
    lemma_expand(g);
    lemma_unknown_seq(h);
    assert forall|i: int| 0 <= i < h.unknown_seq().len() implies count_at(
        h,
        h.unknown_seq(),
        i,
    ) == 0 by {}
    let all = slots_of_board(g.size);
    assert forall|i: int| 0 <= i < all.len() implies g.in_range(#[trigger] all[i]) by {
        lemma_area_rows_contains((0, 0), g.size, 0, all[i]);
    }
    g.lemma_propagate(all);
    lemma_no_branch(h);
    assert(solutions_of(cur.drop_last()) =~= solutions_of(cur));
    if !random {
        assert(!(exists|i: int| is_least_constrained(h, h.unknown_seq(), i)));
        assert(expand(g) == Expansion::Branch(Seq::<Grid>::empty()));
        assert(cur.drop_last() + Seq::<Grid>::empty() =~= cur.drop_last());
    }
}

/// A branch replaces the puzzle on top of the stack by the puzzles that
/// arise from it.
pub proof fn lemma_keeps_branch(
    cur: Seq<Grid>,
    start: Seq<Grid>,
    random: bool,
    k: Slot,
    values: Seq<nat>,
)
    requires
        search_keeps(cur, start, random),
        cur.len() > 0,
        top_pass(cur).1 != FillResult::Unsatisfied,
        !top_pass(cur).0.is_full(),
        top_pass(cur).0.in_range(k),
        top_pass(cur).0.at(k) == 0,
        values.len() == top_pass(cur).0.candidates(k).len(),
        values.no_duplicates(),
        forall|v: nat| values.contains(v) <==> top_pass(cur).0.candidates(k).contains(v),
        !random ==> least_constrained(top_pass(cur).0, top_pass(cur).0.unknown_seq()) == Some(k)
            && values == ascending(top_pass(cur).0.candidates(k), top_pass(cur).0.size as nat),
    ensures
        search_keeps(cur.drop_last() + branches(top_pass(cur).0, k, values), start, random),
        work(cur.drop_last() + branches(top_pass(cur).0, k, values)) < work(cur),
{
    lemma_top(cur, start);
    let g = cur.last();
    let h = top_pass(cur).0;
    let rest = cur.drop_last();
    let ch = branches(h, k, values);
    let all = slots_of_board(g.size);
    assert forall|i: int| 0 <= i < all.len() implies g.in_range(#[trigger] all[i]) by {
        lemma_area_rows_contains((0, 0), g.size, 0, all[i]);
    }
    g.lemma_propagate(all);
    lemma_branch(h, k, values);
    lemma_weight(g.size as nat, h.unknowns().len(), g.unknowns().len());
    lemma_work_concat(rest, ch);
    lemma_solutions_concat(rest, ch);
    let next = rest + ch;
    assert forall|i: int| 0 <= i < next.len() implies (#[trigger] next[i]).wf() by {
        if i < rest.len() {
            assert(next[i] == rest[i]);
        } else {
            assert(next[i] == ch[i - rest.len()]);
        }
    }
    let j0 = choose|j: int| 0 <= j < start.len() && g.extends(#[trigger] start[j]);
    assert forall|i: int| 0 <= i < next.len() implies fills_some(#[trigger] next[i], start) by {
        if i < rest.len() {
            assert(next[i] == rest[i]);
        } else {
            let c = ch[i - rest.len()];
            assert(next[i] == c);
            assert(fills_some(c, seq![h]));
            lemma_extends_transitive(c, h, g);
            lemma_extends_transitive(c, g, start[j0]);
        }
    }
    if all_consistent(start) {
        assert forall|i: int| 0 <= i < next.len() implies (#[trigger] next[i]).consistent() by {
            if i < rest.len() {
                assert(next[i] == rest[i]);
            } else {
                assert(next[i] == ch[i - rest.len()]);
            }
        }
    }
    if disjoint(start) {
        assert forall|i: int, j: int, s: Grid|
            #![trigger s.completes(next[i]), s.completes(next[j])]
            0 <= i < j < next.len() && s.completes(next[i]) implies !s.completes(next[j]) by {
            if j < rest.len() {
                assert(next[i] == rest[i] && next[j] == rest[j]);
                assert(s.completes(rest[i]) ==> !s.completes(rest[j]));
            } else {
                let b = j - rest.len();
                assert(next[j] == ch[b]);
                assert(values.contains(values[b]));
                h.lemma_put_solutions(k, values[b], s);
                if i < rest.len() {
                    assert(next[i] == rest[i]);
                    if s.completes(ch[b]) {
                        assert(h.solutions().contains(s));
                        assert(g.solutions().contains(s));
                        assert(solutions_of(rest).contains(s));
                    }
                } else {
                    let a = i - rest.len();
                    assert(next[i] == ch[a]);
                    assert(values.contains(values[a]));
                    h.lemma_put_solutions(k, values[a], s);
                }
            }
        }
    }
    if !random {
        assert(expand(g) == Expansion::Branch(ch));
    }
}

/// A puzzle that the pass leaves full is yielded.
pub proof fn lemma_keeps_solved(cur: Seq<Grid>, start: Seq<Grid>, random: bool)
    requires
        search_keeps(cur, start, random),
        cur.len() > 0,
        top_pass(cur).1 != FillResult::Unsatisfied,
        top_pass(cur).0.is_full(),
    ensures
        top_pass(cur).0.wf(),
        solutions_of(start) == solutions_of(cur.drop_last()).union(
            if top_pass(cur).0.consistent() {
                set![top_pass(cur).0]
            } else {
                Set::<Grid>::empty()
            },
        ),
        each_extends(cur.drop_last(), start),
        fills_some(top_pass(cur).0, start),
        all_consistent(start) ==> all_consistent(cur.drop_last()) && top_pass(
            cur,
        ).0.is_solution(),
        work(cur.drop_last()) < work(start),
        !random ==> search(start) == (Some(top_pass(cur).0), cur.drop_last()),
        disjoint(start) ==> disjoint(cur.drop_last()) && !solutions_of(cur.drop_last()).contains(
            top_pass(cur).0,
        ),
{
    lemma_top(cur, start);
    let g = cur.last();
    let h = top_pass(cur).0;
    let all = slots_of_board(g.size);
    assert forall|i: int| 0 <= i < all.len() implies g.in_range(#[trigger] all[i]) by {
        lemma_area_rows_contains((0, 0), g.size, 0, all[i]);
    }
    g.lemma_propagate(all);
    lemma_full_solutions(h);
    let j0 = choose|j: int| 0 <= j < start.len() && g.extends(#[trigger] start[j]);
    lemma_extends_transitive(h, g, start[j0]);
    if !random {
        assert(expand(g) == Expansion::Solved(h));
    }
    if disjoint(start) && solutions_of(cur.drop_last()).contains(h) {
        assert(h.solutions().contains(h));
        assert(g.solutions().contains(h));
    }
}

/// An empty stack yields nothing, and nothing is left to be found.
pub proof fn lemma_keeps_done(cur: Seq<Grid>, start: Seq<Grid>, random: bool)
    requires
        search_keeps(cur, start, random),
        cur.len() == 0,
    ensures
        solutions_of(start) == Set::<Grid>::empty(),
        start.len() > 0 ==> work(cur) < work(start),
        !random ==> search(start) == (None::<Grid>, cur),
{
    assert(solutions_of(cur) =~= Set::<Grid>::empty());
    if start.len() > 0 {
        lemma_keeps_at_start(start, random);
        lemma_top(start, start);
    }
}

/// What a scan for the least constrained slot knows after the first `n` of
/// `slots`: the least constrained among them, or that none has a candidate.
pub open spec fn least_so_far(g: Grid, slots: Seq<Slot>, n: int, best: Option<int>) -> bool {
    match best {
        Some(b) => is_least_constrained(g, slots.take(n), b),
        None => forall|j: int| 0 <= j < n ==> count_at(g, slots, j) == 0,
    }
}

/// The scan takes a slot when it has a candidate and fewer than the best so far.
pub proof fn lemma_least_step(g: Grid, slots: Seq<Slot>, n: int, best: Option<int>)
    requires
        0 <= n < slots.len(),
        least_so_far(g, slots, n, best),
    ensures
        least_so_far(
            g,
            slots,
            n + 1,
            if count_at(g, slots, n) > 0 && (best is None || count_at(g, slots, n) < count_at(
                g,
                slots,
                best.unwrap(),
            )) {
                Some(n)
            } else {
                best
            },
        ),
{
    let before = slots.take(n);
    let now = slots.take(n + 1);
    assert forall|j: int| 0 <= j <= n implies count_at(g, now, j) == count_at(g, slots, j) by {}
    assert forall|j: int| 0 <= j < n implies count_at(g, before, j) == count_at(g, slots, j) by {}
    let cn = count_at(g, slots, n);
    match best {
        Some(b) => {
            if cn > 0 && cn < count_at(g, slots, b) {
                assert forall|j: int|
                    0 <= j < now.len() && #[trigger] count_at(g, now, j) > 0 implies count_at(
                    g,
                    now,
                    n,
                ) <= count_at(g, now, j) by {
                    if j < n {
                        assert(count_at(g, before, j) > 0);
                    }
                }
                assert forall|j: int| 0 <= j < n implies #[trigger] count_at(g, now, j)
                    != count_at(g, now, n) by {
                    if count_at(g, slots, j) > 0 {
                        assert(count_at(g, before, j) > 0);
                    }
                }
                assert(is_least_constrained(g, now, n));
            } else {
                assert forall|j: int|
                    0 <= j < now.len() && #[trigger] count_at(g, now, j) > 0 implies count_at(
                    g,
                    now,
                    b,
                ) <= count_at(g, now, j) by {
                    if j < n {
                        assert(count_at(g, before, j) > 0);
                    }
                }
                assert forall|j: int| 0 <= j < b implies #[trigger] count_at(g, now, j)
                    != count_at(g, now, b) by {
                    assert(count_at(g, before, j) != count_at(g, before, b));
                }
                assert(is_least_constrained(g, now, b));
            }
        },
        None => {
            if cn > 0 {
                assert forall|j: int|
                    0 <= j < now.len() && #[trigger] count_at(g, now, j) > 0 implies count_at(
                    g,
                    now,
                    n,
                ) <= count_at(g, now, j) by {}
                assert forall|j: int| 0 <= j < n implies #[trigger] count_at(g, now, j)
                    != count_at(g, now, n) by {}
                assert(is_least_constrained(g, now, n));
            }
        },
    }
}

/// The search leaves a stack of well-formed puzzles with less work on it,
/// and yields nothing only when it leaves nothing.
pub proof fn lemma_search(stack: Seq<Grid>)
    requires
        all_wf(stack),
    ensures
        all_wf(search(stack).1),
        work(search(stack).1) <= work(stack),
        search(stack).0 is Some ==> work(search(stack).1) < work(stack),
        search(stack).0 is None ==> search(stack).1.len() == 0,
    decreases work(stack),
{
    if stack.len() > 0 {
        let rest = stack.drop_last();
        lemma_keeps_at_start(stack, false);
        lemma_top(stack, stack);
        lemma_expand(stack.last());
        match expand(stack.last()) {
            Expansion::Dead => {
                lemma_search(rest);
            },
            Expansion::Solved(h) => {},
            Expansion::Branch(ch) => {
                lemma_work_concat(rest, ch);
                let next = rest + ch;
                assert forall|i: int| 0 <= i < next.len() implies (#[trigger] next[i]).wf() by {
                    if i < rest.len() {
                        assert(next[i] == rest[i]);
                    } else {
                        assert(next[i] == ch[i - rest.len()]);
                    }
                }
                lemma_search(next);
            },
        }
    }
}

/// All that the search yields, call after call, with nothing left to chance.
pub open spec fn search_all(stack: Seq<Grid>) -> Seq<Grid>
    decreases work(stack),
    when all_wf(stack)
{
    match search(stack).0 {
        None => Seq::empty(),
        Some(h) => {
            proof {
                lemma_search(stack);
            }
            seq![h] + search_all(search(stack).1)
        },
    }
}

/// What up to `amount` calls of the search yield, and the stack that they
/// leave, with nothing left to chance.
pub open spec fn search_many(stack: Seq<Grid>, amount: nat) -> (Seq<Grid>, Seq<Grid>)
    decreases amount,
{
    if amount == 0 {
        (Seq::empty(), stack)
    } else {
        match search(stack).0 {
            None => (Seq::empty(), search(stack).1),
            Some(h) => {
                let (more, left) = search_many(search(stack).1, (amount - 1) as nat);
                (seq![h] + more, left)
            },
        }
    }
}

/// A grid that fills in a grid of a stack whose grids fill in grids of
/// `base` fills in a grid of `base`.
pub proof fn lemma_fills_some(g: Grid, via: Seq<Grid>, base: Seq<Grid>)
    requires
        fills_some(g, via),
        each_extends(via, base),
    ensures
        fills_some(g, base),
{
    let i = choose|i: int| 0 <= i < via.len() && g.extends(#[trigger] via[i]);
    assert(fills_some(via[i], base));
    let j = choose|j: int| 0 <= j < base.len() && via[i].extends(#[trigger] base[j]);
    lemma_extends_transitive(g, via[i], base[j]);
}

pub proof fn lemma_each_extends(stack: Seq<Grid>, via: Seq<Grid>, base: Seq<Grid>)
    requires
        each_extends(stack, via),
        each_extends(via, base),
    ensures
        each_extends(stack, base),
{
    assert forall|i: int| 0 <= i < stack.len() implies fills_some(#[trigger] stack[i], base) by {
        lemma_fills_some(stack[i], via, base);
    }
}

/// What a call of the search adds to the solutions found: the grid that it
/// yields, if that grid is consistent.
pub open spec fn gain(y: Option<Grid>) -> Set<Grid> {
    match y {
        Some(h) => if h.consistent() {
            set![h]
        } else {
            Set::empty()
        },
        None => Set::empty(),
    }
}

proof fn lemma_search_keeps(cur: Seq<Grid>, start: Seq<Grid>)
    requires
        search_keeps(cur, start, false),
    ensures
        solutions_of(start) == solutions_of(search(cur).1).union(gain(search(cur).0)),
        each_extends(search(cur).1, start),
        search(cur).0 is Some ==> search(cur).0.unwrap().is_full() && fills_some(
            search(cur).0.unwrap(),
            start,
        ),
        all_consistent(start) ==> all_consistent(search(cur).1) && (search(cur).0 is Some
            ==> search(cur).0.unwrap().is_solution()),
        disjoint(start) ==> disjoint(search(cur).1) && (search(cur).0 is Some ==> !solutions_of(
            search(cur).1,
        ).contains(search(cur).0.unwrap())),
    decreases work(cur),
{
    if cur.len() == 0 {
        lemma_keeps_done(cur, start, false);
        assert(solutions_of(start) =~= solutions_of(cur).union(Set::<Grid>::empty()));
    } else {
        let g = cur.last();
        let rest = cur.drop_last();
        let (h, r) = top_pass(cur);
        if r == FillResult::Unsatisfied {
            lemma_keeps_dead(cur, start, false);
            lemma_search_keeps(rest, start);
        } else if h.is_full() {
            lemma_keeps_solved(cur, start, false);
        } else {
            let slots = h.unknown_seq();
            lemma_unknown_seq(h);
            if exists|i: int| is_least_constrained(h, slots, i) {
                let i = choose|i: int| is_least_constrained(h, slots, i);
                let k = slots[i];
                let values = ascending(h.candidates(k), h.size as nat);
                h.lemma_candidates(k);
                lemma_ascending(h.candidates(k), h.size as nat);
                lemma_ascending_len(h.candidates(k), h.size as nat);
                assert forall|v: nat| values.contains(v) <==> h.candidates(k).contains(v) by {
                    if values.contains(v) {
                        let j = choose|j: int| 0 <= j < values.len() && values[j] == v;
                        assert(h.candidates(k).contains(values[j]));
                    }
                }
                lemma_keeps_branch(cur, start, false, k, values);
                lemma_search_keeps(rest + branches(h, k, values), start);
            } else {
                assert forall|s: Slot| h.in_range(s) && h.at(s) == 0 implies h.candidates(
                    s,
                ).len() == 0 by {
                    assert(slots.contains(s));
                    let i = choose|i: int| 0 <= i < slots.len() && slots[i] == s;
                    if count_at(h, slots, i) > 0 {
                        lemma_some_least_constrained(h, slots, i);
                    }
                }
                lemma_keeps_stuck(cur, start, false);
                assert(rest + Seq::<Grid>::empty() =~= rest);
                lemma_search_keeps(rest, start);
            }
        }
    }
}

/// The search loses no solution and makes none up: the solutions of the
/// stack are those of the stack that is left and, if it is consistent, the
/// grid that is yielded. What is yielded is full and fills in a puzzle of
/// the stack; from consistent puzzles it is a solution. Where no two puzzles
/// share a solution, what is yielded is not found again.
pub proof fn lemma_search_sound(stack: Seq<Grid>)
    requires
        all_wf(stack),
    ensures
        solutions_of(stack) == solutions_of(search(stack).1).union(gain(search(stack).0)),
        each_extends(search(stack).1, stack),
        search(stack).0 is Some ==> search(stack).0.unwrap().is_full() && fills_some(
            search(stack).0.unwrap(),
            stack,
        ),
        all_consistent(stack) ==> all_consistent(search(stack).1) && (search(stack).0 is Some
            ==> search(stack).0.unwrap().is_solution()),
        disjoint(stack) ==> disjoint(search(stack).1) && (search(stack).0 is Some
            ==> !solutions_of(search(stack).1).contains(search(stack).0.unwrap())),
{
    lemma_keeps_at_start(stack, false);
    lemma_search_keeps(stack, stack);
}

/// Consistent puzzles without a solution yield nothing.
pub proof fn lemma_unsatisfiable_yields_nothing(stack: Seq<Grid>)
    requires
        all_wf(stack),
        all_consistent(stack),
        solutions_of(stack) == Set::<Grid>::empty(),
    ensures
        search(stack).0 is None,
        search_all(stack) == Seq::<Grid>::empty(),
{
    lemma_search_sound(stack);
    if search(stack).0 is Some {
        let h = search(stack).0.unwrap();
        assert(gain(search(stack).0).contains(h));
        assert(solutions_of(search(stack).1).union(gain(search(stack).0)).contains(h));
    }
}

/// A solution of a puzzle is a solution of the puzzle with some of its
/// filled cells taken out: emptying cells of a solved grid gives a puzzle
/// that the grid solves.
pub proof fn lemma_question_keeps_solution(solution: Grid, chosen: Seq<Slot>)
    requires
        solution.is_solution(),
        forall|i: int| 0 <= i < chosen.len() ==> solution.in_range(#[trigger] chosen[i]),
    ensures
        solutions_of(seq![solution.cleared(chosen)]).contains(solution),
        chosen.no_duplicates() ==> solution.cleared(chosen).unknowns().len() == chosen.len(),
{
    solution.lemma_cleared(chosen);
    lemma_solutions_single(solution.cleared(chosen));
}

/// A scan over the first `n` of `slots` ends with what it is to know of them.
pub proof fn lemma_scan(g: Grid, slots: Seq<Slot>, n: int) -> (best: Option<int>)
    requires
        0 <= n <= slots.len(),
    ensures
        least_so_far(g, slots, n, best),
    decreases n,
{
    if n == 0 {
        None
    } else {
        let before = lemma_scan(g, slots, n - 1);
        lemma_least_step(g, slots, n - 1, before);
        if count_at(g, slots, n - 1) > 0 && (before is None || count_at(g, slots, n - 1)
            < count_at(g, slots, before.unwrap())) {
            Some(n - 1)
        } else {
            before
        }
    }
}

/// Where one of `slots` has a candidate, one of them is the least constrained.
pub proof fn lemma_some_least_constrained(g: Grid, slots: Seq<Slot>, w: int)
    requires
        0 <= w < slots.len(),
        count_at(g, slots, w) > 0,
    ensures
        exists|i: int| is_least_constrained(g, slots, i),
{
    let best = lemma_scan(g, slots, slots.len() as int);
    assert(slots.take(slots.len() as int) =~= slots);
    assert(is_least_constrained(g, slots, best.unwrap()));
}

} // verus!
