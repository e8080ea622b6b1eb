//! The search for the solutions of a board.

use crate::board::{values_of, Board, BoardElement, ElementSet, FillResult};
use crate::grid::Grid;
use crate::random::{
    lemma_same_items, seeded_rng, shuffle_seeded, std_rng_from_entropy, std_rng_from_seed,
};
use crate::search::{
    all_consistent, all_wf, branches, count_at, disjoint, each_extends, fills_some,
    is_least_constrained, least_so_far, lemma_keeps_at_start, lemma_keeps_branch,
    lemma_keeps_dead, lemma_keeps_done, lemma_keeps_solved, lemma_keeps_stuck,
    lemma_least_constrained_unique, lemma_least_step, lemma_unknown_seq, search, search_all,
    search_keeps, search_many, solutions_of, top_pass, work,
};
use crate::slots::Slot;
use crate::values::{lemma_ascending, lemma_ascending_len};
use vstd::prelude::*;

verus! {

/// How the search orders its choices: always the same way, or at random.
pub enum SolvingContext {
    /// Slots in the order of the board, candidates in increasing order.
    Deterministic,
    /// Slots and candidates in an order that the generator shuffles.
    Random(rand::rngs::StdRng),
}

impl Default for SolvingContext {
    /// A random context, seeded by the system.
    fn default() -> (r: Self)
        ensures
            r is Random,
    {
        Self::Random(std_rng_from_entropy())
    }
}

impl SolvingContext {
    /// The context that leaves nothing to chance.
    pub fn deterministic() -> (r: Self)
        ensures
            r is Deterministic,
    {
        Self::Deterministic
    }

    /// A random context, seeded by the system.
    pub fn random() -> (r: Self)
        ensures
            r is Random,
    {
        Self::Random(std_rng_from_entropy())
    }

    /// A random context whose generator is the one that `seed` gives: equal
    /// seeds give equal contexts.
    pub fn random_with_seed(seed: u64) -> (r: Self)
        ensures
            r == SolvingContext::Random(seeded_rng(seed)),
    {
        Self::Random(std_rng_from_seed(seed))
    }

    /// The context that the options of a run ask for: the same order on
    /// every run with `no_random`; else a random one, seeded with `seed`
    /// where one is given and by the system where none is.
    pub fn from_options(no_random: bool, seed: Option<u64>) -> (r: Self)
        ensures
            (r is Random) == !no_random,
            !no_random && seed is Some ==> r == SolvingContext::Random(seeded_rng(seed.unwrap())),
    {
        if no_random {
            Self::deterministic()
        } else {
            match seed {
                Some(seed) => Self::random_with_seed(seed),
                None => Self::default(),
            }
        }
    }

    /// Whether the context orders choices at random.
    pub fn is_random(&self) -> (r: bool)
        ensures
            r == (self is Random),
    {
        match self {
            Self::Deterministic => false,
            Self::Random(_) => true,
        }
    }

    /// The generator of a random context.
    pub fn rng(&mut self) -> (r: Option<&mut rand::rngs::StdRng>)
        ensures
            r is Some == (*old(self) is Random),
            (*final(self) is Random) == (*old(self) is Random),
            match r {
                Some(rng) => *old(self) == SolvingContext::Random(*rng) && *final(self)
                    == SolvingContext::Random(*final(rng)),
                None => *final(self) == *old(self),
            },
    {
        match self {
            Self::Deterministic => None,
            Self::Random(rng) => Some(rng),
        }
    }
}

/// The grids of a list of boards.
pub open spec fn grids_of<B: Board>(boards: Seq<B>) -> Seq<Grid> {
    boards.map_values(|b: B| b@)
}

/// The grid of a board that may be there.
pub open spec fn grid_of<B: Board>(board: Option<B>) -> Option<Grid> {
    match board {
        Some(b) => Some(b@),
        None => None,
    }
}

/// What a yielded board adds to the solutions found: itself, if it is consistent.
pub open spec fn yielded<B: Board>(board: Option<B>) -> Set<Grid> {
    match board {
        Some(b) => if b@.consistent() {
            set![b@]
        } else {
            Set::empty()
        },
        None => Set::empty(),
    }
}

/// The consistent grids among the boards of a list.
pub open spec fn found<B: Board>(boards: Seq<B>) -> Set<Grid> {
    Set::new(
        |g: Grid| g.consistent() && exists|i: int| 0 <= i < boards.len() && (#[trigger] boards[i])@ == g,
    )
}

/// No boards, nothing found.
pub proof fn lemma_found_none<B: Board>()
    ensures
        found(Seq::<B>::empty()) == Set::<Grid>::empty(),
{
    assert(found(Seq::<B>::empty()) =~= Set::<Grid>::empty());
}

/// One more board adds what it yields.
pub proof fn lemma_found_push<B: Board>(boards: Seq<B>, b: B)
    ensures
        found(boards.push(b)) == found(boards).union(yielded(Some(b))),
{
    let more = boards.push(b);
    assert forall|g: Grid| found(more).contains(g) == found(boards).union(
        yielded(Some(b)),
    ).contains(g) by {
        if found(more).contains(g) {
            let i = choose|i: int| 0 <= i < more.len() && (#[trigger] more[i])@ == g;
            if i < boards.len() {
                assert(boards[i]@ == g);
            }
        }
        if found(boards).contains(g) {
            let i = choose|i: int| 0 <= i < boards.len() && (#[trigger] boards[i])@ == g;
            assert(more[i]@ == g);
        }
        if yielded(Some(b)).contains(g) {
            assert(more[boards.len() as int]@ == g);
        }
    }
    assert(found(more) =~= found(boards).union(yielded(Some(b))));
}

/// A solution that the puzzles before a call held, and those after it do
/// not, is none of the solutions that were found before and are not held
/// either.
pub proof fn lemma_no_repeat<B: Board>(before: Seq<B>, b: B, cur: Seq<Grid>, left: Seq<Grid>)
    requires
        grids_of(before).no_duplicates(),
        forall|i: int| 0 <= i < before.len() ==> !solutions_of(cur).contains((#[trigger] before[i])@),
        solutions_of(cur) == solutions_of(left).union(yielded(Some(b))),
        b@.consistent(),
        !solutions_of(left).contains(b@),
    ensures
        grids_of(before.push(b)).no_duplicates(),
        forall|i: int|
            0 <= i < before.push(b).len() ==> !solutions_of(left).contains(
                (#[trigger] before.push(b)[i])@,
            ),
{
    let more = before.push(b);
    assert(solutions_of(left).union(yielded(Some(b))).contains(b@));
    assert forall|i: int| 0 <= i < more.len() implies !solutions_of(left).contains(
        (#[trigger] more[i])@,
    ) by {
        if i < before.len() {
            assert(more[i] == before[i]);
            if solutions_of(left).contains(before[i]@) {
                assert(solutions_of(left).union(yielded(Some(b))).contains(before[i]@));
            }
        }
    }
    assert forall|i: int, j: int| 0 <= i < more.len() && 0 <= j < more.len() && i != j implies grids_of(
        more,
    )[i] != grids_of(more)[j] by {
        if i < before.len() && j < before.len() {
            assert(grids_of(before)[i] != grids_of(before)[j]);
        } else if i < before.len() {
            assert(!solutions_of(cur).contains(before[i]@));
        } else {
            assert(!solutions_of(cur).contains(before[j]@));
        }
    }
}

/// Where every board of a list is consistent, the list holds what it found.
pub proof fn lemma_found_all<B: Board>(boards: Seq<B>)
    requires
        forall|i: int| 0 <= i < boards.len() ==> (#[trigger] boards[i])@.consistent(),
    ensures
        grids_of(boards).to_set() == found(boards),
{
    let grids = grids_of(boards);
    assert forall|g: Grid| grids.to_set().contains(g) == found(boards).contains(g) by {
        if grids.contains(g) {
            let i = choose|i: int| 0 <= i < grids.len() && grids[i] == g;
            assert(boards[i]@ == g);
        }
        if found(boards).contains(g) {
            let i = choose|i: int| 0 <= i < boards.len() && (#[trigger] boards[i])@ == g;
            assert(grids[i] == g);
        }
    }
    assert(grids.to_set() =~= found(boards));
}

pub proof fn lemma_grids_wf<B: Board>(boards: Seq<B>)
    ensures
        all_wf(grids_of(boards)),
        forall|i: int|
            0 <= i < boards.len() ==> (#[trigger] grids_of(boards)[i]).size == B::spec_size(),
{
    assert forall|i: int| 0 <= i < boards.len() implies (#[trigger] grids_of(boards)[i]).wf()
        && grids_of(boards)[i].size == B::spec_size() by {
        boards[i].lemma_view();
    }
}

/// Scans `slots` for the first one with the fewest candidates, but at least one.
fn find_least_constrained<B: Board>(board: &B, slots: &Vec<Slot>) -> (r: Option<
    (usize, Slot, B::ElementSet),
>)
    requires
        forall|i: int| 0 <= i < slots.len() ==> board@.in_range(#[trigger] slots[i]),
    ensures
        match r {
            Some((count, slot, answers)) => {
                &&& exists|i: int| is_least_constrained(board@, slots@, i) && slots@[i] == slot
                &&& answers@ == board@.candidates(slot)
                &&& count == answers@.len()
            },
            None => forall|i: int| 0 <= i < slots.len() ==> count_at(board@, slots@, i) == 0,
        },
{
    let mut least: Option<(usize, Slot, B::ElementSet)> = None;
    let ghost mut best: Option<int> = None;
    let mut i: usize = 0;
    proof {
        board.lemma_view();
    }
    while i < slots.len()
        invariant
            i <= slots.len(),
            board@.size == B::spec_size(),
            forall|j: int| 0 <= j < slots.len() ==> board@.in_range(#[trigger] slots[j]),
            least_so_far(board@, slots@, i as int, best),
            least is Some == best is Some,
            match least {
                Some((count, slot, answers)) => {
                    &&& 0 <= best.unwrap() < i
                    &&& slot == slots@[best.unwrap()]
                    &&& answers@ == board@.candidates(slot)
                    &&& count == answers@.len()
                },
                None => true,
            },
        decreases slots.len() - i,
    {
        let slot = slots[i];
        let pos_answers = board.possible_answers(&slot);
        let count = pos_answers.count();
        let fewer = match least {
            Some((least_count, _, _)) => count < least_count,
            None => true,
        };
        proof {
            lemma_least_step(board@, slots@, i as int, best);
        }
        if count > 0 && fewer {
            least = Some((count, slot, pos_answers));
            proof {
                best = Some(i as int);
            }
        }
        i += 1;
    }
    proof {
        assert(slots@.take(slots.len() as int) =~= slots@);
    }
    least
}

/// Pushes, for each of `answers`, a copy of `board` with the answer at `slot`.
fn push_branches<B: Board>(stack: &mut Vec<B>, board: &B, slot: Slot, answers: &Vec<B::Element>)
    requires
        slot.0 < B::spec_size(),
        slot.1 < B::spec_size(),
    ensures
        grids_of(final(stack)@) == grids_of(old(stack)@) + branches(
            board@,
            slot,
            values_of(answers@),
        ),
{
    let ghost start = stack@;
    let mut i: usize = 0;
    assert(grids_of(stack@) =~= grids_of(start) + branches(
        board@,
        slot,
        values_of(answers@).take(0),
    ));
    while i < answers.len()
        invariant
            i <= answers.len(),
            slot.0 < B::spec_size(),
            slot.1 < B::spec_size(),
            grids_of(stack@) == grids_of(start) + branches(
                board@,
                slot,
                values_of(answers@).take(i as int),
            ),
        decreases answers.len() - i,
    {
        let mut new_board = board.clone();
        proof {
            B::lemma_clone(*board, new_board);
        }
        new_board.set(&slot, answers[i]);
        let ghost before = stack@;
        stack.push(new_board);
        i += 1;
        assert(grids_of(stack@) =~= grids_of(start) + branches(
            board@,
            slot,
            values_of(answers@).take(i as int),
        )) by {
            assert(grids_of(stack@) =~= grids_of(before).push(new_board@));
            assert(values_of(answers@).take(i as int) =~= values_of(answers@).take(i - 1).push(
                answers@[i - 1].value(),
            ));
        }
    }
    assert(values_of(answers@).take(answers.len() as int) =~= values_of(answers@));
}

/// The solutions of a board, found one by one in a depth-first search.
pub struct BoardSolutions<B: Board> {
    stack: Vec<B>,
    ctx: SolvingContext,
}

impl<B: Board> BoardSolutions<B> {
    /// The puzzles that are still to be searched; the last is taken up next.
    pub closed spec fn pending(&self) -> Seq<Grid> {
        grids_of(self.stack@)
    }

    /// Whether the search orders its choices at random.
    pub closed spec fn is_random(&self) -> bool {
        self.ctx is Random
    }

    pub(crate) fn new(board: B, ctx: SolvingContext) -> (r: Self)
        ensures
            r.pending() == seq![board@],
            r.is_random() == (ctx is Random),
    {
        let mut stack: Vec<B> = Vec::new();
        stack.push(board);
        assert(grids_of(stack@) =~= seq![board@]);
        BoardSolutions { stack, ctx }
    }

    /// Searches on until the next solution.
    ///
    /// The board on top of the stack is taken off and its determined answers
    /// are filled in, in one pass. A board that the pass finds unsatisfied is
    /// dropped; one that it leaves full is yielded. For any other, the empty
    /// slot with the fewest candidates, but at least one, is chosen, the
    /// first such slot in the order of the board or, at random, of a shuffle;
    /// for each of its candidates, in increasing order or, at random, in a
    /// shuffled one, a copy of the board with that candidate in the slot goes
    /// onto the stack. `None` says that the stack is empty: there is no
    /// further solution.
    pub fn next(&mut self) -> (r: Option<B>)
        ensures
            final(self).is_random() == old(self).is_random(),
            solutions_of(old(self).pending()) == solutions_of(final(self).pending()).union(
                yielded(r),
            ),
            each_extends(final(self).pending(), old(self).pending()),
            match r {
                Some(b) => b@.is_full() && fills_some(b@, old(self).pending()),
                None => final(self).pending().len() == 0,
            },
            all_consistent(old(self).pending()) ==> all_consistent(final(self).pending()) && (match r {
                Some(b) => b@.is_solution(),
                None => true,
            }),
            old(self).pending().len() > 0 ==> work(final(self).pending()) < work(
                old(self).pending(),
            ),
            !old(self).is_random() ==> (grid_of(r), final(self).pending()) == search(
                old(self).pending(),
            ),
            all_consistent(old(self).pending()) && solutions_of(old(self).pending())
                == Set::<Grid>::empty() ==> r is None,
            disjoint(old(self).pending()) ==> disjoint(final(self).pending()) && (match r {
                Some(b) => !solutions_of(final(self).pending()).contains(b@),
                None => true,
            }),
    {
        let ghost start = self.pending();
        let ghost random = self.is_random();
        proof {
            lemma_grids_wf(self.stack@);
            lemma_keeps_at_start(start, random);
        }
        while self.stack.len() > 0
            invariant
                start == old(self).pending(),
                random == old(self).is_random(),
                self.is_random() == random,
                search_keeps(self.pending(), start, random),
            decreases work(self.pending()),
        {
            let ghost cur = self.pending();
            let mut board = self.stack.pop().unwrap();
            proof {
                lemma_grids_wf(self.stack@);
                board.lemma_view();
                assert(self.pending() =~= cur.drop_last());
                assert(board@ == cur.last());
            }
            // Fill in determined answers
            let fill_res = board.put_determined_answers();
            proof {
                board.lemma_view();
                assert(top_pass(cur) == (board@, fill_res));
            }
            // Check if unsatisfied
            if fill_res == FillResult::Unsatisfied {
                proof {
                    lemma_keeps_dead(cur, start, random);
                }
                continue ;
            }
            // If still satisfied, check empty slots

            if board.has_unknown_slot() {
                // Get all the empty slots
                let mut empty_slots = board.unknown_slots();
                match self.ctx.rng() {
                    Some(rng) => shuffle_seeded(&mut empty_slots, rng),
                    None => {},
                }
                proof {
                    lemma_unknown_seq(board@);
                    lemma_same_items(board@.unknown_seq(), empty_slots@);
                    assert forall|i: int| 0 <= i < empty_slots.len() implies board@.in_range(
                        #[trigger] empty_slots[i],
                    ) && board@.at(empty_slots[i]) == 0 by {
                        assert(empty_slots@.contains(empty_slots[i]));
                        assert(board@.unknown_seq().contains(empty_slots[i]));
                    }
                }
                // Find the least constrained one
                match find_least_constrained(&board, &empty_slots) {
                    Some((_, slot, pos_answers)) => {
                        // Get all the possible answers
                        let mut answers = pos_answers.elements();
                        let ghost sorted = answers@;
                        match self.ctx.rng() {
                            Some(rng) => shuffle_seeded(&mut answers, rng),
                            None => {},
                        }
                        // Add all mutated boards onto the stack
                        push_branches(&mut self.stack, &board, slot, &answers);
                        proof {
                            let h = board@;
                            let values = values_of(answers@);
                            let i = choose|i: int|
                                is_least_constrained(h, empty_slots@, i) && empty_slots@[i] == slot;
                            B::lemma_shape();
                            h.lemma_candidates(slot);
                            lemma_ascending(h.candidates(slot), h.size as nat);
                            lemma_ascending_len(h.candidates(slot), h.size as nat);
                            assert(sorted.no_duplicates()) by {
                                assert forall|a: int, b: int|
                                    0 <= a < sorted.len() && 0 <= b < sorted.len() && a
                                        != b implies sorted[a] != sorted[b] by {
                                    assert(values_of(sorted)[a] != values_of(sorted)[b]);
                                }
                            }
                            lemma_same_items(sorted, answers@);
                            assert(values.no_duplicates()) by {
                                assert forall|a: int, b: int|
                                    0 <= a < values.len() && 0 <= b < values.len() && a
                                        != b implies values[a] != values[b] by {
                                    if values[a] == values[b] {
                                        B::Element::lemma_value_determines(
                                            answers@[a],
                                            answers@[b],
                                        );
                                    }
                                }
                            }
                            assert forall|v: nat| values.contains(v) <==> h.candidates(
                                slot,
                            ).contains(v) by {
                                let asc = values_of(sorted);
                                if values.contains(v) {
                                    let j = choose|j: int| 0 <= j < values.len() && values[j] == v;
                                    assert(answers@.contains(answers@[j]));
                                    let e = answers@[j];
                                    let m = choose|m: int| 0 <= m < sorted.len() && sorted[m] == e;
                                    assert(asc[m] == v);
                                }
                                if h.candidates(slot).contains(v) {
                                    assert(asc.contains(v));
                                    let m = choose|m: int| 0 <= m < asc.len() && asc[m] == v;
                                    assert(sorted.contains(sorted[m]));
                                    let e = sorted[m];
                                    let j = choose|j: int|
                                        0 <= j < answers@.len() && answers@[j] == e;
                                    assert(values[j] == v);
                                }
                            }
                            if !random {
                                assert(empty_slots@ == h.unknown_seq());
                                let w = choose|w: int|
                                    is_least_constrained(h, h.unknown_seq(), w);
                                lemma_least_constrained_unique(h, h.unknown_seq(), i, w);
                            }
                            lemma_keeps_branch(cur, start, random, slot, values);
                        }
                    },
                    None => {
                        proof {
                            let h = board@;
                            assert forall|s: Slot| h.in_range(s) && h.at(s) == 0 implies h.candidates(
                                s,
                            ).len() == 0 by {
                                assert(h.unknown_seq().contains(s));
                                assert(empty_slots@.contains(s));
                                let i = choose|i: int|
                                    0 <= i < empty_slots@.len() && empty_slots@[i] == s;
                                assert(count_at(h, empty_slots@, i) == 0);
                            }
                            lemma_keeps_stuck(cur, start, random);
                        }
                    },
                }
            } else {
                proof {
                    lemma_keeps_solved(cur, start, random);
                    if all_consistent(start) {
                        assert(solutions_of(self.pending()).union(set![board@]).contains(board@));
                        assert(solutions_of(start).contains(board@));
                    }
                }
                return Some(board);
            }
        }
        proof {
            lemma_keeps_done(self.pending(), start, random);
        }
        None
    }

    /// Searches on for up to `amount` solutions and returns them in the
    /// order in which they are found.
    pub fn take(&mut self, amount: usize) -> (r: Vec<B>)
        ensures
            final(self).is_random() == old(self).is_random(),
            r.len() <= amount,
            r.len() < amount ==> final(self).pending().len() == 0,
            solutions_of(old(self).pending()) == solutions_of(final(self).pending()).union(
                found(r@),
            ),
            forall|i: int|
                0 <= i < r.len() ==> (#[trigger] r[i])@.is_full() && fills_some(
                    r[i]@,
                    old(self).pending(),
                ),
            all_consistent(old(self).pending()) ==> all_consistent(final(self).pending())
                && forall|i: int| 0 <= i < r.len() ==> (#[trigger] r[i])@.is_solution(),
            !old(self).is_random() ==> (grids_of(r@), final(self).pending()) == search_many(
                old(self).pending(),
                amount as nat,
            ),
            disjoint(old(self).pending()) && all_consistent(old(self).pending()) ==> grids_of(
                r@,
            ).no_duplicates() && disjoint(final(self).pending()) && forall|i: int|
                0 <= i < r.len() ==> !solutions_of(final(self).pending()).contains(
                    (#[trigger] r[i])@,
                ),
    {
        let mut out: Vec<B> = Vec::new();
        let ghost start = self.pending();
        let ghost random = self.is_random();
        let mut done = false;
        proof {
            lemma_found_none::<B>();
            lemma_grids_wf(self.stack@);
            lemma_keeps_at_start(start, random);
            assert(grids_of(out@) =~= Seq::<Grid>::empty());
            assert(solutions_of(start) =~= solutions_of(start).union(found(out@)));
        }
        while out.len() < amount && !done
            invariant
                start == old(self).pending(),
                random == old(self).is_random(),
                self.is_random() == random,
                out.len() <= amount,
                done ==> self.pending().len() == 0,
                all_wf(start),
                all_wf(self.pending()),
                solutions_of(start) == solutions_of(self.pending()).union(found(out@)),
                each_extends(self.pending(), start),
                forall|i: int|
                    0 <= i < out.len() ==> (#[trigger] out[i])@.is_full() && fills_some(
                        out[i]@,
                        start,
                    ),
                all_consistent(start) ==> all_consistent(self.pending()) && forall|i: int|
                    0 <= i < out.len() ==> (#[trigger] out[i])@.is_solution(),
                disjoint(start) && all_consistent(start) ==> grids_of(out@).no_duplicates()
                    && disjoint(self.pending()) && forall|i: int|
                    0 <= i < out.len() ==> !solutions_of(self.pending()).contains(
                        (#[trigger] out[i])@,
                    ),
                !random ==> ({
                    let (more, left) = if done {
                        (Seq::<Grid>::empty(), self.pending())
                    } else {
                        search_many(self.pending(), (amount - out.len()) as nat)
                    };
                    (grids_of(out@) + more, left) == search_many(start, amount as nat)
                }),
            decreases amount - out.len(), if done { 0int } else { 1int },
        {
            let ghost cur = self.pending();
            let ghost before = out@;
            match self.next() {
                Some(board) => {
                    proof {
                        lemma_found_push(before, board);
                        lemma_grids_wf(self.stack@);
                        crate::search::lemma_fills_some(board@, cur, start);
                        crate::search::lemma_each_extends(self.pending(), cur, start);
                    }
                    out.push(board);
                    proof {
                        if disjoint(start) && all_consistent(start) {
                            lemma_no_repeat(before, board, cur, self.pending());
                        }
                        assert(solutions_of(start) =~= solutions_of(self.pending()).union(
                            found(out@),
                        ));
                        if !random {
                            assert(grids_of(out@) =~= grids_of(before) + seq![board@]);
                            let (more, left) = search_many(
                                self.pending(),
                                (amount - out.len()) as nat,
                            );
                            assert(grids_of(out@) + more =~= grids_of(before) + (seq![board@]
                                + more));
                        }
                    }
                },
                None => {
                    done = true;
                    proof {
                        assert(solutions_of(start) =~= solutions_of(self.pending()).union(
                            found(out@),
                        ));
                        lemma_grids_wf(self.stack@);
                    }
                },
            }
        }
        proof {
            if !random && !done {
                assert(grids_of(out@) + Seq::<Grid>::empty() =~= grids_of(out@));
            }
            if !random && done {
                assert(grids_of(out@) + Seq::<Grid>::empty() =~= grids_of(out@));
            }
        }
        out
    }

    /// Runs the search to its end and returns all solutions in the order in
    /// which they are found.
    pub fn collect(self) -> (r: Vec<B>)
        ensures
            solutions_of(self.pending()) == found(r@),
            forall|i: int|
                0 <= i < r.len() ==> (#[trigger] r[i])@.is_full() && fills_some(
                    r[i]@,
                    self.pending(),
                ),
            all_consistent(self.pending()) ==> grids_of(r@).to_set() == solutions_of(
                self.pending(),
            ),
            !self.is_random() ==> grids_of(r@) == search_all(self.pending()),
            disjoint(self.pending()) && all_consistent(self.pending()) ==> grids_of(
                r@,
            ).no_duplicates(),
    {
        let mut rest = self;
        let mut out: Vec<B> = Vec::new();
        let ghost start = self.pending();
        let ghost random = self.is_random();
        proof {
            lemma_found_none::<B>();
            lemma_grids_wf(self.stack@);
            lemma_keeps_at_start(start, random);
            assert(grids_of(out@) =~= Seq::<Grid>::empty());
            assert(solutions_of(start) =~= solutions_of(start).union(found(out@)));
        }
        loop
            invariant
                start == self.pending(),
                random == self.is_random(),
                rest.is_random() == random,
                all_wf(start),
                all_wf(rest.pending()),
                solutions_of(start) == solutions_of(rest.pending()).union(found(out@)),
                each_extends(rest.pending(), start),
                forall|i: int|
                    0 <= i < out.len() ==> (#[trigger] out[i])@.is_full() && fills_some(
                        out[i]@,
                        start,
                    ),
                all_consistent(start) ==> all_consistent(rest.pending()) && forall|i: int|
                    0 <= i < out.len() ==> (#[trigger] out[i])@.is_solution(),
                disjoint(start) && all_consistent(start) ==> grids_of(out@).no_duplicates()
                    && disjoint(rest.pending()) && forall|i: int|
                    0 <= i < out.len() ==> !solutions_of(rest.pending()).contains(
                        (#[trigger] out[i])@,
                    ),
                !random ==> grids_of(out@) + search_all(rest.pending()) == search_all(start),
            ensures
                solutions_of(start) == found(out@),
                forall|i: int|
                    0 <= i < out.len() ==> (#[trigger] out[i])@.is_full() && fills_some(
                        out[i]@,
                        start,
                    ),
                all_consistent(start) ==> forall|i: int|
                    0 <= i < out.len() ==> (#[trigger] out[i])@.is_solution(),
                !random ==> grids_of(out@) == search_all(start),
                disjoint(start) && all_consistent(start) ==> grids_of(out@).no_duplicates(),
            decreases work(rest.pending()),
        {
            let ghost cur = rest.pending();
            let ghost before = out@;
            match rest.next() {
                Some(board) => {
                    proof {
                        lemma_found_push(before, board);
                        lemma_grids_wf(rest.stack@);
                        crate::search::lemma_fills_some(board@, cur, start);
                        crate::search::lemma_each_extends(rest.pending(), cur, start);
                    }
                    out.push(board);
                    proof {
                        if disjoint(start) && all_consistent(start) {
                            lemma_no_repeat(before, board, cur, rest.pending());
                        }
                        assert(solutions_of(start) =~= solutions_of(rest.pending()).union(
                            found(out@),
                        ));
                        if !random {
                            assert(grids_of(out@) =~= grids_of(before) + seq![board@]);
                            assert(grids_of(out@) + search_all(rest.pending()) =~= grids_of(before)
                                + (seq![board@] + search_all(rest.pending())));
                        }
                    }
                },
                None => {
                    proof {
                        assert(solutions_of(rest.pending()) =~= Set::<Grid>::empty());
                        assert(solutions_of(start) =~= found(out@));
                        if !random {
                            assert(grids_of(out@) + Seq::<Grid>::empty() =~= grids_of(out@));
                        }
                    }
                    break ;
                },
            }
        }
        proof {
            if all_consistent(start) {
                lemma_found_all(out@);
            }
        }
        out
    }
}

/// The search for the solutions of a board; every board has it.
pub trait Solve: Board {
    /// Solve with a solving context
    fn solve_with_ctx(&self, ctx: SolvingContext) -> (r: BoardSolutions<Self>)
        ensures
            r.pending() == seq![self@],
            r.is_random() == (ctx is Random),
            disjoint(r.pending()),
    {
        let copy = self.clone();
        proof {
            Self::lemma_clone(*self, copy);
        }
        BoardSolutions::new(copy, ctx)
    }

    /// Solve the board by returning its solutions, searched in a random order.
    fn solve(&self) -> (r: BoardSolutions<Self>)
        ensures
            r.pending() == seq![self@],
            r.is_random(),
            disjoint(r.pending()),
    {
        self.solve_with_ctx(SolvingContext::default())
    }
}

impl<B: Board> Solve for B {

}

} // verus!
