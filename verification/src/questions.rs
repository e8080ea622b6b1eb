//! Questions: solved boards with some of their cells taken out.

use crate::board::Board;
use crate::random::gen_range_seeded;
use crate::slots::Slot;
use vstd::prelude::*;

verus! {

/// How many cells a question leaves unknown: a number drawn from
/// `min..max` where `random` asks for one, `fixed` where it does not.
pub fn pick_num_unknowns(
    rng: &mut rand::rngs::StdRng,
    random: bool,
    fixed: usize,
    min: usize,
    max: usize,
) -> (r: usize)
    requires
        random ==> min < max,
    ensures
        random ==> min <= r < max,
        !random ==> r == fixed,
{
    if random {
        gen_range_seeded(rng, min, max)
    } else {
        fixed
    }
}

/// Makes a question of a solution: a copy of the board with `num_unknowns`
/// cells, chosen at random, set to unknown, together with the solution.
pub fn generate_question<B: Board>(solution: &B, num_unknowns: usize) -> (r: (B, B))
    requires
        num_unknowns <= B::spec_size() * B::spec_size(),
    ensures
        r.1@ == solution@,
        exists|chosen: Seq<Slot>|
            {
                &&& chosen.len() == num_unknowns
                &&& chosen.no_duplicates()
                &&& forall|i: int| 0 <= i < chosen.len() ==> solution@.in_range(#[trigger] chosen[i])
                &&& r.0@ == #[trigger] solution@.cleared(chosen)
            },
        solution@.extends(r.0@),
        solution@.is_full() ==> r.0@.unknowns().len() == num_unknowns,
        solution@.is_solution() ==> r.0@.solutions().contains(solution@),
{
    let mut question = solution.clone();
    let answer = solution.clone();
    proof {
        B::lemma_clone(*solution, question);
        B::lemma_clone(*solution, answer);
    }
    question.put_random_unknowns(num_unknowns);
    (question, answer)
}

} // verus!
