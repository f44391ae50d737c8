use vstd::prelude::*;

verus! {

/// A solver for both parts of one day's puzzles.
pub trait Solver {
    /// This solver holds what `presolve` made of `input`.
    spec fn holds_input(&self, input: Seq<char>) -> bool;

    /// The answer to the first part for the input held.
    spec fn answer_one(&self) -> Seq<char>;

    /// The answer to the second part for the input held.
    spec fn answer_two(&self) -> Seq<char>;

    /// Preliminary computations for both parts of the puzzle, input parsing,
    /// building necessary data structures, etc.
    fn presolve(&mut self, input: &str)
        ensures
            final(self).holds_input(input@),
    ;

    /// Solve and return the solution for the first part of the puzzle.
    fn solve_part_one(&mut self) -> (r: String)
        ensures
            r@ == old(self).answer_one(),
            final(self).answer_one() == old(self).answer_one(),
            final(self).answer_two() == old(self).answer_two(),
    ;

    /// Solve and return the solution for the second part of the puzzle.
    fn solve_part_two(&mut self) -> (r: String)
        ensures
            r@ == old(self).answer_two(),
            final(self).answer_one() == old(self).answer_one(),
            final(self).answer_two() == old(self).answer_two(),
    ;
}

} // verus!
