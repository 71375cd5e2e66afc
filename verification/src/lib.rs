//! Dancing links and Algorithm X for exact cover problems.
//!
//! An exact cover problem is given by a list of possibilities, a list of
//! constraints and a predicate telling which possibility satisfies which
//! constraint. A solution is a set of possibilities that satisfies every
//! mandatory constraint exactly once and every optional one at most once.

pub mod dense_grid;
pub mod grid;
pub mod latin_square;
pub mod polyomino;
pub mod queens;
pub mod search;
pub mod solver;
pub mod sparse_grid;
pub mod sudoku;
pub mod util;

pub use grid::Grid;
pub use solver::Solver;

use vstd::prelude::*;

verus! {

/// An instance of an exact cover problem.
///
/// The four methods answer what the four functions of the same names with
/// `spec_` before them state. An implementation that is to be proved gives
/// those functions their meaning; by themselves they say nothing.
pub trait ExactCover: Sized {
    /// The type of the elements of a solution.
    type Possibility;

    /// The type of the conditions that a solution meets.
    type Constraint;

    /// Whether `poss` satisfies `cons`.
    open spec fn spec_satisfies(&self, poss: &Self::Possibility, cons: &Self::Constraint) -> bool {
        arbitrary()
    }

    /// Whether `cons` may be left unsatisfied.
    open spec fn spec_is_optional(&self, cons: &Self::Constraint) -> bool {
        arbitrary()
    }

    /// The possibilities of this instance.
    open spec fn spec_possibilities(&self) -> Seq<Self::Possibility> {
        arbitrary()
    }

    /// The constraints of this instance.
    open spec fn spec_constraints(&self) -> Seq<Self::Constraint> {
        arbitrary()
    }

    /// Return true if the given possibility satisfies the given constraint.
    fn satisfies(&self, poss: &Self::Possibility, cons: &Self::Constraint) -> (yes: bool)
        ensures
            yes == self.spec_satisfies(poss, cons),
    ;

    /// Return true if the given constraint is optional.
    fn is_optional(&self, cons: &Self::Constraint) -> (yes: bool)
        ensures
            yes == self.spec_is_optional(cons),
    ;

    /// Return the list of possibilities of this instance.
    fn possibilities(&self) -> (list: &[Self::Possibility])
        ensures
            list@ == self.spec_possibilities(),
    ;

    /// Return the list of constraints of this instance.
    fn constraints(&self) -> (list: &[Self::Constraint])
        ensures
            list@ == self.spec_constraints(),
    ;
}

impl<E: ExactCover> ExactCover for &E {
    type Constraint = E::Constraint;

    type Possibility = E::Possibility;

    open spec fn spec_satisfies(&self, poss: &Self::Possibility, cons: &Self::Constraint) -> bool {
        (**self).spec_satisfies(poss, cons)
    }

    open spec fn spec_is_optional(&self, cons: &Self::Constraint) -> bool {
        (**self).spec_is_optional(cons)
    }

    open spec fn spec_possibilities(&self) -> Seq<Self::Possibility> {
        (**self).spec_possibilities()
    }

    open spec fn spec_constraints(&self) -> Seq<Self::Constraint> {
        (**self).spec_constraints()
    }

    fn satisfies(&self, poss: &Self::Possibility, cons: &Self::Constraint) -> (yes: bool) {
        <E as ExactCover>::satisfies(self, poss, cons)
    }

    fn is_optional(&self, cons: &Self::Constraint) -> (yes: bool) {
        <E as ExactCover>::is_optional(self, cons)
    }

    fn possibilities(&self) -> (list: &[Self::Possibility]) {
        <E as ExactCover>::possibilities(self)
    }

    fn constraints(&self) -> (list: &[Self::Constraint]) {
        <E as ExactCover>::constraints(self)
    }
}

} // verus!
