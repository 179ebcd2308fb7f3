//! Constraints: a predicate over two values bound to an ordered pair of
//! variable positions, and a predicate over the whole variable collection.

use super::variable::{VarState, Variable};
use vstd::prelude::*;

verus! {

/// The states of a collection of variables, position by position.
pub open spec fn states<T>(variables: Seq<Variable<T>>) -> Seq<VarState<T>> {
    variables.map_values(|v: Variable<T>| v@)
}

/// Every variable of the state is assigned.
pub open spec fn all_assigned<T>(state: Seq<VarState<T>>) -> bool {
    forall|i: int| 0 <= i < state.len() ==> (#[trigger] state[i]).value is Some
}

/// A pure, total test on a pair of values.
///
/// `holds` is the relation and `check` decides it. An implementation states
/// the relation by giving `holds` a body of its own.
pub trait BinaryPredicate<T> {
    /// The relation that `check` decides.
    open spec fn holds(&self, left: T, right: T) -> bool {
        arbitrary()
    }

    /// Decides the relation for one pair of values.
    fn check(&self, left: &T, right: &T) -> (ok: bool)
        ensures
            ok == self.holds(*left, *right),
    ;
}

/// A pure, total test on the whole (possibly partial) assignment. It serves
/// as global constraint and as goal test.
pub trait StatePredicate<T> {
    /// The property that `check` decides.
    open spec fn holds(&self, state: Seq<VarState<T>>) -> bool {
        arbitrary()
    }

    /// Decides the property for the given variables.
    fn check(&self, variables: &Vec<Variable<T>>) -> (ok: bool)
        ensures
            ok == self.holds(states(variables@)),
    ;
}

/// The mathematical content of a [`BinaryConstraint`].
pub struct ConstraintView<C> {
    pub left: usize,
    pub right: usize,
    pub check: C,
}

/// A predicate bound to an ordered pair of variable positions. It is
/// propagated from `left` toward `right` when `left` is committed.
pub struct BinaryConstraint<C> {
    left: usize,
    right: usize,
    check: C,
}

impl<C> View for BinaryConstraint<C> {
    type V = ConstraintView<C>;

    closed spec fn view(&self) -> ConstraintView<C> {
        ConstraintView { left: self.left, right: self.right, check: self.check }
    }
}

impl<C: Copy> Clone for BinaryConstraint<C> {
    fn clone(&self) -> (copy: Self)
        ensures
            copy@ == self@,
    {
        BinaryConstraint { left: self.left, right: self.right, check: self.check }
    }
}

impl<C> BinaryConstraint<C> {
    /// Binds `check` to the pair of positions `left` and `right`.
    pub fn new(left: usize, right: usize, check: C) -> (constraint: Self)
        ensures
            constraint@ == (ConstraintView { left, right, check }),
    {
        BinaryConstraint { left, right, check }
    }

    /// The position whose commitment triggers the constraint.
    pub fn left(&self) -> (left: usize)
        ensures
            left == self@.left,
    {
        self.left
    }

    /// The position that the constraint prunes or checks.
    pub fn right(&self) -> (right: usize)
        ensures
            right == self@.right,
    {
        self.right
    }

    /// The predicate of the constraint.
    pub fn predicate(&self) -> (check: &C)
        ensures
            *check == self@.check,
    {
        &self.check
    }
}

/// A predicate over the whole variable collection, tested at every step of
/// the search.
pub struct GlobalConstraint<G> {
    check: G,
}

impl<G> View for GlobalConstraint<G> {
    type V = G;

    closed spec fn view(&self) -> G {
        self.check
    }
}

impl<G: Copy> Clone for GlobalConstraint<G> {
    fn clone(&self) -> (copy: Self)
        ensures
            copy@ == self@,
    {
        GlobalConstraint { check: self.check }
    }
}

impl<G> GlobalConstraint<G> {
    /// Makes `check` a global constraint.
    pub fn new(check: G) -> (constraint: Self)
        ensures
            constraint@ == check,
    {
        GlobalConstraint { check }
    }

    /// The predicate of the constraint.
    pub fn predicate(&self) -> (check: &G)
        ensures
            *check == self@,
    {
        &self.check
    }
}

} // verus!
