//! The constraint solver: construction with validated indices, forward
//! checking, and the depth-first search.

use super::constraint::{
    states, BinaryConstraint, BinaryPredicate, ConstraintView, GlobalConstraint, StatePredicate,
};
use super::model::{
    admits, arcs_filed, arcs_fit, arcs_in_range, branch_position, lemma_pruned_by_none,
    lemma_pruned_prefix, lemma_pruned_step, pruned, survives, total_candidates, Problem,
};
use super::variable::{CspError, Variable};
use std::collections::HashMap;
use vstd::prelude::*;
use vstd::std_specs::hash::*;

verus! {

/// The contents of a list of constraints.
pub open spec fn views<C>(list: Seq<BinaryConstraint<C>>) -> Seq<ConstraintView<C>> {
    list.map_values(|c: BinaryConstraint<C>| c@)
}

/// The constraints of an index, list by list.
pub open spec fn arcs_of<C>(constraints: Map<usize, Vec<BinaryConstraint<C>>>) -> Map<
    usize,
    Seq<ConstraintView<C>>,
> {
    Map::new(|key: usize| constraints.contains_key(key), |key: usize| views(constraints[key]@))
}

/// The predicate of an optional global constraint.
pub open spec fn global_of<G>(global: Option<GlobalConstraint<G>>) -> Option<G> {
    match global {
        Some(g) => Some(g@),
        None => None,
    }
}

/// The problem that the three parts of a solver make up.
pub open spec fn problem_of<T, C, G>(
    variables: Seq<Variable<T>>,
    constraints: Map<usize, Vec<BinaryConstraint<C>>>,
    global: Option<GlobalConstraint<G>>,
) -> Problem<T, C, G> {
    Problem { variables: states(variables), arcs: arcs_of(constraints), global: global_of(global) }
}

/// A generic constraint solver over values of type `T`, with binary
/// constraints of type `C` and a global constraint of type `G`.
pub struct ConstraintSolver<T, C, G> {
    variables: Vec<Variable<T>>,
    constraints: HashMap<usize, Vec<BinaryConstraint<C>>>,
    global_constraint: Option<GlobalConstraint<G>>,
}

impl<T, C, G> View for ConstraintSolver<T, C, G> {
    type V = Problem<T, C, G>;

    closed spec fn view(&self) -> Problem<T, C, G> {
        problem_of(self.variables@, self.constraints@, self.global_constraint)
    }
}

/// Whether every variable of the collection lists each candidate once.
pub open spec fn all_wf<T>(variables: Seq<Variable<T>>) -> bool {
    forall|i: int| 0 <= i < variables.len() ==> (#[trigger] variables[i]).wf()
}

/// Whether the constraints of one list name positions below `n`.
fn list_in_range<C>(list: &Vec<BinaryConstraint<C>>, n: usize) -> (ok: bool)
    ensures
        ok == forall|k: int|
            0 <= k < list.len() ==> (#[trigger] views(list@)[k]).left < n && views(list@)[k].right
                < n,
{
    let mut k: usize = 0;
    while k < list.len()
        invariant
            k <= list.len(),
            forall|j: int|
                0 <= j < k ==> (#[trigger] views(list@)[j]).left < n && views(list@)[j].right < n,
        decreases list.len() - k,
    {
        if list[k].left() >= n || list[k].right() >= n {
            assert(!(views(list@)[k as int].left < n && views(list@)[k as int].right < n));
            return false;
        }
        k += 1;
    }
    true
}

/// Whether the constraints of one list all have `key` as left position.
fn list_filed<C>(list: &Vec<BinaryConstraint<C>>, key: usize) -> (ok: bool)
    ensures
        ok == forall|k: int| 0 <= k < list.len() ==> (#[trigger] views(list@)[k]).left == key,
{
    let mut k: usize = 0;
    while k < list.len()
        invariant
            k <= list.len(),
            forall|j: int| 0 <= j < k ==> (#[trigger] views(list@)[j]).left == key,
        decreases list.len() - k,
    {
        if list[k].left() != key {
            assert(views(list@)[k as int].left != key);
            return false;
        }
        k += 1;
    }
    true
}

/// The keys of `arcs` below `bound`.
pub open spec fn keys_below<C>(arcs: Map<usize, Seq<ConstraintView<C>>>, bound: int) -> Set<usize> {
    arcs.dom().filter(|key: usize| key < bound)
}

/// Checks the index of constraints against a collection of `n` variables.
fn validate<C>(constraints: &HashMap<usize, Vec<BinaryConstraint<C>>>, n: usize) -> (outcome:
    Result<(), CspError>)
    ensures
        outcome is Ok <==> arcs_fit(arcs_of(constraints@), n as nat),
        outcome == Err::<(), CspError>(CspError::IndexOutOfRange) <==> !arcs_in_range(
            arcs_of(constraints@),
            n as nat,
        ),
        outcome == Err::<(), CspError>(CspError::MisfiledConstraint) <==> arcs_in_range(
            arcs_of(constraints@),
            n as nat,
        ) && !arcs_filed(arcs_of(constraints@)),
{
    broadcast use group_hash_axioms;

    let ghost arcs = arcs_of(constraints@);
    let mut in_range = true;
    let mut filed = true;
    let mut found: usize = 0;
    let mut key: usize = 0;
    assert(keys_below(arcs, 0) =~= Set::empty());
    while key < n
        invariant
            key <= n,
            arcs == arcs_of(constraints@),
            found == keys_below(arcs, key as int).len(),
            keys_below(arcs, key as int).finite(),
            found <= key,
            in_range == forall|q: usize| #[trigger]
                arcs.dom().contains(q) && q < key ==> forall|k: int|
                    0 <= k < arcs[q].len() ==> (#[trigger] arcs[q][k]).left < n && arcs[q][k].right
                        < n,
            filed == forall|q: usize| #[trigger]
                arcs.dom().contains(q) && q < key ==> forall|k: int|
                    0 <= k < arcs[q].len() ==> (#[trigger] arcs[q][k]).left == q,
        decreases n - key,
    {
        let ghost before = keys_below(arcs, key as int);
        let ghost after = keys_below(arcs, key + 1);
        match constraints.get(&key) {
            Some(list) => {
                assert(arcs.dom().contains(key));
                assert(arcs[key] == views(list@));
                assert(after =~= before.insert(key));
                found += 1;
                if !list_in_range(list, n) {
                    in_range = false;
                }
                if !list_filed(list, key) {
                    filed = false;
                }
            },
            None => {
                assert(!arcs.dom().contains(key));
                assert(after =~= before);
            },
        }
        key += 1;
    }
    let ghost below = keys_below(arcs, n as int);
    let complete = found == constraints.len();
    proof {
        assert(arcs.dom() =~= constraints@.dom());
        assert(below.subset_of(arcs.dom()));
        if complete {
            vstd::set_lib::lemma_subset_equality(below, arcs.dom());
            assert forall|q: usize| arcs.dom().contains(q) implies q < n by {
                assert(below.contains(q));
            }
        } else {
            if arcs_in_range(arcs, n as nat) {
                assert(below =~= arcs.dom());
            }
        }
    }
    if !complete || !in_range {
        Err(CspError::IndexOutOfRange)
    } else if !filed {
        Err(CspError::MisfiledConstraint)
    } else {
        Ok(())
    }
}

/// Brings to mind that every variable of a collection is well formed.
/// Nothing changes when this runs.
pub fn recall_all_wf<T>(variables: &Vec<Variable<T>>)
    ensures
        all_wf(variables@),
{
    let mut i: usize = 0;
    while i < variables.len()
        invariant
            i <= variables.len(),
            forall|j: int| 0 <= j < i ==> (#[trigger] variables[j]).wf(),
        decreases variables.len() - i,
    {
        variables[i].recall_wf();
        i += 1;
    }
}

impl<T, C, G> ConstraintSolver<T, C, G> {
    /// The positions that the constraints name exist, each constraint is
    /// filed under its left position, and every variable is well formed.
    #[verifier::type_invariant]
    pub closed spec fn inv(&self) -> bool {
        all_wf(self.variables@) && arcs_fit(
            arcs_of(self.constraints@),
            self.variables@.len(),
        )
    }
}

impl<T: Copy, C: BinaryPredicate<T>, G: StatePredicate<T>> ConstraintSolver<T, C, G> {
    /// Builds a solver. The constraints are keyed by their left position;
    /// every key and every position that a constraint names must exist.
    pub fn new(
        variables: Vec<Variable<T>>,
        constraints: HashMap<usize, Vec<BinaryConstraint<C>>>,
        global_constraint: Option<GlobalConstraint<G>>,
    ) -> (built: Result<Self, CspError>)
        ensures
            built is Ok <==> arcs_fit(arcs_of(constraints@), variables.len() as nat),
            built matches Ok(solver) ==> solver@ == problem_of(
                variables@,
                constraints@,
                global_constraint,
            ) && solver@.wf(),
            built matches Err(e) ==> e == (if arcs_in_range(
                arcs_of(constraints@),
                variables.len() as nat,
            ) {
                CspError::MisfiledConstraint
            } else {
                CspError::IndexOutOfRange
            }),
    {
        match validate(&constraints, variables.len()) {
            Ok(()) => {
                recall_all_wf(&variables);
                proof {
                    lemma_states_wf(variables@);
                }
                Ok(ConstraintSolver { variables, constraints, global_constraint })
            },
            Err(e) => Err(e),
        }
    }

    /// The variables in their current state.
    pub fn variables(&self) -> (variables: &Vec<Variable<T>>)
        ensures
            states(variables@) == self@.variables,
            self@.wf(),
    {
        proof {
            use_type_invariant(self);
        }
        &self.variables
    }

    /// Forward checking on `variables` from the committed position
    /// `last_set`. On success the variables are pruned in place; on a
    /// contradiction they are left in an unspecified state.
    fn propagate_on(&self, variables: &mut Vec<Variable<T>>, last_set: usize) -> (ok: bool)
        requires
            last_set < old(variables).len(),
            old(variables)[last_set as int]@.value is Some,
            arcs_fit(self@.arcs, old(variables).len() as nat),
        ensures
            ok <==> self@.propagate(states(old(variables)@), last_set as int) is Some,
            ok ==> states(final(variables)@) == self@.propagate(
                states(old(variables)@),
                last_set as int,
            ).unwrap(),
            final(variables).len() == old(variables).len(),
    {
        broadcast use group_hash_axioms;

        let ghost initial = states(variables@);
        let ghost arcs = self@.arcs_from(last_set as int);
        let left: T = variables[last_set].value().unwrap();
        assert(initial[last_set as int] == variables@[last_set as int]@);

        if let Some(global) = &self.global_constraint {
            if !global.predicate().check(variables) {
                return false;
            }
        }
        assert(self@.global_holds(initial));

        match self.constraints.get(&last_set) {
            None => {
                proof {
                    assert(arcs.len() == 0);
                    assert forall|t: int| 0 <= t < initial.len() implies survives(
                        arcs,
                        left,
                        t,
                        #[trigger] initial[t],
                    ) && pruned(arcs, left, t, initial[t]) == initial[t] by {
                        lemma_pruned_by_none(arcs, left, t, initial[t]);
                    }
                    assert(states(variables@) =~= self@.propagate(
                        initial,
                        last_set as int,
                    ).unwrap());
                }
                true
            },
            Some(list) => {
                assert(arcs == views(list@));
                proof {
                    assert forall|t: int| 0 <= t < initial.len() implies survives(
                        arcs.take(0),
                        left,
                        t,
                        #[trigger] initial[t],
                    ) && pruned(arcs.take(0), left, t, initial[t]) == initial[t] by {
                        lemma_pruned_by_none(arcs.take(0), left, t, initial[t]);
                    }
                }
                let mut k: usize = 0;
                while k < list.len()
                    invariant
                        k <= list.len(),
                        arcs == views(list@),
                        arcs == self@.arcs_from(last_set as int),
                        arcs_fit(self@.arcs, initial.len()),
                        initial == states(old(variables)@),
                        last_set < initial.len(),
                        variables.len() == initial.len(),
                        initial[last_set as int].value == Some(left),
                        self@.global_holds(initial),
                        forall|t: int|
                            0 <= t < initial.len() ==> (#[trigger] variables[t])@ == pruned(
                                arcs.take(k as int),
                                left,
                                t,
                                initial[t],
                            ),
                        forall|t: int|
                            0 <= t < initial.len() ==> survives(
                                arcs.take(k as int),
                                left,
                                t,
                                #[trigger] initial[t],
                            ),
                    decreases list.len() - k,
                {
                    let constraint = &list[k];
                    let right = constraint.right();
                    assert(arcs[k as int] == constraint@);
                    assert(self@.arcs.dom().contains(last_set));
                    assert(right < initial.len());
                    let ghost target = initial[right as int];
                    proof {
                        assert forall|t: int| 0 <= t < initial.len() implies {
                            &&& (arcs[k as int].right != t || initial[t].value is Some ==> pruned(
                                arcs.take(k + 1),
                                left,
                                t,
                                #[trigger] initial[t],
                            ) == pruned(arcs.take(k as int), left, t, initial[t]))
                            &&& forall|v: T|
                                admits(arcs.take(k + 1), left, t, v) <==> admits(
                                    arcs.take(k as int),
                                    left,
                                    t,
                                    v,
                                ) && (arcs[k as int].right == t ==> arcs[k as int].check.holds(
                                    left,
                                    v,
                                ))
                        } by {
                            lemma_pruned_step(arcs, k as int, left, t, initial[t]);
                        }
                        lemma_pruned_step(arcs, k as int, left, right as int, target);
                        lemma_pruned_prefix(arcs, k + 1, left, right as int, target);
                    }
                    match variables[right].value() {
                        None => {
                            let removed = variables[right].prune(constraint.predicate(), &left);
                            if removed && variables[right].domain().len() == 0 {
                                proof {
                                    initial[right as int].domain.lemma_filter_len(
                                        |v: T| admits(arcs.take(k as int), left, right as int, v),
                                    );
                                    assert(!survives(arcs, left, right as int, target));
                                }
                                return false;
                            }
                        },
                        Some(held) => {
                            if !constraint.predicate().check(&left, &held) {
                                proof {
                                    assert(!admits(arcs, left, right as int, held));
                                    assert(!survives(arcs, left, right as int, target));
                                }
                                return false;
                            }
                        },
                    }
                    k += 1;
                }
                proof {
                    assert(arcs.take(k as int) =~= arcs);
                    assert(states(variables@) =~= self@.propagate(
                        initial,
                        last_set as int,
                    ).unwrap());
                }
                true
            },
        }
    }

    /// Forward checking from the committed position `last_set`: tests the
    /// global constraint, then prunes the open neighbours of `last_set` and
    /// checks the committed ones. Returns `false` on a contradiction, and
    /// then leaves the variables as they were.
    pub fn check_constrains(&mut self, last_set: usize) -> (ok: bool)
        requires
            last_set < old(self)@.variables.len(),
            old(self)@.variables[last_set as int].value is Some,
        ensures
            ok <==> old(self)@.propagate(old(self)@.variables, last_set as int) is Some,
            ok ==> final(self)@ == (Problem {
                variables: old(self)@.propagate(old(self)@.variables, last_set as int).unwrap(),
                arcs: old(self)@.arcs,
                global: old(self)@.global,
            }),
            !ok ==> final(self)@ == old(self)@,
            final(self)@.wf(),
    {
        proof {
            use_type_invariant(&*self);
            lemma_states_wf(self.variables@);
        }
        let mut working = copy_variables(&self.variables);
        let ok = self.propagate_on(&mut working, last_set);
        if ok {
            recall_all_wf(&working);
            proof {
                lemma_states_wf(working@);
            }
            self.variables = working;
        }
        ok
    }

    /// The depth-first search from `variables`.
    fn search<P: StatePredicate<T>>(&self, goal: &P, variables: &Vec<Variable<T>>) -> (found: Vec<
        Variable<T>,
    >)
        requires
            arcs_fit(self@.arcs, variables.len() as nat),
        ensures
            states(found@) == self@.search(*goal, states(variables@)),
        decreases total_candidates(states(variables@)),
    {
        let ghost start = states(variables@);
        let mut i: usize = 0;
        while i < variables.len() && variables[i].domain().len() == 0
            invariant
                i <= variables.len(),
                start == states(variables@),
                branch_position(start, 0) == branch_position(start, i as int),
            decreases variables.len() - i,
        {
            assert(start[i as int] == variables@[i as int]@);
            i += 1;
        }
        if i >= variables.len() {
            return Vec::new();
        }
        assert(start[i as int] == variables@[i as int]@);
        assert(branch_position(start, 0) == i);
        let mut k: usize = 0;
        while k < variables[i as usize].domain().len()
            invariant
                i < variables.len(),
                k <= variables[i as int]@.domain.len(),
                start == states(variables@),
                start[i as int] == variables@[i as int]@,
                arcs_fit(self@.arcs, variables.len() as nat),
                self@.search(*goal, start) == self@.search_candidates(
                    *goal,
                    start,
                    i as int,
                    k as int,
                ),
            decreases variables[i as int]@.domain.len() - k,
        {
            let mut branch = copy_variables(variables);
            assert(branch[i as int]@ == states(variables@)[i as int]);
            branch[i].assign_candidate(k);
            proof {
                assert(states(branch@) =~= Problem::<T, C, G>::commit_candidate(
                    start,
                    i as int,
                    k as int,
                ));
            }
            if self.propagate_on(&mut branch, i) {
                if goal.check(&branch) {
                    return branch;
                }
                proof {
                    self@.lemma_branch_shrinks(start, i as int, k as int);
                }
                let deeper = self.search(goal, &branch);
                if deeper.len() != 0 {
                    return deeper;
                }
            }
            k += 1;
        }
        Vec::new()
    }

    /// Searches depth-first for an assignment that `finished` accepts: the
    /// first open variable is committed to each of its candidates in turn,
    /// each commitment is followed by forward checking, and the first
    /// assignment that passes it and is accepted is returned. The result is
    /// empty when the search is exhausted.
    pub fn solve<P: StatePredicate<T>>(self, finished: P) -> (solution: Vec<Variable<T>>)
        ensures
            states(solution@) == self@.solution(finished),
            self@.wf(),
    {
        proof {
            use_type_invariant(&self);
            lemma_states_wf(self.variables@);
        }
        self.search(&finished, &self.variables)
    }
}

/// A collection is well formed exactly when its states are.
pub proof fn lemma_states_wf<T>(variables: Seq<Variable<T>>)
    ensures
        all_wf(variables) <==> forall|i: int|
            0 <= i < variables.len() ==> (#[trigger] states(variables)[i]).wf(),
{
    if all_wf(variables) {
        assert forall|i: int| 0 <= i < variables.len() implies (#[trigger] states(
            variables,
        )[i]).wf() by {
            assert(variables[i].wf());
        }
    }
    if forall|i: int| 0 <= i < variables.len() ==> (#[trigger] states(variables)[i]).wf() {
        assert forall|i: int| 0 <= i < variables.len() implies (#[trigger] variables[i]).wf() by {
            assert(states(variables)[i].wf());
        }
    }
}

/// An independent copy of a collection of variables.
pub fn copy_variables<T: Copy>(variables: &Vec<Variable<T>>) -> (copy: Vec<Variable<T>>)
    ensures
        states(copy@) == states(variables@),
{
    let mut copy: Vec<Variable<T>> = Vec::new();
    let mut i: usize = 0;
    while i < variables.len()
        invariant
            i <= variables.len(),
            copy.len() == i,
            forall|j: int| 0 <= j < i ==> (#[trigger] copy[j])@ == variables[j]@,
        decreases variables.len() - i,
    {
        copy.push(variables[i].clone());
        i += 1;
    }
    proof {
        assert(states(copy@) =~= states(variables@));
    }
    copy
}

} // verus!
