//! What holds of assignment, propagation and search on every problem.

use super::constraint::{BinaryPredicate, StatePredicate};
use super::model::{admits, branch_position, pruned, survives, total_candidates, Problem};
use super::variable::VarState;
use vstd::prelude::*;

verus! {

/// Assigning to a committed variable changes nothing: its value stays and
/// its list of candidates stays empty, whichever value is given, its own
/// included.
pub proof fn lemma_assign_committed_is_noop<T>(variable: VarState<T>, value: T)
    requires
        variable.is_committed(),
    ensures
        variable.assign(value) == variable,
        variable.assign(variable.value.unwrap()) == variable,
{
}

/// Assigning a candidate commits the variable to it, and a second
/// assignment of the same value changes nothing more.
pub proof fn lemma_assign_twice<T>(variable: VarState<T>, value: T)
    ensures
        variable.assign(value).assign(value) == variable.assign(value),
        variable.domain.contains(value) ==> variable.assign(value).is_committed()
            && variable.assign(value).value == Some(value),
{
    if variable.domain.contains(value) {
        assert(!variable.commit(value).domain.contains(value));
    }
}

/// The members of a filtered sequence are the members that pass the test.
pub proof fn lemma_filter_members<T>(s: Seq<T>, keep: spec_fn(T) -> bool)
    ensures
        forall|v: T| #[trigger] s.filter(keep).contains(v) <==> s.contains(v) && keep(v),
{
    assert forall|v: T| #[trigger] s.filter(keep).contains(v) <==> s.contains(v) && keep(v) by {
        if s.filter(keep).contains(v) {
            s.lemma_filter_contains_rev(keep, v);
            let j = choose|j: int| 0 <= j < s.filter(keep).len() && s.filter(keep)[j] == v;
            s.lemma_filter_pred(keep, j);
        }
        if s.contains(v) && keep(v) {
            let i = choose|i: int| 0 <= i < s.len() && s[i] == v;
            s.lemma_filter_contains(keep, i);
        }
    }
}

/// Propagation is sound and loses nothing. After position `i` was committed
/// and propagation succeeded,
/// - an open variable keeps exactly those of its candidates that every
///   constraint from `i` to it accepts beside the committed value, so each
///   candidate that is left satisfies each such constraint and no candidate
///   that satisfies them all was removed;
/// - a variable that no constraint from `i` points at keeps all its candidates;
/// - names and values are untouched, and committed variables are unchanged.
pub proof fn lemma_propagation_sound<T, C: BinaryPredicate<T>, G: StatePredicate<T>>(
    problem: Problem<T, C, G>,
    variables: Seq<VarState<T>>,
    i: int,
)
    requires
        0 <= i < variables.len(),
        variables[i].value is Some,
        problem.propagate(variables, i) is Some,
    ensures
        ({
            let after = problem.propagate(variables, i).unwrap();
            let left = variables[i].value.unwrap();
            let arcs = problem.arcs_from(i);
            &&& after.len() == variables.len()
            &&& forall|t: int|
                0 <= t < variables.len() ==> {
                    &&& (#[trigger] after[t]).name == variables[t].name
                    &&& after[t].value == variables[t].value
                    &&& variables[t].value is Some ==> after[t] == variables[t]
                }
            &&& forall|t: int, v: T|
                0 <= t < variables.len() && variables[t].value is None ==> (
                #[trigger] after[t].domain.contains(v) <==> variables[t].domain.contains(v)
                    && admits(arcs, left, t, v))
            &&& forall|t: int, k: int, v: T|
                0 <= t < variables.len() && variables[t].value is None && 0 <= k < arcs.len()
                    && arcs[k].right == t && #[trigger] after[t].domain.contains(v) ==> (
                #[trigger] arcs[k]).check.holds(left, v)
            &&& forall|t: int|
                0 <= t < variables.len() && (forall|k: int|
                    0 <= k < arcs.len() ==> (#[trigger] arcs[k]).right != t) ==> (
                #[trigger] after[t]) == variables[t]
        }),
{
    let after = problem.propagate(variables, i).unwrap();
    let left = variables[i].value.unwrap();
    let arcs = problem.arcs_from(i);
    assert forall|t: int, v: T|
        0 <= t < variables.len() && variables[t].value is None implies (
    #[trigger] after[t].domain.contains(v) <==> variables[t].domain.contains(v) && admits(
        arcs,
        left,
        t,
        v,
    )) by {
        lemma_filter_members(variables[t].domain, |w: T| admits(arcs, left, t, w));
    }
    assert forall|t: int|
        0 <= t < variables.len() && (forall|k: int|
            0 <= k < arcs.len() ==> (#[trigger] arcs[k]).right != t) implies (#[trigger] after[t])
        == variables[t] by {
        super::model::lemma_filter_all(variables[t].domain, |w: T| admits(arcs, left, t, w));
        assert(pruned(arcs, left, t, variables[t]).domain == variables[t].domain);
    }
}

/// The position that the search branches on is the least one whose variable
/// has a candidate left; it is the number of variables when none has.
pub proof fn lemma_branch_position_is_least<T>(variables: Seq<VarState<T>>, from: int)
    requires
        0 <= from <= variables.len(),
    ensures
        from <= branch_position(variables, from) <= variables.len(),
        branch_position(variables, from) < variables.len() ==> variables[branch_position(
            variables,
            from,
        )].domain.len() > 0,
        forall|j: int|
            from <= j < branch_position(variables, from) ==> (#[trigger] variables[j]).domain.len()
                == 0,
    decreases variables.len() - from,
{
    if from < variables.len() && variables[from].domain.len() == 0 {
        lemma_branch_position_is_least(variables, from + 1);
    }
}

/// A global constraint that accepts no state leaves every search empty,
/// whatever the goal: each candidate fails before anything is pruned.
pub proof fn lemma_unsatisfiable_global<
    T,
    C: BinaryPredicate<T>,
    G: StatePredicate<T>,
    P: StatePredicate<T>,
>(
    problem: Problem<T, C, G>,
    goal: P,
    variables: Seq<VarState<T>>,
)
    requires
        problem.global is Some,
        forall|state: Seq<VarState<T>>| !(#[trigger] problem.global.unwrap().holds(state)),
    ensures
        problem.search(goal, variables).len() == 0,
        problem.solution(goal).len() == 0,
{
    let i = branch_position(variables, 0);
    if 0 <= i < variables.len() {
        lemma_unsatisfiable_global_from(problem, goal, variables, i, 0);
    }
    let j = branch_position(problem.variables, 0);
    if 0 <= j < problem.variables.len() {
        lemma_unsatisfiable_global_from(problem, goal, problem.variables, j, 0);
    }
}

/// Under a global constraint that accepts no state, no candidate of any
/// position leads to a result.
pub proof fn lemma_unsatisfiable_global_from<
    T,
    C: BinaryPredicate<T>,
    G: StatePredicate<T>,
    P: StatePredicate<T>,
>(
    problem: Problem<T, C, G>,
    goal: P,
    variables: Seq<VarState<T>>,
    i: int,
    k: int,
)
    requires
        problem.global is Some,
        forall|state: Seq<VarState<T>>| !(#[trigger] problem.global.unwrap().holds(state)),
        0 <= k,
    ensures
        problem.search_candidates(goal, variables, i, k).len() == 0,
    decreases variables[i].domain.len() - k,
{
    if 0 <= i < variables.len() && k < variables[i].domain.len() {
        let committed = Problem::<T, C, G>::commit_candidate(variables, i, k);
        assert(!problem.global_holds(committed));
        assert(problem.propagate(committed, i) is None);
        lemma_unsatisfiable_global_from(problem, goal, variables, i, k + 1);
    }
}

/// The search is a function of the problem: two problems with the same
/// constraints from every position and the same global constraint give the
/// same result from the same variables.
pub proof fn lemma_search_deterministic<
    T,
    C: BinaryPredicate<T>,
    G: StatePredicate<T>,
    P: StatePredicate<T>,
>(
    first: Problem<T, C, G>,
    second: Problem<T, C, G>,
    goal: P,
    variables: Seq<VarState<T>>,
)
    requires
        first.global == second.global,
        forall|i: int| first.arcs_from(i) == second.arcs_from(i),
    ensures
        first.search(goal, variables) == second.search(goal, variables),
    decreases total_candidates(variables), 1nat, 0nat,
{
    let i = branch_position(variables, 0);
    if 0 <= i < variables.len() {
        lemma_search_candidates_deterministic(first, second, goal, variables, i, 0);
    }
}

/// The same, for the search through the candidates of one position.
pub proof fn lemma_search_candidates_deterministic<
    T,
    C: BinaryPredicate<T>,
    G: StatePredicate<T>,
    P: StatePredicate<T>,
>(
    first: Problem<T, C, G>,
    second: Problem<T, C, G>,
    goal: P,
    variables: Seq<VarState<T>>,
    i: int,
    k: int,
)
    requires
        first.global == second.global,
        forall|i: int| first.arcs_from(i) == second.arcs_from(i),
    ensures
        first.search_candidates(goal, variables, i, k) == second.search_candidates(
            goal,
            variables,
            i,
            k,
        ),
    decreases total_candidates(variables), 0nat, variables[i].domain.len() - k,
{
    if 0 <= i < variables.len() && 0 <= k < variables[i].domain.len() {
        let committed = Problem::<T, C, G>::commit_candidate(variables, i, k);
        assert(first.arcs_from(i) == second.arcs_from(i));
        assert(first.propagate(committed, i) == second.propagate(committed, i));
        lemma_search_candidates_deterministic(first, second, goal, variables, i, k + 1);
        match first.propagate(committed, i) {
            None => {},
            Some(narrowed) => {
                if !goal.holds(narrowed) {
                    first.lemma_branch_shrinks(variables, i, k);
                    lemma_search_deterministic(first, second, goal, narrowed);
                }
            },
        }
    }
}

/// Solving is deterministic: problems with the same variables, the same
/// constraints from every position and the same global constraint have the
/// same solution.
pub proof fn lemma_solution_deterministic<
    T,
    C: BinaryPredicate<T>,
    G: StatePredicate<T>,
    P: StatePredicate<T>,
>(
    first: Problem<T, C, G>,
    second: Problem<T, C, G>,
    goal: P,
)
    requires
        first.variables == second.variables,
        first.global == second.global,
        forall|i: int| first.arcs_from(i) == second.arcs_from(i),
    ensures
        first.solution(goal) == second.solution(goal),
{
    lemma_search_deterministic(first, second, goal, first.variables);
}

/// Every variable is open, or committed with no candidates left.
pub open spec fn settled<T>(variables: Seq<VarState<T>>) -> bool {
    forall|t: int|
        0 <= t < variables.len() ==> ((#[trigger] variables[t]).value is Some
            ==> variables[t].domain.len() == 0)
}

/// What a variable of the result may be, given what it was at the start: a
/// committed variable is untouched; an open one keeps its name and either is
/// committed to one of its candidates or still holds some of them, at least
/// one if it had any.
pub open spec fn continues<T>(initial: VarState<T>, result: VarState<T>) -> bool {
    &&& result.name == initial.name
    &&& result.value is Some ==> result.domain.len() == 0
    &&& forall|v: T| result.domain.contains(v) ==> initial.domain.contains(v)
    &&& match initial.value {
        Some(_) => result == initial,
        None => match result.value {
            Some(v) => initial.domain.contains(v),
            None => initial.domain.len() == 0 || result.domain.len() > 0,
        },
    }
}

/// Whether `check` accepts what stands at a target beside `left`: the value
/// of a committed target, every candidate of an open one.
pub open spec fn accepts<T, C: BinaryPredicate<T>>(check: C, left: T, target: VarState<T>) -> bool {
    match target.value {
        Some(right) => check.holds(left, right),
        None => forall|v: T| target.domain.contains(v) ==> check.holds(left, v),
    }
}

impl<T, C: BinaryPredicate<T>, G: StatePredicate<T>> Problem<T, C, G> {
    /// `result` continues `initial` position by position.
    pub open spec fn extends(initial: Seq<VarState<T>>, result: Seq<VarState<T>>) -> bool {
        &&& result.len() == initial.len()
        &&& forall|t: int| 0 <= t < initial.len() ==> continues(initial[t], #[trigger] result[t])
    }

    /// Every constraint that leaves a position decided since `initial`
    /// accepts what stands at its target in `result`.
    pub open spec fn respects(self, initial: Seq<VarState<T>>, result: Seq<VarState<T>>) -> bool {
        forall|l: int, k: int|
            0 <= l < initial.len() && initial[l].value is None && result[l].value is Some && 0 <= k
                < self.arcs_from(l).len() && (#[trigger] self.arcs_from(l)[k]).right
                < initial.len() ==> accepts(
                self.arcs_from(l)[k].check,
                result[l].value.unwrap(),
                result[self.arcs_from(l)[k].right as int],
            )
    }

    /// `result` is a satisfying assignment for `goal`: the goal accepts it,
    /// it continues the problem's variables, and it respects every
    /// constraint that leaves a position decided by the search.
    pub open spec fn is_solution<P: StatePredicate<T>>(
        self,
        goal: P,
        result: Seq<VarState<T>>,
    ) -> bool {
        &&& goal.holds(result)
        &&& Self::extends(self.variables, result)
        &&& self.respects(self.variables, result)
    }

    /// Committing a candidate of the branching position and propagating
    /// keeps the assignment a continuation that respects the constraints.
    pub proof fn lemma_step_keeps(
        self,
        initial: Seq<VarState<T>>,
        current: Seq<VarState<T>>,
        i: int,
        k: int,
    )
        requires
            Self::extends(initial, current),
            self.respects(initial, current),
            0 <= i < current.len(),
            0 <= k < current[i].domain.len(),
            self.propagate(Self::commit_candidate(current, i, k), i) is Some,
        ensures
            Self::extends(
                initial,
                self.propagate(Self::commit_candidate(current, i, k), i).unwrap(),
            ),
            self.respects(
                initial,
                self.propagate(Self::commit_candidate(current, i, k), i).unwrap(),
            ),
    {
        let committed = Self::commit_candidate(current, i, k);
        let narrowed = self.propagate(committed, i).unwrap();
        let candidate = current[i].domain[k];
        let arcs = self.arcs_from(i);
        assert(current[i].domain.contains(candidate));
        assert(continues(initial[i], current[i]));
        assert(current[i].value is None);
        assert(initial[i].value is None);
        assert forall|t: int| 0 <= t < initial.len() implies continues(
            initial[t],
            #[trigger] narrowed[t],
        ) by {
            assert(continues(initial[t], current[t]));
            assert(survives(arcs, candidate, t, committed[t]));
            if t != i && current[t].value is None {
                lemma_filter_members(current[t].domain, |w: T| admits(arcs, candidate, t, w));
            }
        }
        assert forall|l: int, j: int|
            0 <= l < initial.len() && initial[l].value is None && narrowed[l].value is Some && 0
                <= j < self.arcs_from(l).len() && (#[trigger] self.arcs_from(l)[j]).right
                < initial.len() implies accepts(
            self.arcs_from(l)[j].check,
            narrowed[l].value.unwrap(),
            narrowed[self.arcs_from(l)[j].right as int],
        ) by {
            let arc = self.arcs_from(l)[j];
            let r = arc.right as int;
            assert(continues(initial[r], current[r]));
            assert(survives(arcs, candidate, r, committed[r]));
            if l == i {
                if committed[r].value is None {
                    lemma_filter_members(current[r].domain, |w: T| admits(arcs, candidate, r, w));
                }
            } else {
                assert(current[l].value is Some);
                assert(accepts(arc.check, current[l].value.unwrap(), current[r]));
                if r != i && current[r].value is None {
                    lemma_filter_members(current[r].domain, |w: T| admits(arcs, candidate, r, w));
                }
            }
        }
    }

    /// Whatever the search returns from a continuation of `initial` is
    /// accepted by the goal, continues `initial` and respects the constraints.
    pub proof fn lemma_search_sound<P: StatePredicate<T>>(
        self,
        goal: P,
        initial: Seq<VarState<T>>,
        current: Seq<VarState<T>>,
    )
        requires
            Self::extends(initial, current),
            self.respects(initial, current),
        ensures
            self.search(goal, current).len() > 0 ==> {
                &&& goal.holds(self.search(goal, current))
                &&& Self::extends(initial, self.search(goal, current))
                &&& self.respects(initial, self.search(goal, current))
            },
        decreases total_candidates(current), 1nat, 0nat,
    {
        let i = branch_position(current, 0);
        if 0 <= i < current.len() {
            self.lemma_search_candidates_sound(goal, initial, current, i, 0);
        }
    }

    /// The same, for the search through the candidates of one position.
    pub proof fn lemma_search_candidates_sound<P: StatePredicate<T>>(
        self,
        goal: P,
        initial: Seq<VarState<T>>,
        current: Seq<VarState<T>>,
        i: int,
        k: int,
    )
        requires
            Self::extends(initial, current),
            self.respects(initial, current),
        ensures
            self.search_candidates(goal, current, i, k).len() > 0 ==> {
                &&& goal.holds(self.search_candidates(goal, current, i, k))
                &&& Self::extends(initial, self.search_candidates(goal, current, i, k))
                &&& self.respects(initial, self.search_candidates(goal, current, i, k))
            },
        decreases total_candidates(current), 0nat, current[i].domain.len() - k,
    {
        if 0 <= i < current.len() && 0 <= k < current[i].domain.len() {
            let committed = Self::commit_candidate(current, i, k);
            self.lemma_search_candidates_sound(goal, initial, current, i, k + 1);
            match self.propagate(committed, i) {
                None => {},
                Some(narrowed) => {
                    self.lemma_step_keeps(initial, current, i, k);
                    if !goal.holds(narrowed) {
                        self.lemma_branch_shrinks(current, i, k);
                        self.lemma_search_sound(goal, initial, narrowed);
                    }
                },
            }
        }
    }

    /// A solution that is not empty is a satisfying assignment.
    pub proof fn lemma_solution_is_sound<P: StatePredicate<T>>(self, goal: P)
        requires
            settled(self.variables),
        ensures
            self.solution(goal).len() > 0 ==> self.is_solution(goal, self.solution(goal)),
    {
        assert forall|t: int| 0 <= t < self.variables.len() implies continues(
            self.variables[t],
            #[trigger] self.variables[t],
        ) by {}
        self.lemma_search_sound(goal, self.variables, self.variables);
    }

    /// Where no satisfying assignment exists, the solution is empty.
    pub proof fn lemma_no_solution_is_empty<P: StatePredicate<T>>(self, goal: P)
        requires
            settled(self.variables),
            forall|result: Seq<VarState<T>>| !self.is_solution(goal, result),
        ensures
            self.solution(goal).len() == 0,
    {
        self.lemma_solution_is_sound(goal);
    }
}

/// Whether a state agrees with a complete assignment of values: a committed
/// variable holds its value and has no candidates, an open one has its
/// value among its candidates.
pub open spec fn agrees<T>(state: Seq<VarState<T>>, values: Seq<T>) -> bool {
    &&& state.len() == values.len()
    &&& forall|t: int|
        0 <= t < state.len() ==> match (#[trigger] state[t]).value {
            Some(v) => v == values[t] && state[t].domain.len() == 0,
            None => state[t].domain.contains(values[t]),
        }
}

/// Whether some variable of the state is open.
pub open spec fn has_open<T>(state: Seq<VarState<T>>) -> bool {
    exists|t: int| 0 <= t < state.len() && (#[trigger] state[t]).value is None
}

impl<T, C: BinaryPredicate<T>, G: StatePredicate<T>> Problem<T, C, G> {
    /// Whether the values satisfy every constraint of the problem.
    pub open spec fn satisfied_by(self, values: Seq<T>) -> bool {
        forall|l: int, k: int|
            0 <= l < values.len() && 0 <= k < self.arcs_from(l).len() && (
            #[trigger] self.arcs_from(l)[k]).right < values.len() ==> self.arcs_from(
                l,
            )[k].check.holds(values[l], values[self.arcs_from(l)[k].right as int])
    }

    /// Whether the global constraint accepts every state that agrees with
    /// the values, and the goal every such state without an open variable.
    pub open spec fn welcomes<P: StatePredicate<T>>(self, goal: P, values: Seq<T>) -> bool {
        &&& forall|state: Seq<VarState<T>>| #[trigger]
            agrees(state, values) ==> self.global_holds(state)
        &&& forall|state: Seq<VarState<T>>| #[trigger]
            agrees(state, values) && !has_open(state) ==> goal.holds(state)
    }

    /// Committing a variable to its value of a satisfying assignment passes
    /// propagation, and the state that is left agrees with the assignment.
    pub proof fn lemma_step_agrees(self, values: Seq<T>, current: Seq<VarState<T>>, i: int, k: int)
        requires
            agrees(current, values),
            self.satisfied_by(values),
            forall|state: Seq<VarState<T>>| #[trigger]
                agrees(state, values) ==> self.global_holds(state),
            0 <= i < current.len(),
            current[i].value is None,
            0 <= k < current[i].domain.len(),
            current[i].domain[k] == values[i],
        ensures
            self.propagate(Self::commit_candidate(current, i, k), i) is Some,
            agrees(self.propagate(Self::commit_candidate(current, i, k), i).unwrap(), values),
    {
        let committed = Self::commit_candidate(current, i, k);
        let arcs = self.arcs_from(i);
        let left = values[i];
        assert forall|t: int| 0 <= t < committed.len() implies match (
        #[trigger] committed[t]).value {
            Some(v) => v == values[t] && committed[t].domain.len() == 0,
            None => committed[t].domain.contains(values[t]),
        } by {
            if t != i {
                assert(committed[t] == current[t]);
            }
        }
        assert(agrees(committed, values));
        assert forall|t: int| 0 <= t < committed.len() implies admits(arcs, left, t, values[t]) by {
            assert forall|j: int| 0 <= j < arcs.len() && arcs[j].right == t implies (
            #[trigger] arcs[j]).check.holds(left, values[t]) by {
                assert(self.arcs_from(i)[j].right < values.len());
            }
        }
        assert forall|t: int| 0 <= t < committed.len() implies survives(
            arcs,
            left,
            t,
            #[trigger] committed[t],
        ) && match pruned(arcs, left, t, committed[t]).value {
            Some(v) => v == values[t] && pruned(arcs, left, t, committed[t]).domain.len() == 0,
            None => pruned(arcs, left, t, committed[t]).domain.contains(values[t]),
        } by {
            assert(admits(arcs, left, t, values[t]));
            assert(match committed[t].value {
                Some(v) => v == values[t] && committed[t].domain.len() == 0,
                None => committed[t].domain.contains(values[t]),
            });
            if committed[t].value is None {
                lemma_filter_members(committed[t].domain, |w: T| admits(arcs, left, t, w));
                assert(pruned(arcs, left, t, committed[t]).domain.contains(values[t]));
                assert(survives(arcs, left, t, committed[t]));
            } else {
                assert(survives(arcs, left, t, committed[t]));
            }
        }
        let narrowed = self.propagate(committed, i).unwrap();
        assert forall|t: int| 0 <= t < narrowed.len() implies match (#[trigger] narrowed[t]).value {
            Some(v) => v == values[t] && narrowed[t].domain.len() == 0,
            None => narrowed[t].domain.contains(values[t]),
        } by {
            assert(survives(arcs, left, t, committed[t]));
        }
    }

    /// The search is complete: from a state with an open variable that
    /// agrees with an assignment which satisfies every constraint, and which
    /// the global constraint and the goal welcome, the search returns an
    /// assignment.
    pub proof fn lemma_search_complete<P: StatePredicate<T>>(
        self,
        goal: P,
        values: Seq<T>,
        current: Seq<VarState<T>>,
    )
        requires
            agrees(current, values),
            has_open(current),
            self.satisfied_by(values),
            self.welcomes(goal, values),
        ensures
            self.search(goal, current).len() > 0,
        decreases total_candidates(current), 1nat, 0nat,
    {
        lemma_branch_position_is_least(current, 0);
        let i = branch_position(current, 0);
        let open = choose|t: int| 0 <= t < current.len() && (#[trigger] current[t]).value is None;
        assert(current[open].domain.contains(values[open]));
        assert(i <= open);
        assert(current[i].value is None);
        let k = choose|k: int|
            0 <= k < current[i].domain.len() && current[i].domain[k] == values[i];
        self.lemma_candidates_complete(goal, values, current, i, 0, k);
    }

    /// The same, for the search through the candidates of the branching
    /// position from one at or before the candidate of the assignment.
    pub proof fn lemma_candidates_complete<P: StatePredicate<T>>(
        self,
        goal: P,
        values: Seq<T>,
        current: Seq<VarState<T>>,
        i: int,
        k: int,
        own: int,
    )
        requires
            agrees(current, values),
            self.satisfied_by(values),
            self.welcomes(goal, values),
            0 <= i < current.len(),
            current[i].value is None,
            0 <= k <= own < current[i].domain.len(),
            current[i].domain[own] == values[i],
        ensures
            self.search_candidates(goal, current, i, k).len() > 0,
        decreases total_candidates(current), 0nat, own - k,
    {
        let committed = Self::commit_candidate(current, i, k);
        if k == own {
            self.lemma_step_agrees(values, current, i, k);
        } else {
            self.lemma_candidates_complete(goal, values, current, i, k + 1, own);
        }
        match self.propagate(committed, i) {
            None => {},
            Some(narrowed) => {
                if !goal.holds(narrowed) {
                    self.lemma_branch_shrinks(current, i, k);
                    if k == own {
                        self.lemma_search_complete(goal, values, narrowed);
                    }
                }
            },
        }
    }

    /// Where an assignment exists that satisfies every constraint and that
    /// the global constraint and the goal welcome, the solution is not
    /// empty, provided that a variable is open.
    pub proof fn lemma_solution_exists<P: StatePredicate<T>>(self, goal: P, values: Seq<T>)
        requires
            agrees(self.variables, values),
            has_open(self.variables),
            self.satisfied_by(values),
            self.welcomes(goal, values),
        ensures
            self.solution(goal).len() > 0,
    {
        self.lemma_search_complete(goal, values, self.variables);
    }
}

} // verus!
