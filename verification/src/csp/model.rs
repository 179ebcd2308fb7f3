//! The mathematical model of a problem: what propagation does to a partial
//! assignment and which assignment the search returns.

use super::constraint::{BinaryPredicate, ConstraintView, StatePredicate};
use super::variable::VarState;
use vstd::prelude::*;

verus! {

/// The mathematical content of a constraint solver: the variables, the
/// constraints filed under the position that triggers them, and the global
/// constraint if there is one.
pub struct Problem<T, C, G> {
    pub variables: Seq<VarState<T>>,
    pub arcs: Map<usize, Seq<ConstraintView<C>>>,
    pub global: Option<G>,
}

/// The number of candidates that remain, over all variables.
pub open spec fn total_candidates<T>(variables: Seq<VarState<T>>) -> nat
    decreases variables.len(),
{
    if variables.len() == 0 {
        0
    } else {
        total_candidates(variables.drop_last()) + variables.last().domain.len()
    }
}

/// The least position at or after `from` whose variable has a candidate
/// left, or the number of variables if there is none.
pub open spec fn branch_position<T>(variables: Seq<VarState<T>>, from: int) -> int
    decreases variables.len() - from,
{
    if from < 0 || from >= variables.len() {
        variables.len() as int
    } else if variables[from].domain.len() > 0 {
        from
    } else {
        branch_position(variables, from + 1)
    }
}

/// Whether every constraint of `arcs` that points at `target` accepts
/// `right` beside the committed value `left`.
pub open spec fn admits<T, C: BinaryPredicate<T>>(
    arcs: Seq<ConstraintView<C>>,
    left: T,
    target: int,
    right: T,
) -> bool {
    forall|k: int|
        0 <= k < arcs.len() && arcs[k].right == target ==> (#[trigger] arcs[k]).check.holds(
            left,
            right,
        )
}

/// The variable at `target` after the constraints of `arcs` were propagated
/// from the committed value `left`: an open variable keeps the candidates
/// that every constraint pointing at it accepts, in their order; a committed
/// variable is left alone.
pub open spec fn pruned<T, C: BinaryPredicate<T>>(
    arcs: Seq<ConstraintView<C>>,
    left: T,
    target: int,
    variable: VarState<T>,
) -> VarState<T> {
    if variable.value is None {
        VarState {
            name: variable.name,
            value: variable.value,
            domain: variable.domain.filter(|v: T| admits(arcs, left, target, v)),
        }
    } else {
        variable
    }
}

/// Whether the variable at `target` stands the propagation of `arcs` from
/// the committed value `left`: a committed variable must be accepted by every
/// constraint pointing at it, and an open variable must not lose its last
/// candidate.
pub open spec fn survives<T, C: BinaryPredicate<T>>(
    arcs: Seq<ConstraintView<C>>,
    left: T,
    target: int,
    variable: VarState<T>,
) -> bool {
    match variable.value {
        Some(right) => admits(arcs, left, target, right),
        None => variable.domain.len() == 0 || pruned(arcs, left, target, variable).domain.len()
            > 0,
    }
}

/// Every key and every constraint names a position below `n`.
pub open spec fn arcs_in_range<C>(arcs: Map<usize, Seq<ConstraintView<C>>>, n: nat) -> bool {
    forall|key: usize| #[trigger]
        arcs.dom().contains(key) ==> {
            &&& key < n
            &&& forall|k: int|
                0 <= k < arcs[key].len() ==> {
                    &&& (#[trigger] arcs[key][k]).left < n
                    &&& arcs[key][k].right < n
                }
        }
}

/// Every constraint is filed under its own left position.
pub open spec fn arcs_filed<C>(arcs: Map<usize, Seq<ConstraintView<C>>>) -> bool {
    forall|key: usize| #[trigger]
        arcs.dom().contains(key) ==> forall|k: int|
            0 <= k < arcs[key].len() ==> (#[trigger] arcs[key][k]).left == key
}

/// The constraints suit a collection of `n` variables.
pub open spec fn arcs_fit<C>(arcs: Map<usize, Seq<ConstraintView<C>>>, n: nat) -> bool {
    arcs_in_range(arcs, n) && arcs_filed(arcs)
}

impl<T, C: BinaryPredicate<T>, G: StatePredicate<T>> Problem<T, C, G> {
    /// Every constraint names positions that exist and is filed under its
    /// own left position, and no variable lists a candidate twice.
    pub open spec fn wf(self) -> bool {
        &&& forall|i: int| 0 <= i < self.variables.len() ==> (#[trigger] self.variables[i]).wf()
        &&& arcs_fit(self.arcs, self.variables.len())
    }

    /// The constraints that are propagated when position `i` is committed.
    pub open spec fn arcs_from(self, i: int) -> Seq<ConstraintView<C>> {
        if 0 <= i <= usize::MAX && self.arcs.dom().contains(i as usize) {
            self.arcs[i as usize]
        } else {
            Seq::empty()
        }
    }

    /// Whether the global constraint, if there is one, accepts `variables`.
    pub open spec fn global_holds(self, variables: Seq<VarState<T>>) -> bool {
        match self.global {
            Some(g) => g.holds(variables),
            None => true,
        }
    }

    /// Forward checking from position `i`, which holds the value `left`:
    /// `None` on a contradiction, otherwise the variables after pruning.
    ///
    /// A contradiction is a global constraint that rejects `variables`, a
    /// committed neighbour that a constraint rejects, or an open neighbour
    /// whose last candidate is removed.
    pub open spec fn propagate_value(self, variables: Seq<VarState<T>>, i: int, left: T) -> Option<
        Seq<VarState<T>>,
    > {
        let arcs = self.arcs_from(i);
        if self.global_holds(variables) && forall|t: int|
            0 <= t < variables.len() ==> survives(arcs, left, t, #[trigger] variables[t]) {
            Some(Seq::new(variables.len(), |t: int| pruned(arcs, left, t, variables[t])))
        } else {
            None
        }
    }

    /// Forward checking from the committed position `i`.
    pub open spec fn propagate(self, variables: Seq<VarState<T>>, i: int) -> Option<
        Seq<VarState<T>>,
    >
        recommends
            0 <= i < variables.len(),
            variables[i].value is Some,
    {
        self.propagate_value(variables, i, variables[i].value.unwrap())
    }

    /// The variables after candidate `k` of position `i` was committed.
    pub open spec fn commit_candidate(variables: Seq<VarState<T>>, i: int, k: int) -> Seq<
        VarState<T>,
    >
        recommends
            0 <= i < variables.len(),
            0 <= k < variables[i].domain.len(),
    {
        variables.update(i, variables[i].commit(variables[i].domain[k]))
    }

    /// The result of the depth-first search from `variables`: the first
    /// assignment, in the order of positions and candidates, that passes
    /// propagation at every step and meets `goal`; empty if there is none.
    pub open spec fn search<P: StatePredicate<T>>(
        self,
        goal: P,
        variables: Seq<VarState<T>>,
    ) -> Seq<VarState<T>>
        decreases total_candidates(variables), 1nat, 0nat,
    {
        let i = branch_position(variables, 0);
        if 0 <= i < variables.len() {
            self.search_candidates(goal, variables, i, 0)
        } else {
            Seq::empty()
        }
    }

    /// The result of the search from `variables` when the candidates of
    /// position `i` are tried from the `k`-th on.
    pub open spec fn search_candidates<P: StatePredicate<T>>(
        self,
        goal: P,
        variables: Seq<VarState<T>>,
        i: int,
        k: int,
    ) -> Seq<VarState<T>>
        decreases total_candidates(variables), 0nat, variables[i].domain.len() - k,
    {
        if 0 <= i < variables.len() && 0 <= k < variables[i].domain.len() {
            let committed = Self::commit_candidate(variables, i, k);
            match self.propagate(committed, i) {
                None => self.search_candidates(goal, variables, i, k + 1),
                Some(narrowed) => {
                    if goal.holds(narrowed) {
                        narrowed
                    } else {
                        proof {
                            self.lemma_branch_shrinks(variables, i, k);
                        }
                        let deeper = self.search(goal, narrowed);
                        if deeper.len() > 0 {
                            deeper
                        } else {
                            self.search_candidates(goal, variables, i, k + 1)
                        }
                    }
                },
            }
        } else {
            Seq::empty()
        }
    }

    /// The assignment that solving the problem returns for `goal`.
    pub open spec fn solution<P: StatePredicate<T>>(self, goal: P) -> Seq<VarState<T>> {
        self.search(goal, self.variables)
    }

    /// Committing a candidate and propagating leaves fewer candidates.
    pub proof fn lemma_branch_shrinks(self, variables: Seq<VarState<T>>, i: int, k: int)
        requires
            0 <= i < variables.len(),
            0 <= k < variables[i].domain.len(),
            self.propagate(Self::commit_candidate(variables, i, k), i) is Some,
        ensures
            total_candidates(self.propagate(Self::commit_candidate(variables, i, k), i).unwrap())
                < total_candidates(variables),
    {
        let committed = Self::commit_candidate(variables, i, k);
        let narrowed = self.propagate(committed, i).unwrap();
        let arcs = self.arcs_from(i);
        let left = committed[i].value.unwrap();
        assert forall|t: int| 0 <= t < narrowed.len() implies (#[trigger] narrowed[t]).domain.len()
            <= committed[t].domain.len() by {
            committed[t].domain.lemma_filter_len(|v: T| admits(arcs, left, t, v));
        }
        lemma_total_monotone(narrowed, committed);
        lemma_total_update(variables, i, variables[i].commit(variables[i].domain[k]));
    }
}

/// Filtering twice is filtering once by both tests.
pub proof fn lemma_filter_twice<T>(
    s: Seq<T>,
    first: spec_fn(T) -> bool,
    second: spec_fn(T) -> bool,
    both: spec_fn(T) -> bool,
)
    requires
        forall|x: T| #[trigger] both(x) == (first(x) && second(x)),
    ensures
        s.filter(first).filter(second) == s.filter(both),
    decreases s.len(),
{
    reveal(Seq::filter);
    if s.len() > 0 {
        let front = s.drop_last();
        lemma_filter_twice(front, first, second, both);
        if first(s.last()) {
            assert(front.filter(first).push(s.last()).drop_last() =~= front.filter(first));
        }
    }
}

/// A test that accepts every member filters nothing out.
pub proof fn lemma_filter_all<T>(s: Seq<T>, keep: spec_fn(T) -> bool)
    requires
        forall|i: int| 0 <= i < s.len() ==> keep(#[trigger] s[i]),
    ensures
        s.filter(keep) == s,
    decreases s.len(),
{
    reveal(Seq::filter);
    if s.len() > 0 {
        lemma_filter_all(s.drop_last(), keep);
        assert(s.drop_last().push(s.last()) =~= s);
    }
}

/// Nothing survives a filter that is stricter than one that leaves nothing.
pub proof fn lemma_filter_stricter<T>(
    s: Seq<T>,
    strict: spec_fn(T) -> bool,
    loose: spec_fn(T) -> bool,
)
    requires
        forall|x: T| #[trigger] strict(x) ==> loose(x),
        s.filter(loose).len() == 0,
    ensures
        s.filter(strict).len() == 0,
    decreases s.len(),
{
    reveal(Seq::filter);
    if s.len() > 0 {
        lemma_filter_stricter(s.drop_last(), strict, loose);
    }
}

/// With no constraints, propagation changes nothing and nothing fails.
pub proof fn lemma_pruned_by_none<T, C: BinaryPredicate<T>>(
    arcs: Seq<ConstraintView<C>>,
    left: T,
    target: int,
    variable: VarState<T>,
)
    requires
        arcs.len() == 0,
    ensures
        pruned(arcs, left, target, variable) == variable,
        survives(arcs, left, target, variable),
{
    lemma_filter_all(variable.domain, |v: T| admits(arcs, left, target, v));
}

/// What one more constraint does to the variable at `target`.
pub proof fn lemma_pruned_step<T, C: BinaryPredicate<T>>(
    arcs: Seq<ConstraintView<C>>,
    k: int,
    left: T,
    target: int,
    variable: VarState<T>,
)
    requires
        0 <= k < arcs.len(),
    ensures
        forall|v: T|
            admits(arcs.take(k + 1), left, target, v) <==> admits(arcs.take(k), left, target, v)
                && (arcs[k].right == target ==> arcs[k].check.holds(left, v)),
        arcs[k].right != target || variable.value is Some ==> pruned(
            arcs.take(k + 1),
            left,
            target,
            variable,
        ) == pruned(arcs.take(k), left, target, variable),
        arcs[k].right == target && variable.value is None ==> pruned(
            arcs.take(k + 1),
            left,
            target,
            variable,
        ) == (VarState {
            name: variable.name,
            value: variable.value,
            domain: pruned(arcs.take(k), left, target, variable).domain.filter(
                |v: T| arcs[k].check.holds(left, v),
            ),
        }),
{
    let before = arcs.take(k);
    let after = arcs.take(k + 1);
    assert forall|v: T|
        admits(after, left, target, v) <==> admits(before, left, target, v) && (arcs[k].right
            == target ==> arcs[k].check.holds(left, v)) by {
        if admits(after, left, target, v) {
            assert forall|j: int| 0 <= j < before.len() && before[j].right == target implies (
            #[trigger] before[j]).check.holds(left, v) by {
                assert(after[j] == before[j]);
            }
            assert(after[k] == arcs[k]);
        }
        if admits(before, left, target, v) && (arcs[k].right == target ==> arcs[k].check.holds(
            left,
            v,
        )) {
            assert forall|j: int| 0 <= j < after.len() && after[j].right == target implies (
            #[trigger] after[j]).check.holds(left, v) by {
                if j < k {
                    assert(after[j] == before[j]);
                } else {
                    assert(after[j] == arcs[k]);
                }
            }
        }
    }
    let old_test = |v: T| admits(before, left, target, v);
    let new_test = |v: T| admits(after, left, target, v);
    if variable.value is None {
        if arcs[k].right == target {
            lemma_filter_twice(
                variable.domain,
                old_test,
                |v: T| arcs[k].check.holds(left, v),
                new_test,
            );
        } else {
            assert(old_test =~= new_test);
        }
    }
}

/// All the constraints prune at least what the first `k` of them prune.
pub proof fn lemma_pruned_prefix<T, C: BinaryPredicate<T>>(
    arcs: Seq<ConstraintView<C>>,
    k: int,
    left: T,
    target: int,
    variable: VarState<T>,
)
    requires
        0 <= k <= arcs.len(),
    ensures
        forall|v: T| admits(arcs, left, target, v) ==> admits(arcs.take(k), left, target, v),
        pruned(arcs.take(k), left, target, variable).domain.len() == 0 ==> pruned(
            arcs,
            left,
            target,
            variable,
        ).domain.len() == 0,
{
    let part = arcs.take(k);
    assert forall|v: T| admits(arcs, left, target, v) implies admits(part, left, target, v) by {
        assert forall|j: int| 0 <= j < part.len() && part[j].right == target implies (
        #[trigger] part[j]).check.holds(left, v) by {
            assert(part[j] == arcs[j]);
        }
    }
    if variable.value is None && pruned(part, left, target, variable).domain.len() == 0 {
        lemma_filter_stricter(
            variable.domain,
            |v: T| admits(arcs, left, target, v),
            |v: T| admits(part, left, target, v),
        );
    }
}

/// Fewer candidates at every position means fewer candidates in all.
pub proof fn lemma_total_monotone<T>(a: Seq<VarState<T>>, b: Seq<VarState<T>>)
    requires
        a.len() == b.len(),
        forall|t: int| 0 <= t < a.len() ==> (#[trigger] a[t]).domain.len() <= b[t].domain.len(),
    ensures
        total_candidates(a) <= total_candidates(b),
    decreases a.len(),
{
    if a.len() > 0 {
        assert forall|t: int| 0 <= t < a.drop_last().len() implies (
        #[trigger] a.drop_last()[t]).domain.len() <= b.drop_last()[t].domain.len() by {
            assert(a.drop_last()[t] == a[t]);
            assert(b.drop_last()[t] == b[t]);
        }
        lemma_total_monotone(a.drop_last(), b.drop_last());
    }
}

/// Replacing one variable changes the total by the change of its own count.
pub proof fn lemma_total_update<T>(variables: Seq<VarState<T>>, i: int, replacement: VarState<T>)
    requires
        0 <= i < variables.len(),
    ensures
        total_candidates(variables.update(i, replacement)) + variables[i].domain.len()
            == total_candidates(variables) + replacement.domain.len(),
    decreases variables.len(),
{
    let updated = variables.update(i, replacement);
    if i == variables.len() - 1 {
        assert(updated.drop_last() =~= variables.drop_last());
    } else {
        assert(updated.drop_last() =~= variables.drop_last().update(i, replacement));
        lemma_total_update(variables.drop_last(), i, replacement);
    }
}

} // verus!
