use std::collections::HashMap;

use csp_solver::csp::solver::copy_variables;
use csp_solver::csp::{
    BinaryConstraint, BinaryPredicate, ConstraintSolver, CspError, GlobalConstraint,
    StatePredicate, Variable,
};

struct AllAssigned;

impl StatePredicate<i32> for AllAssigned {
    fn check(&self, variables: &Vec<Variable<i32>>) -> bool {
        variables.iter().all(|v| v.is_assigned())
    }
}

struct Never;

impl StatePredicate<i32> for Never {
    fn check(&self, _: &Vec<Variable<i32>>) -> bool {
        false
    }
}

struct Always;

impl StatePredicate<i32> for Always {
    fn check(&self, _: &Vec<Variable<i32>>) -> bool {
        true
    }
}

fn open(name: &str, domain: Vec<i32>) -> Variable<i32> {
    Variable::new(name.to_string(), domain, None)
}

fn given(name: &str, value: i32) -> Variable<i32> {
    Variable::new(name.to_string(), vec![], Some(value))
}

/// Constraints with the predicate `check` between the given pairs, filed
/// under their left position.
fn arcs<C: Copy>(pairs: &[(usize, usize)], check: C) -> HashMap<usize, Vec<BinaryConstraint<C>>> {
    let mut map: HashMap<usize, Vec<BinaryConstraint<C>>> = HashMap::new();
    for (left, right) in pairs {
        map.entry(*left).or_default().push(BinaryConstraint::new(*left, *right, check));
    }
    map
}

#[derive(Clone, Copy)]
struct Differ;

impl BinaryPredicate<i32> for Differ {
    fn check(&self, left: &i32, right: &i32) -> bool {
        left != right
    }
}

#[derive(Clone, Copy)]
struct Before;

impl BinaryPredicate<i32> for Before {
    fn check(&self, left: &i32, right: &i32) -> bool {
        left < right
    }
}

fn values(solution: &Vec<Variable<i32>>) -> Vec<Option<i32>> {
    solution.iter().map(|v| v.value()).collect()
}

#[test]
fn variable_new_keeps_each_candidate_once() {
    let v = Variable::new("x".to_string(), vec![3, 1, 3, 2, 1], None);
    assert_eq!(v.name(), "x");
    assert_eq!(v.value(), None);
    assert_eq!(v.domain(), &vec![3, 1, 2]);
    assert!(!v.is_assigned());
    let g = given("g", 5);
    assert!(g.is_assigned());
    assert_eq!(g.value(), Some(5));
    assert_eq!(g.name(), "g");
    assert!(g.domain().is_empty());
}

#[test]
fn variable_new_with_a_value_is_committed() {
    let v = Variable::new("x".to_string(), vec![1, 2], Some(3));
    assert_eq!(v.value(), Some(3));
    assert!(v.domain().is_empty());
    assert!(v.is_assigned());
}

#[test]
fn errors_say_what_went_wrong() {
    assert_eq!(
        CspError::InvalidAssignment.message(),
        "the value is not a candidate of the variable"
    );
    assert_eq!(
        CspError::IndexOutOfRange.message(),
        "a constraint names a variable that does not exist"
    );
    assert_eq!(
        CspError::MisfiledConstraint.message(),
        "a constraint is not filed under its left position"
    );
}

#[test]
fn assign_commits_and_clears_the_domain() {
    let mut v = open("x", vec![1, 2, 3]);
    assert_eq!(v.assign(&2), Ok(()));
    assert_eq!(v.value(), Some(2));
    assert!(v.domain().is_empty());
    assert!(v.is_assigned());
}

#[test]
fn assign_rejects_a_value_outside_the_domain() {
    let mut v = open("x", vec![1, 2, 3]);
    assert_eq!(v.assign(&7), Err(CspError::InvalidAssignment));
    assert_eq!(v.value(), None);
    assert_eq!(v.domain(), &vec![1, 2, 3]);
}

#[test]
fn assigning_a_committed_variable_again_changes_nothing() {
    let mut g = given("g", 5);
    assert_eq!(g.assign(&5), Err(CspError::InvalidAssignment));
    assert_eq!(g.value(), Some(5));
    assert!(g.domain().is_empty());
    let mut v = open("x", vec![1, 2]);
    assert_eq!(v.assign(&1), Ok(()));
    assert_eq!(v.assign(&1), Err(CspError::InvalidAssignment));
    assert_eq!(v.assign(&2), Err(CspError::InvalidAssignment));
    assert_eq!(v.value(), Some(1));
    assert!(v.domain().is_empty());
}

#[test]
fn prune_keeps_the_accepted_candidates_in_order() {
    let mut v = open("x", vec![5, 1, 4, 2, 3]);
    assert!(v.prune(&Before, &2));
    assert_eq!(v.domain(), &vec![5, 4, 3]);
    assert!(!v.prune(&Before, &2));
    assert_eq!(v.domain(), &vec![5, 4, 3]);
    assert_eq!(v.value(), None);
}

#[test]
fn clone_is_an_independent_copy() {
    let v = open("x", vec![1, 2, 3]);
    let mut copy = v.clone();
    copy.assign(&3).unwrap();
    assert_eq!(v.value(), None);
    assert_eq!(v.domain(), &vec![1, 2, 3]);
    assert_eq!(copy.value(), Some(3));
    let list = vec![v, copy];
    let mut copies = copy_variables(&list);
    copies[0].assign(&1).unwrap();
    assert_eq!(list[0].value(), None);
    assert_eq!(copies[1].value(), Some(3));
}

#[test]
fn constraint_keeps_its_positions() {
    let c = BinaryConstraint::new(2, 7, Differ);
    assert_eq!(c.left(), 2);
    assert_eq!(c.right(), 7);
    assert!(c.predicate().check(&1, &2));
    assert!(!c.predicate().check(&1, &1));
    let g = GlobalConstraint::new(Never);
    assert!(!g.predicate().check(&vec![]));
}

#[test]
fn solver_rejects_an_index_out_of_range() {
    let variables = || vec![open("a", vec![1]), open("b", vec![1])];
    let none: Option<GlobalConstraint<Always>> = None;
    // The right position does not exist.
    let built = ConstraintSolver::new(variables(), arcs(&[(0, 2)], Differ), none);
    assert_eq!(built.err(), Some(CspError::IndexOutOfRange));
    // Neither does the key.
    let none: Option<GlobalConstraint<Always>> = None;
    let built = ConstraintSolver::new(variables(), arcs(&[(2, 0)], Differ), none);
    assert_eq!(built.err(), Some(CspError::IndexOutOfRange));
    // A key without constraints that is no position is refused too.
    let mut empty: HashMap<usize, Vec<BinaryConstraint<Differ>>> = HashMap::new();
    empty.insert(5, vec![]);
    let none: Option<GlobalConstraint<Always>> = None;
    assert_eq!(
        ConstraintSolver::new(variables(), empty, none).err(),
        Some(CspError::IndexOutOfRange)
    );
}

#[test]
fn solver_rejects_a_misfiled_constraint() {
    let variables = vec![open("a", vec![1]), open("b", vec![1])];
    let mut map = HashMap::new();
    map.insert(0, vec![BinaryConstraint::new(1, 0, Differ)]);
    let none: Option<GlobalConstraint<Always>> = None;
    let built = ConstraintSolver::new(variables, map, none);
    assert_eq!(built.err(), Some(CspError::MisfiledConstraint));
    // An index out of range is reported first.
    let variables = vec![open("a", vec![1]), open("b", vec![1])];
    let mut map = HashMap::new();
    map.insert(0, vec![BinaryConstraint::new(1, 0, Differ)]);
    map.insert(1, vec![BinaryConstraint::new(1, 9, Differ)]);
    let none: Option<GlobalConstraint<Always>> = None;
    let built = ConstraintSolver::new(variables, map, none);
    assert_eq!(built.err(), Some(CspError::IndexOutOfRange));
}

#[test]
fn no_solution_gives_an_empty_sequence() {
    // Two variables sharing a singleton domain under an inequality constraint.
    let variables = vec![open("a", vec![1]), open("b", vec![1])];
    let none: Option<GlobalConstraint<Always>> = None;
    let solver =
        ConstraintSolver::new(variables, arcs(&[(0, 1), (1, 0)], Differ), none).unwrap();
    assert!(solver.solve(AllAssigned).is_empty());
}

#[test]
fn exhausted_without_open_variables_is_empty() {
    let none: Option<GlobalConstraint<Always>> = None;
    let solver = ConstraintSolver::new(vec![given("a", 1)], arcs(&[], Differ), none).unwrap();
    assert!(solver.solve(AllAssigned).is_empty());
    let none: Option<GlobalConstraint<Always>> = None;
    let solver = ConstraintSolver::new(vec![], arcs(&[], Differ), none).unwrap();
    assert!(solver.solve(Always).is_empty());
}

#[test]
fn first_solution_in_the_order_of_the_candidates() {
    let problem = || {
        let variables = vec![
            open("a", vec![2, 1, 3]),
            open("b", vec![1, 2, 3]),
            open("c", vec![3, 2, 1]),
        ];
        let none: Option<GlobalConstraint<Always>> = None;
        ConstraintSolver::new(
            variables,
            arcs(&[(0, 1), (1, 0), (0, 2), (2, 0), (1, 2), (2, 1)], Differ),
            none,
        )
        .unwrap()
    };
    let solution = problem().solve(AllAssigned);
    assert_eq!(values(&solution), vec![Some(2), Some(1), Some(3)]);
    assert!(solution.iter().all(|v| v.domain().is_empty()));
    assert_eq!(solution[2].name(), "c");
    // Solving an equal problem again gives the same solution.
    for _ in 0..5 {
        assert_eq!(values(&problem().solve(AllAssigned)), vec![Some(2), Some(1), Some(3)]);
    }
}

#[test]
fn search_backtracks_over_a_failed_candidate() {
    // a < b < c over 1..3 has one solution; a is tried with 3 and 2 first.
    let variables = vec![
        open("a", vec![3, 2, 1]),
        open("b", vec![3, 2, 1]),
        open("c", vec![3, 2, 1]),
    ];
    let none: Option<GlobalConstraint<Always>> = None;
    let solver =
        ConstraintSolver::new(variables, arcs(&[(0, 1), (1, 2)], Before), none).unwrap();
    assert_eq!(values(&solver.solve(AllAssigned)), vec![Some(1), Some(2), Some(3)]);
}

#[test]
fn goal_may_accept_a_partial_assignment() {
    let variables = vec![open("a", vec![4, 5]), open("b", vec![4, 5])];
    let none: Option<GlobalConstraint<Always>> = None;
    let solver = ConstraintSolver::new(variables, arcs(&[(0, 1)], Differ), none).unwrap();
    let solution = solver.solve(Always);
    // The first candidate of the first variable, and the other pruned.
    assert_eq!(values(&solution), vec![Some(4), None]);
    assert_eq!(solution[1].domain(), &vec![5]);
}

#[test]
fn givens_are_checked_when_a_neighbour_commits() {
    let variables = vec![given("g", 1), open("x", vec![1, 2])];
    let none: Option<GlobalConstraint<Always>> = None;
    let solver =
        ConstraintSolver::new(variables, arcs(&[(0, 1), (1, 0)], Differ), none).unwrap();
    assert_eq!(values(&solver.solve(AllAssigned)), vec![Some(1), Some(2)]);
}

#[test]
fn propagation_prunes_exactly_the_rejected_values() {
    // Position 0 holds 3; 1 and 2 are its neighbours, 3 is not.
    let variables = vec![
        given("a", 3),
        open("b", vec![1, 3, 5, 2, 4]),
        open("c", vec![3, 4]),
        open("d", vec![3]),
        given("e", 4),
    ];
    let none: Option<GlobalConstraint<Always>> = None;
    let mut solver =
        ConstraintSolver::new(variables, arcs(&[(0, 1), (0, 2), (0, 4)], Before), none).unwrap();
    assert!(solver.check_constrains(0));
    let after = solver.variables();
    assert_eq!(after[0].value(), Some(3));
    assert_eq!(after[1].domain(), &vec![5, 4]);
    assert_eq!(after[2].domain(), &vec![4]);
    assert_eq!(after[3].domain(), &vec![3]);
    assert_eq!(after[4].value(), Some(4));
    assert_eq!(after[1].value(), None);
    assert_eq!(after[1].name(), "b");
}

#[test]
fn propagation_with_two_constraints_to_one_neighbour_keeps_what_both_accept() {
    let variables = vec![given("a", 3), open("b", vec![1, 2, 3, 4, 5])];
    let mut map: HashMap<usize, Vec<BinaryConstraint<Rule>>> = HashMap::new();
    map.insert(
        0,
        vec![BinaryConstraint::new(0, 1, Rule::Differ), BinaryConstraint::new(0, 1, Rule::Above)],
    );
    let none: Option<GlobalConstraint<Always>> = None;
    let mut solver = ConstraintSolver::new(variables, map, none).unwrap();
    assert!(solver.check_constrains(0));
    assert_eq!(solver.variables()[1].domain(), &vec![1, 2]);
}

#[derive(Clone, Copy)]
enum Rule {
    Differ,
    Above,
}

impl BinaryPredicate<i32> for Rule {
    fn check(&self, left: &i32, right: &i32) -> bool {
        match self {
            Rule::Differ => left != right,
            Rule::Above => left > right,
        }
    }
}

#[test]
fn propagation_fails_on_a_wipeout_and_leaves_the_variables() {
    let variables = vec![given("a", 3), open("b", vec![1, 2]), open("c", vec![1, 2, 3, 4])];
    let none: Option<GlobalConstraint<Always>> = None;
    let mut solver =
        ConstraintSolver::new(variables, arcs(&[(0, 2), (0, 1)], Before), none).unwrap();
    assert!(!solver.check_constrains(0));
    assert_eq!(solver.variables()[1].domain(), &vec![1, 2]);
    assert_eq!(solver.variables()[2].domain(), &vec![1, 2, 3, 4]);
}

#[test]
fn propagation_fails_on_a_committed_neighbour_that_is_rejected() {
    let variables = vec![given("a", 3), given("b", 3)];
    let none: Option<GlobalConstraint<Always>> = None;
    let mut solver = ConstraintSolver::new(variables, arcs(&[(0, 1)], Differ), none).unwrap();
    assert!(!solver.check_constrains(0));
    // From the other side nothing is registered, so nothing fails.
    assert!(solver.check_constrains(1));
}

#[test]
fn an_open_neighbour_without_candidates_is_no_contradiction() {
    let variables = vec![given("a", 3), open("b", vec![])];
    let none: Option<GlobalConstraint<Always>> = None;
    let mut solver = ConstraintSolver::new(variables, arcs(&[(0, 1)], Differ), none).unwrap();
    assert!(solver.check_constrains(0));
}

#[test]
fn propagation_tests_the_global_constraint_first() {
    let variables = vec![given("a", 3), open("b", vec![1, 2, 3])];
    let mut solver = ConstraintSolver::new(
        variables,
        arcs(&[(0, 1)], Differ),
        Some(GlobalConstraint::new(Never)),
    )
    .unwrap();
    assert!(!solver.check_constrains(0));
    assert_eq!(solver.variables()[1].domain(), &vec![1, 2, 3]);
}

#[test]
fn unsatisfiable_global_constraint_ends_with_an_empty_sequence() {
    let variables = vec![
        open("a", vec![1, 2, 3]),
        open("b", vec![1, 2, 3]),
        open("c", vec![1, 2, 3]),
    ];
    let solver = ConstraintSolver::new(
        variables,
        arcs(&[(0, 1), (1, 2)], Differ),
        Some(GlobalConstraint::new(Never)),
    )
    .unwrap();
    // Even a goal that accepts everything is never asked.
    assert!(solver.solve(Always).is_empty());
}

struct AtMostOneThree;

impl StatePredicate<i32> for AtMostOneThree {
    fn check(&self, variables: &Vec<Variable<i32>>) -> bool {
        variables.iter().filter(|v| v.value() == Some(3)).count() <= 1
    }
}

#[test]
fn global_constraint_rules_out_assignments() {
    let variables = vec![open("a", vec![3, 1]), open("b", vec![3, 2])];
    let solver = ConstraintSolver::new(
        variables,
        arcs(&[], Differ),
        Some(GlobalConstraint::new(AtMostOneThree)),
    )
    .unwrap();
    assert_eq!(values(&solver.solve(AllAssigned)), vec![Some(3), Some(2)]);
}
