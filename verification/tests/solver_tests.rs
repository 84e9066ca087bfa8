use dpll_sat::assignment::Assignment;
use dpll_sat::cnf::Clause;
use dpll_sat::expression::{Expression, SolverHeuristic};
use dpll_sat::dpll::solve_dpll;
use dpll_sat::solver::{solve, verify_assignment};

fn clause_of(literals: &[i16]) -> Clause {
    let mut clause = Clause::new();
    for &l in literals {
        clause.insert_checked(l);
    }
    clause
}

fn expression_of(clauses: &[&[i16]]) -> Expression {
    let mut expression = Expression::new();
    for c in clauses {
        expression.add_clause(clause_of(c));
    }
    expression
}

#[test]
fn test_verify_assignment() {
    let mut expression = Expression::new();
    let mut clause = Clause::new();
    clause.insert_checked(1);
    clause.insert_checked(-2);
    expression.add_clause(clause);

    let mut assignment = Assignment::new();
    assignment.insert(1, true);
    assignment.insert(2, false);

    assert!(verify_assignment(&expression, &assignment));
}

#[test]
fn test_verify_assignment_unsatisfied() {
    let mut expression = Expression::new();
    let mut clause = Clause::new();
    clause.insert_checked(1);
    clause.insert_checked(2);
    expression.add_clause(clause);

    let mut assignment = Assignment::new();
    assignment.insert(1, false);
    assignment.insert(2, false);

    assert!(!verify_assignment(&expression, &assignment));
}

#[test]
fn test_verify_assignment_unsatisfied_multiple_clauses() {
    let mut expression = Expression::new();
    let mut clause = Clause::new();
    clause.insert_checked(1);
    clause.insert_checked(2);
    expression.add_clause(clause);

    let mut clause = Clause::new();
    clause.insert_checked(-3);
    clause.insert_checked(-4);
    expression.add_clause(clause);

    let mut assignment = Assignment::new();
    assignment.insert(1, false);
    assignment.insert(2, false);
    assignment.insert(3, true);
    assignment.insert(4, true);

    assert!(!verify_assignment(&expression, &assignment));
}

#[test]
fn test_verify_assignment_satisfied_multiple_clauses() {
    let mut expression = Expression::new();
    let mut clause = Clause::new();
    clause.insert_checked(1);
    clause.insert_checked(-2);
    expression.add_clause(clause);

    let mut clause = Clause::new();
    clause.insert_checked(3);
    clause.insert_checked(-4);
    expression.add_clause(clause);

    let mut assignment = Assignment::new();
    assignment.insert(1, true);
    assignment.insert(2, false);
    assignment.insert(3, true);
    assignment.insert(4, false);

    assert!(verify_assignment(&expression, &assignment));
}

#[test]
fn test_trivial_single_clause_sat() {
    let expression = expression_of(&[&[1]]);
    let result = solve(expression, true);
    let assignment = result.expect("expected sat");
    assert_eq!(assignment.get(1), Some(true));
}

#[test]
fn test_contradictory_unit_clauses_unsat() {
    let expression = expression_of(&[&[1], &[-1]]);
    let result = solve(expression, true);
    assert!(result.is_none());
}

#[test]
fn test_pure_literal_sat() {
    let expression = expression_of(&[&[1, 2], &[1, -3], &[1, 3]]);
    let checker = expression_of(&[&[1, 2], &[1, -3], &[1, 3]]);
    let result = solve(expression, true);
    let assignment = result.expect("expected sat");
    assert_eq!(assignment.get(1), Some(true));
    assert!(verify_assignment(&checker, &assignment));
}

#[test]
fn test_three_sat_mini() {
    let expression = expression_of(&[&[1, -2, 3], &[-1, 2, -3], &[-1, -2, 3]]);
    let checker = expression_of(&[&[1, -2, 3], &[-1, 2, -3], &[-1, -2, 3]]);
    let result = solve(expression, true);
    let assignment = result.expect("expected sat");
    assert!(verify_assignment(&checker, &assignment));
}

#[test]
fn test_pigeonhole_two_into_one_unsat() {
    let expression = expression_of(&[&[1], &[2], &[-1, -2]]);
    let result = solve(expression, true);
    assert!(result.is_none());
}

#[test]
fn test_empty_formula_sat() {
    let expression = expression_of(&[]);
    let checker = expression_of(&[]);
    let result = solve(expression, true);
    let assignment = result.expect("expected sat");
    assert!(verify_assignment(&checker, &assignment));
}

fn solve_with_heuristic(clauses: &[&[i16]], heuristic: SolverHeuristic) -> Option<Assignment> {
    let expression = expression_of(clauses);
    let mut worker = expression.duplicate();
    worker.optimize();
    worker.set_heuristic(heuristic);
    solve_dpll(&mut worker)
}

#[test]
fn test_heuristic_invariance_on_sat_formula() {
    let clauses: &[&[i16]] = &[&[1, -2, 3], &[-1, 2, -3], &[-1, -2, 3]];
    let a = solve_with_heuristic(clauses, SolverHeuristic::MostLiteralOccurances);
    let b = solve_with_heuristic(clauses, SolverHeuristic::MostVariableOccurances);
    let c = solve_with_heuristic(clauses, SolverHeuristic::MinimizeClauseLength);
    assert!(a.is_some());
    assert!(b.is_some());
    assert!(c.is_some());
}

#[test]
fn test_heuristic_invariance_on_unsat_formula() {
    // every combination of the two variables is excluded
    let clauses: &[&[i16]] = &[&[1, 2], &[1, -2], &[-1, 2], &[-1, -2]];
    let a = solve_with_heuristic(clauses, SolverHeuristic::MostLiteralOccurances);
    let b = solve_with_heuristic(clauses, SolverHeuristic::MostVariableOccurances);
    let c = solve_with_heuristic(clauses, SolverHeuristic::MinimizeClauseLength);
    assert!(a.is_none());
    assert!(b.is_none());
    assert!(c.is_none());
}

#[test]
fn test_insertion_order_irrelevance() {
    let forward = expression_of(&[&[1, -2, 3], &[-1, 2, -3], &[-1, -2, 3]]);
    let backward = expression_of(&[&[-1, -2, 3], &[-1, 2, -3], &[1, -2, 3]]);
    let checker = expression_of(&[&[1, -2, 3], &[-1, 2, -3], &[-1, -2, 3]]);
    let forward_result = solve(forward, true);
    let backward_result = solve(backward, true);
    assert_eq!(forward_result.is_some(), backward_result.is_some());
    assert!(verify_assignment(&checker, &backward_result.expect("expected sat")));
}

#[test]
fn test_unsat_of_larger_formula() {
    // pigeonhole: three pigeons into two holes
    let clauses: &[&[i16]] = &[
        &[1, 2],
        &[3, 4],
        &[5, 6],
        &[-1, -3],
        &[-1, -5],
        &[-3, -5],
        &[-2, -4],
        &[-2, -6],
        &[-4, -6],
    ];
    let expression = expression_of(clauses);
    assert!(solve(expression, true).is_none());
}

#[test]
fn test_solver_restores_engine_on_unsat() {
    let mut expression = expression_of(&[&[1], &[-1]]);
    let mark = expression.get_action_state();
    assert_eq!(mark, 0);
    let result = solve_dpll(&mut expression);
    assert!(result.is_none());
    assert_eq!(expression.get_action_state(), 0);
    assert!(!expression.is_satisfied());
}
