use dpll_sat::cnf::{negate, to_positive, to_variable, Clause};
use dpll_sat::expression::Expression;
use dpll_sat::stack::Stack;

#[test]
fn test_literal_algebra() {
    assert_eq!(to_variable(5), 5);
    assert_eq!(to_variable(-5), 5);
    assert_eq!(negate(7), -7);
    assert_eq!(negate(-7), 7);
    assert_eq!(to_positive(3), 3);
    assert_eq!(to_positive(-3), 3);
}

#[test]
fn test_clause_operations() {
    let mut clause = Clause::new();
    assert!(clause.is_empty());
    clause.insert_checked(1);
    clause.insert_checked(2);
    clause.insert_checked(1);
    assert_eq!(clause.len(), 2);
    assert!(clause.contains(1));
    assert!(clause.contains(2));
    assert!(!clause.contains(3));
    clause.remove(1);
    assert_eq!(clause.len(), 1);
    assert!(!clause.contains(1));
    assert!(clause.contains(2));
    assert_eq!(clause.get(0), 2);
    assert_eq!(clause.literals().len(), 1);
}

#[test]
fn test_clause_default_is_empty() {
    let clause = Clause::default();
    assert!(clause.is_empty());
}

#[test]
fn test_stack_operations() {
    let mut stack: Stack<(u16, bool)> = Stack::new(4);
    assert!(stack.is_empty());
    stack.push((1, true));
    stack.push((2, false));
    assert_eq!(stack.len(), 2);
    assert_eq!(*stack.peek(), (2, false));
    assert!(stack.contains(&(1, true)));
    assert!(!stack.contains(&(1, false)));
    let entries = stack.iter();
    assert_eq!(entries, vec![(1, true), (2, false)]);
    assert_eq!(stack.pop(), Some((2, false)));
    assert_eq!(stack.pop(), Some((1, true)));
    assert_eq!(stack.pop(), None);
}

#[test]
fn test_engine_state_queries() {
    let mut expression = Expression::new();
    assert!(expression.is_satisfied());
    assert!(!expression.is_unsatisfiable());
    assert!(!expression.is_inference_possible());

    let mut unit = Clause::new();
    unit.insert_checked(1);
    expression.add_clause(unit);
    assert!(!expression.is_satisfied());
    assert!(!expression.is_unsatisfiable());
    assert!(expression.is_inference_possible());

    // unit propagation satisfies the only clause
    let removed = expression.remove_unit_clause();
    assert_eq!(removed, Some(0));
    assert!(expression.is_satisfied());
    let assignment = expression.construct_assignment();
    assert_eq!(assignment.get(1), Some(true));
}

#[test]
fn test_restore_inverts_assignment() {
    let mut expression = Expression::new();
    let mut clause = Clause::new();
    clause.insert_checked(1);
    clause.insert_checked(2);
    expression.add_clause(clause);

    let mark = expression.get_action_state();
    expression.branch_variable(1, true);
    assert!(expression.is_satisfied());
    expression.restore_action_state(mark);
    assert!(!expression.is_satisfied());
    assert!(!expression.is_unsatisfiable());
    let clauses = expression.get_clauses();
    assert_eq!(clauses.len(), 1);
    assert_eq!(clauses[0].len(), 2);
    assert!(clauses[0].contains(1));
    assert!(clauses[0].contains(2));
}

#[test]
fn test_add_clause_drops_duplicate_literals() {
    let mut expression = Expression::new();
    let mut clause = Clause::new();
    clause.insert(1);
    clause.insert(1);
    clause.insert(-2);
    expression.add_clause(clause);
    let clauses = expression.get_clauses();
    assert_eq!(clauses[0].len(), 2);
    assert!(clauses[0].contains(1));
    assert!(clauses[0].contains(-2));
}

#[test]
fn test_empty_input_clause_is_unsatisfiable() {
    let mut expression = Expression::new();
    expression.add_clause(Clause::new());
    assert!(expression.is_unsatisfiable());
}

#[test]
fn test_pure_literal_removal() {
    let mut expression = Expression::new();
    let mut clause = Clause::new();
    clause.insert_checked(1);
    clause.insert_checked(2);
    expression.add_clause(clause);
    let mut clause = Clause::new();
    clause.insert_checked(1);
    clause.insert_checked(-2);
    expression.add_clause(clause);

    // +1 is pure: its negation appears nowhere
    let removed = expression.remove_pure_literal();
    assert!(removed.is_some());
    let literal = removed.unwrap();
    assert_eq!(to_variable(literal), to_variable(1));
}

#[test]
fn test_from_clauses_builds_same_formula() {
    let mut first = Clause::new();
    first.insert_checked(1);
    first.insert_checked(-2);
    let mut second = Clause::new();
    second.insert_checked(2);
    let expression = Expression::from_clauses(vec![first, second]);
    let clauses = expression.get_clauses();
    assert_eq!(clauses.len(), 2);
    assert!(clauses[0].contains(1));
    assert!(clauses[0].contains(-2));
    assert!(clauses[1].contains(2));
}

#[test]
fn test_get_branch_variable_unassigned() {
    let mut expression = Expression::new();
    let mut clause = Clause::new();
    clause.insert_checked(1);
    clause.insert_checked(2);
    expression.add_clause(clause);
    let (variable, _value) = expression.get_branch_variable();
    assert!(variable == 1 || variable == 2);
}
