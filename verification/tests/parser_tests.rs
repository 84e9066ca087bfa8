use dpll_sat::dimacs_parser::{parse_dimacs, ParseError};
use dpll_sat::solver::solve;

#[test]
fn test_parse_simple_formula() {
    let text = b"c a small satisfiable formula\np cnf 3 2\n1 -2 0\n2 3 0\n";
    let expression = parse_dimacs(text).expect("expected a parse");
    let clauses = expression.get_clauses();
    assert_eq!(clauses.len(), 2);
    assert!(clauses[0].contains(1));
    assert!(clauses[0].contains(-2));
    assert!(clauses[1].contains(2));
    assert!(clauses[1].contains(3));
    assert!(solve(expression, true).is_some());
}

#[test]
fn test_parse_skips_comments_headers_and_blank_lines() {
    let text = b"c comment\n\np cnf 1 1\nc another\n1 0\n";
    let expression = parse_dimacs(text).expect("expected a parse");
    assert_eq!(expression.clause_count(), 1);
}

#[test]
fn test_parse_deduplicates_literals_within_a_clause() {
    let text = b"1 1 -2 0\n";
    let expression = parse_dimacs(text).expect("expected a parse");
    let clauses = expression.get_clauses();
    assert_eq!(clauses[0].len(), 2);
}

#[test]
fn test_parse_unsatisfiable_pair() {
    let text = b"1 0\n-1 0\n";
    let expression = parse_dimacs(text).expect("expected a parse");
    assert!(solve(expression, true).is_none());
}

#[test]
fn test_parse_rejects_malformed_literal() {
    assert_eq!(parse_dimacs(b"1 x 0\n").err(), Some(ParseError::InvalidLiteral));
    assert_eq!(parse_dimacs(b"- 1 0\n").err(), Some(ParseError::InvalidLiteral));
}

#[test]
fn test_parse_rejects_out_of_range_literal() {
    assert_eq!(
        parse_dimacs(b"40000 0\n").err(),
        Some(ParseError::LiteralOutOfRange)
    );
    assert_eq!(
        parse_dimacs(b"-32768 0\n").err(),
        Some(ParseError::LiteralOutOfRange)
    );
}

#[test]
fn test_parse_line_without_terminator_still_ends_clause() {
    let text = b"1 2\n-1 0\n";
    let expression = parse_dimacs(text).expect("expected a parse");
    assert_eq!(expression.clause_count(), 2);
    assert!(solve(expression, true).is_some());
}

#[test]
fn test_parse_rejects_too_many_clauses() {
    let mut text: Vec<u8> = Vec::new();
    for _ in 0..65535 {
        text.extend_from_slice(b"1 0\n");
    }
    assert_eq!(parse_dimacs(&text).err(), Some(ParseError::TooManyClauses));
}
