//! The DIMACS CNF reader: a line-oriented scan over the file's bytes.
//!
//! Comment lines start with `c`, the problem header with `p`; both are
//! ignored, as are empty lines. Every other line is a clause of
//! whitespace-separated signed decimal integers, ended by a `0` terminator;
//! duplicate literals within a clause are dropped. Reading the file itself is
//! left to the caller, which hands the bytes in.
//!
//! The grammar is written out as the specification functions below, and
//! [`parse_dimacs`] is proved to return exactly what they describe: the
//! parsed clause lines on success, and the grammar's own error otherwise.

use vstd::prelude::*;

use crate::cnf::{Clause, Literal};
use crate::expression::Expression;

verus! {

/// Why a DIMACS text was rejected.
#[derive(Debug, PartialEq, Eq, Clone, Copy)]
pub enum ParseError {
    /// A clause token is not a signed decimal integer.
    InvalidLiteral,
    /// A literal's magnitude does not fit the 16-bit variable range.
    LiteralOutOfRange,
    /// More clauses than the 16-bit clause ids can name.
    TooManyClauses,
}

/// A byte of horizontal whitespace: space, tab or carriage return.
pub open spec fn spec_is_space(b: u8) -> bool {
    b == 32 || b == 9 || b == 13
}

/// A decimal digit byte.
pub open spec fn spec_is_digit(b: u8) -> bool {
    48 <= b <= 57
}

/// The index of the newline ending the line that starts at `i`, or the end of
/// the text.
pub open spec fn spec_line_end(text: Seq<u8>, i: int) -> int
    decreases text.len() - i,
{
    if i >= text.len() {
        text.len() as int
    } else if text[i] == 10 {
        i
    } else {
        spec_line_end(text, i + 1)
    }
}

/// The first index at or after `k`, up to `end`, holding no whitespace.
pub open spec fn spec_skip_spaces(text: Seq<u8>, k: int, end: int) -> int
    decreases end - k,
{
    if k >= end || !spec_is_space(text[k]) {
        k
    } else {
        spec_skip_spaces(text, k + 1, end)
    }
}

/// The first index at or after `k`, up to `end`, holding no digit.
pub open spec fn spec_digits_end(text: Seq<u8>, k: int, end: int) -> int
    decreases end - k,
{
    if k >= end || !spec_is_digit(text[k]) {
        k
    } else {
        spec_digits_end(text, k + 1, end)
    }
}

/// The decimal value of the digit run starting at `k`, folded onto `acc`.
pub open spec fn spec_digits_value(text: Seq<u8>, k: int, end: int, acc: int) -> int
    decreases end - k,
{
    if k >= end || !spec_is_digit(text[k]) {
        acc
    } else {
        spec_digits_value(text, k + 1, end, acc * 10 + (text[k] - 48))
    }
}

/// Whether folding the digit run starting at `k` onto `acc` ever exceeds the
/// 16-bit variable range.
pub open spec fn spec_digits_overflow(text: Seq<u8>, k: int, end: int, acc: int) -> bool
    decreases end - k,
{
    if k >= end || !spec_is_digit(text[k]) {
        false
    } else {
        let acc2 = acc * 10 + (text[k] - 48);
        acc2 > 32767 || spec_digits_overflow(text, k + 1, end, acc2)
    }
}

/// Duplicate-dropping append: the checked insert of the clause builder.
pub open spec fn spec_push_literal(acc: Seq<Literal>, l: Literal) -> Seq<Literal> {
    if acc.contains(l) {
        acc
    } else {
        acc.push(l)
    }
}

proof fn lemma_skip_spaces_bounds(text: Seq<u8>, k: int, end: int)
    ensures
        k <= spec_skip_spaces(text, k, end),
        k <= end ==> spec_skip_spaces(text, k, end) <= end,
    decreases end - k,
{
    if !(k >= end || !spec_is_space(text[k])) {
        lemma_skip_spaces_bounds(text, k + 1, end);
    }
}

proof fn lemma_digits_end_bounds(text: Seq<u8>, k: int, end: int)
    ensures
        k <= spec_digits_end(text, k, end),
        k <= end ==> spec_digits_end(text, k, end) <= end,
    decreases end - k,
{
    if !(k >= end || !spec_is_digit(text[k])) {
        lemma_digits_end_bounds(text, k + 1, end);
    }
}

proof fn lemma_line_end_bounds(text: Seq<u8>, i: int)
    ensures
        i <= spec_line_end(text, i) || text.len() < i,
        spec_line_end(text, i) <= text.len(),
    decreases text.len() - i,
{
    if !(i >= text.len() || text[i] == 10) {
        lemma_line_end_bounds(text, i + 1);
    }
}

/// One clause line, from `k` to `end`: whitespace-separated signed decimal
/// literals appended (duplicates dropped) onto `acc`, where a value of zero
/// ends the clause and the rest of the line is ignored.
pub open spec fn spec_clause_line(text: Seq<u8>, k: int, end: int, acc: Seq<Literal>) -> Result<
    Seq<Literal>,
    ParseError,
>
    decreases end - k,
    via spec_clause_line_decreases
{
    let k1 = spec_skip_spaces(text, k, end);
    if k1 >= end {
        Ok(acc)
    } else {
        let negative = text[k1] == 45;
        let k2 = if negative {
            k1 + 1
        } else {
            k1
        };
        if k2 >= end || !spec_is_digit(text[k2]) {
            Err(ParseError::InvalidLiteral)
        } else if spec_digits_overflow(text, k2, end, 0) {
            Err(ParseError::LiteralOutOfRange)
        } else {
            let magnitude = spec_digits_value(text, k2, end, 0);
            let k3 = spec_digits_end(text, k2, end);
            if k3 < end && !spec_is_space(text[k3]) {
                Err(ParseError::InvalidLiteral)
            } else if magnitude == 0 {
                Ok(acc)
            } else {
                let l = (if negative {
                    -magnitude
                } else {
                    magnitude
                }) as Literal;
                spec_clause_line(text, k3, end, spec_push_literal(acc, l))
            }
        }
    }
}

#[via_fn]
proof fn spec_clause_line_decreases(text: Seq<u8>, k: int, end: int, acc: Seq<Literal>) {
    lemma_skip_spaces_bounds(text, k, end);
    let k1 = spec_skip_spaces(text, k, end);
    if k1 < end {
        let k2 = if text[k1] == 45 {
            k1 + 1
        } else {
            k1
        };
        if !(k2 >= end || !spec_is_digit(text[k2])) {
            lemma_digits_end_bounds(text, k2 + 1, end);
            assert(spec_digits_end(text, k2, end) == spec_digits_end(text, k2 + 1, end));
        }
    }
}

/// The lines of the text from `i` on, parsed onto the clauses `acc`: comment,
/// header and blank lines contribute nothing; each other line is a clause,
/// refused once the 16-bit clause ids are exhausted.
pub open spec fn spec_parse_lines(text: Seq<u8>, i: int, acc: Seq<Seq<Literal>>) -> Result<
    Seq<Seq<Literal>>,
    ParseError,
>
    decreases text.len() - i,
    via spec_parse_lines_decreases
{
    if i >= text.len() {
        Ok(acc)
    } else {
        let e = spec_line_end(text, i);
        let next = if e < text.len() {
            e + 1
        } else {
            text.len() as int
        };
        let k = spec_skip_spaces(text, i, e);
        if k >= e || text[k] == 99 || text[k] == 112 {
            spec_parse_lines(text, next, acc)
        } else {
            match spec_clause_line(text, k, e, Seq::empty()) {
                Result::Err(err) => Err(err),
                Result::Ok(cl) => if acc.len() >= 0xFFFE {
                    Err(ParseError::TooManyClauses)
                } else {
                    spec_parse_lines(text, next, acc.push(cl))
                },
            }
        }
    }
}

#[via_fn]
proof fn spec_parse_lines_decreases(text: Seq<u8>, i: int, acc: Seq<Seq<Literal>>) {
    if i < text.len() {
        lemma_line_end_bounds(text, i);
    }
}

/// What parsing the whole text yields: the clause lines in order, each as its
/// literal sequence after duplicate dropping, or the first error.
pub open spec fn spec_parse_dimacs(text: Seq<u8>) -> Result<Seq<Seq<Literal>>, ParseError> {
    spec_parse_lines(text, 0, Seq::empty())
}

/// A byte of horizontal whitespace.
fn is_space(b: u8) -> (r: bool)
    ensures
        r == spec_is_space(b),
{
    b == 32 || b == 9 || b == 13
}

/// Parses the bytes of a DIMACS CNF file into an expression.
///
/// On success the expression is freshly built — nothing assigned, an empty
/// action log, the default heuristic — and its formula is, clause for clause,
/// what [`spec_parse_dimacs`] reads from the bytes; on failure the error is
/// the one that specification gives.
pub fn parse_dimacs(text: &[u8]) -> (r: Result<Expression, ParseError>)
    ensures
        r matches Ok(e) ==> (spec_parse_dimacs(text@) matches Ok(cs) && {
            &&& e.orig_formula() == cs.map_values(|c: Seq<Literal>| c.to_set())
            &&& e.n_clauses() == cs.len()
            &&& e.wf()
            &&& e.wf_sem()
            &&& e.all_unassigned()
            &&& e.assigned_known()
            &&& e.log().len() == 0
            &&& e.n_clauses() < 0xFFFF
            &&& e.spec_heuristic() is MostLiteralOccurances
        }),
        r matches Err(err) ==> spec_parse_dimacs(text@) == Err::<Seq<Seq<Literal>>, ParseError>(
            err,
        ),
{
    let mut expression = Expression::new();
    let ghost mut acc: Seq<Seq<Literal>> = Seq::empty();
    let n = text.len();
    let mut i: usize = 0;
    proof {
        assert(acc.map_values(|c: Seq<Literal>| c.to_set()) =~= Seq::<Set<Literal>>::empty());
    }
    while i < n
        invariant
            n == text.len(),
            i <= n,
            expression.wf(),
            expression.wf_sem(),
            expression.all_unassigned(),
            expression.assigned_known(),
            expression.log().len() == 0,
            expression.n_clauses() < 0xFFFF,
            expression.spec_heuristic() is MostLiteralOccurances,
            spec_parse_dimacs(text@) == spec_parse_lines(text@, i as int, acc),
            expression.orig_formula() == acc.map_values(|c: Seq<Literal>| c.to_set()),
            expression.n_clauses() == acc.len(),
        decreases n - i,
    {
        let ghost line_start = i as int;
        // the current line is text[i..line_end]
        let mut line_end: usize = i;
        while line_end < n && text[line_end] != 10
            invariant
                n == text.len(),
                i <= line_end <= n,
                spec_line_end(text@, i as int) == spec_line_end(text@, line_end as int),
            decreases n - line_end,
        {
            line_end = line_end + 1;
        }
        proof {
            assert(spec_line_end(text@, line_end as int) == line_end);
            assert(spec_line_end(text@, i as int) == line_end);
        }
        // skip leading whitespace
        let mut k: usize = i;
        while k < line_end && is_space(text[k])
            invariant
                n == text.len(),
                line_end <= n,
                i <= k <= line_end,
                spec_skip_spaces(text@, i as int, line_end as int) == spec_skip_spaces(
                    text@,
                    k as int,
                    line_end as int,
                ),
            decreases line_end - k,
        {
            k = k + 1;
        }
        proof {
            assert(spec_skip_spaces(text@, k as int, line_end as int) == k);
            assert(spec_skip_spaces(text@, i as int, line_end as int) == k);
        }
        if k < line_end && text[k] != 99 && text[k] != 112 {
            // a clause line: whitespace-separated literals, `0` ends the clause
            let ghost clause_start = k as int;
            let mut clause = Clause::new();
            let mut terminated = false;
            while k < line_end && !terminated
                invariant
                    n == text.len(),
                    (i as int) < n as int,
                    line_end <= n,
                    k <= line_end,
                    spec_parse_dimacs(text@) == spec_parse_lines(text@, i as int, acc),
                    spec_line_end(text@, i as int) == line_end as int,
                    spec_skip_spaces(text@, i as int, line_end as int) == clause_start,
                    clause_start < line_end as int,
                    text@[clause_start] != 99 && text@[clause_start] != 112,
                    clause@.no_duplicates(),
                    forall|j: int|
                        0 <= j < clause@.len() ==> (#[trigger] clause@[j]) != 0 && clause@[j]
                            != i16::MIN,
                    !terminated ==> spec_clause_line(
                        text@,
                        clause_start,
                        line_end as int,
                        Seq::empty(),
                    ) == spec_clause_line(text@, k as int, line_end as int, clause@),
                    terminated ==> spec_clause_line(
                        text@,
                        clause_start,
                        line_end as int,
                        Seq::empty(),
                    ) == Ok::<Seq<Literal>, ParseError>(clause@),
                decreases line_end - k, (if terminated {
                    0int
                } else {
                    1int
                }),
            {
                let ghost token_start = k as int;
                let ghost clause0 = clause@;
                // skip whitespace between tokens
                while k < line_end && is_space(text[k])
                    invariant
                        n == text.len(),
                        line_end <= n,
                        token_start <= k as int <= line_end as int,
                        spec_skip_spaces(text@, token_start, line_end as int)
                            == spec_skip_spaces(text@, k as int, line_end as int),
                    decreases line_end - k,
                {
                    k = k + 1;
                }
                proof {
                    assert(spec_skip_spaces(text@, k as int, line_end as int) == k);
                    assert(spec_skip_spaces(text@, token_start, line_end as int) == k);
                }
                if k == line_end {
                    // the line is exhausted without a terminator
                    terminated = true;
                    proof {
                        assert(spec_clause_line(text@, token_start, line_end as int, clause0)
                            == Ok::<Seq<Literal>, ParseError>(clause0));
                    }
                } else {
                    // an optional sign, then decimal digits
                    let negative = text[k] == 45;
                    if negative {
                        k = k + 1;
                    }
                    if k == line_end || text[k] < 48 || text[k] > 57 {
                        proof {
                            assert(spec_clause_line(text@, token_start, line_end as int, clause0)
                                == Err::<Seq<Literal>, ParseError>(ParseError::InvalidLiteral));
                            assert(spec_parse_lines(text@, i as int, acc) == Err::<
                                Seq<Seq<Literal>>,
                                ParseError,
                            >(ParseError::InvalidLiteral));
                        }
                        return Err(ParseError::InvalidLiteral);
                    }
                    let mut magnitude: usize = 0;
                    let mut overflowed = false;
                    let ghost digits_start = k as int;
                    while !overflowed && k < line_end && 48 <= text[k] && text[k] <= 57
                        invariant
                            n == text.len(),
                            line_end <= n,
                            token_start <= digits_start,
                            digits_start <= k as int <= line_end as int,
                            digits_start < line_end as int,
                            spec_is_digit(text@[digits_start]),
                            overflowed ==> spec_digits_overflow(
                                text@,
                                digits_start,
                                line_end as int,
                                0,
                            ),
                            !overflowed ==> magnitude <= 32767,
                            !overflowed ==> spec_digits_value(
                                text@,
                                digits_start,
                                line_end as int,
                                0,
                            ) == spec_digits_value(
                                text@,
                                k as int,
                                line_end as int,
                                magnitude as int,
                            ),
                            !overflowed ==> spec_digits_overflow(
                                text@,
                                digits_start,
                                line_end as int,
                                0,
                            ) == spec_digits_overflow(
                                text@,
                                k as int,
                                line_end as int,
                                magnitude as int,
                            ),
                            !overflowed ==> spec_digits_end(text@, digits_start, line_end as int)
                                == spec_digits_end(text@, k as int, line_end as int),
                        decreases line_end - k, (if overflowed {
                            0int
                        } else {
                            1int
                        }),
                    {
                        let digit = (text[k] - 48) as usize;
                        magnitude = magnitude * 10 + digit;
                        if magnitude > 32767 {
                            overflowed = true;
                        } else {
                            k = k + 1;
                        }
                    }
                    if overflowed {
                        proof {
                            assert(spec_clause_line(text@, token_start, line_end as int, clause0)
                                == Err::<Seq<Literal>, ParseError>(
                                ParseError::LiteralOutOfRange,
                            ));
                            assert(spec_parse_lines(text@, i as int, acc) == Err::<
                                Seq<Seq<Literal>>,
                                ParseError,
                            >(ParseError::LiteralOutOfRange));
                        }
                        return Err(ParseError::LiteralOutOfRange);
                    }
                    proof {
                        assert(k > digits_start);
                        assert(spec_digits_end(text@, k as int, line_end as int) == k);
                        assert(spec_digits_value(
                            text@,
                            k as int,
                            line_end as int,
                            magnitude as int,
                        ) == magnitude);
                        assert(!spec_digits_overflow(
                            text@,
                            k as int,
                            line_end as int,
                            magnitude as int,
                        ));
                        assert(spec_digits_end(text@, digits_start, line_end as int) == k);
                        assert(spec_digits_value(text@, digits_start, line_end as int, 0)
                            == magnitude);
                        assert(!spec_digits_overflow(text@, digits_start, line_end as int, 0));
                    }
                    if k < line_end && !is_space(text[k]) {
                        proof {
                            assert(spec_clause_line(text@, token_start, line_end as int, clause0)
                                == Err::<Seq<Literal>, ParseError>(ParseError::InvalidLiteral));
                            assert(spec_parse_lines(text@, i as int, acc) == Err::<
                                Seq<Seq<Literal>>,
                                ParseError,
                            >(ParseError::InvalidLiteral));
                        }
                        return Err(ParseError::InvalidLiteral);
                    }
                    if magnitude == 0 {
                        terminated = true;
                        proof {
                            assert(spec_clause_line(text@, token_start, line_end as int, clause0)
                                == Ok::<Seq<Literal>, ParseError>(clause0));
                        }
                    } else {
                        let literal: Literal = if negative {
                            -(magnitude as i16)
                        } else {
                            magnitude as i16
                        };
                        clause.insert_checked(literal);
                        proof {
                            assert(clause@ == spec_push_literal(clause0, literal));
                            assert(spec_clause_line(text@, token_start, line_end as int, clause0)
                                == spec_clause_line(text@, k as int, line_end as int, clause@));
                        }
                    }
                }
            }
            proof {
                assert(spec_clause_line(text@, clause_start, line_end as int, Seq::empty())
                    == Ok::<Seq<Literal>, ParseError>(clause@)) by {
                    if !terminated {
                        assert(k >= line_end);
                        assert(spec_skip_spaces(text@, k as int, line_end as int) == k);
                    }
                }
            }
            if expression.clause_count() >= 0xFFFE {
                proof {
                    assert(spec_parse_lines(text@, i as int, acc) == Err::<
                        Seq<Seq<Literal>>,
                        ParseError,
                    >(ParseError::TooManyClauses));
                }
                return Err(ParseError::TooManyClauses);
            }
            expression.add_clause(clause);
            proof {
                let ghost old_acc = acc;
                acc = acc.push(clause@);
                assert(expression.orig_formula() =~= acc.map_values(
                    |c: Seq<Literal>| c.to_set(),
                ));
                let next = if (line_end as int) < n as int {
                    line_end as int + 1
                } else {
                    n as int
                };
                assert(spec_parse_lines(text@, i as int, old_acc) == spec_parse_lines(
                    text@,
                    next,
                    acc,
                ));
            }
        } else {
            proof {
                let next = if (line_end as int) < n as int {
                    line_end as int + 1
                } else {
                    n as int
                };
                assert(spec_parse_lines(text@, i as int, acc) == spec_parse_lines(
                    text@,
                    next,
                    acc,
                ));
            }
        }
        i = if line_end < n {
            line_end + 1
        } else {
            n
        };
    }
    proof {
        assert(spec_parse_lines(text@, i as int, acc) == Ok::<Seq<Seq<Literal>>, ParseError>(
            acc,
        ));
    }
    Ok(expression)
}

} // verus!
