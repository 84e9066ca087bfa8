//! The solver entry point and the assignment verifier.

use vstd::prelude::*;

use crate::assignment::{assignment_map, Assignment};
use crate::cnf::Variable;
use crate::dpll::solve_dpll;
use crate::expression::{
    formula_mentions, formula_sat_by, formula_satisfiable, Expression, SolverHeuristic,
};

verus! {

/// Checks that the assignment satisfies every clause of the expression as it
/// currently stands.
pub fn verify_assignment(expression: &Expression, assignment: &Assignment) -> (r: bool)
    ensures
        r == formula_sat_by(expression.abs().cls, assignment_map(*assignment)),
{
    expression.is_satisfied_by(assignment)
}

/// Solves the expression with the default heuristic; a returned assignment is
/// proved, and when `verify` is set also re-checked, to satisfy the formula.
///
/// Unsatisfiability is reported as nothing; that is a normal outcome.
pub fn solve(expression: Expression, verify: bool) -> (r: Option<Assignment>)
    requires
        expression.wf(),
        expression.wf_sem(),
        expression.all_unassigned(),
        expression.log().len() == 0,
        expression.n_clauses() < 0xFFFF,
    ensures
        r matches Some(a) ==> formula_sat_by(expression.orig_formula(), assignment_map(a)),
        r is Some <==> formula_satisfiable(expression.orig_formula()),
        r matches Some(a) ==> (forall|v: Variable|
            #[trigger] assignment_map(a).dom().contains(v) == formula_mentions(
                expression.orig_formula(),
                v,
            )),
{
    let mut worker = expression.duplicate();
    worker.optimize();
    let ghost pre_heuristic = worker;
    worker.set_heuristic(SolverHeuristic::MostLiteralOccurances);
    proof {
        crate::expression::lemma_asg_of_abs(pre_heuristic, worker);
        assert forall|v: int| 0 <= v <= worker.nv() implies worker.asg_of(v) is None by {
            assert(pre_heuristic.asg_of(v) is None);
        }
        assert(worker.all_unassigned());
        assert(worker.assigned_known()) by {
            assert forall|v: int|
                1 <= v <= worker.nv() && (#[trigger] worker.asg_of(v))
                    is Some implies worker.spec_variables().contains(v as Variable) by {
                assert(worker.asg_of(v) is None);
            }
        }
    }
    let ghost went = worker;
    let solution = solve_dpll(&mut worker);
    proof {
        match &solution {
            Some(a) => {
                went.lemma_variables_characterized();
                assert forall|v: Variable| #[trigger] assignment_map(*a).dom().contains(v)
                    == formula_mentions(expression.orig_formula(), v) by {
                    assert(assignment_map(*a).dom().contains(v) == went.spec_variables().contains(
                        v,
                    ));
                    assert(went.spec_variables().contains(v) == formula_mentions(
                        went.orig_formula(),
                        v,
                    ));
                    assert(went.orig_formula() == expression.orig_formula());
                }
            },
            None => {},
        }
    }
    match &solution {
        Some(assignment) => {
            if verify {
                let accepted = verify_assignment(&expression, assignment);
                proof {
                    expression.lemma_untouched_cls();
                }
                if !accepted {
                    proof {
                        assert(false);
                    }
                }
            }
        },
        None => {},
    }
    solution
}

/// Law: any two solver runs on the same formula agree on the answer. Each
/// run, whatever its heuristic and whether it raced in a portfolio or not,
/// reports an assignment exactly when the formula is satisfiable (the
/// driver's contract), so the first result is as good as any.
pub proof fn lemma_portfolio_agreement(
    orig: Seq<Set<crate::cnf::Literal>>,
    first_found: bool,
    second_found: bool,
)
    requires
        first_found == formula_satisfiable(orig),
        second_found == formula_satisfiable(orig),
    ensures
        first_found == second_found,
{
}

} // verus!
