//! The DPLL search driver: exhaust unit propagation and pure-literal
//! elimination, then branch on a variable and backtrack through the action
//! log on failure.

use vstd::prelude::*;

use crate::assignment::{assignment_map, Assignment};
use crate::expression::{formula_sat_by, formula_satisfiable, sat_extension, Expression};

verus! {

/// Searches for a satisfying assignment of the expression's formula.
///
/// A returned assignment satisfies the formula as added (soundness), and
/// nothing is returned only when no extension of the current partial
/// assignment satisfies it (completeness); started on an untouched
/// expression, the search thus returns an assignment exactly when the formula
/// is satisfiable, whatever the heuristic. On failure the expression is
/// rolled back to exactly the state it had at entry.
pub fn solve_dpll(cnf: &mut Expression) -> (r: Option<Assignment>)
    requires
        old(cnf).wf(),
        old(cnf).wf_sem(),
    ensures
        final(cnf).wf(),
        final(cnf).wf_sem(),
        final(cnf).orig_formula() == old(cnf).orig_formula(),
        final(cnf).spec_heuristic() == old(cnf).spec_heuristic(),
        final(cnf).nv() == old(cnf).nv(),
        final(cnf).n_clauses() == old(cnf).n_clauses(),
        final(cnf).spec_variables() == old(cnf).spec_variables(),
        r matches Some(a) ==> formula_sat_by(old(cnf).orig_formula(), assignment_map(a)),
        r is Some ==> formula_satisfiable(old(cnf).orig_formula()),
        r is None ==> !sat_extension(old(cnf).orig_formula(), old(cnf).asg_seq()),
        old(cnf).all_unassigned() ==> (r is Some <==> formula_satisfiable(
            old(cnf).orig_formula(),
        )),
        old(cnf).assigned_known() ==> (r matches Some(a) ==> (forall|v: crate::cnf::Variable|
            #[trigger] assignment_map(a).dom().contains(v) == old(cnf).spec_variables().contains(
                v,
            ))),
        r is None ==> final(cnf).abs() == old(cnf).abs() && final(cnf).log() == old(cnf).log()
            && final(cnf).n_unassigned() == old(cnf).n_unassigned(),
        final(cnf).log().len() >= old(cnf).log().len(),
        final(cnf).log().take(old(cnf).log().len() as int) == old(cnf).log(),
        forall|i: int| 0 <= i <= old(cnf).log().len() ==> final(cnf).at_st(i) == old(cnf).at_st(i),
    decreases old(cnf).n_unassigned(),
{
    let ghost o = *old(cnf);
    proof {
        crate::expression::lemma_n_unassigned_nonneg(*cnf);
        lemma_entry_satisfiable_link(o);
    }
    let action_state = cnf.get_action_state();
    let ghost mark = action_state as int;
    // Inference to exhaustion: unit clauses, then pure literals.
    while cnf.is_inference_possible()
        invariant
            o.wf(),
            o.wf_sem(),
            cnf.wf(),
            cnf.wf_sem(),
            cnf.orig_formula() == o.orig_formula(),
            cnf.spec_heuristic() == o.spec_heuristic(),
            cnf.nv() == o.nv(),
            cnf.n_clauses() == o.n_clauses(),
            cnf.spec_variables() == o.spec_variables(),
            cnf.n_unassigned() <= o.n_unassigned(),
            cnf.n_unassigned() >= 0,
            o == *old(cnf),
            sat_extension(o.orig_formula(), o.asg_seq()) ==> sat_extension(
                cnf.orig_formula(),
                cnf.asg_seq(),
            ),
            o.assigned_known() ==> cnf.assigned_known(),
            mark == o.log().len(),
            action_state as int == mark,
            cnf.log().len() >= mark,
            cnf.log().take(mark) == o.log(),
            forall|i: int| 0 <= i <= mark ==> cnf.at_st(i) == o.at_st(i),
        decreases cnf.n_unassigned(),
    {
        let ghost loop_enter = *cnf;
        // Remove all unit clauses.
        let ghost before0 = *cnf;
        let mut unit_step = cnf.remove_unit_clause();
        proof {
            lemma_prefix_chain(before0, *cnf, mark);
            crate::expression::lemma_n_unassigned_nonneg(*cnf);
        }
        while unit_step.is_some()
            invariant
                cnf.wf(),
                cnf.wf_sem(),
                cnf.orig_formula() == o.orig_formula(),
                cnf.spec_heuristic() == o.spec_heuristic(),
                cnf.nv() == o.nv(),
                cnf.n_clauses() == o.n_clauses(),
                cnf.spec_variables() == o.spec_variables(),
                cnf.n_unassigned() >= 0,
                cnf.n_unassigned() <= loop_enter.n_unassigned(),
                cnf.n_unassigned() == loop_enter.n_unassigned() ==> *cnf == loop_enter,
                unit_step is Some ==> cnf.n_unassigned() < loop_enter.n_unassigned(),
                unit_step is None ==> cnf.spec_unit_clauses().len() == 0,
                sat_extension(o.orig_formula(), o.asg_seq()) ==> sat_extension(
                    cnf.orig_formula(),
                    cnf.asg_seq(),
                ),
                o.assigned_known() ==> cnf.assigned_known(),
                o.wf(),
                o == *old(cnf),
                mark == o.log().len(),
                cnf.log().len() >= mark,
                cnf.log().take(mark) == o.log(),
                forall|i: int| 0 <= i <= mark ==> cnf.at_st(i) == o.at_st(i),
            decreases cnf.n_unassigned(), (if unit_step.is_some() {
                1int
            } else {
                0int
            }),
        {
            let ghost before = *cnf;
            unit_step = cnf.remove_unit_clause();
            proof {
                lemma_prefix_chain(before, *cnf, mark);
                crate::expression::lemma_n_unassigned_nonneg(*cnf);
            }
        }
        // If some clause became empty, undo everything and fail this branch.
        if cnf.is_unsatisfiable() {
            proof {
                cnf.lemma_empty_clause_unsat();
                lemma_entry_satisfiable_link(o);
                lemma_restore_target(o, *cnf, mark);
            }
            cnf.restore_action_state(action_state);
            proof {
                assert(cnf.abs() == o.abs());
                assert(cnf.wf_sem());
                assert(cnf.log() =~= o.log());
                lemma_same_unassigned(o, *cnf);
            }
            return None;
        }
        // Remove all pure literals.
        let ghost before1 = *cnf;
        let ghost pure_enter = *cnf;
        let mut pure_step = cnf.remove_pure_literal();
        proof {
            lemma_prefix_chain(before1, *cnf, mark);
            crate::expression::lemma_n_unassigned_nonneg(*cnf);
        }
        while pure_step.is_some()
            invariant
                cnf.wf(),
                cnf.wf_sem(),
                cnf.orig_formula() == o.orig_formula(),
                cnf.spec_heuristic() == o.spec_heuristic(),
                cnf.nv() == o.nv(),
                cnf.n_clauses() == o.n_clauses(),
                cnf.spec_variables() == o.spec_variables(),
                cnf.n_unassigned() >= 0,
                cnf.n_unassigned() <= pure_enter.n_unassigned(),
                cnf.n_unassigned() == pure_enter.n_unassigned() ==> *cnf == pure_enter,
                pure_step is Some ==> cnf.n_unassigned() < pure_enter.n_unassigned(),
                pure_step is None ==> cnf.spec_pure_literals().len() == 0,
                sat_extension(o.orig_formula(), o.asg_seq()) ==> sat_extension(
                    cnf.orig_formula(),
                    cnf.asg_seq(),
                ),
                o.assigned_known() ==> cnf.assigned_known(),
                o.wf(),
                o == *old(cnf),
                mark == o.log().len(),
                cnf.log().len() >= mark,
                cnf.log().take(mark) == o.log(),
                forall|i: int| 0 <= i <= mark ==> cnf.at_st(i) == o.at_st(i),
            decreases cnf.n_unassigned(), (if pure_step.is_some() {
                1int
            } else {
                0int
            }),
        {
            let ghost before = *cnf;
            pure_step = cnf.remove_pure_literal();
            proof {
                lemma_prefix_chain(before, *cnf, mark);
                crate::expression::lemma_n_unassigned_nonneg(*cnf);
            }
        }
        proof {
            assert(cnf.n_unassigned() < loop_enter.n_unassigned()) by {
                if cnf.n_unassigned() == loop_enter.n_unassigned() {
                    assert(cnf.n_unassigned() == pure_enter.n_unassigned());
                    assert(*cnf == pure_enter);
                    assert(pure_enter.n_unassigned() == loop_enter.n_unassigned());
                    assert(cnf.spec_unit_clauses().len() == 0);
                    assert(cnf.spec_pure_literals().len() == 0);
                }
            }
        }
    }
    if cnf.is_satisfied() {
        let result = cnf.construct_assignment();
        proof {
            if o.assigned_known() {
                assert forall|v: crate::cnf::Variable| #[trigger] assignment_map(
                    result,
                ).dom().contains(v) == o.spec_variables().contains(v) by {
                    if assignment_map(result).dom().contains(v) {
                        if 1 <= v as int <= cnf.nv() && cnf.asg_of(v as int) is Some {
                            assert(cnf.spec_variables().contains(v));
                        }
                    }
                }
            }
        }
        return Some(result);
    }
    if cnf.is_unsatisfiable() {
        proof {
            cnf.lemma_empty_clause_unsat();
            lemma_entry_satisfiable_link(o);
            lemma_restore_target(o, *cnf, mark);
        }
        cnf.restore_action_state(action_state);
        proof {
            assert(cnf.abs() == o.abs());
            assert(cnf.log() =~= o.log());
            lemma_same_unassigned(o, *cnf);
        }
        return None;
    }
    // Branch: try one polarity, then the other, undoing in between.
    let branch_action_state = cnf.get_action_state();
    let ghost bg = *cnf;
    let branch = cnf.get_branch_variable();
    let branch_variable = branch.0;
    let branch_value = branch.1;
    cnf.branch_variable(branch_variable, branch_value);
    proof {
        lemma_prefix_chain_entry(o, bg, *cnf, mark);
        crate::expression::lemma_n_unassigned_nonneg(*cnf);
    }
    let ghost b1 = *cnf;
    let branch_result = solve_dpll(cnf);
    proof {
        lemma_prefix_chain_entry(o, b1, *cnf, mark);
    }
    if branch_result.is_some() {
        proof {
            if o.assigned_known() {
                assert(b1.assigned_known());
                assert(b1.spec_variables() == o.spec_variables());
            }
        }
        return branch_result;
    }
    proof {
        assert(cnf.log() == b1.log());
        assert(cnf.log().take(bg.log().len() as int) == bg.log());
        assert forall|i: int| 0 <= i <= bg.log().len() implies cnf.at_st(i) == bg.at_st(i) by {
            assert(cnf.at_st(i) == b1.at_st(i));
        }
        lemma_restore_target(bg, *cnf, bg.log().len() as int);
    }
    cnf.restore_action_state(branch_action_state);
    proof {
        assert(cnf.abs() == bg.abs());
        assert(cnf.log() =~= bg.log());
        lemma_same_unassigned(bg, *cnf);
        crate::expression::lemma_asg_of_abs(bg, *cnf);
        crate::expression::lemma_n_unassigned_nonneg(*cnf);
        assert(cnf.asg_seq() == bg.asg_seq());
        assert forall|i: int| 0 <= i <= mark implies cnf.at_st(i) == o.at_st(i) by {
            assert(cnf.at_st(i) == bg.at_st(i));
        }
        assert(cnf.log().take(mark) =~= o.log());
    }
    proof {
        if o.assigned_known() {
            assert(cnf.assigned_known()) by {
                crate::expression::lemma_asg_of_abs(bg, *cnf);
                assert forall|v: int|
                    1 <= v <= cnf.nv() && (#[trigger] cnf.asg_of(v))
                        is Some implies cnf.spec_variables().contains(v as crate::cnf::Variable) by {
                    assert(bg.asg_of(v) is Some);
                }
            }
        }
    }
    let ghost rst = *cnf;
    cnf.branch_variable(branch_variable, !branch_value);
    proof {
        lemma_prefix_chain_entry(o, rst, *cnf, mark);
        crate::expression::lemma_n_unassigned_nonneg(*cnf);
    }
    let ghost b2 = *cnf;
    let branch_result = solve_dpll(cnf);
    proof {
        lemma_prefix_chain_entry(o, b2, *cnf, mark);
    }
    if branch_result.is_some() {
        proof {
            if o.assigned_known() {
                assert(b2.assigned_known());
                assert(b2.spec_variables() == o.spec_variables());
            }
        }
        return branch_result;
    }
    proof {
        // neither polarity admits a satisfying extension, so the state at the
        // branch point has none, and with it the state at entry
        assert(!sat_extension(o.orig_formula(), o.asg_seq())) by {
            if sat_extension(o.orig_formula(), o.asg_seq()) {
                assert(sat_extension(bg.orig_formula(), bg.asg_seq()));
                bg.lemma_asg_seq_of();
                crate::expression::lemma_branch_cases(
                    bg.orig_formula(),
                    bg.asg_seq(),
                    branch_variable,
                );
                assert(b1.asg_seq() == bg.asg_seq().update(
                    branch_variable as int,
                    Some(branch_value),
                ));
                assert(b2.asg_seq() == rst.asg_seq().update(
                    branch_variable as int,
                    Some(!branch_value),
                ));
                assert(rst.asg_seq() == bg.asg_seq());
                assert(!sat_extension(b1.orig_formula(), b1.asg_seq()));
                assert(!sat_extension(b2.orig_formula(), b2.asg_seq()));
                if branch_value {
                    assert(!sat_extension(bg.orig_formula(), bg.asg_seq().update(
                        branch_variable as int,
                        Some(true),
                    )));
                    assert(!sat_extension(bg.orig_formula(), bg.asg_seq().update(
                        branch_variable as int,
                        Some(false),
                    )));
                } else {
                    assert(!sat_extension(bg.orig_formula(), bg.asg_seq().update(
                        branch_variable as int,
                        Some(false),
                    )));
                    assert(!sat_extension(bg.orig_formula(), bg.asg_seq().update(
                        branch_variable as int,
                        Some(true),
                    )));
                }
                assert(false);
            }
        }
        lemma_entry_satisfiable_link(o);
        lemma_restore_target(o, *cnf, mark);
    }
    cnf.restore_action_state(action_state);
    proof {
        assert(cnf.abs() == o.abs());
        assert(cnf.log() =~= o.log());
        lemma_same_unassigned(o, *cnf);
    }
    None
}

/// For an engine with nothing assigned, a satisfying extension of its empty
/// assignment is just a satisfying assignment.
proof fn lemma_entry_satisfiable_link(o: Expression)
    requires
        o.wf(),
    ensures
        o.all_unassigned() ==> (sat_extension(o.orig_formula(), o.asg_seq())
            == formula_satisfiable(o.orig_formula())),
{
    if o.all_unassigned() {
        o.lemma_asg_seq_of();
        assert forall|v: int| 0 <= v < o.asg_seq().len() implies (#[trigger] o.asg_seq()[v])
            is None by {
            assert(o.asg_seq()[v] == o.asg_of(v));
            assert(o.asg_of(v) is None);
        }
        crate::expression::lemma_sat_extension_trivial(o.orig_formula(), o.asg_seq());
    }
}

/// Prefix preservation composes: what held of the entry state still holds.
proof fn lemma_prefix_chain(base: Expression, cur: Expression, mark: int)
    requires
        0 <= mark <= base.log().len(),
        base.log().len() <= cur.log().len(),
        cur.log().take(base.log().len() as int) == base.log(),
    ensures
        cur.log().take(mark) == base.log().take(mark),
{
    assert(cur.log().take(mark) =~= base.log().take(mark));
}

/// Prefix preservation through an intermediate state.
proof fn lemma_prefix_chain_entry(o: Expression, midst: Expression, cur: Expression, mark: int)
    requires
        0 <= mark,
        mark == o.log().len(),
        mark <= midst.log().len(),
        midst.log().take(mark) == o.log(),
        midst.log().len() <= cur.log().len(),
        cur.log().take(midst.log().len() as int) == midst.log(),
        forall|i: int| 0 <= i <= mark ==> midst.at_st(i) == o.at_st(i),
        forall|i: int| 0 <= i <= midst.log().len() ==> cur.at_st(i) == midst.at_st(i),
    ensures
        cur.log().take(mark) == o.log(),
        forall|i: int| 0 <= i <= mark ==> cur.at_st(i) == o.at_st(i),
{
    assert(cur.log().take(mark) =~= o.log());
}

/// The conditions under which a mark can be restored: its prefix is well
/// formed and its recorded state is the state at entry.
proof fn lemma_restore_target(base: Expression, cur: Expression, mark: int)
    requires
        base.wf(),
        mark == base.log().len(),
        mark <= cur.log().len(),
        cur.log().take(mark) == base.log(),
        forall|i: int| 0 <= i <= mark ==> cur.at_st(i) == base.at_st(i),
    ensures
        crate::expression::log_wf(cur.log().take(mark)),
        cur.at_st(mark) == base.abs(),
{
    crate::expression::lemma_wf_log_exposed(base);
    assert(cur.at_st(mark) == base.at_st(mark));
    crate::expression::lemma_at_st_top(base);
}

/// With no unassigned-count change and equal assignment vectors, the counts
/// agree.
proof fn lemma_same_unassigned(a: Expression, b: Expression)
    requires
        b.abs() == a.abs(),
        b.nv() == a.nv(),
    ensures
        b.n_unassigned() == a.n_unassigned(),
{
    crate::expression::lemma_n_unassigned_of_abs(a, b);
}

} // verus!
