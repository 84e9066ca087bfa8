//! The indexed CNF expression: clause set, secondary indices, and the action
//! log that makes every destructive mutation reversible.
//!
//! ## Model
//!
//! The engine is specified against an abstract state [`EngineState`]: the
//! content of every clause as a set of literals, the activity flag of every
//! clause, and the partial assignment. The literal index, the unit-clause and
//! pure-literal sets and the two counters are exec-level caches whose exact
//! relation to the abstract state is the invariant [`Expression::wf`]. The
//! formula as originally added is kept as a ghost sequence of literal sets, and
//! the semantic invariant [`sem_inv`] ties the current, partially solved state
//! to it: an active clause holds exactly its unassigned original literals and
//! none of its literals is satisfied, while an inactive clause has a satisfied
//! literal. The action log is mirrored by a ghost history of abstract states,
//! one per record, which is what makes restoring to a mark provably exact.

use vstd::prelude::*;

use crate::assignment::{assignment_map, Assignment};
use crate::cnf::{spec_var, Action, ActionState, Clause, ClauseId, Literal, Variable};
use crate::stack::Stack;

verus! {

/// The strategy used to pick the next branching variable.
#[derive(Clone, Copy, Debug)]
pub enum SolverHeuristic {
    MostLiteralOccurances,
    MostVariableOccurances,
    MinimizeClauseLength,
}

/// The abstract state of the engine: clause contents, activity flags, and the
/// partial assignment (indexed by variable; index 0 is unused).
pub ghost struct EngineState {
    pub cls: Seq<Set<Literal>>,
    pub act: Seq<bool>,
    pub asg: Seq<Option<bool>>,
}

/// The literal is satisfied by the partial assignment.
pub open spec fn lit_sat(asg: Seq<Option<bool>>, l: Literal) -> bool {
    0 <= spec_var(l) < asg.len() && asg[spec_var(l) as int] == Some(l > 0)
}

/// The literal's variable is unassigned.
pub open spec fn lit_unassigned(asg: Seq<Option<bool>>, l: Literal) -> bool {
    0 <= spec_var(l) < asg.len() && asg[spec_var(l) as int] is None
}

/// The clause (a set of literals) is satisfied by the map.
pub open spec fn clause_sat_by(cl: Set<Literal>, m: Map<Variable, bool>) -> bool {
    exists|l: Literal| cl.contains(l) && m.dom().contains(spec_var(l)) && m[spec_var(l)] == (l
        > 0)
}

/// Every clause of the formula is satisfied by the map.
pub open spec fn formula_sat_by(orig: Seq<Set<Literal>>, m: Map<Variable, bool>) -> bool {
    forall|c: int| 0 <= c < orig.len() ==> clause_sat_by(#[trigger] orig[c], m)
}

/// The variable occurs, in either polarity, somewhere in the formula.
pub open spec fn formula_mentions(orig: Seq<Set<Literal>>, v: Variable) -> bool {
    &&& 1 <= v as int <= 32767
    &&& exists|c: int|
        0 <= c < orig.len() && ((#[trigger] orig[c]).contains(v as Literal) || orig[c].contains(
            (-(v as int)) as Literal,
        ))
}

/// A formula is satisfiable when some assignment satisfies it.
pub open spec fn formula_satisfiable(orig: Seq<Set<Literal>>) -> bool {
    exists|m: Map<Variable, bool>| formula_sat_by(orig, m)
}

/// Law: permuting the input clause order changes which clause sits where, but
/// not which assignments satisfy the formula.
pub proof fn lemma_insertion_order_irrelevant(
    f1: Seq<Set<Literal>>,
    f2: Seq<Set<Literal>>,
    m: Map<Variable, bool>,
)
    requires
        f1.to_multiset() == f2.to_multiset(),
    ensures
        formula_sat_by(f1, m) == formula_sat_by(f2, m),
{
    broadcast use vstd::seq_lib::group_to_multiset_ensures;

    if formula_sat_by(f1, m) {
        assert forall|c: int| 0 <= c < f2.len() implies clause_sat_by(#[trigger] f2[c], m) by {
            assert(f2.contains(f2[c]));
            assert(f2.to_multiset().count(f2[c]) > 0);
            assert(f1.to_multiset().count(f2[c]) > 0);
            assert(f1.contains(f2[c]));
            let c1 = choose|c1: int| 0 <= c1 < f1.len() && f1[c1] == f2[c];
            assert(clause_sat_by(f1[c1], m));
        }
    }
    if formula_sat_by(f2, m) {
        assert forall|c: int| 0 <= c < f1.len() implies clause_sat_by(#[trigger] f1[c], m) by {
            assert(f1.contains(f1[c]));
            assert(f1.to_multiset().count(f1[c]) > 0);
            assert(f2.to_multiset().count(f1[c]) > 0);
            assert(f2.contains(f1[c]));
            let c2 = choose|c2: int| 0 <= c2 < f2.len() && f2[c2] == f1[c];
            assert(clause_sat_by(f2[c2], m));
        }
    }
}

/// Law: permuting the input clause order does not change satisfiability.
pub proof fn lemma_insertion_order_satisfiable(f1: Seq<Set<Literal>>, f2: Seq<Set<Literal>>)
    requires
        f1.to_multiset() == f2.to_multiset(),
    ensures
        formula_satisfiable(f1) == formula_satisfiable(f2),
{
    if formula_satisfiable(f1) {
        let m = choose|m: Map<Variable, bool>| formula_sat_by(f1, m);
        lemma_insertion_order_irrelevant(f1, f2, m);
        assert(formula_sat_by(f2, m));
    }
    if formula_satisfiable(f2) {
        let m = choose|m: Map<Variable, bool>| formula_sat_by(f2, m);
        lemma_insertion_order_irrelevant(f1, f2, m);
        assert(formula_sat_by(f1, m));
    }
}

/// The map agrees with every variable the partial assignment fixes.
pub open spec fn extends_assignment(m: Map<Variable, bool>, asg: Seq<Option<bool>>) -> bool {
    forall|v: int|
        0 <= v < asg.len() && (#[trigger] asg[v]) is Some ==> m.dom().contains(v as Variable)
            && m[v as Variable] == asg[v].unwrap()
}

/// Some extension of the partial assignment satisfies the formula.
pub open spec fn sat_extension(orig: Seq<Set<Literal>>, asg: Seq<Option<bool>>) -> bool {
    exists|m: Map<Variable, bool>| extends_assignment(m, asg) && formula_sat_by(orig, m)
}

/// Law: with nothing assigned, having a satisfying extension is just being
/// satisfiable.
pub proof fn lemma_sat_extension_trivial(orig: Seq<Set<Literal>>, asg: Seq<Option<bool>>)
    requires
        forall|v: int| 0 <= v < asg.len() ==> (#[trigger] asg[v]) is None,
    ensures
        sat_extension(orig, asg) == formula_satisfiable(orig),
{
    if formula_satisfiable(orig) {
        let m = choose|m: Map<Variable, bool>| formula_sat_by(orig, m);
        assert(extends_assignment(m, asg));
        assert(sat_extension(orig, asg));
    }
}

/// Law: when a variable is still open, a satisfying extension survives one of
/// the two ways of deciding it.
pub proof fn lemma_branch_cases(orig: Seq<Set<Literal>>, asg: Seq<Option<bool>>, v: Variable)
    requires
        0 <= v as int && (v as int) < asg.len(),
        asg.len() <= 0x10000,
        asg[v as int] is None,
        sat_extension(orig, asg),
    ensures
        sat_extension(orig, asg.update(v as int, Some(true))) || sat_extension(
            orig,
            asg.update(v as int, Some(false)),
        ),
{
    let m = choose|m: Map<Variable, bool>|
        extends_assignment(m, asg) && formula_sat_by(orig, m);
    if m.dom().contains(v) {
        let b = m[v];
        assert(extends_assignment(m, asg.update(v as int, Some(b)))) by {
            assert forall|v2: int|
                0 <= v2 < asg.update(v as int, Some(b)).len() && (#[trigger] asg.update(
                    v as int,
                    Some(b),
                )[v2]) is Some implies m.dom().contains(v2 as Variable) && m[v2 as Variable]
                == asg.update(v as int, Some(b))[v2].unwrap() by {
                if v2 != v as int {
                    assert(asg[v2] is Some);
                } else {
                    assert(v2 as Variable == v);
                }
            }
        }
        assert(sat_extension(orig, asg.update(v as int, Some(b))));
    } else {
        let m2 = m.insert(v, true);
        assert(formula_sat_by(orig, m2)) by {
            assert forall|c: int| 0 <= c < orig.len() implies clause_sat_by(
                #[trigger] orig[c],
                m2,
            ) by {
                let l = choose|l: Literal|
                    orig[c].contains(l) && m.dom().contains(spec_var(l)) && m[spec_var(l)] == (l
                        > 0);
                assert(spec_var(l) != v);
                assert(m2.dom().contains(spec_var(l)) && m2[spec_var(l)] == (l > 0));
            }
        }
        assert(extends_assignment(m2, asg.update(v as int, Some(true)))) by {
            assert forall|v2: int|
                0 <= v2 < asg.update(v as int, Some(true)).len() && (#[trigger] asg.update(
                    v as int,
                    Some(true),
                )[v2]) is Some implies m2.dom().contains(v2 as Variable) && m2[v2 as Variable]
                == asg.update(v as int, Some(true))[v2].unwrap() by {
                if v2 != v as int {
                    assert(asg[v2] is Some);
                    assert(m.dom().contains(v2 as Variable));
                    assert(v2 as Variable != v || v2 == v as int);
                } else {
                    assert(v2 as Variable == v);
                }
            }
        }
        assert(sat_extension(orig, asg.update(v as int, Some(true))));
    }
}

/// The semantic invariant between the formula as added and the abstract state:
/// an active clause holds exactly its unassigned original literals, none of
/// them satisfied; an inactive clause has a satisfied original literal.
pub open spec fn sem_inv(orig: Seq<Set<Literal>>, s: EngineState) -> bool {
    &&& s.cls.len() == orig.len()
    &&& s.act.len() == orig.len()
    &&& forall|c: int|
        0 <= c < orig.len() && s.act[c] ==> (forall|l: Literal|
            (#[trigger] orig[c].contains(l)) ==> !lit_sat(s.asg, l))
    &&& forall|c: int, l: Literal|
        0 <= c < orig.len() && s.act[c] ==> ((#[trigger] s.cls[c].contains(l)) <==> (orig[
            c].contains(l) && lit_unassigned(s.asg, l)))
    &&& forall|c: int|
        0 <= c < orig.len() && !s.act[c] ==> exists|l: Literal|
            orig[c].contains(l) && lit_sat(s.asg, l)
}

/// How many of the first `n` entries are true.
pub closed spec fn count_true(s: Seq<bool>, n: int) -> int
    decreases n,
{
    if n <= 0 {
        0
    } else {
        count_true(s, n - 1) + if 0 <= n - 1 < s.len() && s[n - 1] {
            1int
        } else {
            0int
        }
    }
}

proof fn lemma_count_true_congruence(s1: Seq<bool>, s2: Seq<bool>, n: int)
    requires
        forall|i: int| 0 <= i < n ==> s1[i] == s2[i],
        n <= s1.len(),
        n <= s2.len(),
    ensures
        count_true(s1, n) == count_true(s2, n),
    decreases n,
{
    if n > 0 {
        lemma_count_true_congruence(s1, s2, n - 1);
    }
}

proof fn lemma_count_true_update(s: Seq<bool>, i: int, v: bool, n: int)
    requires
        0 <= i < n <= s.len(),
    ensures
        count_true(s.update(i, v), n) == count_true(s, n) - (if s[i] {
            1int
        } else {
            0int
        }) + (if v {
            1int
        } else {
            0int
        }),
    decreases n,
{
    if i == n - 1 {
        lemma_count_true_congruence(s.update(i, v), s, n - 1);
    } else {
        lemma_count_true_update(s, i, v, n - 1);
        assert(s.update(i, v)[n - 1] == s[n - 1]);
    }
}

proof fn lemma_count_true_bounds(s: Seq<bool>, n: int)
    requires
        n <= s.len(),
    ensures
        0 <= count_true(s, n) <= if n <= 0 {
            0int
        } else {
            n
        },
    decreases n,
{
    if n > 0 {
        lemma_count_true_bounds(s, n - 1);
    }
}

proof fn lemma_count_true_all_false(s: Seq<bool>, n: int)
    requires
        n <= s.len(),
        count_true(s, n) == 0,
    ensures
        forall|i: int| 0 <= i < n ==> !s[i],
    decreases n,
{
    if n > 0 {
        assert(count_true(s, n) == count_true(s, n - 1) + if s[n - 1] {
            1int
        } else {
            0int
        });
        lemma_count_true_bounds(s, n - 1);
        lemma_count_true_all_false(s, n - 1);
    }
}

proof fn lemma_count_true_zero_of_all_false(s: Seq<bool>, n: int)
    requires
        forall|i: int| 0 <= i < n ==> !s[i],
    ensures
        count_true(s, n) == 0,
    decreases n,
{
    if n > 0 {
        lemma_count_true_zero_of_all_false(s, n - 1);
    }
}

proof fn lemma_count_true_nonzero(s: Seq<bool>, i: int, n: int)
    requires
        0 <= i < n <= s.len(),
        s[i],
    ensures
        count_true(s, n) > 0,
    decreases n,
{
    lemma_count_true_bounds(s, n - 1);
    if i < n - 1 {
        lemma_count_true_nonzero(s, i, n - 1);
    }
}

/// What one more taken element adds to the members of a prefix.
proof fn lemma_take_push_contains<A>(s: Seq<A>, j: int)
    requires
        0 <= j < s.len(),
    ensures
        forall|y: A|
            #[trigger] s.take(j + 1).contains(y) == (s.take(j).contains(y) || y == s[j]),
{
    assert(s.take(j + 1) =~= s.take(j).push(s[j]));
    assert forall|y: A| #[trigger] s.take(j + 1).contains(y) == (s.take(j).contains(y) || y
        == s[j]) by {
        if s.take(j + 1).contains(y) {
            let k = choose|k: int| 0 <= k < j + 1 && #[trigger] s.take(j + 1)[k] == y;
            if k < j {
                assert(s.take(j)[k] == y);
            }
        }
        if s.take(j).contains(y) {
            let k = choose|k: int| 0 <= k < j && #[trigger] s.take(j)[k] == y;
            assert(s.take(j + 1)[k] == y);
        }
        assert(s.take(j + 1)[j] == s[j]);
    }
}

/// One record of the action log, as a transition between abstract states.
/// `l` is the companion literal of the record (meaningful for the
/// literal-removal group records only); `orig` is the formula as added.
pub open spec fn step_ok(
    orig: Seq<Set<Literal>>,
    pre: EngineState,
    a: Action,
    l: Literal,
    post: EngineState,
) -> bool {
    match a {
        Action::AssignVariable(v) => {
            &&& 1 <= v as int && (v as int) < pre.asg.len()
            &&& pre.asg[v as int] is None
            &&& post.asg[v as int] is Some
            &&& post.asg == pre.asg.update(v as int, post.asg[v as int])
            &&& post.cls == pre.cls
            &&& post.act == pre.act
        },
        Action::RemoveClause(c) => {
            &&& 0 <= c as int && (c as int) < pre.act.len()
            &&& pre.act[c as int]
            &&& pre.cls[c as int].finite()
            &&& pre.cls[c as int].len() > 0
            &&& post.act == pre.act.update(c as int, false)
            &&& post.cls == pre.cls
            &&& post.asg == pre.asg
        },
        Action::RemoveLiteralFromClause(c) => {
            &&& 0 <= c as int && (c as int) < pre.act.len()
            &&& (c as int) < orig.len()
            &&& pre.act[c as int]
            &&& pre.cls[c as int].finite()
            &&& pre.cls[c as int].contains(l)
            &&& orig[c as int].contains(l)
            &&& post.cls == pre.cls.update(c as int, pre.cls[c as int].remove(l))
            &&& post.act == pre.act
            &&& post.asg == pre.asg
        },
        Action::RemoveLiteralFromClausesStart() => post == pre,
        Action::RemoveLiteralFromClausesEnd(el) => el == l && post == pre,
    }
}

/// The dimensions of an abstract state match the engine.
pub open spec fn st_wf(s: EngineState, n: int, nv: int) -> bool {
    &&& s.cls.len() == n
    &&& s.act.len() == n
    &&& s.asg.len() == nv + 1
}

/// Neighbouring records of one literal-removal group carry the same literal.
pub open spec fn adj_ok(a: Action, b: Action, la: Literal, lb: Literal) -> bool {
    a matches Action::RemoveLiteralFromClause(_) ==> {
        &&& (b matches Action::RemoveLiteralFromClause(_) ==> lb == la)
        &&& (b matches Action::RemoveLiteralFromClausesEnd(_) ==> lb == la)
    }
}

/// The action log parses as a sequence of whole items: a plain record, or a
/// complete `Start, InClause*, End` literal-removal group.
pub open spec fn log_wf(log: Seq<Action>) -> bool
    decreases log.len(),
{
    if log.len() == 0 {
        true
    } else {
        match log.last() {
            Action::AssignVariable(_) => log_wf(log.drop_last()),
            Action::RemoveClause(_) => log_wf(log.drop_last()),
            Action::RemoveLiteralFromClausesEnd(_) => exists|s: int|
                {
                    &&& 0 <= s < log.len() - 1
                    &&& (#[trigger] log[s]) matches Action::RemoveLiteralFromClausesStart()
                    &&& (forall|j: int|
                        s < j < log.len() - 1 ==> (#[trigger] log[j]) matches Action::RemoveLiteralFromClause(
                            _,
                        ))
                    &&& log_wf(log.take(s))
                },
            _ => false,
        }
    }
}

proof fn lemma_log_wf_push_plain(log: Seq<Action>, a: Action)
    requires
        log_wf(log),
        a matches Action::AssignVariable(_) || a matches Action::RemoveClause(_),
    ensures
        log_wf(log.push(a)),
{
    assert(log.push(a).drop_last() =~= log);
}

/// Weights of the two occurrence counts in the `MinimizeClauseLength` score.
pub const ALPHA: usize = 1;

pub const BETA: usize = 1;

/// Distinct clause ids below a bound cannot outnumber the bound.
proof fn lemma_distinct_cids_bounded(s: Seq<ClauseId>, n: int)
    requires
        s.no_duplicates(),
        forall|k: int| 0 <= k < s.len() ==> (#[trigger] s[k] as int) < n,
        n >= 0,
    ensures
        s.len() <= n,
    decreases n,
{
    if s.len() > 0 {
        if n == 0 {
            assert((s[0] as int) < 0);
        } else if exists|k: int| 0 <= k < s.len() && (#[trigger] s[k] as int) == n - 1 {
            let k = choose|k: int| 0 <= k < s.len() && (#[trigger] s[k] as int) == n - 1;
            let s2 = s.remove(k);
            assert(s2.no_duplicates()) by {
                assert forall|p: int, q: int|
                    0 <= p < s2.len() && 0 <= q < s2.len() && p != q implies s2[p] != s2[q] by {
                    let sp = if p < k {
                        p
                    } else {
                        p + 1
                    };
                    let sq = if q < k {
                        q
                    } else {
                        q + 1
                    };
                    assert(s2[p] == s[sp] && s2[q] == s[sq]);
                }
            }
            assert forall|k2: int| 0 <= k2 < s2.len() implies (#[trigger] s2[k2] as int) < n
                - 1 by {
                let sk = if k2 < k {
                    k2
                } else {
                    k2 + 1
                };
                assert(s2[k2] == s[sk]);
                assert(s[sk] != s[k]);
            }
            lemma_distinct_cids_bounded(s2, n - 1);
        } else {
            assert forall|k: int| 0 <= k < s.len() implies (#[trigger] s[k] as int) < n - 1 by {}
            lemma_distinct_cids_bounded(s, n - 1);
        }
    }
}

/// Copies a vector of clause ids.
fn copy_cids(v: &Vec<ClauseId>) -> (r: Vec<ClauseId>)
    ensures
        r@ == v@,
{
    let mut out: Vec<ClauseId> = Vec::new();
    let n = v.len();
    let mut i: usize = 0;
    while i < n
        invariant
            n == v@.len(),
            i <= n,
            out@ == v@.take(i as int),
        decreases n - i,
    {
        out.push(v[i]);
        proof {
            assert(v@.take(i + 1) =~= v@.take(i as int).push(v@[i as int]));
        }
        i = i + 1;
    }
    proof {
        assert(v@.take(n as int) =~= v@);
    }
    out
}

/// Adds a literal to a duplicate-free vector treated as a set.
fn vecset_insert_lit(v: &mut Vec<Literal>, x: Literal)
    requires
        old(v)@.no_duplicates(),
    ensures
        final(v)@.no_duplicates(),
        forall|l: Literal| #[trigger] final(v)@.contains(l) == (old(v)@.contains(l) || l == x),
{
    let ghost orig = v@;
    let mut i: usize = 0;
    while i < v.len()
        invariant
            orig == old(v)@,
            orig.no_duplicates(),
            v@ == orig,
            i <= orig.len(),
            forall|j: int| 0 <= j < i ==> orig[j] != x,
        decreases orig.len() - i,
    {
        if v[i] == x {
            return ;
        }
        i = i + 1;
    }
    v.push(x);
    proof {
        assert forall|l: Literal| #[trigger] v@.contains(l) == (orig.contains(l) || l == x) by {
            if orig.contains(l) {
                let j = choose|j: int| 0 <= j < orig.len() && orig[j] == l;
                assert(v@[j] == l);
            }
            if v@.contains(l) {
                let j = choose|j: int| 0 <= j < v@.len() && v@[j] == l;
                if j < orig.len() {
                    assert(orig[j] == l);
                }
            }
            assert(v@[orig.len() as int] == x);
        }
    }
}

/// Removes a literal from a duplicate-free vector treated as a set.
fn vecset_remove_lit(v: &mut Vec<Literal>, x: Literal)
    requires
        old(v)@.no_duplicates(),
    ensures
        final(v)@.no_duplicates(),
        forall|l: Literal| #[trigger] final(v)@.contains(l) == (old(v)@.contains(l) && l != x),
{
    let ghost orig = v@;
    let mut i: usize = 0;
    while i < v.len()
        invariant
            orig == old(v)@,
            orig.no_duplicates(),
            v@ == orig,
            i <= orig.len(),
            forall|j: int| 0 <= j < i ==> orig[j] != x,
        decreases orig.len() - i,
    {
        if v[i] == x {
            v.swap_remove(i);
            proof {
                crate::cnf::lemma_vecset_swap_remove(orig, i as int);
            }
            return ;
        }
        i = i + 1;
    }
    proof {
        assert forall|l: Literal| #[trigger] v@.contains(l) == (orig.contains(l) && l != x) by {
            if orig.contains(l) && l == x {
                let j = choose|j: int| 0 <= j < orig.len() && orig[j] == l;
            }
        }
    }
}

/// Adds an id to a duplicate-free vector treated as a set.
fn vecset_insert_u16(v: &mut Vec<u16>, x: u16)
    requires
        old(v)@.no_duplicates(),
    ensures
        final(v)@.no_duplicates(),
        forall|c: ClauseId| #[trigger] final(v)@.contains(c) == (old(v)@.contains(c) || c == x),
{
    let ghost orig = v@;
    let mut i: usize = 0;
    while i < v.len()
        invariant
            orig == old(v)@,
            orig.no_duplicates(),
            v@ == orig,
            i <= orig.len(),
            forall|j: int| 0 <= j < i ==> orig[j] != x,
        decreases orig.len() - i,
    {
        if v[i] == x {
            return ;
        }
        i = i + 1;
    }
    v.push(x);
    proof {
        assert forall|c: ClauseId| #[trigger] v@.contains(c) == (orig.contains(c) || c == x) by {
            if orig.contains(c) {
                let j = choose|j: int| 0 <= j < orig.len() && orig[j] == c;
                assert(v@[j] == c);
            }
            if v@.contains(c) {
                let j = choose|j: int| 0 <= j < v@.len() && v@[j] == c;
                if j < orig.len() {
                    assert(orig[j] == c);
                }
            }
            assert(v@[orig.len() as int] == x);
        }
    }
}

/// Removes an id from a duplicate-free vector treated as a set.
fn vecset_remove_u16(v: &mut Vec<u16>, x: u16)
    requires
        old(v)@.no_duplicates(),
    ensures
        final(v)@.no_duplicates(),
        forall|c: ClauseId| #[trigger] final(v)@.contains(c) == (old(v)@.contains(c) && c != x),
{
    let ghost orig = v@;
    let mut i: usize = 0;
    while i < v.len()
        invariant
            orig == old(v)@,
            orig.no_duplicates(),
            v@ == orig,
            i <= orig.len(),
            forall|j: int| 0 <= j < i ==> orig[j] != x,
        decreases orig.len() - i,
    {
        if v[i] == x {
            v.swap_remove(i);
            proof {
                crate::cnf::lemma_vecset_swap_remove(orig, i as int);
            }
            return ;
        }
        i = i + 1;
    }
    proof {
        assert forall|c: ClauseId| #[trigger] v@.contains(c) == (orig.contains(c) && c != x) by {
            if orig.contains(c) && c == x {
                let j = choose|j: int| 0 <= j < orig.len() && orig[j] == c;
            }
        }
    }
}

/// `wf_clauses` depends only on the clause vector and the variable bound.
proof fn lemma_wf_clauses_transfer(a: Expression, b: Expression)
    requires
        a.wf_clauses(),
        b.clauses == a.clauses,
        b.num_vars == a.num_vars,
    ensures
        b.wf_clauses(),
{
    assert forall|c: int| 0 <= c < b.n_clauses() implies (#[trigger] b.cl(c)).no_duplicates()
        && (forall|i: int| 0 <= i < b.cl(c).len() ==> b.lit_ok(#[trigger] b.cl(c)[i])) by {
        assert(b.cl(c) == a.cl(c));
        assert(a.cl(c).no_duplicates());
        assert forall|i: int| 0 <= i < b.cl(c).len() implies b.lit_ok(#[trigger] b.cl(c)[i]) by {
            assert(a.lit_ok(a.cl(c)[i]));
        }
    }
}

/// `vars_ok` depends only on the variable list, the original formula and the
/// variable bound.
proof fn lemma_vars_transfer(a: Expression, b: Expression)
    requires
        a.vars_ok(),
        b.variables == a.variables,
        b.orig == a.orig,
        b.clauses@.len() == a.clauses@.len(),
        b.num_vars == a.num_vars,
    ensures
        b.vars_ok(),
{
    assert forall|v: Variable| #[trigger] b.var_occurs(v) == a.var_occurs(v) by {
        if a.var_occurs(v) {
            let c = choose|c: int|
                0 <= c < a.n_clauses() && ((#[trigger] a.orig_of(c)).contains(v as Literal)
                    || a.orig_of(c).contains((-(v as int)) as Literal));
            assert(b.orig_of(c) == a.orig_of(c));
        }
        if b.var_occurs(v) {
            let c = choose|c: int|
                0 <= c < b.n_clauses() && ((#[trigger] b.orig_of(c)).contains(v as Literal)
                    || b.orig_of(c).contains((-(v as int)) as Literal));
            assert(a.orig_of(c) == b.orig_of(c));
        }
    }
    assert forall|k: int| 0 <= k < b.variables@.len() implies b.var_entry_ok(
        #[trigger] b.variables@[k],
    ) by {
        assert(a.var_entry_ok(a.variables@[k]));
    }
}

/// `orig_ok` depends only on the original formula, the clause vector and the
/// variable bound.
proof fn lemma_orig_transfer(a: Expression, b: Expression)
    requires
        a.orig_ok(),
        b.orig == a.orig,
        b.clauses == a.clauses,
        b.num_vars == a.num_vars,
    ensures
        b.orig_ok(),
{
    assert forall|c: int| 0 <= c < b.n_clauses() implies {
        &&& (#[trigger] b.orig_of(c)).finite()
        &&& (forall|l: Literal| (#[trigger] b.orig_of(c).contains(l)) ==> b.lit_ok(l))
        &&& (forall|l: Literal| (#[trigger] b.cset(c).contains(l)) ==> b.orig_of(c).contains(l))
    } by {
        assert(b.orig_of(c) == a.orig_of(c));
        assert(b.cset(c) == a.cset(c));
        assert(a.orig_of(c).finite());
        assert forall|l: Literal| (#[trigger] b.orig_of(c).contains(l)) implies b.lit_ok(l) by {
            assert(a.orig_of(c).contains(l));
            assert(a.lit_ok(l));
        }
        assert forall|l: Literal| (#[trigger] b.cset(c).contains(l)) implies b.orig_of(
            c,
        ).contains(l) by {
            assert(a.cset(c).contains(l));
        }
    }
}

/// The index invariants do not depend on the assignment vector, the log or the
/// heuristic.
proof fn lemma_idx_transfer(a: Expression, b: Expression)
    requires
        b.clauses == a.clauses,
        b.active == a.active,
        b.pos_occ == a.pos_occ,
        b.neg_occ == a.neg_occ,
        b.unit_clauses == a.unit_clauses,
        b.num_vars == a.num_vars,
        b.num_active_clauses == a.num_active_clauses,
        b.num_empty_clauses == a.num_empty_clauses,
        a.occ_ok(),
        a.unit_ok(),
        a.counts_ok(),
    ensures
        b.occ_ok(),
        b.unit_ok(),
        b.counts_ok(),
{
    assert(b.occ_ok()) by {
        assert forall|l: Literal| #[trigger] b.lit_ok(l) implies {
            &&& b.occ_seq(l as int).no_duplicates()
            &&& (forall|k: int|
                0 <= k < b.occ_seq(l as int).len() ==> b.occ_entry_ok(
                    l,
                    #[trigger] b.occ_seq(l as int)[k],
                ))
            &&& (forall|c: int|
                0 <= c < b.n_clauses() && b.is_act(c) && (#[trigger] b.cl(c)).contains(l)
                    ==> b.occ_seq(l as int).contains(c as ClauseId))
        } by {
            assert(a.lit_ok(l));
            assert(b.occ_seq(l as int) == a.occ_seq(l as int));
            assert forall|k: int| 0 <= k < b.occ_seq(l as int).len() implies b.occ_entry_ok(
                l,
                #[trigger] b.occ_seq(l as int)[k],
            ) by {
                assert(a.occ_entry_ok(l, a.occ_seq(l as int)[k]));
            }
            assert forall|c: int|
                0 <= c < b.n_clauses() && b.is_act(c) && (#[trigger] b.cl(c)).contains(
                    l,
                ) implies b.occ_seq(l as int).contains(c as ClauseId) by {
                assert(a.is_act(c) && a.cl(c).contains(l));
            }
        }
    }
    assert(b.unit_ok()) by {
        assert forall|k: int| 0 <= k < b.unit_clauses@.len() implies b.unit_entry_ok(
            #[trigger] b.unit_clauses@[k],
        ) by {
            assert(a.unit_entry_ok(a.unit_clauses@[k]));
        }
        assert forall|c: int|
            0 <= c < b.n_clauses() && b.is_act(c) && (#[trigger] b.cl(c)).len()
                == 1 implies b.unit_clauses@.contains(c as ClauseId) by {
            assert(a.is_act(c) && a.cl(c).len() == 1);
        }
    }
    assert(b.counts_ok()) by {
        assert(b.empty_flags() =~= a.empty_flags());
        assert(b.active@ == a.active@);
    }
}

/// The pure-literal invariant depends only on the pure set, the occurrence
/// index and the variable bound.
proof fn lemma_pure_transfer(a: Expression, b: Expression)
    requires
        b.pure_literals == a.pure_literals,
        b.pos_occ == a.pos_occ,
        b.neg_occ == a.neg_occ,
        b.num_vars == a.num_vars,
        a.pure_ok(),
    ensures
        b.pure_ok(),
{
    assert forall|k: int| 0 <= k < b.pure_literals@.len() implies b.is_pure(
        #[trigger] b.pure_literals@[k],
    ) by {
        let l = a.pure_literals@[k];
        assert(a.is_pure(l));
        assert(b.occ_seq(l as int) == a.occ_seq(l as int));
        assert(b.occ_seq(-(l as int)) == a.occ_seq(-(l as int)));
    }
    assert forall|l: Literal| #[trigger] b.is_pure(l) implies b.pure_literals@.contains(l) by {
        assert(b.occ_seq(l as int) == a.occ_seq(l as int));
        assert(b.occ_seq(-(l as int)) == a.occ_seq(-(l as int)));
        assert(a.is_pure(l));
    }
}

/// Everything but the heuristic, the action log and the log's ghost mirror is
/// equal: the structural invariant components and the abstract state carry
/// over from `a` to `b`.
proof fn lemma_core_transfer(a: Expression, b: Expression)
    requires
        b.clauses == a.clauses,
        b.active == a.active,
        b.pos_occ == a.pos_occ,
        b.neg_occ == a.neg_occ,
        b.unit_clauses == a.unit_clauses,
        b.pure_literals == a.pure_literals,
        b.variables == a.variables,
        b.assignments == a.assignments,
        b.num_vars == a.num_vars,
        b.num_active_clauses == a.num_active_clauses,
        b.num_empty_clauses == a.num_empty_clauses,
        b.orig == a.orig,
    ensures
        b.abs() == a.abs(),
        a.wf_dims() ==> b.wf_dims(),
        a.wf_clauses() ==> b.wf_clauses(),
        a.occ_ok() ==> b.occ_ok(),
        a.unit_ok() ==> b.unit_ok(),
        a.pure_ok() ==> b.pure_ok(),
        a.counts_ok() ==> b.counts_ok(),
        a.vars_ok() ==> b.vars_ok(),
        a.orig_ok() ==> b.orig_ok(),
        a.wf_sem() ==> b.wf_sem(),
        b.n_unassigned() == a.n_unassigned(),
{
    assert(b.abs().cls =~= a.abs().cls);
    assert(b.abs() == a.abs());
    assert(b.empty_flags() =~= a.empty_flags());
    assert(b.unassigned_flags() =~= a.unassigned_flags());
    if a.wf_clauses() {
        assert forall|c: int| 0 <= c < b.n_clauses() implies (#[trigger] b.cl(
            c,
        )).no_duplicates() && (forall|i: int|
            0 <= i < b.cl(c).len() ==> b.lit_ok(#[trigger] b.cl(c)[i])) by {
            assert(b.cl(c) == a.cl(c));
            assert(a.cl(c).no_duplicates());
            assert forall|i: int| 0 <= i < b.cl(c).len() implies b.lit_ok(
                #[trigger] b.cl(c)[i],
            ) by {
                assert(a.lit_ok(a.cl(c)[i]));
            }
        }
    }
    if a.occ_ok() {
        assert forall|l: Literal| #[trigger] b.lit_ok(l) implies {
            &&& b.occ_seq(l as int).no_duplicates()
            &&& (forall|k: int|
                0 <= k < b.occ_seq(l as int).len() ==> b.occ_entry_ok(
                    l,
                    #[trigger] b.occ_seq(l as int)[k],
                ))
            &&& (forall|c: int|
                0 <= c < b.n_clauses() && b.is_act(c) && (#[trigger] b.cl(c)).contains(l)
                    ==> b.occ_seq(l as int).contains(c as ClauseId))
        } by {
            assert(a.lit_ok(l));
            assert(b.occ_seq(l as int) == a.occ_seq(l as int));
            assert forall|k: int| 0 <= k < b.occ_seq(l as int).len() implies b.occ_entry_ok(
                l,
                #[trigger] b.occ_seq(l as int)[k],
            ) by {
                assert(a.occ_entry_ok(l, a.occ_seq(l as int)[k]));
            }
            assert forall|c: int|
                0 <= c < b.n_clauses() && b.is_act(c) && (#[trigger] b.cl(c)).contains(
                    l,
                ) implies b.occ_seq(l as int).contains(c as ClauseId) by {
                assert(a.is_act(c) && a.cl(c).contains(l));
                assert(a.occ_seq(l as int).contains(c as ClauseId));
            }
        }
    }
    if a.unit_ok() {
        assert forall|k: int| 0 <= k < b.unit_clauses@.len() implies b.unit_entry_ok(
            #[trigger] b.unit_clauses@[k],
        ) by {
            assert(a.unit_entry_ok(a.unit_clauses@[k]));
        }
        assert forall|c: int|
            0 <= c < b.n_clauses() && b.is_act(c) && (#[trigger] b.cl(c)).len()
                == 1 implies b.unit_clauses@.contains(c as ClauseId) by {
            assert(a.is_act(c) && a.cl(c).len() == 1);
        }
    }
    if a.pure_ok() {
        assert forall|k: int| 0 <= k < b.pure_literals@.len() implies b.is_pure(
            #[trigger] b.pure_literals@[k],
        ) by {
            let l = a.pure_literals@[k];
            assert(a.is_pure(l));
            assert(b.occ_seq(l as int) == a.occ_seq(l as int));
            assert(b.occ_seq(-(l as int)) == a.occ_seq(-(l as int)));
        }
        assert forall|l: Literal| #[trigger] b.is_pure(l) implies b.pure_literals@.contains(
            l,
        ) by {
            assert(b.occ_seq(l as int) == a.occ_seq(l as int));
            assert(b.occ_seq(-(l as int)) == a.occ_seq(-(l as int)));
            assert(a.is_pure(l));
        }
    }
    if a.vars_ok() {
        assert forall|k: int| 0 <= k < b.variables@.len() implies b.var_entry_ok(
            #[trigger] b.variables@[k],
        ) by {
            let v = a.variables@[k];
            assert(a.var_entry_ok(v));
            assert(a.var_occurs(v) ==> b.var_occurs(v)) by {
                if a.var_occurs(v) {
                    let c = choose|c: int|
                        0 <= c < a.n_clauses() && ((#[trigger] a.orig_of(c)).contains(
                            v as Literal,
                        ) || a.orig_of(c).contains((-(v as int)) as Literal));
                    assert(b.orig_of(c) == a.orig_of(c));
                }
            }
        }
        assert forall|v: Variable| #[trigger] b.var_occurs(v) implies b.variables@.contains(
            v,
        ) by {
            let c = choose|c: int|
                0 <= c < b.n_clauses() && ((#[trigger] b.orig_of(c)).contains(v as Literal)
                    || b.orig_of(c).contains((-(v as int)) as Literal));
            assert(a.orig_of(c) == b.orig_of(c));
            assert(a.var_occurs(v));
        }
    }
    if a.orig_ok() {
        assert forall|c: int| 0 <= c < b.n_clauses() implies {
            &&& (#[trigger] b.orig_of(c)).finite()
            &&& (forall|l: Literal| (#[trigger] b.orig_of(c).contains(l)) ==> b.lit_ok(l))
            &&& (forall|l: Literal|
                (#[trigger] b.cset(c).contains(l)) ==> b.orig_of(c).contains(l))
        } by {
            assert(b.orig_of(c) == a.orig_of(c));
            assert(b.cset(c) == a.cset(c));
            assert(a.orig_of(c).finite());
            assert forall|l: Literal| (#[trigger] b.orig_of(c).contains(l)) implies b.lit_ok(
                l,
            ) by {
                assert(a.orig_of(c).contains(l));
                assert(a.lit_ok(l));
            }
            assert forall|l: Literal| (#[trigger] b.cset(c).contains(l)) implies b.orig_of(
                c,
            ).contains(l) by {
                assert(a.cset(c).contains(l));
            }
        }
    }
}

/// The log, its ghost mirror and the abstract state are equal: the log
/// invariant carries over.
proof fn lemma_log_transfer(a: Expression, b: Expression)
    requires
        a.log_ok(),
        b.actions == a.actions,
        b.hist == a.hist,
        b.hlits == a.hlits,
        b.orig == a.orig,
        b.abs() == a.abs(),
        b.clauses@.len() == a.clauses@.len(),
        b.num_vars == a.num_vars,
    ensures
        b.log_ok(),
{
    assert forall|i: int| 0 <= i <= b.log().len() implies st_wf(
        #[trigger] b.at_st(i),
        b.n_clauses(),
        b.nv(),
    ) by {
        assert(b.at_st(i) == a.at_st(i));
        assert(st_wf(a.at_st(i), a.n_clauses(), a.nv()));
    }
    assert forall|i: int| 0 <= i < b.log().len() implies step_ok(
        b.orig@,
        b.at_st(i),
        #[trigger] b.log()[i],
        b.hlits@[i],
        b.at_st(i + 1),
    ) by {
        assert(b.at_st(i) == a.at_st(i));
        assert(b.at_st(i + 1) == a.at_st(i + 1));
        assert(step_ok(a.orig@, a.at_st(i), a.log()[i], a.hlits@[i], a.at_st(i + 1)));
    }
    assert forall|i: int| 0 <= i < b.log().len() - 1 implies adj_ok(
        #[trigger] b.log()[i],
        b.log()[i + 1],
        b.hlits@[i],
        b.hlits@[i + 1],
    ) by {
        assert(adj_ok(a.log()[i], a.log()[i + 1], a.hlits@[i], a.hlits@[i + 1]));
    }
}

/// After popping back to depth `j` and restoring the abstract state that the
/// history records for that depth, the log invariant holds again.
proof fn lemma_log_ok_after_pop(o: Expression, b: Expression, j: int)
    requires
        o.log_ok(),
        0 <= j <= o.log().len(),
        b.actions@ == o.log().take(j),
        b.hist@ == o.hist@.take(j),
        b.hlits@ == o.hlits@.take(j),
        b.orig == o.orig,
        b.abs() == o.at_st(j),
        log_wf(o.log().take(j)),
        b.clauses@.len() == o.clauses@.len(),
        b.num_vars == o.num_vars,
    ensures
        b.log_ok(),
        forall|i: int| 0 <= i <= j ==> b.at_st(i) == o.at_st(i),
{
    assert forall|i: int| 0 <= i <= j implies b.at_st(i) == o.at_st(i) by {}
    assert forall|i: int| 0 <= i <= b.log().len() implies st_wf(
        #[trigger] b.at_st(i),
        b.n_clauses(),
        b.nv(),
    ) by {
        assert(b.at_st(i) == o.at_st(i));
        assert(st_wf(o.at_st(i), o.n_clauses(), o.nv()));
    }
    assert forall|i: int| 0 <= i < b.log().len() implies step_ok(
        b.orig@,
        b.at_st(i),
        #[trigger] b.log()[i],
        b.hlits@[i],
        b.at_st(i + 1),
    ) by {
        assert(b.log()[i] == o.log()[i]);
        assert(b.at_st(i) == o.at_st(i));
        assert(b.at_st(i + 1) == o.at_st(i + 1));
        assert(step_ok(o.orig@, o.at_st(i), o.log()[i], o.hlits@[i], o.at_st(i + 1)));
    }
    assert forall|i: int| 0 <= i < b.log().len() - 1 implies adj_ok(
        #[trigger] b.log()[i],
        b.log()[i + 1],
        b.hlits@[i],
        b.hlits@[i + 1],
    ) by {
        assert(b.log()[i] == o.log()[i] && b.log()[i + 1] == o.log()[i + 1]);
        assert(adj_ok(o.log()[i], o.log()[i + 1], o.hlits@[i], o.hlits@[i + 1]));
    }
}

/// Within one literal-removal group, every record carries the group's literal.
proof fn lemma_group_lits(log: Seq<Action>, hlits: Seq<Literal>, s: int, e: int, lit: Literal)
    requires
        log.len() == hlits.len(),
        0 <= s < e < log.len(),
        forall|i: int|
            0 <= i < log.len() - 1 ==> adj_ok(
                #[trigger] log[i],
                log[i + 1],
                hlits[i],
                hlits[i + 1],
            ),
        hlits[e] == lit,
        (log[e] matches Action::RemoveLiteralFromClausesEnd(_)) || (log[e] matches Action::RemoveLiteralFromClause(
            _,
        )),
        forall|t: int| s < t < e ==> (#[trigger] log[t]) matches Action::RemoveLiteralFromClause(_),
    ensures
        forall|t: int| s < t <= e ==> hlits[t] == lit,
    decreases e - s,
{
    if e - 1 > s {
        assert(log[e - 1] matches Action::RemoveLiteralFromClause(_));
        assert(adj_ok(log[e - 1], log[e], hlits[e - 1], hlits[e]));
        assert(hlits[e - 1] == lit);
        lemma_group_lits(log, hlits, s, e - 1, lit);
    }
}

/// The unassigned-variable count is never negative.
pub proof fn lemma_n_unassigned_nonneg(e: Expression)
    ensures
        e.n_unassigned() >= 0,
{
    lemma_count_true_bounds(e.unassigned_flags(), e.unassigned_flags().len() as int);
}

/// A well-formed engine's whole log is well formed.
pub proof fn lemma_wf_log_exposed(e: Expression)
    requires
        e.wf(),
    ensures
        log_wf(e.log()),
        log_wf(e.log().take(e.log().len() as int)),
{
    assert(e.log().take(e.log().len() as int) =~= e.log());
}

/// At the top of the log, the recorded state is the current one.
pub proof fn lemma_at_st_top(e: Expression)
    requires
        e.wf(),
    ensures
        e.at_st(e.log().len() as int) == e.abs(),
{
}

/// The per-variable assignment is a function of the abstract state.
pub proof fn lemma_asg_of_abs(a: Expression, b: Expression)
    requires
        b.abs() == a.abs(),
    ensures
        forall|v: int| b.asg_of(v) == a.asg_of(v),
        b.asg_seq() == a.asg_seq(),
{
    assert(b.assignments@ == b.abs().asg);
    assert(a.assignments@ == a.abs().asg);
}

/// The number of unassigned variables is a function of the abstract state.
pub proof fn lemma_n_unassigned_of_abs(a: Expression, b: Expression)
    requires
        b.abs() == a.abs(),
        b.nv() == a.nv(),
    ensures
        b.n_unassigned() == a.n_unassigned(),
{
    assert(b.assignments@ == b.abs().asg);
    assert(b.unassigned_flags() =~= a.unassigned_flags());
}

/// The indexed CNF formula with its undo log.
pub struct Expression {
    clauses: Vec<Clause>,
    active: Vec<bool>,
    pos_occ: Vec<Vec<ClauseId>>,
    neg_occ: Vec<Vec<ClauseId>>,
    unit_clauses: Vec<ClauseId>,
    pure_literals: Vec<Literal>,
    variables: Vec<Variable>,
    assignments: Vec<Option<bool>>,
    num_vars: u16,
    num_active_clauses: u16,
    num_empty_clauses: usize,
    max_clause_length: usize,
    pub heuristic: SolverHeuristic,
    actions: Stack<Action>,
    orig: Ghost<Seq<Set<Literal>>>,
    hist: Ghost<Seq<EngineState>>,
    hlits: Ghost<Seq<Literal>>,
}

impl Expression {
    /// The number of clauses ever added.
    pub closed spec fn n_clauses(self) -> int {
        self.clauses@.len() as int
    }

    /// The largest variable ever seen.
    pub closed spec fn nv(self) -> int {
        self.num_vars as int
    }

    /// The literals currently in clause `c`, in storage order.
    pub closed spec fn cl(self, c: int) -> Seq<Literal> {
        self.clauses@[c]@
    }

    /// The literals currently in clause `c`, as a set.
    pub open spec fn cset(self, c: int) -> Set<Literal> {
        self.cl(c).to_set()
    }

    /// Whether clause `c` is active (not soft-removed).
    pub closed spec fn is_act(self, c: int) -> bool {
        self.active@[c]
    }

    /// The current assignment of variable `v`.
    pub closed spec fn asg_of(self, v: int) -> Option<bool> {
        self.assignments@[v]
    }

    /// The whole assignment vector, indexed by variable.
    pub closed spec fn asg_seq(self) -> Seq<Option<bool>> {
        self.assignments@
    }

    /// The formula as added: the literal set of each clause.
    pub closed spec fn orig_of(self, c: int) -> Set<Literal> {
        self.orig@[c]
    }

    /// The whole original formula.
    pub closed spec fn orig_formula(self) -> Seq<Set<Literal>> {
        self.orig@
    }

    /// The clause ids currently indexed under literal `l`.
    pub closed spec fn occ_seq(self, l: int) -> Seq<ClauseId> {
        if l > 0 {
            self.pos_occ@[l]@
        } else {
            self.neg_occ@[-l]@
        }
    }

    /// A literal within the range of the known variables.
    pub open spec fn lit_ok(self, l: Literal) -> bool {
        l != 0 && -self.nv() <= l as int <= self.nv()
    }

    /// The literal occurs in some active clause and its negation in none.
    pub open spec fn is_pure(self, l: Literal) -> bool {
        &&& self.lit_ok(l)
        &&& self.occ_seq(l as int).len() > 0
        &&& self.occ_seq(-(l as int)).len() == 0
    }

    /// The current action log.
    pub closed spec fn log(self) -> Seq<Action> {
        self.actions@
    }

    /// The abstract state of the engine.
    pub closed spec fn abs(self) -> EngineState {
        EngineState {
            cls: Seq::new(self.clauses@.len(), |c: int| self.cset(c)),
            act: self.active@,
            asg: self.assignments@,
        }
    }

    /// The abstract state as it was when the log had depth `i`.
    pub closed spec fn at_st(self, i: int) -> EngineState {
        if i < self.hist@.len() {
            self.hist@[i]
        } else {
            self.abs()
        }
    }

    /// The exec mirror sets equal the number of unit and of pure entries.
    pub closed spec fn spec_unit_clauses(self) -> Seq<ClauseId> {
        self.unit_clauses@
    }

    pub closed spec fn spec_pure_literals(self) -> Seq<Literal> {
        self.pure_literals@
    }

    pub closed spec fn spec_variables(self) -> Seq<Variable> {
        self.variables@
    }

    pub closed spec fn spec_num_active(self) -> int {
        self.num_active_clauses as int
    }

    pub closed spec fn spec_num_empty(self) -> int {
        self.num_empty_clauses as int
    }

    /// The heuristic currently selected.
    pub closed spec fn spec_heuristic(self) -> SolverHeuristic {
        self.heuristic
    }

    /// The two expressions agree on everything but the action log and its
    /// ghost mirror.
    pub closed spec fn non_log_eq(self, other: Expression) -> bool {
        &&& self.clauses == other.clauses
        &&& self.active == other.active
        &&& self.pos_occ == other.pos_occ
        &&& self.neg_occ == other.neg_occ
        &&& self.unit_clauses == other.unit_clauses
        &&& self.pure_literals == other.pure_literals
        &&& self.variables == other.variables
        &&& self.assignments == other.assignments
        &&& self.num_vars == other.num_vars
        &&& self.num_active_clauses == other.num_active_clauses
        &&& self.num_empty_clauses == other.num_empty_clauses
        &&& self.max_clause_length == other.max_clause_length
        &&& self.heuristic == other.heuristic
        &&& self.orig == other.orig
    }

    /// The two expressions agree on everything but the heuristic.
    pub closed spec fn non_heuristic_eq(self, other: Expression) -> bool {
        &&& self.clauses == other.clauses
        &&& self.active == other.active
        &&& self.pos_occ == other.pos_occ
        &&& self.neg_occ == other.neg_occ
        &&& self.unit_clauses == other.unit_clauses
        &&& self.pure_literals == other.pure_literals
        &&& self.variables == other.variables
        &&& self.assignments == other.assignments
        &&& self.num_vars == other.num_vars
        &&& self.num_active_clauses == other.num_active_clauses
        &&& self.num_empty_clauses == other.num_empty_clauses
        &&& self.max_clause_length == other.max_clause_length
        &&& self.actions == other.actions
        &&& self.orig == other.orig
        &&& self.hist == other.hist
        &&& self.hlits == other.hlits
    }

    /// The variable occurs (in either polarity) in the formula as added.
    pub open spec fn var_occurs(self, v: Variable) -> bool {
        &&& 1 <= v as int <= 32767
        &&& exists|c: int|
            0 <= c < self.n_clauses() && ((#[trigger] self.orig_of(c)).contains(v as Literal)
                || self.orig_of(c).contains((-(v as int)) as Literal))
    }

    /// Every assigned variable is a known variable of the formula.
    pub open spec fn assigned_known(self) -> bool {
        forall|v: int|
            1 <= v <= self.nv() && (#[trigger] self.asg_of(v)) is Some
                ==> self.spec_variables().contains(v as Variable)
    }

    /// No variable is assigned.
    pub open spec fn all_unassigned(self) -> bool {
        forall|v: int| 0 <= v <= self.nv() ==> self.asg_of(v) is None
    }

    /// The per-clause "active and currently empty" flags.
    pub closed spec fn empty_flags(self) -> Seq<bool> {
        Seq::new(self.clauses@.len(), |c: int| self.is_act(c) && self.cl(c).len() == 0)
    }

    /// Sizes agree across the parallel vectors.
    pub closed spec fn wf_dims(self) -> bool {
        &&& self.clauses@.len() == self.active@.len()
        &&& self.clauses@.len() == self.orig@.len()
        &&& self.clauses@.len() <= 0xFFFF
        &&& self.num_vars <= 32767
        &&& self.pos_occ@.len() == self.nv() + 1
        &&& self.neg_occ@.len() == self.nv() + 1
        &&& self.assignments@.len() == self.nv() + 1
        &&& self.asg_of(0) is None
    }

    /// Clauses hold in-range, duplicate-free literals.
    pub closed spec fn wf_clauses(self) -> bool {
        forall|c: int|
            0 <= c < self.n_clauses() ==> (#[trigger] self.cl(c)).no_duplicates() && (forall|
                i: int,
            |
                0 <= i < self.cl(c).len() ==> self.lit_ok(#[trigger] self.cl(c)[i]))
    }

    /// A valid entry of the literal index under `l`.
    pub closed spec fn occ_entry_ok(self, l: Literal, cid: ClauseId) -> bool {
        &&& (cid as int) < self.n_clauses()
        &&& self.is_act(cid as int)
        &&& self.cl(cid as int).contains(l)
    }

    /// The literal index lists exactly the active clauses containing each literal.
    pub closed spec fn occ_ok(self) -> bool {
        forall|l: Literal|
            #[trigger] self.lit_ok(l) ==> {
                &&& self.occ_seq(l as int).no_duplicates()
                &&& (forall|k: int|
                    0 <= k < self.occ_seq(l as int).len() ==> self.occ_entry_ok(
                        l,
                        #[trigger] self.occ_seq(l as int)[k],
                    ))
                &&& (forall|c: int|
                    0 <= c < self.n_clauses() && self.is_act(c) && (#[trigger] self.cl(
                        c,
                    )).contains(l) ==> self.occ_seq(l as int).contains(c as ClauseId))
            }
    }

    /// A valid entry of the unit-clause set.
    pub closed spec fn unit_entry_ok(self, cid: ClauseId) -> bool {
        &&& (cid as int) < self.n_clauses()
        &&& self.is_act(cid as int)
        &&& self.cl(cid as int).len() == 1
    }

    /// The unit set lists exactly the active clauses of length one.
    pub closed spec fn unit_ok(self) -> bool {
        &&& self.unit_clauses@.no_duplicates()
        &&& (forall|k: int|
            0 <= k < self.unit_clauses@.len() ==> self.unit_entry_ok(
                #[trigger] self.unit_clauses@[k],
            ))
        &&& (forall|c: int|
            0 <= c < self.n_clauses() && self.is_act(c) && (#[trigger] self.cl(c)).len() == 1
                ==> self.unit_clauses@.contains(c as ClauseId))
    }

    /// The pure set lists exactly the pure literals.
    pub closed spec fn pure_ok(self) -> bool {
        &&& self.pure_literals@.no_duplicates()
        &&& (forall|k: int|
            0 <= k < self.pure_literals@.len() ==> self.is_pure(
                #[trigger] self.pure_literals@[k],
            ))
        &&& (forall|l: Literal| #[trigger] self.is_pure(l) ==> self.pure_literals@.contains(l))
    }

    /// The two counters match the activity flags and clause lengths.
    pub closed spec fn counts_ok(self) -> bool {
        &&& self.num_active_clauses as int == count_true(self.active@, self.n_clauses())
        &&& self.num_empty_clauses as int == count_true(self.empty_flags(), self.n_clauses())
    }

    /// A valid entry of the variable list.
    pub closed spec fn var_entry_ok(self, v: Variable) -> bool {
        1 <= v as int <= self.nv() && self.var_occurs(v)
    }

    /// The variable list holds exactly the variables of the formula.
    pub closed spec fn vars_ok(self) -> bool {
        &&& self.variables@.no_duplicates()
        &&& (forall|k: int|
            0 <= k < self.variables@.len() ==> self.var_entry_ok(#[trigger] self.variables@[k]))
        &&& (forall|v: Variable| #[trigger] self.var_occurs(v) ==> self.variables@.contains(v))
    }

    /// The original formula is over in-range literals, and every clause only
    /// ever shrinks (as a set of literals).
    pub closed spec fn orig_ok(self) -> bool {
        forall|c: int|
            0 <= c < self.n_clauses() ==> {
                &&& (#[trigger] self.orig_of(c)).finite()
                &&& (forall|l: Literal| (#[trigger] self.orig_of(c).contains(l)) ==> self.lit_ok(l))
                &&& (forall|l: Literal|
                    (#[trigger] self.cset(c).contains(l)) ==> self.orig_of(c).contains(l))
            }
    }

    /// The ghost history mirrors the log record for record.
    pub closed spec fn log_ok(self) -> bool {
        &&& self.hist@.len() == self.log().len()
        &&& self.hlits@.len() == self.log().len()
        &&& (forall|i: int|
            0 <= i < self.log().len() ==> step_ok(
                self.orig@,
                self.at_st(i),
                #[trigger] self.log()[i],
                self.hlits@[i],
                self.at_st(i + 1),
            ))
        &&& (forall|i: int|
            0 <= i < self.log().len() - 1 ==> adj_ok(
                #[trigger] self.log()[i],
                self.log()[i + 1],
                self.hlits@[i],
                self.hlits@[i + 1],
            ))
        &&& (forall|i: int|
            0 <= i <= self.log().len() ==> st_wf(#[trigger] self.at_st(i), self.n_clauses(), self.nv()))
        &&& log_wf(self.log())
    }

    /// The structural invariant of the indices, counters and tables.
    pub closed spec fn wf_core(self) -> bool {
        &&& self.wf_dims()
        &&& self.wf_clauses()
        &&& self.occ_ok()
        &&& self.unit_ok()
        &&& self.pure_ok()
        &&& self.counts_ok()
        &&& self.vars_ok()
        &&& self.orig_ok()
    }

    /// The full structural invariant of the engine.
    pub closed spec fn wf(self) -> bool {
        &&& self.wf_core()
        &&& self.log_ok()
    }

    /// The semantic invariant, at quiescent points.
    pub open spec fn wf_sem(self) -> bool {
        sem_inv(self.orig_formula(), self.abs())
    }

    /// How many known variables are unassigned.
    pub closed spec fn unassigned_flags(self) -> Seq<bool> {
        Seq::new(self.assignments@.len(), |v: int| self.assignments@[v] is None)
    }

    pub closed spec fn n_unassigned(self) -> int {
        count_true(self.unassigned_flags(), self.assignments@.len() as int)
    }

    pub fn new() -> (r: Expression)
        ensures
            r.wf(),
            r.wf_sem(),
            r.n_clauses() == 0,
            r.nv() == 0,
            r.log().len() == 0,
            r.all_unassigned(),
            r.assigned_known(),
            r.orig_formula() == Seq::<Set<Literal>>::empty(),
            r.spec_heuristic() is MostLiteralOccurances,
    {
        let mut pos_occ: Vec<Vec<ClauseId>> = Vec::new();
        let mut neg_occ: Vec<Vec<ClauseId>> = Vec::new();
        let mut assignments: Vec<Option<bool>> = Vec::new();
        pos_occ.push(Vec::new());
        neg_occ.push(Vec::new());
        assignments.push(None);
        let r = Expression {
            clauses: Vec::new(),
            active: Vec::new(),
            pos_occ,
            neg_occ,
            unit_clauses: Vec::new(),
            pure_literals: Vec::new(),
            variables: Vec::new(),
            assignments,
            num_vars: 0,
            num_active_clauses: 0,
            num_empty_clauses: 0,
            max_clause_length: 0,
            heuristic: SolverHeuristic::MostLiteralOccurances,
            actions: Stack::new(0),
            orig: Ghost(Seq::empty()),
            hist: Ghost(Seq::empty()),
            hlits: Ghost(Seq::empty()),
        };
        proof {
            assert forall|l: Literal| #[trigger] r.lit_ok(l) implies false by {}
            assert(r.wf());
        }
        r
    }

    pub fn set_heuristic(&mut self, heuristic: SolverHeuristic)
        ensures
            final(self).non_heuristic_eq(*old(self)),
            final(self).spec_heuristic() == heuristic,
            old(self).wf() ==> final(self).wf(),
            old(self).wf_sem() ==> final(self).wf_sem(),
            final(self).abs() == old(self).abs(),
            final(self).orig_formula() == old(self).orig_formula(),
            final(self).log() == old(self).log(),
            final(self).n_clauses() == old(self).n_clauses(),
            final(self).nv() == old(self).nv(),
            final(self).n_unassigned() == old(self).n_unassigned(),
            final(self).spec_variables() == old(self).spec_variables(),
    {
        self.heuristic = heuristic;
        proof {
            lemma_core_transfer(*old(self), *self);
            if old(self).wf() {
                lemma_log_transfer(*old(self), *self);
            }
        }
    }

    /// True when no clause is active: every clause has been satisfied.
    pub fn is_satisfied(&self) -> (r: bool)
        requires
            self.wf(),
        ensures
            r == (self.spec_num_active() == 0),
            self.spec_num_active() >= 0,
    {
        self.num_active_clauses == 0
    }

    /// True when some active clause has become empty.
    pub fn is_unsatisfiable(&self) -> (r: bool)
        requires
            self.wf(),
        ensures
            r == (self.spec_num_empty() > 0),
            self.spec_num_empty() >= 0,
    {
        self.num_empty_clauses > 0
    }

    /// Inference is possible when there are active clauses, no empty clause,
    /// and a unit clause or a pure literal to act on.
    pub fn is_inference_possible(&self) -> (r: bool)
        requires
            self.wf(),
        ensures
            r == (self.spec_num_empty() == 0 && self.spec_num_active() > 0 && (
            self.spec_pure_literals().len() > 0 || self.spec_unit_clauses().len() > 0)),
    {
        self.num_empty_clauses == 0 && self.num_active_clauses > 0 && (self.pure_literals.len()
            > 0 || self.unit_clauses.len() > 0)
    }

    /// The current depth of the action log, used as a mark to restore to.
    pub fn get_action_state(&self) -> (r: ActionState)
        requires
            self.wf(),
        ensures
            r == self.log().len(),
            log_wf(self.log().take(r as int)),
    {
        proof {
            assert(self.log().take(self.log().len() as int) =~= self.log());
        }
        self.actions.len()
    }

    /// Reinitializes the action log, pre-sizing it for the search to come.
    pub fn optimize(&mut self)
        requires
            old(self).wf(),
        ensures
            final(self).wf(),
            old(self).wf_sem() ==> final(self).wf_sem(),
            final(self).non_log_eq(*old(self)),
            final(self).log().len() == 0,
            final(self).abs() == old(self).abs(),
            final(self).orig_formula() == old(self).orig_formula(),
            final(self).spec_heuristic() == old(self).spec_heuristic(),
            final(self).n_clauses() == old(self).n_clauses(),
            final(self).nv() == old(self).nv(),
            final(self).n_unassigned() == old(self).n_unassigned(),
            old(self).all_unassigned() ==> final(self).all_unassigned(),
            final(self).spec_variables() == old(self).spec_variables(),
    {
        let capacity = match self.clauses.len().checked_mul(self.max_clause_length) {
            Some(c) => c,
            None => self.clauses.len(),
        };
        self.actions = Stack::new(capacity);
        proof {
            self.hist@ = Seq::empty();
            self.hlits@ = Seq::empty();
            lemma_core_transfer(*old(self), *self);
            assert(self.log_ok()) by {
                assert(self.log().len() == 0);
                assert(log_wf(self.log()));
            }
            if old(self).all_unassigned() {
                assert forall|v: int| 0 <= v <= self.nv() implies self.asg_of(v) is None by {
                    assert(old(self).asg_of(v) is None);
                }
            }
        }
    }

    /// The two occurrence-index vectors have one list per variable.
    pub closed spec fn occ_dims(self) -> bool {
        &&& self.pos_occ@.len() == self.nv() + 1
        &&& self.neg_occ@.len() == self.nv() + 1
        &&& self.num_vars <= 32767
    }

    /// All fields equal except the pure-literal set.
    pub closed spec fn same_except_pure(self, o: Expression) -> bool {
        &&& self.clauses == o.clauses
        &&& self.active == o.active
        &&& self.pos_occ == o.pos_occ
        &&& self.neg_occ == o.neg_occ
        &&& self.unit_clauses == o.unit_clauses
        &&& self.variables == o.variables
        &&& self.assignments == o.assignments
        &&& self.num_vars == o.num_vars
        &&& self.num_active_clauses == o.num_active_clauses
        &&& self.num_empty_clauses == o.num_empty_clauses
        &&& self.max_clause_length == o.max_clause_length
        &&& self.heuristic == o.heuristic
        &&& self.actions == o.actions
        &&& self.orig == o.orig
        &&& self.hist == o.hist
        &&& self.hlits == o.hlits
    }

    /// The number of entries currently indexed under the literal.
    fn occ_len(&self, literal: Literal) -> (r: usize)
        requires
            self.occ_dims(),
            literal != 0,
            -self.nv() <= literal as int <= self.nv(),
        ensures
            r == self.occ_seq(literal as int).len(),
    {
        if literal > 0 {
            self.pos_occ[literal as usize].len()
        } else {
            self.neg_occ[(-(literal as i32)) as usize].len()
        }
    }

    /// Recomputes, for the literal and its negation, whether each is pure, and
    /// updates the pure-literal set accordingly.
    fn check_pure_literal(&mut self, literal: Literal)
        requires
            old(self).occ_dims(),
            literal != 0,
            -old(self).nv() <= literal as int <= old(self).nv(),
            old(self).pure_literals@.no_duplicates(),
        ensures
            final(self).same_except_pure(*old(self)),
            final(self).pure_literals@.no_duplicates(),
            forall|l: Literal|
                l != literal && l as int != -(literal as int) ==> (
                #[trigger] final(self).pure_literals@.contains(l) == old(
                    self,
                ).pure_literals@.contains(l)),
            final(self).pure_literals@.contains(literal) == (old(self).occ_seq(
                literal as int,
            ).len() > 0 && old(self).occ_seq(-(literal as int)).len() == 0),
            final(self).pure_literals@.contains((-(literal as int)) as Literal) == (old(
                self,
            ).occ_seq(-(literal as int)).len() > 0 && old(self).occ_seq(literal as int).len()
                == 0),
    {
        let negated: Literal = -literal;
        let has_instances = self.occ_len(literal) > 0;
        let negated_has_instances = self.occ_len(negated) > 0;
        if has_instances && !negated_has_instances {
            vecset_insert_lit(&mut self.pure_literals, literal);
            vecset_remove_lit(&mut self.pure_literals, negated);
        } else if !has_instances && negated_has_instances {
            vecset_insert_lit(&mut self.pure_literals, negated);
            vecset_remove_lit(&mut self.pure_literals, literal);
        } else {
            vecset_remove_lit(&mut self.pure_literals, literal);
            vecset_remove_lit(&mut self.pure_literals, negated);
        }
    }

    /// Appends a clause, updating every index; construction only, not logged.
    ///
    /// The engine does not rely on the given clause being duplicate-free: a
    /// repeated literal is dropped here, which leaves the clause, read as a
    /// disjunction, the same.
    pub fn add_clause(&mut self, clause: Clause)
        requires
            old(self).wf(),
            old(self).wf_sem(),
            old(self).log().len() == 0,
            old(self).all_unassigned(),
            old(self).n_clauses() < 0xFFFF,
            forall|i: int|
                0 <= i < clause@.len() ==> (#[trigger] clause@[i]) != 0 && clause@[i]
                    != i16::MIN,
        ensures
            final(self).wf(),
            final(self).wf_sem(),
            final(self).log().len() == 0,
            final(self).all_unassigned(),
            final(self).assigned_known(),
            final(self).orig_formula() == old(self).orig_formula().push(clause@.to_set()),
            final(self).n_clauses() == old(self).n_clauses() + 1,
            final(self).cset(old(self).n_clauses()) == clause@.to_set(),
            final(self).cl(old(self).n_clauses()).no_duplicates(),
            final(self).spec_heuristic() == old(self).spec_heuristic(),
            final(self).nv() >= old(self).nv(),
    {
        let mut deduped = Clause::new();
        let m = clause.len();
        let mut j: usize = 0;
        while j < m
            invariant
                m == clause@.len(),
                j <= m,
                forall|i: int|
                    0 <= i < clause@.len() ==> (#[trigger] clause@[i]) != 0 && clause@[i]
                        != i16::MIN,
                deduped@.no_duplicates(),
                forall|x: Literal|
                    #[trigger] deduped@.contains(x) == clause@.take(j as int).contains(x),
            decreases m - j,
        {
            let ghost before = deduped@;
            deduped.insert_checked(clause.get(j));
            proof {
                lemma_take_push_contains(clause@, j as int);
                assert forall|x: Literal| #[trigger] deduped@.contains(x) == clause@.take(
                    j + 1,
                ).contains(x) by {
                    if deduped@ == before.push(clause@[j as int]) {
                        if deduped@.contains(x) {
                            let k2 = choose|k2: int|
                                0 <= k2 < deduped@.len() && deduped@[k2] == x;
                            if k2 < before.len() {
                                assert(before[k2] == x);
                            }
                        }
                        if before.contains(x) {
                            let k2 = choose|k2: int| 0 <= k2 < before.len() && before[k2] == x;
                            assert(deduped@[k2] == x);
                        }
                        assert(deduped@.last() == clause@[j as int]);
                    }
                }
            }
            j = j + 1;
        }
        proof {
            assert(clause@.take(m as int) =~= clause@);
            assert forall|i: int|
                0 <= i < deduped@.len() implies (#[trigger] deduped@[i]) != 0 && deduped@[i]
                != i16::MIN by {
                assert(deduped@.contains(deduped@[i]));
                assert(clause@.contains(deduped@[i]));
                let k2 = choose|k2: int|
                    0 <= k2 < clause@.len() && clause@[k2] == deduped@[i];
            }
            assert(deduped@.to_set() =~= clause@.to_set());
        }
        self.add_clause_distinct(deduped);
        proof {
            assert(self.orig_formula() =~= old(self).orig_formula().push(clause@.to_set()));
        }
    }

    /// Appends a duplicate-free clause, updating every index.
    fn add_clause_distinct(&mut self, clause: Clause)
        requires
            old(self).wf(),
            old(self).wf_sem(),
            old(self).log().len() == 0,
            old(self).all_unassigned(),
            old(self).n_clauses() < 0xFFFF,
            clause@.no_duplicates(),
            forall|i: int|
                0 <= i < clause@.len() ==> (#[trigger] clause@[i]) != 0 && clause@[i]
                    != i16::MIN,
        ensures
            final(self).wf(),
            final(self).wf_sem(),
            final(self).log().len() == 0,
            final(self).all_unassigned(),
            final(self).orig_formula() == old(self).orig_formula().push(clause@.to_set()),
            final(self).n_clauses() == old(self).n_clauses() + 1,
            final(self).cl(old(self).n_clauses()) == clause@,
            final(self).spec_heuristic() == old(self).spec_heuristic(),
            final(self).nv() >= old(self).nv(),
    {
        let n_lits = clause.len();
        // Grow the per-variable tables to cover the clause's variables.
        let mut maxv: Variable = self.num_vars;
        let mut i: usize = 0;
        while i < n_lits
            invariant
                n_lits == clause@.len(),
                forall|j: int|
                    0 <= j < clause@.len() ==> (#[trigger] clause@[j]) != 0 && clause@[j]
                        != i16::MIN,
                maxv >= old(self).num_vars,
                maxv <= 32767,
                old(self).num_vars <= 32767,
                i <= n_lits,
                self == old(self),
                forall|j: int| 0 <= j < i ==> spec_var(#[trigger] clause@[j]) <= maxv,
            decreases n_lits - i,
        {
            let v = crate::cnf::to_variable(clause.get(i));
            proof {
                assert(clause@[i as int] != i16::MIN);
                assert(v <= 32767);
            }
            if v > maxv {
                maxv = v;
            }
            i = i + 1;
        }
        while self.num_vars < maxv
            invariant
                maxv <= 32767,
                self.num_vars >= old(self).num_vars,
                self.num_vars <= maxv || self.num_vars == old(self).num_vars,
                self.pos_occ@.len() == self.nv() + 1,
                self.neg_occ@.len() == self.nv() + 1,
                self.assignments@.len() == self.nv() + 1,
                forall|k: int|
                    0 <= k <= old(self).nv() ==> (#[trigger] self.pos_occ@[k]) == old(
                        self,
                    ).pos_occ@[k],
                forall|k: int|
                    0 <= k <= old(self).nv() ==> (#[trigger] self.neg_occ@[k]) == old(
                        self,
                    ).neg_occ@[k],
                forall|k: int|
                    0 <= k <= old(self).nv() ==> (#[trigger] self.assignments@[k]) == old(
                        self,
                    ).assignments@[k],
                forall|k: int|
                    old(self).nv() < k <= self.nv() ==> (#[trigger] self.pos_occ@[k])@
                        =~= Seq::<ClauseId>::empty(),
                forall|k: int|
                    old(self).nv() < k <= self.nv() ==> (#[trigger] self.neg_occ@[k])@
                        =~= Seq::<ClauseId>::empty(),
                forall|k: int|
                    old(self).nv() < k <= self.nv() ==> (#[trigger] self.assignments@[k])
                        is None,
                self.clauses == old(self).clauses,
                self.active == old(self).active,
                self.unit_clauses == old(self).unit_clauses,
                self.pure_literals == old(self).pure_literals,
                self.variables == old(self).variables,
                self.num_active_clauses == old(self).num_active_clauses,
                self.num_empty_clauses == old(self).num_empty_clauses,
                self.max_clause_length == old(self).max_clause_length,
                self.heuristic == old(self).heuristic,
                self.actions == old(self).actions,
                self.orig == old(self).orig,
                self.hist == old(self).hist,
                self.hlits == old(self).hlits,
            decreases maxv as int - self.num_vars as int,
        {
            self.pos_occ.push(Vec::new());
            self.neg_occ.push(Vec::new());
            self.assignments.push(None);
            self.num_vars = self.num_vars + 1;
        }
        proof {
            assert(self.nv() >= maxv || self.nv() == old(self).nv());
            assert(self.nv() >= maxv);
            assert forall|j: int| 0 <= j < clause@.len() implies spec_var(#[trigger] clause@[j])
                <= self.nv() by {}
            assert forall|l: int|
                l != 0 && -self.nv() <= l <= self.nv() implies #[trigger] self.occ_seq(l) == if l
                != 0 && -old(self).nv() <= l <= old(self).nv() {
                old(self).occ_seq(l)
            } else {
                Seq::<ClauseId>::empty()
            } by {
                if l > old(self).nv() || l < -old(self).nv() {
                    if l > 0 {
                        assert(self.pos_occ@[l]@ =~= Seq::<ClauseId>::empty());
                    } else {
                        assert(self.neg_occ@[-l]@ =~= Seq::<ClauseId>::empty());
                    }
                }
            }
        }
        let ghost grown = *self;
        // Record the clause's variables.
        let mut i: usize = 0;
        while i < n_lits
            invariant
                n_lits == clause@.len(),
                forall|j: int|
                    0 <= j < clause@.len() ==> (#[trigger] clause@[j]) != 0 && clause@[j]
                        != i16::MIN && spec_var(clause@[j]) <= grown.nv(),
                i <= n_lits,
                self.variables@.no_duplicates(),
                forall|v: Variable|
                    #[trigger] self.variables@.contains(v) == (grown.variables@.contains(v) || (
                    exists|j: int| 0 <= j < i && spec_var(#[trigger] clause@[j]) == v)),
                self.pos_occ == grown.pos_occ,
                self.neg_occ == grown.neg_occ,
                self.assignments == grown.assignments,
                self.clauses == grown.clauses,
                self.active == grown.active,
                self.unit_clauses == grown.unit_clauses,
                self.pure_literals == grown.pure_literals,
                self.num_vars == grown.num_vars,
                self.num_active_clauses == grown.num_active_clauses,
                self.num_empty_clauses == grown.num_empty_clauses,
                self.max_clause_length == grown.max_clause_length,
                self.heuristic == grown.heuristic,
                self.actions == grown.actions,
                self.orig == grown.orig,
                self.hist == grown.hist,
                self.hlits == grown.hlits,
                grown.variables@.no_duplicates(),
            decreases n_lits - i,
        {
            let v = crate::cnf::to_variable(clause.get(i));
            let ghost before = self.variables@;
            vecset_insert_u16(&mut self.variables, v);
            proof {
                assert(spec_var(clause@[i as int]) == v);
                assert forall|w: Variable| #[trigger] self.variables@.contains(w) == (
                grown.variables@.contains(w) || (exists|j: int|
                    0 <= j < i + 1 && spec_var(#[trigger] clause@[j]) == w)) by {
                    if self.variables@.contains(w) {
                        if before.contains(w) {
                        } else {
                            assert(w == v);
                            assert(spec_var(clause@[i as int]) == w);
                        }
                    }
                    if grown.variables@.contains(w) {
                        assert(before.contains(w));
                    }
                    if exists|j: int| 0 <= j < i + 1 && spec_var(#[trigger] clause@[j]) == w {
                        let j = choose|j: int|
                            0 <= j < i + 1 && spec_var(#[trigger] clause@[j]) == w;
                        if j < i {
                            assert(before.contains(w));
                        } else {
                            assert(w == v);
                        }
                    }
                }
            }
            i = i + 1;
        }
        let ghost with_vars = *self;
        let cid: ClauseId = self.clauses.len() as ClauseId;
        // Index the clause under each of its literals.
        let mut i: usize = 0;
        while i < n_lits
            invariant
                n_lits == clause@.len(),
                clause@.no_duplicates(),
                forall|j: int|
                    0 <= j < clause@.len() ==> (#[trigger] clause@[j]) != 0 && clause@[j]
                        != i16::MIN && spec_var(clause@[j]) <= with_vars.nv(),
                i <= n_lits,
                cid as int == with_vars.n_clauses(),
                self.pos_occ@.len() == with_vars.pos_occ@.len(),
                self.neg_occ@.len() == with_vars.neg_occ@.len(),
                with_vars.occ_dims(),
                forall|l: int|
                    l != 0 && -with_vars.nv() <= l <= with_vars.nv() ==> (
                    #[trigger] self.occ_seq(l)) == if clause@.take(i as int).contains(
                        l as Literal,
                    ) {
                        with_vars.occ_seq(l).push(cid)
                    } else {
                        with_vars.occ_seq(l)
                    },
                self.clauses == with_vars.clauses,
                self.active == with_vars.active,
                self.unit_clauses == with_vars.unit_clauses,
                self.pure_literals == with_vars.pure_literals,
                self.variables == with_vars.variables,
                self.assignments == with_vars.assignments,
                self.num_vars == with_vars.num_vars,
                self.num_active_clauses == with_vars.num_active_clauses,
                self.num_empty_clauses == with_vars.num_empty_clauses,
                self.max_clause_length == with_vars.max_clause_length,
                self.heuristic == with_vars.heuristic,
                self.actions == with_vars.actions,
                self.orig == with_vars.orig,
                self.hist == with_vars.hist,
                self.hlits == with_vars.hlits,
            decreases n_lits - i,
        {
            let l = clause.get(i);
            let ghost occ_pre_state = *self;
            let ghost occ_before = self.occ_seq(l as int);
            if l > 0 {
                self.pos_occ[l as usize].push(cid);
            } else {
                let idx = (-(l as i32)) as usize;
                self.neg_occ[idx].push(cid);
            }
            proof {
                assert(clause@[i as int] == l);
                assert(self.occ_seq(l as int) == occ_before.push(cid));
                assert(clause@.take(i + 1) =~= clause@.take(i as int).push(l));
                assert(clause@.take(i + 1)[i as int] == l);
                assert(clause@.take(i + 1).contains(l));
                assert(!clause@.take(i as int).contains(l)) by {
                    if clause@.take(i as int).contains(l) {
                        let j = choose|j: int| 0 <= j < i && clause@.take(i as int)[j] == l;
                        assert(clause@[j] == clause@[i as int]);
                    }
                }
                assert(occ_before == with_vars.occ_seq(l as int));
                assert forall|l2: int|
                    l2 != 0 && -with_vars.nv() <= l2 <= with_vars.nv() implies (
                #[trigger] self.occ_seq(l2)) == if clause@.take(i + 1).contains(l2 as Literal) {
                    with_vars.occ_seq(l2).push(cid)
                } else {
                    with_vars.occ_seq(l2)
                } by {
                    if l2 == l as int {
                        assert(l2 as Literal == l);
                        assert(clause@.take(i + 1).contains(l2 as Literal));
                        assert(self.occ_seq(l2) == with_vars.occ_seq(l2).push(cid));
                    } else {
                        assert(self.occ_seq(l2) == occ_pre_state.occ_seq(l2));
                        assert(clause@.take(i + 1).contains(l2 as Literal) == clause@.take(
                            i as int,
                        ).contains(l2 as Literal)) by {
                            if clause@.take(i + 1).contains(l2 as Literal) {
                                let j = choose|j: int|
                                    0 <= j < i + 1 && #[trigger] clause@.take(i + 1)[j] == l2 as Literal;
                                if j == i {
                                    assert(l2 as Literal == l);
                                    assert((l2 as Literal) as int == l2);
                                    assert(false);
                                } else {
                                    assert(clause@.take(i as int)[j] == l2 as Literal);
                                }
                            }
                            if clause@.take(i as int).contains(l2 as Literal) {
                                let j = choose|j: int|
                                    0 <= j < i && #[trigger] clause@.take(i as int)[j] == l2 as Literal;
                                assert(clause@.take(i + 1)[j] == l2 as Literal);
                            }
                        }
                    }
                }
            }
            i = i + 1;
        }
        proof {
            assert(clause@.take(n_lits as int) =~= clause@);
        }
        // Re-establish which literals are pure around the clause's variables.
        let ghost with_occ = *self;
        let mut i: usize = 0;
        while i < n_lits
            invariant
                n_lits == clause@.len(),
                forall|j: int|
                    0 <= j < clause@.len() ==> (#[trigger] clause@[j]) != 0 && clause@[j]
                        != i16::MIN && spec_var(clause@[j]) <= with_occ.nv(),
                i <= n_lits,
                with_occ.occ_dims(),
                self.pure_literals@.no_duplicates(),
                forall|l: Literal|
                    #[trigger] self.pure_literals@.contains(l) == if (exists|j: int|
                        0 <= j < i && (clause@[j] == l || (#[trigger] clause@[j]) as int == -(
                        l as int))) {
                        (with_occ.occ_seq(l as int).len() > 0 && with_occ.occ_seq(-(l as int)).len()
                            == 0)
                    } else {
                        with_occ.pure_literals@.contains(l)
                    },
                self.same_except_pure(with_occ),
            decreases n_lits - i,
        {
            let l = clause.get(i);
            let ghost before = *self;
            self.check_pure_literal(l);
            proof {
                assert forall|l2: Literal| #[trigger] self.pure_literals@.contains(l2) == if (
                exists|j: int|
                    0 <= j < i + 1 && (clause@[j] == l2 || (#[trigger] clause@[j]) as int == -(
                    l2 as int))) {
                    (with_occ.occ_seq(l2 as int).len() > 0 && with_occ.occ_seq(
                        -(l2 as int),
                    ).len() == 0)
                } else {
                    with_occ.pure_literals@.contains(l2)
                } by {
                    if l2 == l || l2 as int == -(l as int) {
                        assert(clause@[i as int] == l);
                    } else {
                        assert(self.pure_literals@.contains(l2) == before.pure_literals@.contains(
                            l2,
                        ));
                        if exists|j: int|
                            0 <= j < i + 1 && (clause@[j] == l2 || (#[trigger] clause@[j]) as int
                                == -(l2 as int)) {
                            let j = choose|j: int|
                                0 <= j < i + 1 && (clause@[j] == l2 || (
                                #[trigger] clause@[j]) as int == -(l2 as int));
                            assert(j < i);
                        }
                    }
                }
            }
            i = i + 1;
        }
        // Unit clause, longest clause, empty-clause count, and the clause itself.
        if n_lits == 1 {
            proof {
                assert forall|k: int|
                    0 <= k < self.unit_clauses@.len() implies #[trigger] self.unit_clauses@[k]
                    != cid by {
                    assert(with_vars.unit_entry_ok(self.unit_clauses@[k]));
                }
            }
            self.unit_clauses.push(cid);
        }
        if n_lits > self.max_clause_length {
            self.max_clause_length = n_lits;
        }
        proof {
            assert(self.active@ == old(self).active@);
            assert(self.empty_flags() =~= old(self).empty_flags());
            lemma_count_true_bounds(old(self).active@, old(self).n_clauses());
            lemma_count_true_bounds(old(self).empty_flags(), old(self).n_clauses());
            assert(self.num_empty_clauses <= 0xFFFF);
            assert(self.num_active_clauses as int <= 0xFFFF);
        }
        if n_lits == 0 {
            self.num_empty_clauses = self.num_empty_clauses + 1;
        }
        self.num_active_clauses = self.num_active_clauses + 1;
        let ghost before_push = *self;
        self.clauses.push(clause);
        self.active.push(true);
        proof {
            self.orig@ = self.orig@.push(clause@.to_set());
            broadcast use vstd::seq_lib::seq_to_set_is_finite;

            let o = *old(self);
            let fin = *self;
            let n0 = o.n_clauses();
            assert(cid as int == n0);
            assert(fin.n_clauses() == n0 + 1);
            assert(fin.cl(n0) == clause@);
            assert(fin.nv() == grown.nv());
            assert forall|c: int| 0 <= c < n0 implies #[trigger] fin.cl(c) == o.cl(c) by {}
            assert forall|c: int| 0 <= c < n0 implies #[trigger] fin.is_act(c) == o.is_act(
                c,
            ) by {}
            assert(fin.is_act(n0));
            // Every variable is unassigned, before and after.
            assert(fin.assignments@ == grown.assignments@);
            assert forall|v: int| 0 <= v <= fin.nv() implies fin.asg_of(v) is None by {
                if v <= o.nv() {
                    assert(o.asg_of(v) is None);
                    assert(fin.assignments@[v] == o.assignments@[v]);
                } else {
                    assert(fin.assignments@[v] is None);
                }
            }
            assert(fin.all_unassigned());
            assert forall|l: Literal| !lit_sat(fin.assignments@, l) by {
                if 0 <= spec_var(l) && (spec_var(l) as int) < fin.assignments@.len() {
                    assert(fin.asg_of(spec_var(l) as int) is None);
                }
            }
            assert forall|l: Literal| !lit_sat(o.assignments@, l) by {
                if 0 <= spec_var(l) && (spec_var(l) as int) < o.assignments@.len() {
                    assert(o.asg_of(spec_var(l) as int) is None);
                }
            }
            // With nothing assigned, every clause of the old formula is active.
            assert forall|c: int| 0 <= c < n0 implies o.is_act(c) by {
                if !o.is_act(c) {
                    let l = choose|l: Literal|
                        o.orig_of(c).contains(l) && lit_sat(o.abs().asg, l);
                    assert(lit_sat(o.assignments@, l));
                }
            }
            // Literals of the new clause are in range.
            assert forall|i: int| 0 <= i < clause@.len() implies fin.lit_ok(
                #[trigger] clause@[i],
            ) by {
                assert(spec_var(clause@[i]) <= fin.nv());
            }
            assert forall|l: Literal| clause@.to_set().contains(l) implies clause@.contains(
                l,
            ) by {}
            // The final occurrence index, against the old one.
            assert(fin.num_vars == grown.num_vars);
            assert forall|l: int|
                l != 0 && -fin.nv() <= l <= fin.nv() implies #[trigger] fin.occ_seq(l) == if clause@.contains(
                    l as Literal,
                ) {
                    grown.occ_seq(l).push(cid)
                } else {
                    grown.occ_seq(l)
                } by {
                assert(fin.occ_seq(l) == with_occ.occ_seq(l));
                assert(with_vars.occ_seq(l) == grown.occ_seq(l));
            }
            assert(fin.wf_dims());
            assert(fin.wf_clauses()) by {
                assert forall|c: int| 0 <= c < fin.n_clauses() implies (#[trigger] fin.cl(
                    c,
                )).no_duplicates() && (forall|i: int|
                    0 <= i < fin.cl(c).len() ==> fin.lit_ok(#[trigger] fin.cl(c)[i])) by {
                    if c < n0 {
                        assert(o.cl(c).no_duplicates());
                        assert forall|i: int| 0 <= i < fin.cl(c).len() implies fin.lit_ok(
                            #[trigger] fin.cl(c)[i],
                        ) by {
                            assert(o.lit_ok(o.cl(c)[i]));
                        }
                    } else {
                        assert forall|i: int| 0 <= i < fin.cl(c).len() implies fin.lit_ok(
                            #[trigger] fin.cl(c)[i],
                        ) by {
                            assert(fin.lit_ok(clause@[i]));
                        }
                    }
                }
            }
            assert(fin.occ_ok()) by {
                assert forall|l: Literal| #[trigger] fin.lit_ok(l) implies {
                    &&& fin.occ_seq(l as int).no_duplicates()
                    &&& (forall|k: int|
                        0 <= k < fin.occ_seq(l as int).len() ==> fin.occ_entry_ok(
                            l,
                            #[trigger] fin.occ_seq(l as int)[k],
                        ))
                    &&& (forall|c: int|
                        0 <= c < fin.n_clauses() && fin.is_act(c) && (#[trigger] fin.cl(
                            c,
                        )).contains(l) ==> fin.occ_seq(l as int).contains(c as ClauseId))
                } by {
                    let base = grown.occ_seq(l as int);
                    let lo = l as int;
                    // the grown index under l equals the old one, or is empty
                    if o.lit_ok(l) {
                        assert(base == o.occ_seq(lo));
                        assert(base.no_duplicates());
                        assert forall|k: int| 0 <= k < base.len() implies o.occ_entry_ok(
                            l,
                            #[trigger] base[k],
                        ) by {}
                    } else {
                        assert(base =~= Seq::<ClauseId>::empty());
                    }
                    assert forall|k: int| 0 <= k < base.len() implies ((#[trigger] base[k]) as int)
                        < n0 by {
                        assert(o.occ_entry_ok(l, base[k]));
                    }
                    assert(fin.occ_seq(lo).no_duplicates()) by {
                        if clause@.contains(l) {
                            assert(fin.occ_seq(lo) == base.push(cid));
                            assert(!base.contains(cid)) by {
                                if base.contains(cid) {
                                    let k = choose|k: int|
                                        0 <= k < base.len() && base[k] == cid;
                                }
                            }
                        }
                    }
                    assert forall|k: int| 0 <= k < fin.occ_seq(lo).len() implies fin.occ_entry_ok(
                        l,
                        #[trigger] fin.occ_seq(lo)[k],
                    ) by {
                        if clause@.contains(l) {
                            assert(fin.occ_seq(lo) == base.push(cid));
                        }
                        if k < base.len() {
                            assert(fin.occ_seq(lo)[k] == base[k]);
                            assert(o.occ_entry_ok(l, base[k]));
                            let c = base[k] as int;
                            assert(fin.cl(c) == o.cl(c));
                        } else {
                            assert(fin.occ_seq(lo)[k] == cid);
                            assert(clause@.contains(l));
                        }
                    }
                    assert forall|c: int|
                        0 <= c < fin.n_clauses() && fin.is_act(c) && (#[trigger] fin.cl(
                            c,
                        )).contains(l) implies fin.occ_seq(lo).contains(c as ClauseId) by {
                        if c < n0 {
                            assert(o.is_act(c) && o.cl(c).contains(l));
                            assert(o.lit_ok(l)) by {
                                let i = choose|i: int|
                                    0 <= i < o.cl(c).len() && o.cl(c)[i] == l;
                            }
                            assert(base.contains(c as ClauseId));
                            let k = choose|k: int|
                                0 <= k < base.len() && base[k] == c as ClauseId;
                            assert(fin.occ_seq(lo)[k] == c as ClauseId);
                        } else {
                            assert(clause@.contains(l));
                            assert(fin.occ_seq(lo) == base.push(cid));
                            assert(fin.occ_seq(lo)[base.len() as int] == cid);
                        }
                    }
                }
            }
            assert(fin.unit_ok()) by {
                assert(fin.unit_clauses@.no_duplicates());
                assert forall|k: int| 0 <= k < fin.unit_clauses@.len() implies fin.unit_entry_ok(
                    #[trigger] fin.unit_clauses@[k],
                ) by {
                    if k < o.unit_clauses@.len() {
                        assert(fin.unit_clauses@[k] == o.unit_clauses@[k]);
                        assert(o.unit_entry_ok(o.unit_clauses@[k]));
                        assert(fin.cl(o.unit_clauses@[k] as int) == o.cl(
                            o.unit_clauses@[k] as int,
                        ));
                    } else {
                        assert(fin.unit_clauses@[k] == cid);
                    }
                }
                assert forall|c: int|
                    0 <= c < fin.n_clauses() && fin.is_act(c) && (#[trigger] fin.cl(c)).len()
                        == 1 implies fin.unit_clauses@.contains(c as ClauseId) by {
                    if c < n0 {
                        assert(o.is_act(c) && o.cl(c).len() == 1);
                        assert(o.unit_clauses@.contains(c as ClauseId));
                        let k = choose|k: int|
                            0 <= k < o.unit_clauses@.len() && o.unit_clauses@[k] == c as ClauseId;
                        assert(fin.unit_clauses@[k] == c as ClauseId);
                    } else {
                        assert(clause@.len() == 1);
                        assert(fin.unit_clauses@.last() == cid);
                    }
                }
            }
            assert(fin.pure_ok()) by {
                assert(fin.pure_literals@ == before_push.pure_literals@);
                assert forall|l: Literal| #[trigger] fin.pure_literals@.contains(l) == (if (
                exists|j: int|
                    0 <= j < clause@.len() && ((#[trigger] clause@[j]) == l || clause@[j] as int
                        == -(l as int))) {
                    (with_occ.occ_seq(l as int).len() > 0 && with_occ.occ_seq(-(l as int)).len()
                        == 0)
                } else {
                    o.pure_literals@.contains(l)
                }) by {}
                assert forall|k: int| 0 <= k < fin.pure_literals@.len() implies fin.is_pure(
                    #[trigger] fin.pure_literals@[k],
                ) by {
                    let l = fin.pure_literals@[k];
                    assert(fin.pure_literals@.contains(l));
                    if exists|j: int|
                        0 <= j < clause@.len() && ((#[trigger] clause@[j]) == l || clause@[j] as int
                            == -(l as int)) {
                        let j = choose|j: int|
                            0 <= j < clause@.len() && ((#[trigger] clause@[j]) == l
                                || clause@[j] as int == -(l as int));
                        assert(fin.occ_seq(l as int) == with_occ.occ_seq(l as int));
                        assert(fin.occ_seq(-(l as int)) == with_occ.occ_seq(-(l as int)));
                        assert(fin.lit_ok(l)) by {
                            assert(fin.lit_ok(clause@[j]));
                        }
                    } else {
                        assert(o.pure_literals@.contains(l));
                        assert(o.is_pure(l));
                        assert(!clause@.contains(l) && !clause@.contains((-(l as int)) as Literal))
                            by {
                            if clause@.contains(l) {
                                let j = choose|j: int|
                                    0 <= j < clause@.len() && clause@[j] == l;
                            }
                            if clause@.contains((-(l as int)) as Literal) {
                                let j = choose|j: int|
                                    0 <= j < clause@.len() && clause@[j] == (-(
                                    l as int)) as Literal;
                                assert(clause@[j] as int == -(l as int));
                            }
                        }
                        assert(fin.occ_seq(l as int) == grown.occ_seq(l as int));
                        assert(fin.occ_seq(-(l as int)) == grown.occ_seq(-(l as int)));
                        assert(grown.occ_seq(l as int) == o.occ_seq(l as int));
                        assert(grown.occ_seq(-(l as int)) == o.occ_seq(-(l as int)));
                    }
                }
                assert forall|l: Literal| #[trigger] fin.is_pure(l) implies fin.pure_literals@.contains(
                    l,
                ) by {
                    if exists|j: int|
                        0 <= j < clause@.len() && ((#[trigger] clause@[j]) == l || clause@[j] as int
                            == -(l as int)) {
                        assert(fin.occ_seq(l as int) == with_occ.occ_seq(l as int));
                        assert(fin.occ_seq(-(l as int)) == with_occ.occ_seq(-(l as int)));
                    } else {
                        assert(!clause@.contains(l) && !clause@.contains((-(l as int)) as Literal))
                            by {
                            if clause@.contains(l) {
                                let j = choose|j: int|
                                    0 <= j < clause@.len() && clause@[j] == l;
                            }
                            if clause@.contains((-(l as int)) as Literal) {
                                let j = choose|j: int|
                                    0 <= j < clause@.len() && clause@[j] == (-(
                                    l as int)) as Literal;
                                assert(clause@[j] as int == -(l as int));
                            }
                        }
                        assert(fin.occ_seq(l as int) == grown.occ_seq(l as int));
                        assert(fin.occ_seq(-(l as int)) == grown.occ_seq(-(l as int)));
                        assert(fin.occ_seq(l as int).len() > 0);
                        assert(o.lit_ok(l)) by {
                            if l as int > o.nv() || (l as int) < -o.nv() {
                                assert(grown.occ_seq(l as int) =~= Seq::<ClauseId>::empty());
                            }
                        }
                        assert(o.is_pure(l));
                    }
                }
            }
            assert(fin.counts_ok()) by {
                assert(fin.active@ == before_push.active@.push(true));
                assert(before_push.active@ == o.active@);
                lemma_count_true_congruence(fin.active@, o.active@, n0);
                assert(count_true(fin.active@, n0 + 1) == count_true(fin.active@, n0) + 1);
                assert forall|c: int| 0 <= c < n0 implies fin.empty_flags()[c]
                    == o.empty_flags()[c] by {}
                lemma_count_true_congruence(fin.empty_flags(), o.empty_flags(), n0);
                assert(count_true(fin.empty_flags(), n0 + 1) == count_true(fin.empty_flags(), n0)
                    + if clause@.len() == 0 {
                    1int
                } else {
                    0int
                });
            }
            assert(fin.vars_ok()) by {
                assert(fin.variables@ == with_vars.variables@);
                assert forall|v: Variable| #[trigger] fin.var_occurs(v) == (o.var_occurs(v) || (1
                    <= v as int <= 32767 && (clause@.to_set().contains(v as Literal)
                    || clause@.to_set().contains((-(v as int)) as Literal)))) by {
                    if o.var_occurs(v) {
                        let c = choose|c: int|
                            0 <= c < o.n_clauses() && ((#[trigger] o.orig_of(c)).contains(
                                v as Literal,
                            ) || o.orig_of(c).contains((-(v as int)) as Literal));
                        assert(fin.orig_of(c) == o.orig_of(c));
                    }
                    if 1 <= v as int <= 32767 && (clause@.to_set().contains(v as Literal)
                        || clause@.to_set().contains((-(v as int)) as Literal)) {
                        assert(fin.orig_of(n0) == clause@.to_set());
                    }
                    if fin.var_occurs(v) {
                        let c = choose|c: int|
                            0 <= c < fin.n_clauses() && ((#[trigger] fin.orig_of(c)).contains(
                                v as Literal,
                            ) || fin.orig_of(c).contains((-(v as int)) as Literal));
                        if c < n0 {
                            assert(o.orig_of(c) == fin.orig_of(c));
                            assert(o.var_occurs(v));
                        }
                    }
                }
                assert forall|k: int| 0 <= k < fin.variables@.len() implies fin.var_entry_ok(
                    #[trigger] fin.variables@[k],
                ) by {
                    let v = fin.variables@[k];
                    assert(fin.variables@.contains(v));
                    if grown.variables@.contains(v) {
                        assert(o.var_entry_ok(v));
                        assert(o.var_occurs(v));
                    } else {
                        let j = choose|j: int|
                            0 <= j < clause@.len() && spec_var(#[trigger] clause@[j]) == v;
                        let l = clause@[j];
                        assert(clause@.to_set().contains(l));
                        assert(l == v as Literal || l as int == -(v as int));
                        assert(1 <= v as int <= fin.nv()) by {
                            assert(spec_var(l) <= grown.nv());
                            assert(l != 0);
                        }
                    }
                }
                assert forall|v: Variable| #[trigger] fin.var_occurs(v) implies fin.variables@.contains(
                    v,
                ) by {
                    if o.var_occurs(v) {
                        assert(o.variables@.contains(v));
                        assert(grown.variables@.contains(v));
                    } else {
                        let l: Literal = if clause@.to_set().contains(v as Literal) {
                            v as Literal
                        } else {
                            (-(v as int)) as Literal
                        };
                        assert(clause@.contains(l));
                        let j = choose|j: int| 0 <= j < clause@.len() && clause@[j] == l;
                        assert(spec_var(clause@[j]) == v);
                    }
                }
            }
            assert(fin.orig_ok()) by {
                assert forall|c: int| 0 <= c < fin.n_clauses() implies {
                    &&& (#[trigger] fin.orig_of(c)).finite()
                    &&& (forall|l: Literal|
                        (#[trigger] fin.orig_of(c).contains(l)) ==> fin.lit_ok(l))
                    &&& (forall|l: Literal|
                        (#[trigger] fin.cset(c).contains(l)) ==> fin.orig_of(c).contains(l))
                } by {
                    if c < n0 {
                        assert(fin.orig_of(c) == o.orig_of(c));
                        assert(fin.cset(c) == o.cset(c));
                        assert(o.orig_of(c).finite());
                        assert forall|l: Literal| (#[trigger] fin.orig_of(c).contains(
                            l,
                        )) implies fin.lit_ok(l) by {
                            assert(o.lit_ok(l));
                        }
                        assert forall|l: Literal| (#[trigger] fin.cset(c).contains(
                            l,
                        )) implies fin.orig_of(c).contains(l) by {
                            assert(o.cset(c).contains(l));
                        }
                    } else {
                        assert(fin.orig_of(c) == clause@.to_set());
                        assert(fin.cset(c) =~= clause@.to_set());
                        assert forall|l: Literal| (#[trigger] fin.orig_of(c).contains(
                            l,
                        )) implies fin.lit_ok(l) by {
                            let j = choose|j: int| 0 <= j < clause@.len() && clause@[j] == l;
                            assert(fin.lit_ok(clause@[j]));
                        }
                    }
                }
            }
            assert(fin.log_ok()) by {
                assert(fin.log().len() == 0);
                assert(log_wf(fin.log()));
            }
            assert(fin.wf_sem()) by {
                assert(fin.abs().cls.len() == fin.orig@.len());
                assert forall|c: int|
                    0 <= c < fin.orig@.len() && fin.abs().act[c] implies (forall|l: Literal|
                    (#[trigger] fin.orig@[c].contains(l)) ==> !lit_sat(fin.abs().asg, l)) by {
                    assert forall|l: Literal| (#[trigger] fin.orig@[c].contains(
                        l,
                    )) implies !lit_sat(fin.abs().asg, l) by {
                        assert(!lit_sat(fin.assignments@, l));
                    }
                }
                assert forall|c: int, l: Literal|
                    0 <= c < fin.orig@.len() && fin.abs().act[c] implies ((
                #[trigger] fin.abs().cls[c].contains(l)) <==> (fin.orig@[c].contains(l)
                    && lit_unassigned(fin.abs().asg, l))) by {
                    assert(fin.abs().cls[c] == fin.cset(c));
                    if c < n0 {
                        assert(o.is_act(c));
                        assert(o.abs().cls[c] == o.cset(c));
                        assert((o.cset(c).contains(l)) <==> (o.orig_of(c).contains(l)
                            && lit_unassigned(o.abs().asg, l)));
                        assert(fin.cset(c) == o.cset(c));
                        assert(fin.orig@[c] == o.orig_of(c));
                        if o.orig_of(c).contains(l) {
                            assert(o.lit_ok(l));
                            assert(0 <= spec_var(l) as int && spec_var(l) as int <= o.nv()) by {
                                if l >= 0 {
                                } else {
                                }
                            }
                            assert(o.asg_of(spec_var(l) as int) is None);
                            assert(lit_unassigned(o.assignments@, l));
                            assert(lit_unassigned(fin.assignments@, l));
                        }
                        if fin.cset(c).contains(l) {
                            assert(o.cset(c).contains(l));
                        }
                        if fin.orig@[c].contains(l) && lit_unassigned(fin.abs().asg, l) {
                            assert(o.orig_of(c).contains(l));
                        }
                    } else {
                        assert(fin.cset(c) =~= clause@.to_set());
                        assert(fin.orig@[c] == clause@.to_set());
                        if clause@.to_set().contains(l) {
                            let j = choose|j: int| 0 <= j < clause@.len() && clause@[j] == l;
                            assert(fin.lit_ok(clause@[j]));
                            assert(lit_unassigned(fin.assignments@, l));
                        }
                    }
                }
                assert forall|c: int|
                    0 <= c < fin.orig@.len() && !fin.abs().act[c] implies exists|l: Literal|
                    fin.orig@[c].contains(l) && lit_sat(fin.abs().asg, l) by {
                    if c < n0 {
                        assert(fin.is_act(c));
                    }
                }
            }
            assert(fin.wf());
            assert(fin.orig_formula() =~= o.orig_formula().push(clause@.to_set()));
        }
    }

    /// Softly removes a clause: it leaves every index and the active count,
    /// but its literals stay in the clause vector so that it can be re-enabled.
    fn remove_clause(&mut self, clause_id: ClauseId)
        requires
            old(self).wf(),
            (clause_id as int) < old(self).n_clauses(),
            old(self).is_act(clause_id as int),
            old(self).cl(clause_id as int).len() > 0,
        ensures
            final(self).wf(),
            final(self).clauses == old(self).clauses,
            final(self).assignments == old(self).assignments,
            final(self).variables == old(self).variables,
            final(self).orig == old(self).orig,
            final(self).heuristic == old(self).heuristic,
            final(self).num_vars == old(self).num_vars,
            final(self).max_clause_length == old(self).max_clause_length,
            final(self).active@ == old(self).active@.update(clause_id as int, false),
            forall|l: Literal, c2: ClauseId|
                old(self).lit_ok(l) ==> ((#[trigger] final(self).occ_seq(l as int).contains(c2))
                    == (old(self).occ_seq(l as int).contains(c2) && c2 != clause_id)),
            forall|c2: ClauseId|
                (#[trigger] final(self).unit_clauses@.contains(c2)) == (old(
                    self,
                ).unit_clauses@.contains(c2) && c2 != clause_id),
            final(self).spec_num_active() == old(self).spec_num_active() - 1,
            final(self).spec_num_empty() == old(self).spec_num_empty(),
            final(self).log() == old(self).log().push(Action::RemoveClause(clause_id)),
            final(self).log().take(old(self).log().len() as int) == old(self).log(),
            forall|i: int|
                0 <= i <= old(self).log().len() ==> final(self).at_st(i) == old(self).at_st(i),
            final(self).abs() == (EngineState {
                act: old(self).abs().act.update(clause_id as int, false),
                ..old(self).abs()
            }),
    {
        let ghost o = *old(self);
        let cid_us = clause_id as usize;
        let n_lits = self.clauses[cid_us].len();
        let mut i: usize = 0;
        while i < n_lits
            invariant
                o == *old(self),
                o.wf(),
                (clause_id as int) < o.n_clauses(),
                o.is_act(clause_id as int),
                n_lits == o.cl(clause_id as int).len(),
                cid_us == clause_id as usize,
                i <= n_lits,
                self.clauses == o.clauses,
                self.active == o.active,
                self.unit_clauses == o.unit_clauses,
                self.variables == o.variables,
                self.assignments == o.assignments,
                self.num_vars == o.num_vars,
                self.num_active_clauses == o.num_active_clauses,
                self.num_empty_clauses == o.num_empty_clauses,
                self.max_clause_length == o.max_clause_length,
                self.heuristic == o.heuristic,
                self.actions == o.actions,
                self.orig == o.orig,
                self.hist == o.hist,
                self.hlits == o.hlits,
                self.pos_occ@.len() == o.pos_occ@.len(),
                self.neg_occ@.len() == o.neg_occ@.len(),
                forall|l: Literal|
                    o.lit_ok(l) ==> (#[trigger] self.occ_seq(l as int)).no_duplicates(),
                forall|l: Literal, c2: ClauseId|
                    o.lit_ok(l) ==> ((#[trigger] self.occ_seq(l as int).contains(c2)) == (
                    o.occ_seq(l as int).contains(c2) && !(c2 == clause_id && o.cl(
                        clause_id as int,
                    ).take(i as int).contains(l)))),
                self.pure_literals@.no_duplicates(),
                forall|l: Literal| #[trigger] self.pure_literals@.contains(l) == self.is_pure(l),
            decreases n_lits - i,
        {
            let literal = self.clauses[cid_us].get(i);
            proof {
                assert(o.cl(clause_id as int)[i as int] == literal);
                assert(o.lit_ok(literal));
                assert(self.occ_seq(literal as int).no_duplicates());
                assert(self.occ_seq(-(literal as int)).no_duplicates());
            }
            let ghost pre = *self;
            if literal > 0 {
                vecset_remove_u16(&mut self.pos_occ[literal as usize], clause_id);
            } else {
                vecset_remove_u16(&mut self.neg_occ[(-(literal as i32)) as usize], clause_id);
            }
            proof {
                assert(o.cl(clause_id as int).take(i + 1) =~= o.cl(clause_id as int).take(
                    i as int,
                ).push(literal));
                assert forall|l: Literal, c2: ClauseId|
                    o.lit_ok(l) implies ((#[trigger] self.occ_seq(l as int).contains(c2)) == (
                o.occ_seq(l as int).contains(c2) && !(c2 == clause_id && o.cl(
                    clause_id as int,
                ).take(i + 1).contains(l)))) by {
                    if l == literal {
                        assert(self.occ_seq(l as int).contains(c2) == (pre.occ_seq(
                            l as int,
                        ).contains(c2) && c2 != clause_id));
                        assert(o.cl(clause_id as int).take(i + 1)[i as int] == literal);
                        assert(o.cl(clause_id as int).take(i + 1).contains(l));
                    } else {
                        assert(self.occ_seq(l as int) == pre.occ_seq(l as int));
                        assert(o.cl(clause_id as int).take(i + 1).contains(l) == o.cl(
                            clause_id as int,
                        ).take(i as int).contains(l)) by {
                            if o.cl(clause_id as int).take(i + 1).contains(l) {
                                let j = choose|j: int|
                                    0 <= j < i + 1 && #[trigger] o.cl(clause_id as int).take(
                                        i + 1,
                                    )[j] == l;
                                if j < i {
                                    assert(o.cl(clause_id as int).take(i as int)[j] == l);
                                }
                            }
                            if o.cl(clause_id as int).take(i as int).contains(l) {
                                let j = choose|j: int|
                                    0 <= j < i && #[trigger] o.cl(clause_id as int).take(
                                        i as int,
                                    )[j] == l;
                                assert(o.cl(clause_id as int).take(i + 1)[j] == l);
                            }
                        }
                    }
                }
                assert forall|l: Literal| o.lit_ok(l) implies (#[trigger] self.occ_seq(
                    l as int,
                )).no_duplicates() by {
                    if l != literal {
                        assert(self.occ_seq(l as int) == pre.occ_seq(l as int));
                    }
                }
            }
            let ghost mid = *self;
            self.check_pure_literal(literal);
            proof {
                assert forall|l: Literal| o.lit_ok(l) implies (#[trigger] self.occ_seq(
                    l as int,
                )).no_duplicates() by {
                    assert(self.occ_seq(l as int) == mid.occ_seq(l as int));
                    assert(mid.occ_seq(l as int).no_duplicates());
                }
                assert forall|l: Literal, c2: ClauseId|
                    o.lit_ok(l) implies ((#[trigger] self.occ_seq(l as int).contains(c2)) == (
                o.occ_seq(l as int).contains(c2) && !(c2 == clause_id && o.cl(
                    clause_id as int,
                ).take(i + 1).contains(l)))) by {
                    assert(self.occ_seq(l as int) == mid.occ_seq(l as int));
                    assert(mid.occ_seq(l as int).contains(c2) == (o.occ_seq(l as int).contains(c2)
                        && !(c2 == clause_id && o.cl(clause_id as int).take(i + 1).contains(l))));
                }
                assert forall|l: Literal| #[trigger] self.pure_literals@.contains(l)
                    == self.is_pure(l) by {
                    if l == literal || l as int == -(literal as int) {
                        assert(self.occ_seq(l as int) == mid.occ_seq(l as int));
                        assert(self.occ_seq(-(l as int)) == mid.occ_seq(-(l as int)));
                    } else {
                        assert(self.pure_literals@.contains(l) == mid.pure_literals@.contains(l));
                        assert(self.occ_seq(l as int) == mid.occ_seq(l as int));
                        assert(self.occ_seq(-(l as int)) == mid.occ_seq(-(l as int)));
                    }
                }
            }
            i = i + 1;
        }
        proof {
            assert(o.cl(clause_id as int).take(n_lits as int) =~= o.cl(clause_id as int));
        }
        let ghost walked = *self;
        self.active[cid_us] = false;
        proof {
            lemma_count_true_nonzero(o.active@, clause_id as int, o.n_clauses());
        }
        self.num_active_clauses = self.num_active_clauses - 1;
        vecset_remove_u16(&mut self.unit_clauses, clause_id);
        self.actions.push(Action::RemoveClause(clause_id));
        proof {
            self.hist@ = self.hist@.push(o.abs());
            self.hlits@ = self.hlits@.push(0);
            broadcast use vstd::seq_lib::seq_to_set_is_finite;

            let fin = *self;
            let cid = clause_id as int;
            assert(fin.pos_occ == walked.pos_occ && fin.neg_occ == walked.neg_occ);
            assert(fin.pure_literals == walked.pure_literals);
            assert forall|l: Literal| #[trigger] fin.occ_seq(l as int) == walked.occ_seq(
                l as int,
            ) by {}
            assert forall|l: Literal, c2: ClauseId|
                o.lit_ok(l) implies ((#[trigger] fin.occ_seq(l as int).contains(c2)) == (
            o.occ_seq(l as int).contains(c2) && c2 != clause_id)) by {
                assert(walked.occ_seq(l as int).contains(c2) == (o.occ_seq(l as int).contains(c2)
                    && !(c2 == clause_id && o.cl(clause_id as int).take(
                    n_lits as int,
                ).contains(l))));
                if c2 == clause_id && !o.cl(clause_id as int).contains(l) {
                    if o.occ_seq(l as int).contains(clause_id) {
                        let k = choose|k: int|
                            0 <= k < o.occ_seq(l as int).len() && o.occ_seq(l as int)[k]
                                == clause_id;
                        assert(o.occ_entry_ok(l, clause_id));
                        assert(false);
                    }
                }
            }
            assert forall|l: Literal| #[trigger] fin.pure_literals@.contains(l) == fin.is_pure(
                l,
            ) by {
                assert(walked.pure_literals@.contains(l) == walked.is_pure(l));
                assert(fin.occ_seq(l as int) == walked.occ_seq(l as int));
                assert(fin.occ_seq(-(l as int)) == walked.occ_seq(-(l as int)));
            }
            assert(fin.active@ == o.active@.update(cid, false));
            assert(fin.abs().cls =~= o.abs().cls);
            assert(fin.abs() == (EngineState {
                act: o.abs().act.update(cid, false),
                ..o.abs()
            }));
            lemma_wf_clauses_transfer(o, fin);
            lemma_vars_transfer(o, fin);
            lemma_orig_transfer(o, fin);
            assert(fin.wf_dims());
            // the occurrence index
            assert(fin.occ_ok()) by {
                assert forall|l: Literal| #[trigger] fin.lit_ok(l) implies {
                    &&& fin.occ_seq(l as int).no_duplicates()
                    &&& (forall|k: int|
                        0 <= k < fin.occ_seq(l as int).len() ==> fin.occ_entry_ok(
                            l,
                            #[trigger] fin.occ_seq(l as int)[k],
                        ))
                    &&& (forall|c: int|
                        0 <= c < fin.n_clauses() && fin.is_act(c) && (#[trigger] fin.cl(
                            c,
                        )).contains(l) ==> fin.occ_seq(l as int).contains(c as ClauseId))
                } by {
                    assert(o.lit_ok(l));
                    assert forall|k: int|
                        0 <= k < fin.occ_seq(l as int).len() implies fin.occ_entry_ok(
                        l,
                        #[trigger] fin.occ_seq(l as int)[k],
                    ) by {
                        let c2 = fin.occ_seq(l as int)[k];
                        assert(fin.occ_seq(l as int).contains(c2));
                        assert(o.occ_seq(l as int).contains(c2) && c2 != clause_id);
                        let k0 = choose|k0: int|
                            0 <= k0 < o.occ_seq(l as int).len() && o.occ_seq(l as int)[k0] == c2;
                        assert(o.occ_entry_ok(l, c2));
                        assert(fin.cl(c2 as int) == o.cl(c2 as int));
                        assert(fin.is_act(c2 as int));
                    }
                    assert forall|c: int|
                        0 <= c < fin.n_clauses() && fin.is_act(c) && (#[trigger] fin.cl(
                            c,
                        )).contains(l) implies fin.occ_seq(l as int).contains(c as ClauseId) by {
                        assert(c != cid);
                        assert(o.is_act(c) && o.cl(c).contains(l));
                        assert(o.occ_seq(l as int).contains(c as ClauseId));
                    }
                }
            }
            assert(fin.unit_ok()) by {
                assert forall|k: int| 0 <= k < fin.unit_clauses@.len() implies fin.unit_entry_ok(
                    #[trigger] fin.unit_clauses@[k],
                ) by {
                    let c2 = fin.unit_clauses@[k];
                    assert(fin.unit_clauses@.contains(c2));
                    assert(o.unit_clauses@.contains(c2) && c2 != clause_id);
                    let k0 = choose|k0: int|
                        0 <= k0 < o.unit_clauses@.len() && o.unit_clauses@[k0] == c2;
                    assert(o.unit_entry_ok(c2));
                    assert(fin.cl(c2 as int) == o.cl(c2 as int));
                }
                assert forall|c: int|
                    0 <= c < fin.n_clauses() && fin.is_act(c) && (#[trigger] fin.cl(c)).len()
                        == 1 implies fin.unit_clauses@.contains(c as ClauseId) by {
                    assert(c != cid);
                    assert(o.is_act(c) && o.cl(c).len() == 1);
                    assert(o.unit_clauses@.contains(c as ClauseId));
                }
            }
            assert(fin.pure_ok()) by {
                assert forall|k: int| 0 <= k < fin.pure_literals@.len() implies fin.is_pure(
                    #[trigger] fin.pure_literals@[k],
                ) by {
                    assert(fin.pure_literals@.contains(fin.pure_literals@[k]));
                }
                assert forall|l: Literal| #[trigger] fin.is_pure(l) implies fin.pure_literals@.contains(
                    l,
                ) by {}
            }
            assert(fin.counts_ok()) by {
                lemma_count_true_update(o.active@, cid, false, o.n_clauses());
                lemma_count_true_congruence(fin.active@, o.active@.update(cid, false), fin.n_clauses());
                assert(fin.empty_flags() =~= o.empty_flags().update(cid, false));
                assert(!o.empty_flags()[cid]);
                lemma_count_true_update(o.empty_flags(), cid, false, o.n_clauses());
                lemma_count_true_congruence(fin.empty_flags(), o.empty_flags().update(cid, false), fin.n_clauses());
            }
            assert(fin.log().take(o.log().len() as int) =~= o.log());
            assert(fin.log_ok()) by {
                assert(fin.log() == o.log().push(Action::RemoveClause(clause_id)));
                lemma_log_wf_push_plain(o.log(), Action::RemoveClause(clause_id));
                assert forall|i2: int| 0 <= i2 <= fin.log().len() implies st_wf(
                    #[trigger] fin.at_st(i2),
                    fin.n_clauses(),
                    fin.nv(),
                ) by {
                    if i2 <= o.log().len() {
                        assert(fin.at_st(i2) == o.at_st(i2));
                        assert(st_wf(o.at_st(i2), o.n_clauses(), o.nv()));
                    } else {
                        assert(fin.at_st(i2) == fin.abs());
                    }
                }
                assert forall|i2: int| 0 <= i2 <= o.log().len() implies fin.at_st(i2) == o.at_st(
                    i2,
                ) by {}
                assert(o.cset(cid).finite());
                assert(o.cset(cid).contains(o.cl(cid)[0]));
                assert(o.cset(cid).len() > 0) by {
                    if o.cset(cid).len() == 0 {
                        o.cset(cid).lemma_len0_is_empty();
                    }
                }
                assert(step_ok(
                    fin.orig@,
                    fin.at_st(o.log().len() as int),
                    Action::RemoveClause(clause_id),
                    0,
                    fin.at_st(o.log().len() as int + 1),
                )) by {
                    assert(fin.at_st(o.log().len() as int) == o.abs());
                    assert(fin.at_st(o.log().len() as int + 1) == fin.abs());
                    assert(o.abs().cls[cid] == o.cset(cid));
                }
                assert forall|i2: int| 0 <= i2 < fin.log().len() implies step_ok(
                    fin.orig@,
                    fin.at_st(i2),
                    #[trigger] fin.log()[i2],
                    fin.hlits@[i2],
                    fin.at_st(i2 + 1),
                ) by {
                    if i2 < o.log().len() {
                        assert(fin.log()[i2] == o.log()[i2]);
                        assert(fin.at_st(i2) == o.at_st(i2));
                        assert(fin.at_st(i2 + 1) == o.at_st(i2 + 1));
                        assert(step_ok(o.orig@, o.at_st(i2), o.log()[i2], o.hlits@[i2], o.at_st(i2 + 1)));
                    }
                }
                assert forall|i2: int| 0 <= i2 < fin.log().len() - 1 implies adj_ok(
                    #[trigger] fin.log()[i2],
                    fin.log()[i2 + 1],
                    fin.hlits@[i2],
                    fin.hlits@[i2 + 1],
                ) by {
                    if i2 < o.log().len() - 1 {
                        assert(adj_ok(o.log()[i2], o.log()[i2 + 1], o.hlits@[i2], o.hlits@[i2 + 1]));
                    }
                }
            }
            assert(fin.wf());
        }
    }

    /// Softly removes every clause in which the literal currently appears.
    fn remove_clauses_with_literal(&mut self, literal: Literal)
        requires
            old(self).wf(),
            old(self).lit_ok(literal),
        ensures
            final(self).wf(),
            final(self).clauses == old(self).clauses,
            final(self).assignments == old(self).assignments,
            final(self).variables == old(self).variables,
            final(self).orig == old(self).orig,
            final(self).heuristic == old(self).heuristic,
            final(self).num_vars == old(self).num_vars,
            final(self).max_clause_length == old(self).max_clause_length,
            forall|c: int|
                0 <= c < final(self).n_clauses() ==> (#[trigger] final(self).is_act(c)) == (old(
                    self,
                ).is_act(c) && !old(self).occ_seq(literal as int).contains(c as ClauseId)),
            forall|l: Literal, c2: ClauseId|
                old(self).lit_ok(l) ==> ((#[trigger] final(self).occ_seq(l as int).contains(c2))
                    == (old(self).occ_seq(l as int).contains(c2) && !old(self).occ_seq(
                    literal as int,
                ).contains(c2))),
            forall|c2: ClauseId|
                (#[trigger] final(self).unit_clauses@.contains(c2)) == (old(
                    self,
                ).unit_clauses@.contains(c2) && !old(self).occ_seq(literal as int).contains(c2)),
            final(self).spec_num_empty() == old(self).spec_num_empty(),
            final(self).log().len() == old(self).log().len() + old(self).occ_seq(
                literal as int,
            ).len(),
            final(self).log().take(old(self).log().len() as int) == old(self).log(),
            forall|i: int|
                0 <= i <= old(self).log().len() ==> final(self).at_st(i) == old(self).at_st(i),
            final(self).abs().cls == old(self).abs().cls,
            final(self).abs().asg == old(self).abs().asg,
    {
        let ghost o = *old(self);
        let snapshot: Vec<ClauseId> = if literal > 0 {
            copy_cids(&self.pos_occ[literal as usize])
        } else {
            copy_cids(&self.neg_occ[(-(literal as i32)) as usize])
        };
        proof {
            assert(snapshot@ == o.occ_seq(literal as int));
            assert(snapshot@.no_duplicates());
        }
        let n_snap = snapshot.len();
        let mut j: usize = 0;
        while j < n_snap
            invariant
                o == *old(self),
                o.wf(),
                o.lit_ok(literal),
                n_snap == snapshot@.len(),
                snapshot@ == o.occ_seq(literal as int),
                snapshot@.no_duplicates(),
                j <= n_snap,
                self.wf(),
                self.clauses == o.clauses,
                self.assignments == o.assignments,
                self.variables == o.variables,
                self.orig == o.orig,
                self.heuristic == o.heuristic,
                self.num_vars == o.num_vars,
                self.max_clause_length == o.max_clause_length,
                forall|c: int|
                    0 <= c < self.n_clauses() ==> (#[trigger] self.is_act(c)) == (o.is_act(c)
                        && !snapshot@.take(j as int).contains(c as ClauseId)),
                forall|l: Literal, c2: ClauseId|
                    o.lit_ok(l) ==> ((#[trigger] self.occ_seq(l as int).contains(c2)) == (
                    o.occ_seq(l as int).contains(c2) && !snapshot@.take(j as int).contains(c2))),
                forall|c2: ClauseId|
                    (#[trigger] self.unit_clauses@.contains(c2)) == (o.unit_clauses@.contains(c2)
                        && !snapshot@.take(j as int).contains(c2)),
                self.spec_num_empty() == o.spec_num_empty(),
                self.log().len() == o.log().len() + j,
                self.log().take(o.log().len() as int) == o.log(),
                forall|i: int| 0 <= i <= o.log().len() ==> self.at_st(i) == o.at_st(i),
                self.abs().cls == o.abs().cls,
                self.abs().asg == o.abs().asg,
            decreases n_snap - j,
        {
            let cid = snapshot[j];
            proof {
                assert(snapshot@[j as int] == cid);
                assert(o.occ_seq(literal as int).contains(cid));
                assert(o.occ_entry_ok(literal, cid));
                assert(!snapshot@.take(j as int).contains(cid)) by {
                    if snapshot@.take(j as int).contains(cid) {
                        let k = choose|k: int|
                            0 <= k < j && #[trigger] snapshot@.take(j as int)[k] == cid;
                        assert(snapshot@[k] == snapshot@[j as int]);
                    }
                }
                assert(self.is_act(cid as int));
                assert(self.cl(cid as int) == o.cl(cid as int));
                assert(o.cl(cid as int).contains(literal));
                assert(self.cl(cid as int).len() > 0);
            }
            let ghost pre = *self;
            self.remove_clause(cid);
            proof {
                assert(snapshot@.take(j + 1) =~= snapshot@.take(j as int).push(cid));
                lemma_take_push_contains(snapshot@, j as int);
                assert forall|c: int|
                    0 <= c < self.n_clauses() implies (#[trigger] self.is_act(c)) == (o.is_act(c)
                    && !snapshot@.take(j + 1).contains(c as ClauseId)) by {
                    assert(self.is_act(c) == (pre.is_act(c) && c != cid as int));
                    assert(snapshot@.take(j + 1).contains(c as ClauseId) == (snapshot@.take(
                        j as int,
                    ).contains(c as ClauseId) || c as ClauseId == cid));
                    if c as ClauseId == cid && 0 <= c < self.n_clauses() && c != cid as int {
                        assert(false);
                    }
                }
                assert forall|l: Literal, c2: ClauseId|
                    o.lit_ok(l) implies ((#[trigger] self.occ_seq(l as int).contains(c2)) == (
                o.occ_seq(l as int).contains(c2) && !snapshot@.take(j + 1).contains(c2))) by {
                    assert(pre.lit_ok(l));
                    assert(self.occ_seq(l as int).contains(c2) == (pre.occ_seq(l as int).contains(
                        c2,
                    ) && c2 != cid));
                    assert(snapshot@.take(j + 1).contains(c2) == (snapshot@.take(j as int).contains(
                        c2,
                    ) || c2 == cid));
                }
                assert forall|c2: ClauseId| (#[trigger] self.unit_clauses@.contains(c2)) == (
                o.unit_clauses@.contains(c2) && !snapshot@.take(j + 1).contains(c2)) by {
                    assert(self.unit_clauses@.contains(c2) == (pre.unit_clauses@.contains(c2) && c2
                        != cid));
                    assert(snapshot@.take(j + 1).contains(c2) == (snapshot@.take(j as int).contains(
                        c2,
                    ) || c2 == cid));
                }
                assert forall|i: int| 0 <= i <= o.log().len() implies self.at_st(i) == o.at_st(
                    i,
                ) by {
                    assert(self.at_st(i) == pre.at_st(i));
                }
                assert(self.log().take(o.log().len() as int) =~= o.log());
                assert(self.abs().cls =~= o.abs().cls);
            }
            j = j + 1;
        }
        proof {
            assert(snapshot@.take(n_snap as int) =~= snapshot@);
        }
    }

    /// Removes the literal from every active clause in which it appears,
    /// logging the removals as one `Start, InClause*, End` group.
    fn remove_literal_from_clauses(&mut self, literal: Literal)
        requires
            old(self).wf(),
            old(self).lit_ok(literal),
        ensures
            final(self).wf(),
            final(self).active == old(self).active,
            final(self).assignments == old(self).assignments,
            final(self).variables == old(self).variables,
            final(self).orig == old(self).orig,
            final(self).heuristic == old(self).heuristic,
            final(self).num_vars == old(self).num_vars,
            final(self).max_clause_length == old(self).max_clause_length,
            final(self).num_active_clauses == old(self).num_active_clauses,
            final(self).clauses@.len() == old(self).clauses@.len(),
            forall|c: int, x: Literal|
                0 <= c < final(self).n_clauses() ==> ((#[trigger] final(self).cl(c).contains(x))
                    == (old(self).cl(c).contains(x) && !(x == literal && old(self).occ_seq(
                    literal as int,
                ).contains(c as ClauseId)))),
            forall|l: Literal|
                old(self).lit_ok(l) && l != literal ==> (#[trigger] final(self).occ_seq(l as int))
                    == old(self).occ_seq(l as int),
            final(self).occ_seq(literal as int).len() == 0,
            forall|i: int|
                0 <= i <= old(self).log().len() ==> final(self).at_st(i) == old(self).at_st(i),
            final(self).log().len() > old(self).log().len(),
            final(self).log().take(old(self).log().len() as int) == old(self).log(),
            final(self).abs().asg == old(self).abs().asg,
            final(self).abs().act == old(self).abs().act,
    {
        let ghost o = *old(self);
        let snapshot: Vec<ClauseId> = if literal > 0 {
            copy_cids(&self.pos_occ[literal as usize])
        } else {
            copy_cids(&self.neg_occ[(-(literal as i32)) as usize])
        };
        proof {
            assert(snapshot@ == o.occ_seq(literal as int));
            assert(snapshot@.no_duplicates());
        }
        self.actions.push(Action::RemoveLiteralFromClausesStart());
        proof {
            self.hist@ = self.hist@.push(o.abs());
            self.hlits@ = self.hlits@.push(literal);
            lemma_core_transfer(o, *self);
            assert(self.abs() == o.abs());
            assert forall|i: int| 0 <= i <= o.log().len() implies self.at_st(i) == o.at_st(i) by {}
            assert(step_ok(
                self.orig@,
                self.at_st(o.log().len() as int),
                Action::RemoveLiteralFromClausesStart(),
                literal,
                self.at_st(o.log().len() as int + 1),
            ));
            assert forall|i: int| 0 <= i < self.log().len() implies step_ok(
                self.orig@,
                self.at_st(i),
                #[trigger] self.log()[i],
                self.hlits@[i],
                self.at_st(i + 1),
            ) by {
                if i < o.log().len() {
                    assert(self.log()[i] == o.log()[i]);
                    assert(self.at_st(i) == o.at_st(i));
                    assert(self.at_st(i + 1) == o.at_st(i + 1));
                    assert(step_ok(o.orig@, o.at_st(i), o.log()[i], o.hlits@[i], o.at_st(i + 1)));
                }
            }
            assert forall|i: int| 0 <= i < self.log().len() - 1 implies adj_ok(
                #[trigger] self.log()[i],
                self.log()[i + 1],
                self.hlits@[i],
                self.hlits@[i + 1],
            ) by {
                if i < o.log().len() - 1 {
                    assert(adj_ok(o.log()[i], o.log()[i + 1], o.hlits@[i], o.hlits@[i + 1]));
                }
            }
            assert forall|i: int| 0 <= i <= self.log().len() implies st_wf(
                #[trigger] self.at_st(i),
                self.n_clauses(),
                self.nv(),
            ) by {
                if i <= o.log().len() {
                    assert(self.at_st(i) == o.at_st(i));
                    assert(st_wf(o.at_st(i), o.n_clauses(), o.nv()));
                } else {
                    assert(self.at_st(i) == self.abs());
                }
            }
            assert(self.log().take(o.log().len() as int) =~= o.log());
        }
        let n_snap = snapshot.len();
        let mut j: usize = 0;
        while j < n_snap
            invariant
                o == *old(self),
                o.wf(),
                o.lit_ok(literal),
                n_snap == snapshot@.len(),
                snapshot@ == o.occ_seq(literal as int),
                snapshot@.no_duplicates(),
                j <= n_snap,
                self.active == o.active,
                self.assignments == o.assignments,
                self.pos_occ == o.pos_occ,
                self.neg_occ == o.neg_occ,
                self.pure_literals == o.pure_literals,
                self.variables == o.variables,
                self.num_vars == o.num_vars,
                self.num_active_clauses == o.num_active_clauses,
                self.max_clause_length == o.max_clause_length,
                self.heuristic == o.heuristic,
                self.orig == o.orig,
                self.clauses@.len() == o.clauses@.len(),
                // clause contents so far
                forall|c: int, x: Literal|
                    0 <= c < self.n_clauses() ==> ((#[trigger] self.cl(c).contains(x)) == (o.cl(
                        c,
                    ).contains(x) && !(x == literal && snapshot@.take(j as int).contains(
                        c as ClauseId,
                    )))),
                forall|c: int|
                    0 <= c < self.n_clauses() && !snapshot@.take(j as int).contains(c as ClauseId)
                        ==> (#[trigger] self.cl(c)) == o.cl(c),
                forall|c: int|
                    0 <= c < self.n_clauses() && snapshot@.take(j as int).contains(c as ClauseId)
                        ==> (#[trigger] self.cl(c)).len() == o.cl(c).len() - 1,
                self.wf_dims(),
                self.wf_clauses(),
                self.unit_ok(),
                self.pure_ok(),
                self.counts_ok(),
                self.vars_ok(),
                self.orig_ok(),
                // the log: a complete prefix, one Start, then InClause records
                self.log().len() == o.log().len() + 1 + j,
                self.hist@.len() == self.log().len(),
                self.hlits@.len() == self.log().len(),
                self.log().take(o.log().len() as int) == o.log(),
                self.log()[o.log().len() as int] matches Action::RemoveLiteralFromClausesStart(),
                forall|k: int|
                    o.log().len() < k < self.log().len() ==> ((#[trigger] self.log()[k]) matches Action::RemoveLiteralFromClause(
                        _,
                    )) && self.hlits@[k] == literal,
                forall|i: int|
                    0 <= i < self.log().len() ==> step_ok(
                        self.orig@,
                        self.at_st(i),
                        #[trigger] self.log()[i],
                        self.hlits@[i],
                        self.at_st(i + 1),
                    ),
                forall|i: int|
                    0 <= i < self.log().len() - 1 ==> adj_ok(
                        #[trigger] self.log()[i],
                        self.log()[i + 1],
                        self.hlits@[i],
                        self.hlits@[i + 1],
                    ),
                forall|i: int|
                    0 <= i <= self.log().len() ==> st_wf(
                        #[trigger] self.at_st(i),
                        self.n_clauses(),
                        self.nv(),
                    ),
                forall|i: int| 0 <= i <= o.log().len() ==> self.at_st(i) == o.at_st(i),
            decreases n_snap - j,
        {
            let cid = snapshot[j];
            let cid_us = cid as usize;
            proof {
                assert(snapshot@[j as int] == cid);
                assert(o.occ_seq(literal as int).contains(cid));
                assert(o.occ_entry_ok(literal, cid));
                assert(!snapshot@.take(j as int).contains(cid)) by {
                    if snapshot@.take(j as int).contains(cid) {
                        let k = choose|k: int|
                            0 <= k < j && #[trigger] snapshot@.take(j as int)[k] == cid;
                        assert(snapshot@[k] == snapshot@[j as int]);
                    }
                }
                assert(self.cl(cid as int) == o.cl(cid as int));
                assert(self.cl(cid as int).contains(literal));
                assert(self.cl(cid as int).no_duplicates());
            }
            let ghost pre = *self;
            let ghost pre_abs = self.abs();
            self.clauses[cid_us].remove(literal);
            proof {
                assert(self.cl(cid as int).len() == pre.cl(cid as int).len() - 1);
                assert forall|x: Literal| (#[trigger] self.cl(cid as int).contains(x)) == (pre.cl(
                    cid as int,
                ).contains(x) && x != literal) by {}
            }
            let new_len = self.clauses[cid_us].len();
            if new_len == 1 {
                vecset_insert_u16(&mut self.unit_clauses, cid);
            }
            if new_len == 0 {
                proof {
                    lemma_count_true_bounds(pre.empty_flags(), pre.n_clauses());
                    assert(self.num_empty_clauses as int <= 0xFFFF);
                }
                self.num_empty_clauses = self.num_empty_clauses + 1;
                vecset_remove_u16(&mut self.unit_clauses, cid);
            }
            self.actions.push(Action::RemoveLiteralFromClause(cid));
            proof {
                self.hist@ = self.hist@.push(pre_abs);
                self.hlits@ = self.hlits@.push(literal);
                let fin = *self;
                lemma_take_push_contains(snapshot@, j as int);
                // clause content characterization
                assert forall|c: int, x: Literal|
                    0 <= c < fin.n_clauses() implies ((#[trigger] fin.cl(c).contains(x)) == (o.cl(
                    c,
                ).contains(x) && !(x == literal && snapshot@.take(j + 1).contains(
                    c as ClauseId,
                )))) by {
                    if c == cid as int {
                        assert(snapshot@.take(j + 1).contains(cid));
                        assert(fin.cl(c).contains(x) == (pre.cl(c).contains(x) && x != literal));
                    } else {
                        assert(fin.cl(c) == pre.cl(c));
                        assert(snapshot@.take(j + 1).contains(c as ClauseId) == (snapshot@.take(
                            j as int,
                        ).contains(c as ClauseId) || c as ClauseId == cid));
                        if c as ClauseId == cid {
                            assert((cid as int) < fin.n_clauses());
                            assert(c == cid as int);
                        }
                    }
                }
                assert forall|c: int|
                    0 <= c < fin.n_clauses() && !snapshot@.take(j + 1).contains(
                        c as ClauseId,
                    ) implies (#[trigger] fin.cl(c)) == o.cl(c) by {
                    assert(!snapshot@.take(j as int).contains(c as ClauseId));
                    assert(c != cid as int);
                    assert(fin.cl(c) == pre.cl(c));
                }
                assert forall|c: int|
                    0 <= c < fin.n_clauses() && snapshot@.take(j + 1).contains(
                        c as ClauseId,
                    ) implies (#[trigger] fin.cl(c)).len() == o.cl(c).len() - 1 by {
                    if c != cid as int {
                        assert(snapshot@.take(j as int).contains(c as ClauseId));
                        assert(fin.cl(c) == pre.cl(c));
                    }
                }
                // structural invariants
                assert(fin.wf_clauses()) by {
                    assert forall|c: int| 0 <= c < fin.n_clauses() implies (#[trigger] fin.cl(
                        c,
                    )).no_duplicates() && (forall|i: int|
                        0 <= i < fin.cl(c).len() ==> fin.lit_ok(#[trigger] fin.cl(c)[i])) by {
                        if c == cid as int {
                            assert forall|i: int| 0 <= i < fin.cl(c).len() implies fin.lit_ok(
                                #[trigger] fin.cl(c)[i],
                            ) by {
                                assert(fin.cl(c).contains(fin.cl(c)[i]));
                                assert(pre.cl(c).contains(fin.cl(c)[i]));
                                let k = choose|k: int|
                                    0 <= k < pre.cl(c).len() && pre.cl(c)[k] == fin.cl(c)[i];
                                assert(pre.lit_ok(pre.cl(c)[k]));
                            }
                        } else {
                            assert(fin.cl(c) == pre.cl(c));
                            assert(pre.cl(c).no_duplicates());
                            assert forall|i: int| 0 <= i < fin.cl(c).len() implies fin.lit_ok(
                                #[trigger] fin.cl(c)[i],
                            ) by {
                                assert(pre.lit_ok(pre.cl(c)[i]));
                            }
                        }
                    }
                }
                assert(fin.unit_ok()) by {
                    assert forall|k: int|
                        0 <= k < fin.unit_clauses@.len() implies fin.unit_entry_ok(
                        #[trigger] fin.unit_clauses@[k],
                    ) by {
                        let c2 = fin.unit_clauses@[k];
                        assert(fin.unit_clauses@.contains(c2));
                        if c2 == cid {
                            assert(fin.cl(cid as int).len() == 1);
                        } else {
                            assert(pre.unit_clauses@.contains(c2));
                            let k0 = choose|k0: int|
                                0 <= k0 < pre.unit_clauses@.len() && pre.unit_clauses@[k0] == c2;
                            assert(pre.unit_entry_ok(c2));
                            assert(fin.cl(c2 as int) == pre.cl(c2 as int));
                        }
                    }
                    assert forall|c: int|
                        0 <= c < fin.n_clauses() && fin.is_act(c) && (#[trigger] fin.cl(c)).len()
                            == 1 implies fin.unit_clauses@.contains(c as ClauseId) by {
                        if c == cid as int {
                            assert(fin.unit_clauses@.contains(cid));
                        } else {
                            assert(fin.cl(c) == pre.cl(c));
                            assert(pre.unit_clauses@.contains(c as ClauseId));
                            assert(fin.unit_clauses@.contains(c as ClauseId));
                        }
                    }
                }
                assert(fin.pure_ok()) by {
                    assert forall|k: int| 0 <= k < fin.pure_literals@.len() implies fin.is_pure(
                        #[trigger] fin.pure_literals@[k],
                    ) by {
                        let l = pre.pure_literals@[k];
                        assert(pre.is_pure(l));
                    }
                    assert forall|l: Literal| #[trigger] fin.is_pure(l) implies fin.pure_literals@.contains(
                        l,
                    ) by {
                        assert(pre.is_pure(l));
                    }
                }
                assert(fin.counts_ok()) by {
                    assert(fin.active@ == pre.active@);
                    assert(count_true(fin.active@, fin.n_clauses()) == count_true(
                        pre.active@,
                        pre.n_clauses(),
                    ));
                    if new_len == 0 {
                        assert(fin.empty_flags() =~= pre.empty_flags().update(cid as int, true));
                        assert(!pre.empty_flags()[cid as int]);
                        lemma_count_true_update(pre.empty_flags(), cid as int, true, pre.n_clauses());
                        lemma_count_true_congruence(
                            fin.empty_flags(),
                            pre.empty_flags().update(cid as int, true),
                            fin.n_clauses(),
                        );
                    } else {
                        assert(fin.empty_flags() =~= pre.empty_flags());
                        lemma_count_true_congruence(fin.empty_flags(), pre.empty_flags(), fin.n_clauses());
                    }
                }
                lemma_vars_transfer(pre, fin);
                assert(fin.orig_ok()) by {
                    assert forall|c: int| 0 <= c < fin.n_clauses() implies {
                        &&& (#[trigger] fin.orig_of(c)).finite()
                        &&& (forall|l: Literal|
                            (#[trigger] fin.orig_of(c).contains(l)) ==> fin.lit_ok(l))
                        &&& (forall|l: Literal|
                            (#[trigger] fin.cset(c).contains(l)) ==> fin.orig_of(c).contains(l))
                    } by {
                        assert(fin.orig_of(c) == pre.orig_of(c));
                        assert(pre.orig_of(c).finite());
                        assert forall|l: Literal| (#[trigger] fin.orig_of(c).contains(
                            l,
                        )) implies fin.lit_ok(l) by {
                            assert(pre.orig_of(c).contains(l));
                            assert(pre.lit_ok(l));
                        }
                        assert forall|l: Literal| (#[trigger] fin.cset(c).contains(
                            l,
                        )) implies fin.orig_of(c).contains(l) by {
                            assert(fin.cl(c).contains(l));
                            assert(pre.cl(c).contains(l));
                            assert(pre.cset(c).contains(l));
                            assert(pre.orig_of(c).contains(l));
                        }
                    }
                }
                // the log
                assert(fin.log().take(o.log().len() as int) =~= o.log());
                assert(fin.at_st(fin.log().len() as int) == fin.abs());
                assert(step_ok(
                    fin.orig@,
                    fin.at_st(fin.log().len() as int - 1),
                    Action::RemoveLiteralFromClause(cid),
                    literal,
                    fin.at_st(fin.log().len() as int),
                )) by {
                    assert(fin.at_st(fin.log().len() as int - 1) == pre_abs);
                    assert(pre_abs.act[cid as int]);
                    assert(pre.cset(cid as int).contains(literal));
                    assert(pre.orig_of(cid as int).contains(literal));
                    assert(fin.orig@[cid as int].contains(literal));
                    assert(pre_abs.cls[cid as int] == pre.cset(cid as int));
                    broadcast use vstd::seq_lib::seq_to_set_is_finite;

                    assert(pre.cset(cid as int).contains(literal));
                    assert(fin.abs().cls =~= pre_abs.cls.update(
                        cid as int,
                        pre_abs.cls[cid as int].remove(literal),
                    )) by {
                        assert(fin.cset(cid as int) =~= pre.cset(cid as int).remove(literal));
                        assert forall|c: int|
                            0 <= c < fin.n_clauses() && c != cid as int implies fin.cset(c)
                            == pre.cset(c) by {
                            assert(fin.cl(c) == pre.cl(c));
                        }
                    }
                    assert(fin.abs().act == pre_abs.act);
                    assert(fin.abs().asg == pre_abs.asg);
                }
                assert forall|i: int| 0 <= i < fin.log().len() implies step_ok(
                    fin.orig@,
                    fin.at_st(i),
                    #[trigger] fin.log()[i],
                    fin.hlits@[i],
                    fin.at_st(i + 1),
                ) by {
                    if i < fin.log().len() - 1 {
                        assert(fin.log()[i] == pre.log()[i]);
                        assert(fin.at_st(i) == pre.at_st(i));
                        assert(fin.at_st(i + 1) == pre.at_st(i + 1));
                        assert(step_ok(pre.orig@, pre.at_st(i), pre.log()[i], pre.hlits@[i], pre.at_st(i + 1)));
                    }
                }
                assert forall|i: int| 0 <= i < fin.log().len() - 1 implies adj_ok(
                    #[trigger] fin.log()[i],
                    fin.log()[i + 1],
                    fin.hlits@[i],
                    fin.hlits@[i + 1],
                ) by {
                    if i < fin.log().len() - 2 {
                        assert(adj_ok(pre.log()[i], pre.log()[i + 1], pre.hlits@[i], pre.hlits@[i + 1]));
                    }
                }
                assert forall|i: int| 0 <= i <= fin.log().len() implies st_wf(
                    #[trigger] fin.at_st(i),
                    fin.n_clauses(),
                    fin.nv(),
                ) by {
                    if i < fin.log().len() {
                        assert(fin.at_st(i) == pre.at_st(i));
                        assert(st_wf(pre.at_st(i), pre.n_clauses(), pre.nv()));
                    } else {
                        assert(fin.at_st(i) == fin.abs());
                    }
                }
                assert forall|i: int| 0 <= i <= o.log().len() implies fin.at_st(i) == o.at_st(
                    i,
                ) by {
                    assert(fin.at_st(i) == pre.at_st(i));
                }
            }
            j = j + 1;
        }
        let ghost walked = *self;
        self.actions.push(Action::RemoveLiteralFromClausesEnd(literal));
        proof {
            self.hist@ = self.hist@.push(walked.abs());
            self.hlits@ = self.hlits@.push(literal);
        }
        // The index under the literal is now empty: no active clause holds it.
        if literal > 0 {
            self.pos_occ[literal as usize].clear();
        } else {
            self.neg_occ[(-(literal as i32)) as usize].clear();
        }
        let ghost cleared = *self;
        self.check_pure_literal(literal);
        proof {
            assert(snapshot@.take(n_snap as int) =~= snapshot@);
            let fin = *self;
            assert(fin.clauses == walked.clauses);
            assert(fin.active == walked.active);
            assert(fin.assignments == walked.assignments);
            assert(fin.occ_seq(literal as int).len() == 0);
            assert forall|l: Literal| o.lit_ok(l) && l != literal implies #[trigger] fin.occ_seq(
                l as int,
            ) == o.occ_seq(l as int) by {}
            assert(fin.abs().cls =~= walked.abs().cls);
            assert(fin.abs() == walked.abs());
            // structure
            lemma_wf_clauses_transfer(walked, fin);
            lemma_vars_transfer(walked, fin);
            lemma_orig_transfer(walked, fin);
            assert(fin.wf_dims());
            assert(fin.unit_ok()) by {
                assert forall|k: int| 0 <= k < fin.unit_clauses@.len() implies fin.unit_entry_ok(
                    #[trigger] fin.unit_clauses@[k],
                ) by {
                    assert(walked.unit_entry_ok(walked.unit_clauses@[k]));
                }
                assert forall|c: int|
                    0 <= c < fin.n_clauses() && fin.is_act(c) && (#[trigger] fin.cl(c)).len()
                        == 1 implies fin.unit_clauses@.contains(c as ClauseId) by {
                    assert(walked.is_act(c) && walked.cl(c).len() == 1);
                }
            }
            assert(fin.counts_ok()) by {
                assert(fin.empty_flags() =~= walked.empty_flags());
                lemma_count_true_congruence(fin.empty_flags(), walked.empty_flags(), fin.n_clauses());
                lemma_count_true_congruence(fin.active@, walked.active@, fin.n_clauses());
            }
            assert(fin.occ_ok()) by {
                assert forall|l: Literal| #[trigger] fin.lit_ok(l) implies {
                    &&& fin.occ_seq(l as int).no_duplicates()
                    &&& (forall|k: int|
                        0 <= k < fin.occ_seq(l as int).len() ==> fin.occ_entry_ok(
                            l,
                            #[trigger] fin.occ_seq(l as int)[k],
                        ))
                    &&& (forall|c: int|
                        0 <= c < fin.n_clauses() && fin.is_act(c) && (#[trigger] fin.cl(
                            c,
                        )).contains(l) ==> fin.occ_seq(l as int).contains(c as ClauseId))
                } by {
                    assert(o.lit_ok(l));
                    if l == literal {
                        assert(fin.occ_seq(l as int) =~= Seq::<ClauseId>::empty());
                        assert forall|c: int|
                            0 <= c < fin.n_clauses() && fin.is_act(c) && (#[trigger] fin.cl(
                                c,
                            )).contains(l) implies fin.occ_seq(l as int).contains(
                            c as ClauseId,
                        ) by {
                            assert(fin.cl(c) == walked.cl(c));
                            assert(walked.cl(c).contains(literal) == (o.cl(c).contains(literal)
                                && !(literal == literal && snapshot@.take(n_snap as int).contains(
                                c as ClauseId))));
                            assert(o.cl(c).contains(literal) && !snapshot@.contains(
                                c as ClauseId,
                            ));
                            assert(o.is_act(c));
                            assert(o.occ_seq(literal as int).contains(c as ClauseId));
                            assert(false);
                        }
                    } else {
                        assert(fin.occ_seq(l as int) == o.occ_seq(l as int));
                        assert(o.occ_seq(l as int).no_duplicates());
                        assert forall|k: int|
                            0 <= k < fin.occ_seq(l as int).len() implies fin.occ_entry_ok(
                            l,
                            #[trigger] fin.occ_seq(l as int)[k],
                        ) by {
                            assert(o.occ_entry_ok(l, o.occ_seq(l as int)[k]));
                            let c2 = o.occ_seq(l as int)[k];
                            assert(fin.cl(c2 as int) == walked.cl(c2 as int));
                            assert(walked.cl(c2 as int).contains(l) == (o.cl(c2 as int).contains(
                                l,
                            ) && !(l == literal && snapshot@.take(n_snap as int).contains(c2))));
                        }
                        assert forall|c: int|
                            0 <= c < fin.n_clauses() && fin.is_act(c) && (#[trigger] fin.cl(
                                c,
                            )).contains(l) implies fin.occ_seq(l as int).contains(
                            c as ClauseId,
                        ) by {
                            assert(fin.cl(c) == walked.cl(c));
                            assert(walked.cl(c).contains(l) == (o.cl(c).contains(l) && !(l
                                == literal && snapshot@.take(n_snap as int).contains(
                                c as ClauseId,
                            ))));
                            assert(o.cl(c).contains(l));
                            assert(o.is_act(c));
                        }
                    }
                }
            }
            assert(fin.pure_ok()) by {
                assert forall|l: Literal| l != literal && l as int != -(literal as int) implies (
                #[trigger] fin.pure_literals@.contains(l)) == fin.is_pure(l) by {
                    assert(fin.pure_literals@.contains(l) == walked.pure_literals@.contains(l));
                    assert(walked.pure_literals@.contains(l) == o.pure_literals@.contains(l));
                    assert(o.pure_literals@.contains(l) == o.is_pure(l));
                    if o.lit_ok(l) {
                        assert(fin.occ_seq(l as int) == o.occ_seq(l as int));
                        let neg = (-(l as int)) as Literal;
                        assert(o.lit_ok(neg));
                        assert(neg != literal) by {
                            if neg == literal {
                                assert(l as int == -(literal as int));
                            }
                        }
                        assert(fin.occ_seq(neg as int) == o.occ_seq(neg as int));
                        assert(neg as int == -(l as int));
                    }
                }
                assert forall|k: int| 0 <= k < fin.pure_literals@.len() implies fin.is_pure(
                    #[trigger] fin.pure_literals@[k],
                ) by {
                    let l = fin.pure_literals@[k];
                    assert(fin.pure_literals@.contains(l));
                    if l == literal {
                        assert(fin.pure_literals@.contains(l) == (cleared.occ_seq(
                            literal as int,
                        ).len() > 0 && cleared.occ_seq(-(literal as int)).len() == 0));
                        assert(fin.occ_seq(l as int) == cleared.occ_seq(l as int));
                        assert(fin.occ_seq(-(l as int)) == cleared.occ_seq(-(l as int)));
                    } else if l as int == -(literal as int) {
                        assert(l == (-(literal as int)) as Literal);
                        assert(fin.pure_literals@.contains(l) == (cleared.occ_seq(
                            -(literal as int),
                        ).len() > 0 && cleared.occ_seq(literal as int).len() == 0));
                        assert(fin.occ_seq(l as int) == cleared.occ_seq(l as int));
                        assert(fin.occ_seq(-(l as int)) == cleared.occ_seq(-(l as int)));
                    }
                }
                assert forall|l: Literal| #[trigger] fin.is_pure(l) implies fin.pure_literals@.contains(
                    l,
                ) by {
                    if l == literal {
                        assert(fin.pure_literals@.contains(l) == (cleared.occ_seq(
                            literal as int,
                        ).len() > 0 && cleared.occ_seq(-(literal as int)).len() == 0));
                        assert(fin.occ_seq(l as int) == cleared.occ_seq(l as int));
                        assert(fin.occ_seq(-(l as int)) == cleared.occ_seq(-(l as int)));
                    } else if l as int == -(literal as int) {
                        assert(l == (-(literal as int)) as Literal);
                        assert(fin.pure_literals@.contains(l) == (cleared.occ_seq(
                            -(literal as int),
                        ).len() > 0 && cleared.occ_seq(literal as int).len() == 0));
                        assert(fin.occ_seq(l as int) == cleared.occ_seq(l as int));
                        assert(fin.occ_seq(-(l as int)) == cleared.occ_seq(-(l as int)));
                    }
                }
            }
            // the log: the group is complete
            assert(fin.log_ok()) by {
                let base = o.log().len() as int;
                let flen = fin.log().len() as int;
                assert forall|i: int| 0 <= i <= flen implies st_wf(
                    #[trigger] fin.at_st(i),
                    fin.n_clauses(),
                    fin.nv(),
                ) by {
                    if i < flen {
                        assert(fin.at_st(i) == walked.at_st(i));
                        assert(st_wf(walked.at_st(i), walked.n_clauses(), walked.nv()));
                    } else {
                        assert(fin.at_st(i) == fin.abs());
                    }
                }
                assert(fin.log()[flen - 1] matches Action::RemoveLiteralFromClausesEnd(el) && el
                    == literal);
                assert(step_ok(
                    fin.orig@,
                    fin.at_st(flen - 1),
                    fin.log()[flen - 1],
                    literal,
                    fin.at_st(flen),
                )) by {
                    assert(fin.at_st(flen - 1) == walked.abs());
                    assert(fin.at_st(flen) == fin.abs());
                }
                assert forall|i: int| 0 <= i < flen implies step_ok(
                    fin.orig@,
                    fin.at_st(i),
                    #[trigger] fin.log()[i],
                    fin.hlits@[i],
                    fin.at_st(i + 1),
                ) by {
                    if i < flen - 1 {
                        assert(fin.log()[i] == walked.log()[i]);
                        assert(fin.at_st(i) == walked.at_st(i));
                        assert(fin.at_st(i + 1) == walked.at_st(i + 1));
                        assert(step_ok(
                            walked.orig@,
                            walked.at_st(i),
                            walked.log()[i],
                            walked.hlits@[i],
                            walked.at_st(i + 1),
                        ));
                    }
                }
                assert forall|i: int| 0 <= i < flen - 1 implies adj_ok(
                    #[trigger] fin.log()[i],
                    fin.log()[i + 1],
                    fin.hlits@[i],
                    fin.hlits@[i + 1],
                ) by {
                    if i < flen - 2 {
                        assert(adj_ok(
                            walked.log()[i],
                            walked.log()[i + 1],
                            walked.hlits@[i],
                            walked.hlits@[i + 1],
                        ));
                    } else {
                        assert(i == flen - 2);
                        if fin.log()[i] matches Action::RemoveLiteralFromClause(_) {
                            assert(fin.hlits@[i] == literal);
                        }
                    }
                }
                assert(log_wf(fin.log())) by {
                    assert(fin.log().last() matches Action::RemoveLiteralFromClausesEnd(_));
                    assert(0 <= base < flen - 1);
                    assert(fin.log()[base] matches Action::RemoveLiteralFromClausesStart());
                    assert forall|k: int| base < k < flen - 1 implies (#[trigger] fin.log()[k]) matches Action::RemoveLiteralFromClause(
                        _,
                    ) by {
                        assert(walked.log()[k] matches Action::RemoveLiteralFromClause(_));
                    }
                    assert(fin.log().take(base) =~= o.log());
                    assert(log_wf(fin.log().take(base)));
                }
            }
            assert(fin.wf());
            assert(fin.log().take(o.log().len() as int) =~= o.log());
            assert forall|i: int| 0 <= i <= o.log().len() implies fin.at_st(i) == o.at_st(i) by {
                assert(fin.at_st(i) == walked.at_st(i));
            }
            assert forall|c: int, x: Literal|
                0 <= c < fin.n_clauses() implies ((#[trigger] fin.cl(c).contains(x)) == (o.cl(
                c,
            ).contains(x) && !(x == literal && o.occ_seq(literal as int).contains(
                c as ClauseId,
            )))) by {
                assert(fin.cl(c) == walked.cl(c));
                assert(walked.cl(c).contains(x) == (o.cl(c).contains(x) && !(x == literal
                    && snapshot@.take(n_snap as int).contains(c as ClauseId))));
            }
        }
    }

    /// Assigns the variable: satisfied clauses are softly removed, the
    /// falsified literal is removed from its clauses, and everything is logged.
    fn assign_variable(&mut self, variable: Variable, value: bool)
        requires
            old(self).wf(),
            old(self).wf_sem(),
            1 <= variable as int <= old(self).nv(),
            old(self).asg_of(variable as int) is None,
        ensures
            final(self).wf(),
            final(self).wf_sem(),
            final(self).assignments@ == old(self).assignments@.update(
                variable as int,
                Some(value),
            ),
            final(self).clauses@.len() == old(self).clauses@.len(),
            final(self).variables == old(self).variables,
            final(self).orig == old(self).orig,
            final(self).heuristic == old(self).heuristic,
            final(self).num_vars == old(self).num_vars,
            final(self).max_clause_length == old(self).max_clause_length,
            final(self).log().len() > old(self).log().len(),
            final(self).log().take(old(self).log().len() as int) == old(self).log(),
            forall|i: int|
                0 <= i <= old(self).log().len() ==> final(self).at_st(i) == old(self).at_st(i),
            final(self).n_unassigned() == old(self).n_unassigned() - 1,
    {
        let ghost o = *old(self);
        let literal: Literal = if value {
            variable as Literal
        } else {
            -(variable as Literal)
        };
        proof {
            assert(o.lit_ok(literal));
            assert(spec_var(literal) == variable);
        }
        self.assignments[variable as usize] = Some(value);
        self.actions.push(Action::AssignVariable(variable));
        proof {
            self.hist@ = self.hist@.push(o.abs());
            self.hlits@ = self.hlits@.push(0);
            lemma_idx_transfer(o, *self);
            lemma_pure_transfer(o, *self);
            lemma_wf_clauses_transfer(o, *self);
            lemma_vars_transfer(o, *self);
            lemma_orig_transfer(o, *self);
            assert(self.wf_dims());
            assert(self.abs().cls =~= o.abs().cls);
            assert(self.abs().asg == o.assignments@.update(variable as int, Some(value)));
            assert(self.log_ok()) by {
                lemma_log_wf_push_plain(o.log(), Action::AssignVariable(variable));
                assert forall|i: int| 0 <= i <= self.log().len() implies st_wf(
                    #[trigger] self.at_st(i),
                    self.n_clauses(),
                    self.nv(),
                ) by {
                    if i <= o.log().len() {
                        assert(self.at_st(i) == o.at_st(i));
                        assert(st_wf(o.at_st(i), o.n_clauses(), o.nv()));
                    } else {
                        assert(self.at_st(i) == self.abs());
                    }
                }
                assert forall|i: int| 0 <= i <= o.log().len() implies self.at_st(i) == o.at_st(
                    i,
                ) by {}
                assert(step_ok(
                    self.orig@,
                    self.at_st(o.log().len() as int),
                    Action::AssignVariable(variable),
                    0,
                    self.at_st(o.log().len() as int + 1),
                )) by {
                    assert(self.at_st(o.log().len() as int) == o.abs());
                    assert(self.at_st(o.log().len() as int + 1) == self.abs());
                }
                assert forall|i: int| 0 <= i < self.log().len() implies step_ok(
                    self.orig@,
                    self.at_st(i),
                    #[trigger] self.log()[i],
                    self.hlits@[i],
                    self.at_st(i + 1),
                ) by {
                    if i < o.log().len() {
                        assert(self.log()[i] == o.log()[i]);
                        assert(self.at_st(i) == o.at_st(i));
                        assert(self.at_st(i + 1) == o.at_st(i + 1));
                        assert(step_ok(o.orig@, o.at_st(i), o.log()[i], o.hlits@[i], o.at_st(i + 1)));
                    }
                }
                assert forall|i: int| 0 <= i < self.log().len() - 1 implies adj_ok(
                    #[trigger] self.log()[i],
                    self.log()[i + 1],
                    self.hlits@[i],
                    self.hlits@[i + 1],
                ) by {
                    if i < o.log().len() - 1 {
                        assert(adj_ok(o.log()[i], o.log()[i + 1], o.hlits@[i], o.hlits@[i + 1]));
                    }
                }
            }
            assert(self.wf());
        }
        let ghost assigned = *self;
        self.remove_clauses_with_literal(literal);
        let ghost mid = *self;
        let neg: Literal = -literal;
        proof {
            assert(mid.lit_ok(neg));
        }
        self.remove_literal_from_clauses(neg);
        let ghost removed = *self;
        proof {
            assert(self.pure_literals@.no_duplicates());
        }
        vecset_remove_lit(&mut self.pure_literals, literal);
        vecset_remove_lit(&mut self.pure_literals, neg);
        proof {
            let fin = *self;
            let v = variable as int;
            // the two scrubbing passes left the pure set exact, and the two
            // removals are no-ops because neither polarity has occurrences left
            assert(fin.occ_seq(literal as int).len() == 0) by {
                assert(removed.occ_seq(literal as int) == mid.occ_seq(literal as int));
                assert forall|c2: ClauseId|
                    !(#[trigger] mid.occ_seq(literal as int).contains(c2)) by {
                    assert(mid.occ_seq(literal as int).contains(c2) == (assigned.occ_seq(
                        literal as int,
                    ).contains(c2) && !assigned.occ_seq(literal as int).contains(c2)));
                }
                if mid.occ_seq(literal as int).len() > 0 {
                    assert(mid.occ_seq(literal as int).contains(
                        mid.occ_seq(literal as int)[0],
                    ));
                }
                assert(fin.occ_seq(literal as int) == removed.occ_seq(literal as int));
            }
            assert(fin.occ_seq(neg as int).len() == 0) by {
                assert(fin.occ_seq(neg as int) == removed.occ_seq(neg as int));
            }
            assert(fin.pure_ok()) by {
                assert forall|l: Literal| #[trigger] fin.pure_literals@.contains(l)
                    == removed.pure_literals@.contains(l) by {
                    if l == literal || l == neg {
                        if removed.pure_literals@.contains(l) {
                            assert(removed.is_pure(l));
                            assert(removed.occ_seq(l as int).len() > 0);
                            assert(removed.occ_seq(literal as int) == fin.occ_seq(literal as int));
                            assert(removed.occ_seq(neg as int) == fin.occ_seq(neg as int));
                            assert(false);
                        }
                        assert(!fin.pure_literals@.contains(l));
                    }
                }
                assert forall|k: int| 0 <= k < fin.pure_literals@.len() implies fin.is_pure(
                    #[trigger] fin.pure_literals@[k],
                ) by {
                    let l = fin.pure_literals@[k];
                    assert(fin.pure_literals@.contains(l));
                    assert(removed.pure_literals@.contains(l));
                    assert(removed.is_pure(l));
                    assert(fin.occ_seq(l as int) == removed.occ_seq(l as int));
                    assert(fin.occ_seq(-(l as int)) == removed.occ_seq(-(l as int)));
                }
                assert forall|l: Literal| #[trigger] fin.is_pure(l) implies fin.pure_literals@.contains(
                    l,
                ) by {
                    assert(fin.occ_seq(l as int) == removed.occ_seq(l as int));
                    assert(fin.occ_seq(-(l as int)) == removed.occ_seq(-(l as int)));
                    assert(removed.is_pure(l));
                }
            }
            lemma_wf_clauses_transfer(removed, fin);
            lemma_vars_transfer(removed, fin);
            lemma_orig_transfer(removed, fin);
            assert(fin.occ_ok()) by {
                assert forall|l: Literal| #[trigger] fin.lit_ok(l) implies {
                    &&& fin.occ_seq(l as int).no_duplicates()
                    &&& (forall|k: int|
                        0 <= k < fin.occ_seq(l as int).len() ==> fin.occ_entry_ok(
                            l,
                            #[trigger] fin.occ_seq(l as int)[k],
                        ))
                    &&& (forall|c: int|
                        0 <= c < fin.n_clauses() && fin.is_act(c) && (#[trigger] fin.cl(
                            c,
                        )).contains(l) ==> fin.occ_seq(l as int).contains(c as ClauseId))
                } by {
                    assert(removed.lit_ok(l));
                    assert(fin.occ_seq(l as int) == removed.occ_seq(l as int));
                    assert forall|k: int| 0 <= k < fin.occ_seq(l as int).len() implies fin.occ_entry_ok(
                        l,
                        #[trigger] fin.occ_seq(l as int)[k],
                    ) by {
                        assert(removed.occ_entry_ok(l, removed.occ_seq(l as int)[k]));
                    }
                    assert forall|c: int|
                        0 <= c < fin.n_clauses() && fin.is_act(c) && (#[trigger] fin.cl(
                            c,
                        )).contains(l) implies fin.occ_seq(l as int).contains(c as ClauseId) by {
                        assert(removed.is_act(c) && removed.cl(c).contains(l));
                    }
                }
            }
            assert(fin.unit_ok()) by {
                assert forall|k: int| 0 <= k < fin.unit_clauses@.len() implies fin.unit_entry_ok(
                    #[trigger] fin.unit_clauses@[k],
                ) by {
                    assert(removed.unit_entry_ok(removed.unit_clauses@[k]));
                }
                assert forall|c: int|
                    0 <= c < fin.n_clauses() && fin.is_act(c) && (#[trigger] fin.cl(c)).len()
                        == 1 implies fin.unit_clauses@.contains(c as ClauseId) by {
                    assert(removed.is_act(c) && removed.cl(c).len() == 1);
                }
            }
            assert(fin.counts_ok()) by {
                assert(fin.empty_flags() =~= removed.empty_flags());
                assert(fin.active@ == removed.active@);
                lemma_count_true_congruence(fin.empty_flags(), removed.empty_flags(), fin.n_clauses());
                lemma_count_true_congruence(fin.active@, removed.active@, fin.n_clauses());
            }
            assert(fin.log_ok()) by {
                assert(fin.actions == removed.actions);
                assert(fin.hist == removed.hist);
                assert(fin.hlits == removed.hlits);
                assert(fin.abs().cls =~= removed.abs().cls);
                assert(fin.abs() == removed.abs());
                lemma_log_transfer(removed, fin);
            }
            assert(fin.wf_dims());
            assert(fin.wf());
            // the abstract assignment
            assert(fin.assignments@ == o.assignments@.update(v, Some(value)));
            assert forall|i: int| 0 <= i <= o.log().len() implies fin.at_st(i) == o.at_st(i) by {
                assert(fin.at_st(i) == removed.at_st(i));
                assert(removed.at_st(i) == mid.at_st(i));
                assert(mid.at_st(i) == assigned.at_st(i));
                assert(assigned.at_st(i) == o.at_st(i));
            }
            assert(fin.log().take(o.log().len() as int) =~= o.log()) by {
                assert(assigned.log().take(o.log().len() as int) =~= o.log());
                assert(mid.log().take(assigned.log().len() as int) == assigned.log());
                assert(removed.log().take(mid.log().len() as int) == mid.log());
                assert(fin.log() == removed.log());
                assert forall|i: int| 0 <= i < o.log().len() implies fin.log()[i]
                    == o.log()[i] by {
                    assert(removed.log()[i] == mid.log().take(mid.log().len() as int)[i]);
                    assert(mid.log()[i] == assigned.log()[i]);
                    assert(assigned.log()[i] == o.log()[i]);
                }
            }
            // the semantic invariant
            assert(fin.wf_sem()) by {
                let asg1 = fin.abs().asg;
                assert(asg1 == o.assignments@.update(v, Some(value)));
                assert forall|x: Literal| spec_var(x) != variable implies lit_sat(asg1, x)
                    == lit_sat(o.assignments@, x) && lit_unassigned(asg1, x) == lit_unassigned(
                    o.assignments@,
                    x,
                ) by {}
                assert(lit_sat(asg1, literal));
                assert(!lit_sat(asg1, neg));
                assert(!lit_unassigned(asg1, literal) && !lit_unassigned(asg1, neg));
                assert forall|x: Literal|
                    x != literal && x != neg && spec_var(x) == variable implies !o.lit_ok(x) by {}
                // activity after the pipeline
                assert forall|c: int| 0 <= c < fin.n_clauses() implies (#[trigger] fin.is_act(c))
                    == (o.is_act(c) && !o.occ_seq(literal as int).contains(c as ClauseId)) by {
                    assert(fin.is_act(c) == removed.is_act(c));
                    assert(removed.active == mid.active);
                    assert(mid.is_act(c) == (assigned.is_act(c) && !assigned.occ_seq(
                        literal as int,
                    ).contains(c as ClauseId)));
                }
                // clause contents after the pipeline
                assert forall|c: int, x: Literal|
                    0 <= c < fin.n_clauses() implies (#[trigger] fin.cl(c).contains(x)) == (o.cl(
                    c,
                ).contains(x) && !(x == neg && mid.occ_seq(neg as int).contains(
                    c as ClauseId,
                ))) by {
                    assert(fin.cl(c) == removed.cl(c));
                    assert(removed.cl(c).contains(x) == (mid.cl(c).contains(x) && !(x == neg
                        && mid.occ_seq(neg as int).contains(c as ClauseId))));
                    assert(mid.clauses == assigned.clauses);
                    assert(assigned.clauses == o.clauses);
                }
                assert(fin.abs().cls.len() == fin.orig@.len());
                assert(fin.abs().act.len() == fin.orig@.len());
                // (a) no satisfied literal in an active clause
                assert forall|c: int|
                    0 <= c < fin.orig@.len() && fin.abs().act[c] implies (forall|l: Literal|
                    (#[trigger] fin.orig@[c].contains(l)) ==> !lit_sat(asg1, l)) by {
                    assert(fin.is_act(c));
                    assert(o.is_act(c) && !o.occ_seq(literal as int).contains(c as ClauseId));
                    assert forall|l: Literal| (#[trigger] fin.orig@[c].contains(
                        l,
                    )) implies !lit_sat(asg1, l) by {
                        assert(o.orig_of(c).contains(l));
                        assert(!lit_sat(o.abs().asg, l));
                        if l == literal {
                            assert(lit_unassigned(o.assignments@, literal));
                            assert(o.abs().cls[c].contains(literal) == (o.orig_of(c).contains(
                                literal,
                            ) && lit_unassigned(o.abs().asg, literal)));
                            assert(o.cset(c).contains(literal));
                            assert(o.cl(c).contains(literal));
                            assert(o.occ_seq(literal as int).contains(c as ClauseId));
                            assert(false);
                        } else if l == neg {
                            assert(!lit_sat(asg1, neg));
                        } else if spec_var(l) == variable {
                            assert(!o.lit_ok(l));
                            assert(o.lit_ok(l));
                            assert(false);
                        }
                    }
                }
                // (b) active clauses hold exactly their unassigned literals
                assert forall|c: int, x: Literal|
                    0 <= c < fin.orig@.len() && fin.abs().act[c] implies ((
                #[trigger] fin.abs().cls[c].contains(x)) <==> (fin.orig@[c].contains(x)
                    && lit_unassigned(asg1, x))) by {
                    assert(fin.abs().cls[c] == fin.cset(c));
                    assert(fin.is_act(c));
                    assert(o.is_act(c) && !o.occ_seq(literal as int).contains(c as ClauseId));
                    assert(o.abs().cls[c].contains(x) == (o.orig_of(c).contains(x)
                        && lit_unassigned(o.abs().asg, x)));
                    assert(fin.cset(c).contains(x) == fin.cl(c).contains(x));
                    assert(o.abs().cls[c].contains(x) == o.cl(c).contains(x));
                    if x == literal {
                        assert(!fin.cl(c).contains(x)) by {
                            if o.cl(c).contains(literal) {
                                assert(o.occ_seq(literal as int).contains(c as ClauseId));
                            }
                        }
                        assert(!lit_unassigned(asg1, x));
                    } else if x == neg {
                        assert(!fin.cl(c).contains(x)) by {
                            if o.cl(c).contains(neg) {
                                assert(o.occ_seq(neg as int).contains(c as ClauseId));
                                assert(mid.occ_seq(neg as int).contains(c as ClauseId) == (
                                o.occ_seq(neg as int).contains(c as ClauseId) && !o.occ_seq(
                                    literal as int,
                                ).contains(c as ClauseId)));
                            }
                        }
                        assert(!lit_unassigned(asg1, x));
                    } else {
                        assert(fin.cl(c).contains(x) == o.cl(c).contains(x));
                        if spec_var(x) == variable {
                            assert(!o.lit_ok(x));
                            assert(!o.cl(c).contains(x)) by {
                                if o.cl(c).contains(x) {
                                    let k = choose|k: int|
                                        0 <= k < o.cl(c).len() && o.cl(c)[k] == x;
                                    assert(o.lit_ok(o.cl(c)[k]));
                                }
                            }
                            assert(!fin.orig@[c].contains(x)) by {
                                if o.orig_of(c).contains(x) {
                                    assert(o.lit_ok(x));
                                }
                            }
                        } else {
                            assert(lit_unassigned(asg1, x) == lit_unassigned(o.abs().asg, x));
                        }
                    }
                }
                // (c) every inactive clause keeps a satisfied literal
                assert forall|c: int|
                    0 <= c < fin.orig@.len() && !fin.abs().act[c] implies exists|l: Literal|
                    fin.orig@[c].contains(l) && lit_sat(asg1, l) by {
                    if !o.is_act(c) {
                        let l = choose|l: Literal|
                            o.orig_of(c).contains(l) && lit_sat(o.abs().asg, l);
                        assert(spec_var(l) != variable) by {
                            if spec_var(l) == variable {
                                assert(o.abs().asg[v] is None);
                            }
                        }
                        assert(lit_sat(asg1, l));
                        assert(fin.orig@[c].contains(l) && lit_sat(asg1, l));
                    } else {
                        assert(!fin.is_act(c));
                        assert(o.occ_seq(literal as int).contains(c as ClauseId));
                        assert(o.occ_entry_ok(literal, c as ClauseId));
                        assert(o.cl(c).contains(literal));
                        assert(o.cset(c).contains(literal));
                        assert(o.orig_of(c).contains(literal));
                        assert(fin.orig@[c].contains(literal) && lit_sat(asg1, literal));
                    }
                }
            }
            // one fewer unassigned variable
            assert(fin.n_unassigned() == o.n_unassigned() - 1) by {
                assert(fin.unassigned_flags() =~= o.unassigned_flags().update(v, false));
                assert(o.unassigned_flags()[v]);
                lemma_count_true_update(
                    o.unassigned_flags(),
                    v,
                    false,
                    o.unassigned_flags().len() as int,
                );
                lemma_count_true_congruence(
                    fin.unassigned_flags(),
                    o.unassigned_flags().update(v, false),
                    fin.unassigned_flags().len() as int,
                );
            }
        }
    }

    /// Assigns a decision variable; the effect is the same as a propagated
    /// assignment.
    pub fn branch_variable(&mut self, variable: Variable, value: bool)
        requires
            old(self).wf(),
            old(self).wf_sem(),
            1 <= variable as int <= old(self).nv(),
            old(self).asg_of(variable as int) is None,
        ensures
            final(self).wf(),
            final(self).wf_sem(),
            final(self).asg_seq() == old(self).asg_seq().update(variable as int, Some(value)),
            final(self).n_clauses() == old(self).n_clauses(),
            final(self).spec_variables() == old(self).spec_variables(),
            final(self).orig_formula() == old(self).orig_formula(),
            final(self).spec_heuristic() == old(self).spec_heuristic(),
            final(self).nv() == old(self).nv(),
            final(self).log().len() > old(self).log().len(),
            final(self).log().take(old(self).log().len() as int) == old(self).log(),
            forall|i: int|
                0 <= i <= old(self).log().len() ==> final(self).at_st(i) == old(self).at_st(i),
            final(self).n_unassigned() == old(self).n_unassigned() - 1,
            old(self).assigned_known() && old(self).spec_variables().contains(variable)
                ==> final(self).assigned_known(),
    {
        self.assign_variable(variable, value);
        proof {
            if old(self).assigned_known() && old(self).spec_variables().contains(variable) {
                assert forall|v: int|
                    1 <= v <= self.nv() && (#[trigger] self.asg_of(v))
                        is Some implies self.spec_variables().contains(v as Variable) by {
                    if v != variable as int {
                        assert(old(self).asg_of(v) is Some);
                    }
                }
            }
        }
    }

    /// Re-enables a softly removed clause: its literals are re-indexed, purity
    /// around them is re-evaluated, and the counters are restored.
    fn enable_clause(&mut self, clause_id: ClauseId)
        requires
            old(self).wf_core(),
            (clause_id as int) < old(self).n_clauses(),
            !old(self).is_act(clause_id as int),
            old(self).cl(clause_id as int).len() > 0,
        ensures
            final(self).wf_core(),
            final(self).clauses == old(self).clauses,
            final(self).assignments == old(self).assignments,
            final(self).variables == old(self).variables,
            final(self).orig == old(self).orig,
            final(self).heuristic == old(self).heuristic,
            final(self).num_vars == old(self).num_vars,
            final(self).max_clause_length == old(self).max_clause_length,
            final(self).actions == old(self).actions,
            final(self).hist == old(self).hist,
            final(self).hlits == old(self).hlits,
            final(self).active@ == old(self).active@.update(clause_id as int, true),
            final(self).spec_num_empty() == old(self).spec_num_empty(),
            final(self).abs() == (EngineState {
                act: old(self).abs().act.update(clause_id as int, true),
                ..old(self).abs()
            }),
    {
        let ghost o = *old(self);
        let cid_us = clause_id as usize;
        let n_lits = self.clauses[cid_us].len();
        let mut i: usize = 0;
        while i < n_lits
            invariant
                o == *old(self),
                o.wf_core(),
                (clause_id as int) < o.n_clauses(),
                !o.is_act(clause_id as int),
                n_lits == o.cl(clause_id as int).len(),
                cid_us == clause_id as usize,
                i <= n_lits,
                self.clauses == o.clauses,
                self.active == o.active,
                self.unit_clauses == o.unit_clauses,
                self.variables == o.variables,
                self.assignments == o.assignments,
                self.num_vars == o.num_vars,
                self.num_active_clauses == o.num_active_clauses,
                self.num_empty_clauses == o.num_empty_clauses,
                self.max_clause_length == o.max_clause_length,
                self.heuristic == o.heuristic,
                self.actions == o.actions,
                self.orig == o.orig,
                self.hist == o.hist,
                self.hlits == o.hlits,
                self.pos_occ@.len() == o.pos_occ@.len(),
                self.neg_occ@.len() == o.neg_occ@.len(),
                forall|l: Literal|
                    o.lit_ok(l) ==> (#[trigger] self.occ_seq(l as int)) == if o.cl(
                        clause_id as int,
                    ).take(i as int).contains(l) {
                        o.occ_seq(l as int).push(clause_id)
                    } else {
                        o.occ_seq(l as int)
                    },
                self.pure_literals@.no_duplicates(),
                forall|l: Literal| #[trigger] self.pure_literals@.contains(l) == self.is_pure(l),
            decreases n_lits - i,
        {
            let literal = self.clauses[cid_us].get(i);
            proof {
                assert(o.cl(clause_id as int)[i as int] == literal);
                assert(o.lit_ok(literal));
                assert(!o.cl(clause_id as int).take(i as int).contains(literal)) by {
                    if o.cl(clause_id as int).take(i as int).contains(literal) {
                        let j = choose|j: int|
                            0 <= j < i && #[trigger] o.cl(clause_id as int).take(i as int)[j]
                                == literal;
                        assert(o.cl(clause_id as int)[j] == o.cl(clause_id as int)[i as int]);
                    }
                }
            }
            let ghost pre = *self;
            if literal > 0 {
                self.pos_occ[literal as usize].push(clause_id);
            } else {
                self.neg_occ[(-(literal as i32)) as usize].push(clause_id);
            }
            proof {
                assert(self.occ_seq(literal as int) == pre.occ_seq(literal as int).push(
                    clause_id,
                ));
                lemma_take_push_contains(o.cl(clause_id as int), i as int);
                assert forall|l: Literal|
                    o.lit_ok(l) implies (#[trigger] self.occ_seq(l as int)) == if o.cl(
                    clause_id as int,
                ).take(i + 1).contains(l) {
                    o.occ_seq(l as int).push(clause_id)
                } else {
                    o.occ_seq(l as int)
                } by {
                    if l == literal {
                        assert(o.cl(clause_id as int).take(i + 1).contains(l));
                        assert(pre.occ_seq(l as int) == o.occ_seq(l as int));
                    } else {
                        assert(self.occ_seq(l as int) == pre.occ_seq(l as int));
                        assert(o.cl(clause_id as int).take(i + 1).contains(l) == o.cl(
                            clause_id as int,
                        ).take(i as int).contains(l));
                    }
                }
            }
            let ghost mid = *self;
            self.check_pure_literal(literal);
            proof {
                assert forall|l: Literal| o.lit_ok(l) implies (#[trigger] self.occ_seq(l as int))
                    == mid.occ_seq(l as int) by {}
                assert forall|l: Literal| #[trigger] self.pure_literals@.contains(l)
                    == self.is_pure(l) by {
                    if l == literal || l as int == -(literal as int) {
                        assert(self.occ_seq(l as int) == mid.occ_seq(l as int));
                        assert(self.occ_seq(-(l as int)) == mid.occ_seq(-(l as int)));
                    } else {
                        assert(self.pure_literals@.contains(l) == mid.pure_literals@.contains(l));
                        assert(self.occ_seq(l as int) == mid.occ_seq(l as int));
                        assert(self.occ_seq(-(l as int)) == mid.occ_seq(-(l as int)));
                    }
                }
            }
            i = i + 1;
        }
        proof {
            assert(o.cl(clause_id as int).take(n_lits as int) =~= o.cl(clause_id as int));
            lemma_count_true_bounds(o.active@, o.n_clauses());
            lemma_count_true_update(o.active@, clause_id as int, true, o.n_clauses());
            lemma_count_true_bounds(o.active@.update(clause_id as int, true), o.n_clauses());
        }
        let ghost walked = *self;
        self.active[cid_us] = true;
        self.num_active_clauses = self.num_active_clauses + 1;
        if n_lits == 1 {
            proof {
                assert forall|k: int|
                    0 <= k < self.unit_clauses@.len() implies #[trigger] self.unit_clauses@[k]
                    != clause_id by {
                    assert(o.unit_entry_ok(o.unit_clauses@[k]));
                }
            }
            self.unit_clauses.push(clause_id);
        }
        proof {
            let fin = *self;
            let cid = clause_id as int;
            assert(fin.pos_occ == walked.pos_occ && fin.neg_occ == walked.neg_occ);
            assert(fin.pure_literals == walked.pure_literals);
            assert forall|l: Literal| #[trigger] fin.occ_seq(l as int) == walked.occ_seq(
                l as int,
            ) by {}
            assert(fin.active@ == o.active@.update(cid, true));
            assert(fin.abs().cls =~= o.abs().cls);
            assert(fin.abs() == (EngineState {
                act: o.abs().act.update(cid, true),
                ..o.abs()
            }));
            lemma_wf_clauses_transfer(o, fin);
            lemma_vars_transfer(o, fin);
            lemma_orig_transfer(o, fin);
            assert(fin.wf_dims());
            assert forall|l: Literal, c2: ClauseId|
                o.lit_ok(l) implies ((#[trigger] fin.occ_seq(l as int).contains(c2)) == (
            o.occ_seq(l as int).contains(c2) || (c2 == clause_id && o.cl(cid).contains(
                l,
            )))) by {
                assert(walked.occ_seq(l as int) == if o.cl(cid).take(n_lits as int).contains(l) {
                    o.occ_seq(l as int).push(clause_id)
                } else {
                    o.occ_seq(l as int)
                });
                if o.cl(cid).contains(l) {
                    assert(walked.occ_seq(l as int) == o.occ_seq(l as int).push(clause_id));
                    assert(fin.occ_seq(l as int).contains(c2) == (o.occ_seq(l as int).contains(c2)
                        || c2 == clause_id)) by {
                        if fin.occ_seq(l as int).contains(c2) {
                            let k = choose|k: int|
                                0 <= k < fin.occ_seq(l as int).len() && fin.occ_seq(l as int)[k]
                                    == c2;
                            if k < o.occ_seq(l as int).len() {
                                assert(o.occ_seq(l as int)[k] == c2);
                            }
                        }
                        if o.occ_seq(l as int).contains(c2) {
                            let k = choose|k: int|
                                0 <= k < o.occ_seq(l as int).len() && o.occ_seq(l as int)[k] == c2;
                            assert(fin.occ_seq(l as int)[k] == c2);
                        }
                        assert(fin.occ_seq(l as int).last() == clause_id);
                    }
                }
            }
            assert(fin.occ_ok()) by {
                assert forall|l: Literal| #[trigger] fin.lit_ok(l) implies {
                    &&& fin.occ_seq(l as int).no_duplicates()
                    &&& (forall|k: int|
                        0 <= k < fin.occ_seq(l as int).len() ==> fin.occ_entry_ok(
                            l,
                            #[trigger] fin.occ_seq(l as int)[k],
                        ))
                    &&& (forall|c: int|
                        0 <= c < fin.n_clauses() && fin.is_act(c) && (#[trigger] fin.cl(
                            c,
                        )).contains(l) ==> fin.occ_seq(l as int).contains(c as ClauseId))
                } by {
                    assert(o.lit_ok(l));
                    assert forall|k: int|
                        0 <= k < o.occ_seq(l as int).len() implies ((#[trigger] o.occ_seq(
                        l as int,
                    )[k]) as int) < o.n_clauses() && o.occ_seq(l as int)[k] != clause_id by {
                        assert(o.occ_entry_ok(l, o.occ_seq(l as int)[k]));
                    }
                    assert(fin.occ_seq(l as int).no_duplicates()) by {
                        if o.cl(cid).contains(l) {
                            assert(walked.occ_seq(l as int) == o.occ_seq(l as int).push(
                                clause_id,
                            ));
                            assert(!o.occ_seq(l as int).contains(clause_id)) by {
                                if o.occ_seq(l as int).contains(clause_id) {
                                    let k = choose|k: int|
                                        0 <= k < o.occ_seq(l as int).len() && o.occ_seq(
                                            l as int,
                                        )[k] == clause_id;
                                }
                            }
                        } else {
                            assert(fin.occ_seq(l as int) == o.occ_seq(l as int));
                        }
                    }
                    assert forall|k: int|
                        0 <= k < fin.occ_seq(l as int).len() implies fin.occ_entry_ok(
                        l,
                        #[trigger] fin.occ_seq(l as int)[k],
                    ) by {
                        let c2 = fin.occ_seq(l as int)[k];
                        assert(fin.occ_seq(l as int).contains(c2));
                        assert(o.occ_seq(l as int).contains(c2) || (c2 == clause_id && o.cl(
                            cid,
                        ).contains(l)));
                        if c2 == clause_id && o.cl(cid).contains(l) {
                            assert(fin.is_act(cid));
                        } else {
                            assert(o.occ_seq(l as int).contains(c2));
                            let k0 = choose|k0: int|
                                0 <= k0 < o.occ_seq(l as int).len() && o.occ_seq(l as int)[k0]
                                    == c2;
                            assert(o.occ_entry_ok(l, c2));
                        }
                    }
                    assert forall|c: int|
                        0 <= c < fin.n_clauses() && fin.is_act(c) && (#[trigger] fin.cl(
                            c,
                        )).contains(l) implies fin.occ_seq(l as int).contains(c as ClauseId) by {
                        if c == cid {
                            assert(o.cl(cid).contains(l));
                        } else {
                            assert(o.is_act(c) && o.cl(c).contains(l));
                            assert(o.occ_seq(l as int).contains(c as ClauseId));
                        }
                    }
                }
            }
            assert(fin.unit_ok()) by {
                assert forall|k: int| 0 <= k < fin.unit_clauses@.len() implies fin.unit_entry_ok(
                    #[trigger] fin.unit_clauses@[k],
                ) by {
                    let c2 = fin.unit_clauses@[k];
                    if k < o.unit_clauses@.len() {
                        assert(c2 == o.unit_clauses@[k]);
                        assert(o.unit_entry_ok(c2));
                        assert(c2 != clause_id);
                    } else {
                        assert(c2 == clause_id);
                        assert(n_lits == 1);
                    }
                }
                assert forall|c: int|
                    0 <= c < fin.n_clauses() && fin.is_act(c) && (#[trigger] fin.cl(c)).len()
                        == 1 implies fin.unit_clauses@.contains(c as ClauseId) by {
                    if c == cid {
                        assert(n_lits == 1);
                        assert(fin.unit_clauses@.last() == clause_id);
                    } else {
                        assert(o.is_act(c) && o.cl(c).len() == 1);
                        assert(o.unit_clauses@.contains(c as ClauseId));
                        let k = choose|k: int|
                            0 <= k < o.unit_clauses@.len() && o.unit_clauses@[k] == c as ClauseId;
                        assert(fin.unit_clauses@[k] == c as ClauseId);
                    }
                }
            }
            assert(fin.pure_ok()) by {
                assert forall|k: int| 0 <= k < fin.pure_literals@.len() implies fin.is_pure(
                    #[trigger] fin.pure_literals@[k],
                ) by {
                    assert(fin.pure_literals@.contains(fin.pure_literals@[k]));
                    assert(walked.pure_literals@.contains(fin.pure_literals@[k]));
                    assert(walked.is_pure(fin.pure_literals@[k]));
                }
                assert forall|l: Literal| #[trigger] fin.is_pure(l) implies fin.pure_literals@.contains(
                    l,
                ) by {
                    assert(walked.is_pure(l));
                }
            }
            assert(fin.counts_ok()) by {
                lemma_count_true_congruence(fin.active@, o.active@.update(cid, true), fin.n_clauses());
                assert(fin.empty_flags() =~= o.empty_flags().update(cid, false));
                assert(!o.empty_flags()[cid]);
                lemma_count_true_update(o.empty_flags(), cid, false, o.n_clauses());
                lemma_count_true_congruence(
                    fin.empty_flags(),
                    o.empty_flags().update(cid, false),
                    fin.n_clauses(),
                );
            }
            assert(fin.wf_core());
        }
    }

    /// Puts a previously removed literal back at the end of an active clause,
    /// updating the indices and counters; purity is left for the caller.
    fn undo_literal_removal(&mut self, clause_id: ClauseId, literal: Literal)
        requires
            old(self).wf_dims(),
            old(self).wf_clauses(),
            old(self).occ_ok(),
            old(self).unit_ok(),
            old(self).counts_ok(),
            old(self).vars_ok(),
            old(self).orig_ok(),
            (clause_id as int) < old(self).n_clauses(),
            old(self).is_act(clause_id as int),
            !old(self).cl(clause_id as int).contains(literal),
            old(self).orig_of(clause_id as int).contains(literal),
        ensures
            final(self).wf_dims(),
            final(self).wf_clauses(),
            final(self).occ_ok(),
            final(self).unit_ok(),
            final(self).counts_ok(),
            final(self).vars_ok(),
            final(self).orig_ok(),
            final(self).active == old(self).active,
            final(self).assignments == old(self).assignments,
            final(self).variables == old(self).variables,
            final(self).orig == old(self).orig,
            final(self).heuristic == old(self).heuristic,
            final(self).num_vars == old(self).num_vars,
            final(self).max_clause_length == old(self).max_clause_length,
            final(self).num_active_clauses == old(self).num_active_clauses,
            final(self).actions == old(self).actions,
            final(self).hist == old(self).hist,
            final(self).hlits == old(self).hlits,
            final(self).pure_literals == old(self).pure_literals,
            final(self).clauses@.len() == old(self).clauses@.len(),
            final(self).cl(clause_id as int) == old(self).cl(clause_id as int).push(literal),
            forall|c: int|
                0 <= c < final(self).n_clauses() && c != clause_id as int ==> (
                #[trigger] final(self).cl(c)) == old(self).cl(c),
            forall|l2: Literal|
                old(self).lit_ok(l2) && l2 != literal ==> (#[trigger] final(self).occ_seq(
                    l2 as int,
                )) == old(self).occ_seq(l2 as int),
            final(self).occ_seq(literal as int) == old(self).occ_seq(literal as int).push(
                clause_id,
            ),
            final(self).abs().cls == old(self).abs().cls.update(
                clause_id as int,
                old(self).cset(clause_id as int).insert(literal),
            ),
            final(self).abs().act == old(self).abs().act,
            final(self).abs().asg == old(self).abs().asg,
    {
        let ghost o = *old(self);
        let ghost cid = clause_id as int;
        proof {
            assert(o.lit_ok(literal));
        }
        let clen = self.clauses[clause_id as usize].len();
        self.clauses[clause_id as usize].insert(literal);
        if clen == 0 {
            proof {
                assert(o.empty_flags()[cid]);
                lemma_count_true_nonzero(o.empty_flags(), cid, o.n_clauses());
            }
            self.num_empty_clauses = self.num_empty_clauses - 1;
            vecset_insert_u16(&mut self.unit_clauses, clause_id);
        } else if clen == 1 {
            vecset_remove_u16(&mut self.unit_clauses, clause_id);
        }
        proof {
            assert(!o.occ_seq(literal as int).contains(clause_id)) by {
                if o.occ_seq(literal as int).contains(clause_id) {
                    let k = choose|k: int|
                        0 <= k < o.occ_seq(literal as int).len() && o.occ_seq(literal as int)[k]
                            == clause_id;
                    assert(o.occ_entry_ok(literal, clause_id));
                }
            }
            assert(o.occ_seq(literal as int).no_duplicates());
        }
        if literal > 0 {
            self.pos_occ[literal as usize].push(clause_id);
        } else {
            self.neg_occ[(-(literal as i32)) as usize].push(clause_id);
        }
        proof {
            let fin = *self;
            assert(fin.cl(cid) == o.cl(cid).push(literal));
            assert(fin.occ_seq(literal as int) == o.occ_seq(literal as int).push(clause_id));
            assert forall|l2: Literal|
                o.lit_ok(l2) && l2 != literal implies (#[trigger] fin.occ_seq(l2 as int))
                == o.occ_seq(l2 as int) by {}
            assert forall|c2: int|
                0 <= c2 < fin.n_clauses() && c2 != cid implies (#[trigger] fin.cl(c2)) == o.cl(
                c2,
            ) by {}
            assert forall|x: Literal| #[trigger] fin.cl(cid).contains(x) == (o.cl(cid).contains(
                x,
            ) || x == literal) by {
                if fin.cl(cid).contains(x) {
                    let k = choose|k: int| 0 <= k < fin.cl(cid).len() && fin.cl(cid)[k] == x;
                    if k < o.cl(cid).len() {
                        assert(o.cl(cid)[k] == x);
                    } else {
                        assert(x == literal);
                    }
                }
                if o.cl(cid).contains(x) {
                    let k = choose|k: int| 0 <= k < o.cl(cid).len() && o.cl(cid)[k] == x;
                    assert(fin.cl(cid)[k] == x);
                }
                assert(fin.cl(cid).last() == literal);
            }
            assert(fin.cset(cid) =~= o.cset(cid).insert(literal));
            assert(fin.abs().cls =~= o.abs().cls.update(cid, o.cset(cid).insert(literal))) by {
                assert forall|c2: int| 0 <= c2 < fin.n_clauses() implies fin.abs().cls[c2]
                    == o.abs().cls.update(cid, o.cset(cid).insert(literal))[c2] by {
                    if c2 == cid {
                        assert(fin.abs().cls[c2] == fin.cset(cid));
                    } else {
                        assert(fin.abs().cls[c2] == fin.cset(c2));
                        assert(fin.cset(c2) == o.cset(c2));
                    }
                }
            }
            assert(fin.wf_dims());
            assert(fin.wf_clauses()) by {
                assert forall|c2: int| 0 <= c2 < fin.n_clauses() implies (#[trigger] fin.cl(
                    c2,
                )).no_duplicates() && (forall|i2: int|
                    0 <= i2 < fin.cl(c2).len() ==> fin.lit_ok(#[trigger] fin.cl(c2)[i2])) by {
                    if c2 == cid {
                        assert(o.cl(c2).no_duplicates());
                        assert(!o.cl(c2).contains(literal));
                        assert forall|i2: int| 0 <= i2 < fin.cl(c2).len() implies fin.lit_ok(
                            #[trigger] fin.cl(c2)[i2],
                        ) by {
                            if i2 < o.cl(c2).len() {
                                assert(o.lit_ok(o.cl(c2)[i2]));
                            } else {
                                assert(fin.cl(c2)[i2] == literal);
                            }
                        }
                    } else {
                        assert(fin.cl(c2) == o.cl(c2));
                        assert(o.cl(c2).no_duplicates());
                        assert forall|i2: int| 0 <= i2 < fin.cl(c2).len() implies fin.lit_ok(
                            #[trigger] fin.cl(c2)[i2],
                        ) by {
                            assert(o.lit_ok(o.cl(c2)[i2]));
                        }
                    }
                }
            }
            assert(fin.occ_ok()) by {
                assert forall|l2: Literal| #[trigger] fin.lit_ok(l2) implies {
                    &&& fin.occ_seq(l2 as int).no_duplicates()
                    &&& (forall|k: int|
                        0 <= k < fin.occ_seq(l2 as int).len() ==> fin.occ_entry_ok(
                            l2,
                            #[trigger] fin.occ_seq(l2 as int)[k],
                        ))
                    &&& (forall|c2: int|
                        0 <= c2 < fin.n_clauses() && fin.is_act(c2) && (#[trigger] fin.cl(
                            c2,
                        )).contains(l2) ==> fin.occ_seq(l2 as int).contains(c2 as ClauseId))
                } by {
                    assert(o.lit_ok(l2));
                    assert(fin.occ_seq(l2 as int).no_duplicates()) by {
                        if l2 == literal {
                            assert(!o.occ_seq(literal as int).contains(clause_id));
                        } else {
                            assert(fin.occ_seq(l2 as int) == o.occ_seq(l2 as int));
                        }
                    }
                    assert forall|k: int|
                        0 <= k < fin.occ_seq(l2 as int).len() implies fin.occ_entry_ok(
                        l2,
                        #[trigger] fin.occ_seq(l2 as int)[k],
                    ) by {
                        if l2 == literal && k == fin.occ_seq(l2 as int).len() - 1 {
                            assert(fin.occ_seq(l2 as int)[k] == clause_id);
                            assert(fin.cl(cid).contains(literal));
                        } else {
                            assert(fin.occ_seq(l2 as int)[k] == o.occ_seq(l2 as int)[k]);
                            assert(o.occ_entry_ok(l2, o.occ_seq(l2 as int)[k]));
                            let c2 = o.occ_seq(l2 as int)[k];
                            assert(fin.cl(c2 as int).contains(l2)) by {
                                if c2 as int == cid {
                                    assert(o.cl(cid).contains(l2));
                                    assert(fin.cl(cid).contains(l2));
                                } else {
                                    assert(fin.cl(c2 as int) == o.cl(c2 as int));
                                }
                            }
                        }
                    }
                    assert forall|c2: int|
                        0 <= c2 < fin.n_clauses() && fin.is_act(c2) && (#[trigger] fin.cl(
                            c2,
                        )).contains(l2) implies fin.occ_seq(l2 as int).contains(
                        c2 as ClauseId,
                    ) by {
                        if c2 == cid && l2 == literal {
                            assert(fin.occ_seq(l2 as int).last() == clause_id);
                        } else {
                            assert(o.cl(c2).contains(l2)) by {
                                if c2 == cid {
                                    assert(fin.cl(cid).contains(l2) && l2 != literal);
                                } else {
                                    assert(fin.cl(c2) == o.cl(c2));
                                }
                            }
                            assert(o.occ_seq(l2 as int).contains(c2 as ClauseId));
                            if l2 == literal {
                                let k = choose|k: int|
                                    0 <= k < o.occ_seq(l2 as int).len() && o.occ_seq(l2 as int)[k]
                                        == c2 as ClauseId;
                                assert(fin.occ_seq(l2 as int)[k] == c2 as ClauseId);
                            } else {
                                assert(fin.occ_seq(l2 as int) == o.occ_seq(l2 as int));
                            }
                        }
                    }
                }
            }
            assert(fin.unit_ok()) by {
                assert forall|k: int| 0 <= k < fin.unit_clauses@.len() implies fin.unit_entry_ok(
                    #[trigger] fin.unit_clauses@[k],
                ) by {
                    let c2 = fin.unit_clauses@[k];
                    assert(fin.unit_clauses@.contains(c2));
                    if c2 == clause_id {
                        if clen == 0 {
                            assert(fin.cl(cid).len() == 1);
                        } else {
                            assert(o.unit_clauses@.contains(c2));
                            let k0 = choose|k0: int|
                                0 <= k0 < o.unit_clauses@.len() && o.unit_clauses@[k0] == c2;
                            assert(o.unit_entry_ok(c2));
                            assert(clen == 1);
                            assert(false);
                        }
                    } else {
                        assert(o.unit_clauses@.contains(c2));
                        let k0 = choose|k0: int|
                            0 <= k0 < o.unit_clauses@.len() && o.unit_clauses@[k0] == c2;
                        assert(o.unit_entry_ok(c2));
                        assert(fin.cl(c2 as int) == o.cl(c2 as int));
                    }
                }
                assert forall|c2: int|
                    0 <= c2 < fin.n_clauses() && fin.is_act(c2) && (#[trigger] fin.cl(c2)).len()
                        == 1 implies fin.unit_clauses@.contains(c2 as ClauseId) by {
                    if c2 == cid {
                        assert(clen == 0);
                        assert(fin.unit_clauses@.contains(clause_id));
                    } else {
                        assert(fin.cl(c2) == o.cl(c2));
                        assert(o.unit_clauses@.contains(c2 as ClauseId));
                        assert(fin.unit_clauses@.contains(c2 as ClauseId));
                    }
                }
            }
            assert(fin.counts_ok()) by {
                assert(fin.active@ == o.active@);
                lemma_count_true_congruence(fin.active@, o.active@, fin.n_clauses());
                if clen == 0 {
                    assert(fin.empty_flags() =~= o.empty_flags().update(cid, false));
                    lemma_count_true_update(o.empty_flags(), cid, false, o.n_clauses());
                    lemma_count_true_congruence(
                        fin.empty_flags(),
                        o.empty_flags().update(cid, false),
                        fin.n_clauses(),
                    );
                } else {
                    assert(fin.empty_flags() =~= o.empty_flags());
                    lemma_count_true_congruence(fin.empty_flags(), o.empty_flags(), fin.n_clauses());
                }
            }
            lemma_vars_transfer(o, fin);
            assert(fin.orig_ok()) by {
                assert forall|c2: int| 0 <= c2 < fin.n_clauses() implies {
                    &&& (#[trigger] fin.orig_of(c2)).finite()
                    &&& (forall|l2: Literal|
                        (#[trigger] fin.orig_of(c2).contains(l2)) ==> fin.lit_ok(l2))
                    &&& (forall|l2: Literal|
                        (#[trigger] fin.cset(c2).contains(l2)) ==> fin.orig_of(c2).contains(l2))
                } by {
                    assert(fin.orig_of(c2) == o.orig_of(c2));
                    assert(o.orig_of(c2).finite());
                    assert forall|l2: Literal| (#[trigger] fin.orig_of(c2).contains(
                        l2,
                    )) implies fin.lit_ok(l2) by {
                        assert(o.orig_of(c2).contains(l2));
                        assert(o.lit_ok(l2));
                    }
                    assert forall|l2: Literal| (#[trigger] fin.cset(c2).contains(
                        l2,
                    )) implies fin.orig_of(c2).contains(l2) by {
                        if c2 == cid {
                            assert(fin.cl(c2).contains(l2));
                            if l2 == literal {
                                assert(fin.orig_of(c2).contains(literal));
                            } else {
                                assert(o.cl(c2).contains(l2));
                                assert(o.cset(c2).contains(l2));
                            }
                        } else {
                            assert(fin.cl(c2) == o.cl(c2));
                            assert(o.cset(c2).contains(l2));
                        }
                    }
                }
            }
        }
    }

    /// Rolls the engine back to an earlier mark: actions are popped and
    /// inverted in reverse order until the log depth equals the mark.
    ///
    /// Law: restore inverts mutation. The result equals, in its abstract
    /// state — clause contents as literal sets, activity flags, and the
    /// partial assignment, from which the literal index, the unit and pure
    /// sets and both counters are determined by the structural invariant —
    /// the state the engine had when the log stood at the mark.
    #[verifier::rlimit(100)]
    pub fn restore_action_state(&mut self, state: ActionState)
        requires
            old(self).wf(),
            state <= old(self).log().len(),
            log_wf(old(self).log().take(state as int)),
        ensures
            final(self).wf(),
            final(self).abs() == old(self).at_st(state as int),
            final(self).log() == old(self).log().take(state as int),
            final(self).orig_formula() == old(self).orig_formula(),
            final(self).spec_variables() == old(self).spec_variables(),
            final(self).spec_heuristic() == old(self).spec_heuristic(),
            final(self).nv() == old(self).nv(),
            final(self).n_clauses() == old(self).n_clauses(),
            forall|i: int|
                0 <= i <= state ==> final(self).at_st(i) == old(self).at_st(i),
    {
        let ghost o = *old(self);
        proof {
            assert(self.log() =~= o.log().take(o.log().len() as int));
            assert(self.hist@ =~= o.hist@.take(o.log().len() as int));
            assert(self.hlits@ =~= o.hlits@.take(o.log().len() as int));
        }
        while self.actions.len() > state
            invariant
                o.wf(),
                state <= self.log().len(),
                self.log().len() <= o.log().len(),
                self.wf(),
                self.log() == o.log().take(self.log().len() as int),
                self.hist@ == o.hist@.take(self.log().len() as int),
                self.hlits@ == o.hlits@.take(self.log().len() as int),
                self.abs() == o.at_st(self.log().len() as int),
                log_wf(o.log().take(state as int)),
                self.clauses@.len() == o.clauses@.len(),
                self.variables == o.variables,
                self.orig == o.orig,
                self.heuristic == o.heuristic,
                self.num_vars == o.num_vars,
                self.max_clause_length == o.max_clause_length,
            decreases self.log().len(),
        {
            let ghost cur = *self;
            let ghost j = self.log().len() as int;
            let action = self.actions.pop().unwrap();
            proof {
                self.hist@ = self.hist@.drop_last();
                self.hlits@ = self.hlits@.drop_last();
                assert(self.log() =~= o.log().take(j - 1));
                assert(self.hist@ =~= o.hist@.take(j - 1));
                assert(self.hlits@ =~= o.hlits@.take(j - 1));
                assert(action == o.log()[j - 1]);
                assert(step_ok(
                    o.orig@,
                    o.at_st(j - 1),
                    o.log()[j - 1],
                    o.hlits@[j - 1],
                    o.at_st(j),
                ));
                assert(self.abs().cls =~= cur.abs().cls);
                assert(self.abs() == cur.abs());
            }
            match action {
                Action::AssignVariable(v) => {
                    self.assignments[v as usize] = None;
                    proof {
                        let s0 = o.at_st(j - 1);
                        let s1 = o.at_st(j);
                        assert(self.assignments@ =~= s0.asg) by {
                            assert(s1.asg == s0.asg.update(v as int, s1.asg[v as int]));
                            assert(s0.asg[v as int] is None);
                            assert(self.assignments@ == cur.assignments@.update(v as int, None));
                            assert(cur.assignments@ == s1.asg);
                        }
                        assert(self.abs().cls =~= cur.abs().cls);
                        assert(self.abs() == s0);
                        lemma_idx_transfer(cur, *self);
                        lemma_pure_transfer(cur, *self);
                        lemma_wf_clauses_transfer(cur, *self);
                        lemma_vars_transfer(cur, *self);
                        lemma_orig_transfer(cur, *self);
                        assert(self.wf_dims());
                        assert(log_wf(o.log().take(j - 1))) by {
                            assert(log_wf(o.log().take(j)));
                            assert(o.log().take(j).last() == action);
                            assert(o.log().take(j).drop_last() =~= o.log().take(j - 1));
                        }
                        lemma_log_ok_after_pop(o, *self, j - 1);
                        assert(self.wf());
                    }
                },
                Action::RemoveClause(cid) => {
                    proof {
                        let s0 = o.at_st(j - 1);
                        let s1 = o.at_st(j);
                        assert(s1.act == s0.act.update(cid as int, false));
                        assert(!cur.is_act(cid as int)) by {
                            assert(cur.abs().act == s1.act);
                        }
                        assert(cur.cl(cid as int).len() > 0) by {
                            assert(cur.cset(cid as int) == cur.abs().cls[cid as int]);
                            assert(s1.cls == s0.cls);
                            assert(cur.abs().cls[cid as int] == s0.cls[cid as int]);
                            assert(s0.cls[cid as int].len() > 0);
                            if cur.cl(cid as int).len() == 0 {
                                assert(cur.cset(cid as int) =~= Set::<Literal>::empty());
                            }
                        }
                        lemma_idx_transfer(cur, *self);
                        lemma_pure_transfer(cur, *self);
                        lemma_wf_clauses_transfer(cur, *self);
                        lemma_vars_transfer(cur, *self);
                        lemma_orig_transfer(cur, *self);
                        assert(self.wf_core());
                    }
                    let ghost popped = *self;
                    self.enable_clause(cid);
                    proof {
                        let s0 = o.at_st(j - 1);
                        let s1 = o.at_st(j);
                        assert(self.abs() == s0) by {
                            assert(self.abs() == (EngineState {
                                act: popped.abs().act.update(cid as int, true),
                                ..popped.abs()
                            }));
                            assert(popped.abs() == s1);
                            assert(s1.act.update(cid as int, true) =~= s0.act) by {
                                assert(s0.act[cid as int]);
                            }
                        }
                        assert(log_wf(o.log().take(j - 1))) by {
                            assert(log_wf(o.log().take(j)));
                            assert(o.log().take(j).last() == action);
                            assert(o.log().take(j).drop_last() =~= o.log().take(j - 1));
                        }
                        lemma_log_ok_after_pop(o, *self, j - 1);
                        assert(self.wf());
                    }
                },
                Action::RemoveLiteralFromClausesEnd(literal) => {
                    proof {
                        assert(o.at_st(j - 1) == o.at_st(j));
                        assert(o.hlits@[j - 1] == literal);
                    }
                    let ghost s = choose|s: int|
                        {
                            &&& 0 <= s < o.log().take(j).len() - 1
                            &&& (#[trigger] o.log().take(j)[s]) matches Action::RemoveLiteralFromClausesStart()
                            &&& (forall|t: int|
                                s < t < o.log().take(j).len() - 1 ==> (#[trigger] o.log().take(
                                    j,
                                )[t]) matches Action::RemoveLiteralFromClause(_))
                            &&& log_wf(o.log().take(j).take(s))
                        };
                    proof {
                        assert(log_wf(o.log().take(j)));
                        assert(o.log().take(j).last() matches Action::RemoveLiteralFromClausesEnd(
                            _,
                        ));
                        assert(exists|s2: int|
                            {
                                &&& 0 <= s2 < o.log().take(j).len() - 1
                                &&& (#[trigger] o.log().take(j)[s2]) matches Action::RemoveLiteralFromClausesStart()
                                &&& (forall|t: int|
                                    s2 < t < o.log().take(j).len() - 1 ==> (#[trigger] o.log().take(
                                        j,
                                    )[t]) matches Action::RemoveLiteralFromClause(_))
                                &&& log_wf(o.log().take(j).take(s2))
                            });
                        assert(o.log().take(j).take(s) =~= o.log().take(s));
                        assert(o.log()[s] matches Action::RemoveLiteralFromClausesStart());
                        assert forall|t: int|
                            s < t < j - 1 implies (#[trigger] o.log()[t]) matches Action::RemoveLiteralFromClause(
                            _,
                        ) by {
                            assert(o.log().take(j)[t] == o.log()[t]);
                        }
                        assert(state as int <= s) by {
                            if s < state as int {
                                assert(log_wf(o.log().take(state as int)));
                                assert(o.log().take(state as int).last() == o.log()[
                                state as int - 1]);
                                if state as int - 1 == s {
                                    assert(o.log()[s] matches Action::RemoveLiteralFromClausesStart());
                                    assert(false);
                                } else {
                                    assert(o.log()[state as int - 1] matches Action::RemoveLiteralFromClause(
                                        _,
                                    ));
                                    assert(false);
                                }
                            }
                        }
                        if s < j - 2 {
                            lemma_group_lits(o.log(), o.hlits@, s, j - 1, literal);
                        }
                        assert forall|t: int| s < t < j - 1 implies o.hlits@[t] == literal by {
                            if s < j - 2 {
                            } else {
                            }
                        }
                        lemma_idx_transfer(cur, *self);
                        lemma_pure_transfer(cur, *self);
                        lemma_wf_clauses_transfer(cur, *self);
                        lemma_vars_transfer(cur, *self);
                        lemma_orig_transfer(cur, *self);
                        assert(self.wf_dims());
                        assert(self.abs() == o.at_st(j - 1));
                    }
                    let ghost ent = *self;
                    let mut reinserted = false;
                    let mut should_exit = false;
                    while !should_exit
                        invariant
                            o.wf(),
                            0 <= s,
                            s < j - 1,
                            j <= o.log().len(),
                            o.log()[s] matches Action::RemoveLiteralFromClausesStart(),
                            forall|t: int|
                                s < t < j - 1 ==> (#[trigger] o.log()[t]) matches Action::RemoveLiteralFromClause(
                                    _,
                                ),
                            forall|t: int| s < t < j - 1 ==> o.hlits@[t] == literal,
                            !should_exit ==> s < self.log().len() <= j - 1,
                            should_exit ==> self.log().len() == s,
                            self.log() == o.log().take(self.log().len() as int),
                            self.hist@ == o.hist@.take(self.log().len() as int),
                            self.hlits@ == o.hlits@.take(self.log().len() as int),
                            self.abs() == o.at_st(self.log().len() as int),
                            self.wf_dims(),
                            self.wf_clauses(),
                            self.occ_ok(),
                            self.unit_ok(),
                            self.counts_ok(),
                            self.vars_ok(),
                            self.orig_ok(),
                            self.pure_literals@.no_duplicates(),
                            forall|l: Literal|
                                l != literal && l as int != -(literal as int) ==> (
                                #[trigger] self.pure_literals@.contains(l)) == self.is_pure(l),
                            !reinserted ==> (forall|l: Literal|
                                (#[trigger] self.pure_literals@.contains(l)) == self.is_pure(l)),
                            reinserted ==> literal != 0 && -self.nv() <= literal as int
                                <= self.nv(),
                            self.active == ent.active,
                            self.assignments == ent.assignments,
                            self.variables == ent.variables,
                            self.orig == ent.orig,
                            self.orig == o.orig,
                            self.heuristic == ent.heuristic,
                            self.num_vars == ent.num_vars,
                            self.max_clause_length == ent.max_clause_length,
                            self.num_active_clauses == ent.num_active_clauses,
                            self.clauses@.len() == ent.clauses@.len(),
                        decreases self.log().len(),
                    {
                        let ghost icur = *self;
                        let ghost jj = self.log().len() as int;
                        let next = self.actions.pop().unwrap();
                        proof {
                            self.hist@ = self.hist@.drop_last();
                            self.hlits@ = self.hlits@.drop_last();
                            assert(self.log() =~= o.log().take(jj - 1));
                            assert(self.hist@ =~= o.hist@.take(jj - 1));
                            assert(self.hlits@ =~= o.hlits@.take(jj - 1));
                            assert(next == o.log()[jj - 1]);
                            assert(step_ok(
                                o.orig@,
                                o.at_st(jj - 1),
                                o.log()[jj - 1],
                                o.hlits@[jj - 1],
                                o.at_st(jj),
                            ));
                            if jj - 1 > s {
                                assert(o.log()[jj - 1] matches Action::RemoveLiteralFromClause(
                                    _,
                                ));
                                assert(o.hlits@[jj - 1] == literal);
                            } else {
                                assert(jj - 1 == s);
                            }
                        }
                        match next {
                            Action::RemoveLiteralFromClause(cid) => {
                                let ghost s0 = o.at_st(jj - 1);
                                let ghost s1 = o.at_st(jj);
                                proof {
                                    assert(jj - 1 > s);
                                    assert(o.hlits@[jj - 1] == literal);
                                    assert(st_wf(s0, o.n_clauses(), o.nv()));
                                    assert(st_wf(s1, o.n_clauses(), o.nv()));
                                    assert(s1 == icur.abs());
                                    assert(s1.cls == s0.cls.update(
                                        cid as int,
                                        s0.cls[cid as int].remove(literal),
                                    ));
                                    assert(s1.cls[cid as int] == s0.cls[cid as int].remove(
                                        literal,
                                    ));
                                    assert((cid as int) < self.n_clauses());
                                    assert(self.orig_of(cid as int).contains(literal)) by {
                                        assert(o.orig@[cid as int].contains(literal));
                                    }
                                    assert(self.is_act(cid as int)) by {
                                        assert(icur.abs().act == s1.act);
                                        assert(s1.act == s0.act);
                                        assert(s0.act[cid as int]);
                                    }
                                    assert(!self.cl(cid as int).contains(literal)) by {
                                        assert(self.cset(cid as int) == icur.abs().cls[cid as int]);
                                        assert(!s1.cls[cid as int].contains(literal));
                                    }
                                    lemma_idx_transfer(icur, *self);
                                    lemma_wf_clauses_transfer(icur, *self);
                                    lemma_vars_transfer(icur, *self);
                                    lemma_orig_transfer(icur, *self);
                                    assert(self.wf_dims());
                                }
                                let ghost popped = *self;
                                self.undo_literal_removal(cid, literal);
                                reinserted = true;
                                proof {
                                    let fin = *self;
                                    assert(fin.abs() == s0) by {
                                        assert(fin.abs().cls == popped.abs().cls.update(
                                            cid as int,
                                            popped.cset(cid as int).insert(literal),
                                        ));
                                        assert(popped.cset(cid as int) == s1.cls[cid as int]) by {
                                            assert(popped.abs().cls[cid as int] == s1.cls[
                                            cid as int]);
                                        }
                                        assert(s1.cls[cid as int].insert(literal) =~= s0.cls[
                                        cid as int]) by {
                                            assert(s0.cls[cid as int].contains(literal));
                                        }
                                        assert(fin.abs().cls =~= s0.cls) by {
                                            assert(popped.abs().cls == s1.cls);
                                            assert forall|c2: int|
                                                0 <= c2 < s0.cls.len() implies fin.abs().cls[c2]
                                                == s0.cls[c2] by {}
                                        }
                                        assert(fin.abs().act == s0.act);
                                        assert(fin.abs().asg == s0.asg);
                                    }
                                    assert(fin.abs() == o.at_st(jj - 1));
                                    assert(self.lit_ok(literal));
                                    assert forall|l2: Literal|
                                        l2 != literal && l2 as int != -(literal as int) implies (
                                    #[trigger] fin.pure_literals@.contains(l2)) == fin.is_pure(
                                        l2,
                                    ) by {
                                        assert(fin.pure_literals@.contains(l2)
                                            == popped.pure_literals@.contains(l2));
                                        assert(popped.pure_literals@.contains(l2)
                                            == popped.is_pure(l2));
                                        if popped.lit_ok(l2) {
                                            assert(fin.occ_seq(l2 as int) == popped.occ_seq(
                                                l2 as int,
                                            ));
                                            let neg2 = (-(l2 as int)) as Literal;
                                            assert(popped.lit_ok(neg2));
                                            assert(neg2 != literal) by {
                                                if neg2 == literal {
                                                    assert(l2 as int == -(literal as int));
                                                }
                                            }
                                            assert(fin.occ_seq(neg2 as int) == popped.occ_seq(
                                                neg2 as int,
                                            ));
                                            assert(neg2 as int == -(l2 as int));
                                        }
                                    }
                                }
                            },
                            Action::RemoveLiteralFromClausesStart() => {
                                should_exit = true;
                                proof {
                                    assert(jj - 1 == s) by {
                                        if jj - 1 > s {
                                            assert(o.log()[jj - 1] matches Action::RemoveLiteralFromClause(
                                                _,
                                            ));
                                        }
                                    }
                                    assert(o.at_st(jj - 1) == o.at_st(jj));
                                    assert(self.abs().cls =~= icur.abs().cls);
                                    assert(self.abs() == icur.abs());
                                    assert(self.abs() == o.at_st(s));
                                    lemma_idx_transfer(icur, *self);
                                    lemma_wf_clauses_transfer(icur, *self);
                                    lemma_vars_transfer(icur, *self);
                                    lemma_orig_transfer(icur, *self);
                                    assert(self.wf_dims());
                                }
                            },
                            _ => {
                                proof {
                                    assert(false) by {
                                        if jj - 1 > s {
                                            assert(o.log()[jj - 1] matches Action::RemoveLiteralFromClause(
                                                _,
                                            ));
                                        } else {
                                            assert(o.log()[jj - 1] matches Action::RemoveLiteralFromClausesStart());
                                        }
                                    }
                                }
                            },
                        }
                    }
                    if reinserted {
                        let ghost before_cp = *self;
                        self.check_pure_literal(literal);
                        proof {
                            assert forall|l2: Literal| #[trigger] self.pure_literals@.contains(l2)
                                == self.is_pure(l2) by {
                                if l2 == literal || l2 as int == -(literal as int) {
                                    assert(self.occ_seq(l2 as int) == before_cp.occ_seq(
                                        l2 as int,
                                    ));
                                    assert(self.occ_seq(-(l2 as int)) == before_cp.occ_seq(
                                        -(l2 as int),
                                    ));
                                } else {
                                    assert(self.pure_literals@.contains(l2)
                                        == before_cp.pure_literals@.contains(l2));
                                    assert(self.occ_seq(l2 as int) == before_cp.occ_seq(
                                        l2 as int,
                                    ));
                                    assert(self.occ_seq(-(l2 as int)) == before_cp.occ_seq(
                                        -(l2 as int),
                                    ));
                                }
                            }
                            lemma_idx_transfer(before_cp, *self);
                            lemma_wf_clauses_transfer(before_cp, *self);
                            lemma_vars_transfer(before_cp, *self);
                            lemma_orig_transfer(before_cp, *self);
                            assert(self.abs().cls =~= before_cp.abs().cls);
                            assert(self.abs() == before_cp.abs());
                        }
                    }
                    proof {
                        assert(self.pure_ok()) by {
                            assert forall|k: int|
                                0 <= k < self.pure_literals@.len() implies self.is_pure(
                                #[trigger] self.pure_literals@[k],
                            ) by {
                                let l2 = self.pure_literals@[k];
                                assert(self.pure_literals@.contains(l2));
                                assert(self.pure_literals@.contains(l2) == self.is_pure(l2));
                            }
                            assert forall|l2: Literal| #[trigger] self.is_pure(
                                l2,
                            ) implies self.pure_literals@.contains(l2) by {
                                assert(self.pure_literals@.contains(l2) == self.is_pure(l2));
                            }
                        }
                        assert(self.wf_dims());
                        assert(self.wf_core());
                        assert(self.abs() == o.at_st(s));
                        lemma_log_ok_after_pop(o, *self, s);
                        assert(self.wf());
                    }
                },
                _ => {
                    proof {
                        assert(false) by {
                            assert(log_wf(o.log().take(j)));
                            assert(o.log().take(j).last() == action);
                        }
                    }
                },
            }
        }
        proof {
            assert(self.log() =~= o.log().take(state as int));
        }
    }

    /// If a unit clause exists, assigns its sole literal so that the clause is
    /// satisfied, and returns the clause's id.
    pub fn remove_unit_clause(&mut self) -> (r: Option<ClauseId>)
        requires
            old(self).wf(),
            old(self).wf_sem(),
        ensures
            final(self).wf(),
            final(self).wf_sem(),
            final(self).orig_formula() == old(self).orig_formula(),
            final(self).spec_variables() == old(self).spec_variables(),
            final(self).spec_heuristic() == old(self).spec_heuristic(),
            final(self).nv() == old(self).nv(),
            final(self).n_clauses() == old(self).n_clauses(),
            r is None ==> *final(self) == *old(self) && old(self).spec_unit_clauses().len() == 0,
            r is Some ==> old(self).spec_unit_clauses().len() > 0 && ({
                let cid = old(self).spec_unit_clauses().last();
                let l = old(self).cl(cid as int)[0];
                &&& r == Some(cid)
                &&& final(self).asg_seq() == old(self).asg_seq().update(
                    spec_var(l) as int,
                    Some(l > 0),
                )
                &&& final(self).n_unassigned() == old(self).n_unassigned() - 1
            }),
            sat_extension(old(self).orig_formula(), old(self).asg_seq()) ==> sat_extension(
                final(self).orig_formula(),
                final(self).asg_seq(),
            ),
            old(self).assigned_known() ==> final(self).assigned_known(),
            final(self).log().len() >= old(self).log().len(),
            final(self).log().take(old(self).log().len() as int) == old(self).log(),
            forall|i: int|
                0 <= i <= old(self).log().len() ==> final(self).at_st(i) == old(self).at_st(i),
    {
        if self.unit_clauses.len() == 0 {
            proof {
                assert(self.log().take(self.log().len() as int) =~= self.log());
            }
            return None;
        }
        let cid = self.unit_clauses[self.unit_clauses.len() - 1];
        proof {
            assert(self.unit_clauses@.contains(cid)) by {
                assert(self.unit_clauses@.last() == cid);
            }
            assert(self.unit_entry_ok(cid));
        }
        let literal = self.clauses[cid as usize].get(0);
        proof {
            let c = cid as int;
            assert(self.cl(c)[0] == literal);
            assert(self.cl(c).contains(literal));
            assert(self.lit_ok(literal));
            assert(self.cset(c).contains(literal));
            assert(self.abs().cls[c].contains(literal));
            assert(lit_unassigned(self.abs().asg, literal));
            assert(self.asg_of(spec_var(literal) as int) is None);
            assert(1 <= spec_var(literal) as int <= self.nv()) by {
                if literal >= 0 {
                } else {
                }
            }
        }
        let ghost o = *old(self);
        let variable = crate::cnf::to_variable(literal);
        self.assign_variable(variable, literal > 0);
        proof {
            if sat_extension(o.orig_formula(), o.asg_seq()) {
                let m = choose|m: Map<Variable, bool>|
                    extends_assignment(m, o.asg_seq()) && formula_sat_by(o.orig_formula(), m);
                assert(clause_sat_by(o.orig_formula()[cid as int], m));
                let x = choose|x: Literal|
                    o.orig_formula()[cid as int].contains(x) && m.dom().contains(spec_var(x))
                        && m[spec_var(x)] == (x > 0);
                assert(o.orig_of(cid as int).contains(x));
                assert(o.lit_ok(x));
                assert(1 <= spec_var(x) as int <= o.nv()) by {
                    if x >= 0 {
                    } else {
                    }
                }
                if x != literal {
                    assert(!o.cset(cid as int).contains(x)) by {
                        if o.cl(cid as int).contains(x) {
                            let k = choose|k: int|
                                0 <= k < o.cl(cid as int).len() && o.cl(cid as int)[k] == x;
                            assert(k == 0);
                        }
                    }
                    assert(o.is_act(cid as int));
                    assert(o.abs().cls[cid as int] == o.cset(cid as int));
                    assert(!lit_unassigned(o.abs().asg, x));
                    assert(!lit_sat(o.abs().asg, x));
                    assert(o.asg_of(spec_var(x) as int) == Some(!(x > 0)));
                    assert(m[spec_var(x)] == !(x > 0));
                    assert(false);
                }
                assert(x == literal);
                assert(extends_assignment(m, self.asg_seq())) by {
                    assert(self.asg_seq() == o.asg_seq().update(
                        spec_var(literal) as int,
                        Some(literal > 0),
                    ));
                    assert forall|v2: int|
                        0 <= v2 < self.asg_seq().len() && (#[trigger] self.asg_seq()[v2])
                            is Some implies m.dom().contains(v2 as Variable) && m[v2 as Variable]
                        == self.asg_seq()[v2].unwrap() by {
                        if v2 == spec_var(literal) as int {
                            assert(v2 as Variable == spec_var(literal));
                            assert(m[spec_var(literal)] == (literal > 0));
                        } else {
                            assert(o.asg_seq()[v2] is Some);
                        }
                    }
                }
                assert(formula_sat_by(self.orig_formula(), m));
                assert(sat_extension(self.orig_formula(), self.asg_seq()));
            }
            if o.assigned_known() {
                assert(o.cset(cid as int).contains(literal));
                assert(o.orig_of(cid as int).contains(literal));
                assert(o.var_occurs(spec_var(literal))) by {
                    assert(literal == spec_var(literal) as Literal || literal as int == -(
                    spec_var(literal) as int));
                }
                assert(o.spec_variables().contains(spec_var(literal)));
                assert forall|v: int|
                    1 <= v <= self.nv() && (#[trigger] self.asg_of(v))
                        is Some implies self.spec_variables().contains(v as Variable) by {
                    if v != spec_var(literal) as int {
                        assert(o.asg_of(v) is Some);
                    }
                }
            }
        }
        Some(cid)
    }

    /// If a pure literal exists, assigns it so that every clause holding it is
    /// satisfied, and returns the literal.
    pub fn remove_pure_literal(&mut self) -> (r: Option<Literal>)
        requires
            old(self).wf(),
            old(self).wf_sem(),
        ensures
            final(self).wf(),
            final(self).wf_sem(),
            final(self).orig_formula() == old(self).orig_formula(),
            final(self).spec_variables() == old(self).spec_variables(),
            final(self).spec_heuristic() == old(self).spec_heuristic(),
            final(self).nv() == old(self).nv(),
            final(self).n_clauses() == old(self).n_clauses(),
            r is None ==> *final(self) == *old(self) && old(self).spec_pure_literals().len()
                == 0,
            r is Some ==> old(self).spec_pure_literals().len() > 0 && ({
                let l = old(self).spec_pure_literals().last();
                &&& r == Some(l)
                &&& final(self).asg_seq() == old(self).asg_seq().update(
                    spec_var(l) as int,
                    Some(l > 0),
                )
                &&& final(self).n_unassigned() == old(self).n_unassigned() - 1
            }),
            sat_extension(old(self).orig_formula(), old(self).asg_seq()) ==> sat_extension(
                final(self).orig_formula(),
                final(self).asg_seq(),
            ),
            old(self).assigned_known() ==> final(self).assigned_known(),
            final(self).log().len() >= old(self).log().len(),
            final(self).log().take(old(self).log().len() as int) == old(self).log(),
            forall|i: int|
                0 <= i <= old(self).log().len() ==> final(self).at_st(i) == old(self).at_st(i),
    {
        if self.pure_literals.len() == 0 {
            proof {
                assert(self.log().take(self.log().len() as int) =~= self.log());
            }
            return None;
        }
        let literal = self.pure_literals[self.pure_literals.len() - 1];
        proof {
            assert(self.pure_literals@.contains(literal)) by {
                assert(self.pure_literals@.last() == literal);
            }
            assert(self.is_pure(literal));
            let c = self.occ_seq(literal as int)[0] as int;
            assert(self.occ_seq(literal as int).contains(self.occ_seq(literal as int)[0]));
            assert(self.occ_entry_ok(literal, self.occ_seq(literal as int)[0]));
            assert(self.cl(c).contains(literal));
            assert(self.cset(c).contains(literal));
            assert(self.abs().cls[c].contains(literal));
            assert(lit_unassigned(self.abs().asg, literal));
            assert(self.asg_of(spec_var(literal) as int) is None);
            assert(1 <= spec_var(literal) as int <= self.nv()) by {
                if literal >= 0 {
                } else {
                }
            }
        }
        let ghost o = *old(self);
        let variable = crate::cnf::to_variable(literal);
        self.assign_variable(variable, literal > 0);
        proof {
            if sat_extension(o.orig_formula(), o.asg_seq()) {
                let m = choose|m: Map<Variable, bool>|
                    extends_assignment(m, o.asg_seq()) && formula_sat_by(o.orig_formula(), m);
                let v = spec_var(literal);
                let m2 = m.insert(v, literal > 0);
                assert(extends_assignment(m2, self.asg_seq())) by {
                    assert(self.asg_seq() == o.asg_seq().update(v as int, Some(literal > 0)));
                    assert forall|v2: int|
                        0 <= v2 < self.asg_seq().len() && (#[trigger] self.asg_seq()[v2])
                            is Some implies m2.dom().contains(v2 as Variable) && m2[v2 as Variable]
                        == self.asg_seq()[v2].unwrap() by {
                        if v2 == v as int {
                            assert(v2 as Variable == v);
                        } else {
                            assert(o.asg_seq()[v2] is Some);
                            assert(v2 as Variable != v) by {
                                assert(v2 < o.asg_seq().len());
                                assert(o.asg_seq().len() <= 0x8000);
                            }
                        }
                    }
                }
                assert(formula_sat_by(o.orig_formula(), m2)) by {
                    assert forall|c: int| 0 <= c < o.orig_formula().len() implies clause_sat_by(
                        #[trigger] o.orig_formula()[c],
                        m2,
                    ) by {
                        assert(clause_sat_by(o.orig_formula()[c], m));
                        let x = choose|x: Literal|
                            o.orig_formula()[c].contains(x) && m.dom().contains(spec_var(x))
                                && m[spec_var(x)] == (x > 0);
                        assert(o.orig_of(c).contains(x));
                        assert(o.lit_ok(x));
                        if spec_var(x) != v {
                            assert(m2.dom().contains(spec_var(x)) && m2[spec_var(x)] == (x > 0));
                        } else if x == literal {
                            assert(m2[v] == (x > 0));
                        } else {
                            assert(x as int == -(literal as int)) by {
                                if x >= 0 && literal >= 0 {
                                } else {
                                }
                            }
                            if o.is_act(c) {
                                assert(o.abs().cls[c] == o.cset(c));
                                assert(1 <= spec_var(x) as int <= o.nv()) by {
                                    if x >= 0 {
                                    } else {
                                    }
                                }
                                assert(o.asg_of(v as int) is None);
                                assert(lit_unassigned(o.abs().asg, x));
                                assert(o.cset(c).contains(x));
                                assert(o.cl(c).contains(x));
                                assert(o.occ_seq(x as int).contains(c as ClauseId));
                                assert(o.occ_seq(-(literal as int)).len() == 0);
                                assert(false);
                            } else {
                                let y = choose|y: Literal|
                                    o.orig_of(c).contains(y) && lit_sat(o.abs().asg, y);
                                assert(o.asg_of(spec_var(y) as int) == Some(y > 0));
                                assert(spec_var(y) != v);
                                assert(extends_assignment(m, o.asg_seq()));
                                assert(o.asg_seq()[spec_var(y) as int] is Some);
                                assert(m.dom().contains(spec_var(y)));
                                assert(m[spec_var(y)] == (y > 0));
                                assert(m2.dom().contains(spec_var(y)) && m2[spec_var(y)] == (y
                                    > 0));
                                assert(o.orig_formula()[c].contains(y));
                            }
                        }
                    }
                }
                assert(sat_extension(self.orig_formula(), self.asg_seq()));
            }
            if o.assigned_known() {
                let c = o.occ_seq(literal as int)[0] as int;
                assert(o.occ_seq(literal as int).contains(o.occ_seq(literal as int)[0]));
                assert(o.occ_entry_ok(literal, o.occ_seq(literal as int)[0]));
                assert(o.cl(c).contains(literal));
                assert(o.cset(c).contains(literal));
                assert(o.orig_of(c).contains(literal));
                assert(o.var_occurs(spec_var(literal))) by {
                    assert(literal == spec_var(literal) as Literal || literal as int == -(
                    spec_var(literal) as int));
                }
                assert(o.spec_variables().contains(spec_var(literal)));
                assert forall|v: int|
                    1 <= v <= self.nv() && (#[trigger] self.asg_of(v))
                        is Some implies self.spec_variables().contains(v as Variable) by {
                    if v != spec_var(literal) as int {
                        assert(o.asg_of(v) is Some);
                    }
                }
            }
        }
        Some(literal)
    }

    /// A full assignment: the current partial assignment, with every known but
    /// unassigned variable defaulted to true.
    pub fn construct_assignment(&self) -> (r: Assignment)
        requires
            self.wf(),
        ensures
            self.wf_sem() && self.spec_num_active() == 0 ==> formula_sat_by(
                self.orig_formula(),
                assignment_map(r),
            ),
            forall|v: Variable|
                #[trigger] assignment_map(r).dom().contains(v) == ((1 <= v as int <= self.nv()
                    && self.asg_of(v as int) is Some) || self.spec_variables().contains(v)),
            forall|v: Variable|
                assignment_map(r).dom().contains(v) ==> #[trigger] assignment_map(r)[v] == (if self.asg_of(
                    v as int,
                ) is Some {
                    self.asg_of(v as int).unwrap()
                } else {
                    true
                }),
    {
        let mut assignments = Assignment::new();
        let mut v: Variable = 1;
        while v as usize <= self.num_vars as usize
            invariant
                self.wf(),
                1 <= v as int <= self.nv() + 1,
                forall|w: Variable|
                    #[trigger] assignment_map(assignments).dom().contains(w) == (1 <= w as int
                        && (w as int) < v as int && self.asg_of(w as int) is Some),
                forall|w: Variable|
                    assignment_map(assignments).dom().contains(w)
                        ==> #[trigger] assignment_map(assignments)[w] == self.asg_of(
                        w as int,
                    ).unwrap(),
            decreases self.nv() + 1 - v as int,
        {
            match self.assignments[v as usize] {
                Some(value) => {
                    assignments.insert(v, value);
                },
                None => {},
            }
            v = v + 1;
        }
        let n_vars = self.variables.len();
        let mut i: usize = 0;
        while i < n_vars
            invariant
                self.wf(),
                n_vars == self.variables@.len(),
                i <= n_vars,
                forall|w: Variable|
                    #[trigger] assignment_map(assignments).dom().contains(w) == ((1 <= w as int
                        <= self.nv() && self.asg_of(w as int) is Some) || (exists|k: int|
                        0 <= k < i && self.variables@[k] == w)),
                forall|w: Variable|
                    assignment_map(assignments).dom().contains(w)
                        ==> #[trigger] assignment_map(assignments)[w] == (if self.asg_of(
                        w as int,
                    ) is Some {
                        self.asg_of(w as int).unwrap()
                    } else {
                        true
                    }),
            decreases n_vars - i,
        {
            let w = self.variables[i];
            proof {
                assert(self.var_entry_ok(self.variables@[i as int]));
            }
            if self.assignments[w as usize].is_none() {
                assignments.insert(w, true);
            }
            proof {
                assert forall|w2: Variable|
                    #[trigger] assignment_map(assignments).dom().contains(w2) == ((1 <= w2 as int
                        <= self.nv() && self.asg_of(w2 as int) is Some) || (exists|k: int|
                        0 <= k < i + 1 && self.variables@[k] == w2)) by {
                    if w2 == w {
                        assert(self.variables@[i as int] == w2);
                    }
                    if exists|k: int| 0 <= k < i + 1 && self.variables@[k] == w2 {
                        let k = choose|k: int| 0 <= k < i + 1 && #[trigger] self.variables@[k]
                            == w2;
                        if k < i {
                            assert(exists|k2: int|
                                0 <= k2 < i && #[trigger] self.variables@[k2] == w2);
                        }
                    }
                }
            }
            i = i + 1;
        }
        proof {
            assert forall|w: Variable|
                #[trigger] assignment_map(assignments).dom().contains(w) == ((1 <= w as int
                    <= self.nv() && self.asg_of(w as int) is Some)
                    || self.spec_variables().contains(w)) by {
                if self.spec_variables().contains(w) {
                    let k = choose|k: int|
                        0 <= k < self.variables@.len() && #[trigger] self.variables@[k] == w;
                }
                if exists|k: int| 0 <= k < n_vars && self.variables@[k] == w {
                    let k = choose|k: int|
                        0 <= k < n_vars && #[trigger] self.variables@[k] == w;
                    assert(self.spec_variables().contains(w));
                }
            }
            // with no clause left active, the assignment satisfies the formula
            if self.wf_sem() && self.spec_num_active() == 0 {
                lemma_count_true_all_false(self.active@, self.n_clauses());
                assert forall|c: int| 0 <= c < self.orig_formula().len() implies clause_sat_by(
                    #[trigger] self.orig_formula()[c],
                    assignment_map(assignments),
                ) by {
                    assert(!self.abs().act[c]);
                    let l = choose|l: Literal|
                        self.orig_formula()[c].contains(l) && lit_sat(self.abs().asg, l);
                    let v = spec_var(l);
                    assert(self.orig_of(c).contains(l));
                    assert(self.lit_ok(l));
                    assert(1 <= v as int <= self.nv()) by {
                        if l >= 0 {
                        } else {
                        }
                    }
                    assert(self.asg_of(v as int) == Some(l > 0));
                    assert(assignment_map(assignments).dom().contains(v));
                    assert(assignment_map(assignments)[v] == (l > 0));
                }
            }
        }
        assignments
    }

    /// True when every clause, as it currently stands, has a literal whose
    /// polarity agrees with the assignment; unassigned variables satisfy
    /// nothing.
    pub fn is_satisfied_by(&self, assignment: &Assignment) -> (r: bool)
        ensures
            r == formula_sat_by(self.abs().cls, assignment_map(*assignment)),
    {
        let n = self.clauses.len();
        let mut c: usize = 0;
        while c < n
            invariant
                n == self.clauses@.len(),
                c <= n,
                forall|c2: int|
                    0 <= c2 < c ==> clause_sat_by(
                        #[trigger] self.abs().cls[c2],
                        assignment_map(*assignment),
                    ),
            decreases n - c,
        {
            let m = self.clauses[c].len();
            let mut i: usize = 0;
            let mut satisfied = false;
            while i < m
                invariant
                    n == self.clauses@.len(),
                    c < n,
                    m == self.cl(c as int).len(),
                    i <= m,
                    satisfied ==> clause_sat_by(
                        self.abs().cls[c as int],
                        assignment_map(*assignment),
                    ),
                    !satisfied ==> forall|k: int|
                        0 <= k < i ==> !(assignment_map(*assignment).dom().contains(
                            spec_var(#[trigger] self.cl(c as int)[k]),
                        ) && assignment_map(*assignment)[spec_var(self.cl(c as int)[k])] == (
                        self.cl(c as int)[k] > 0)),
                decreases m - i,
            {
                if !satisfied {
                    let literal = self.clauses[c].get(i);
                    let variable = crate::cnf::to_variable(literal);
                    match assignment.get(variable) {
                        Some(value) => {
                            if value == (literal > 0) {
                                satisfied = true;
                                proof {
                                    assert(self.cl(c as int).contains(literal));
                                    assert(self.abs().cls[c as int].contains(literal));
                                }
                            }
                        },
                        None => {},
                    }
                }
                i = i + 1;
            }
            if !satisfied {
                proof {
                    assert(!clause_sat_by(
                        self.abs().cls[c as int],
                        assignment_map(*assignment),
                    )) by {
                        if clause_sat_by(self.abs().cls[c as int], assignment_map(*assignment)) {
                            let l = choose|l: Literal|
                                self.abs().cls[c as int].contains(l) && assignment_map(
                                    *assignment,
                                ).dom().contains(spec_var(l)) && assignment_map(*assignment)[
                                spec_var(l)] == (l > 0);
                            let k = choose|k: int|
                                0 <= k < self.cl(c as int).len() && self.cl(c as int)[k] == l;
                        }
                    }
                }
                return false;
            }
            c = c + 1;
        }
        true
    }

    /// When nothing is decided yet (no empty clause, some active clause),
    /// some known variable is unassigned and has occurrences.
    proof fn lemma_branch_candidate(self)
        requires
            self.wf(),
            self.wf_sem(),
            self.spec_num_empty() == 0,
            self.spec_num_active() > 0,
        ensures
            exists|k: int|
                {
                    &&& 0 <= k < self.spec_variables().len()
                    &&& self.asg_of(#[trigger] self.spec_variables()[k] as int) is None
                    &&& self.occ_seq(self.spec_variables()[k] as int).len() + self.occ_seq(
                        -(self.spec_variables()[k] as int),
                    ).len() > 0
                },
    {
        assert(count_true(self.active@, self.n_clauses()) > 0);
        assert(exists|c: int| 0 <= c < self.n_clauses() && #[trigger] self.active@[c]) by {
            if forall|c: int| 0 <= c < self.n_clauses() ==> !(#[trigger] self.active@[c]) {
                lemma_count_true_zero_of_all_false(self.active@, self.n_clauses());
            }
        }
        let c = choose|c: int| 0 <= c < self.n_clauses() && #[trigger] self.active@[c];
        assert(self.cl(c).len() > 0) by {
            lemma_count_true_all_false(self.empty_flags(), self.n_clauses());
            assert(!self.empty_flags()[c]);
        }
        let l = self.cl(c)[0];
        assert(self.cl(c).contains(l));
        assert(self.lit_ok(l));
        assert(self.cset(c).contains(l));
        assert(self.abs().cls[c].contains(l));
        assert(lit_unassigned(self.abs().asg, l));
        let v = spec_var(l);
        assert(1 <= v as int <= self.nv() && self.asg_of(v as int) is None) by {
            if l >= 0 {
            } else {
            }
        }
        assert(self.orig_of(c).contains(l));
        assert(self.var_occurs(v)) by {
            assert(l == v as Literal || l as int == -(v as int));
        }
        assert(self.spec_variables().contains(v));
        let k = choose|k: int|
            0 <= k < self.spec_variables().len() && #[trigger] self.spec_variables()[k] == v;
        assert(self.occ_seq(l as int).contains(c as ClauseId));
        assert(self.occ_seq(l as int).len() > 0);
        assert(l as int == v as int || l as int == -(v as int));
    }

    /// No literal can be indexed by more clauses than exist.
    proof fn lemma_occ_len_bounded(self, l: Literal)
        requires
            self.wf(),
            self.lit_ok(l),
        ensures
            self.occ_seq(l as int).len() <= 0xFFFF,
    {
        assert forall|k: int| 0 <= k < self.occ_seq(l as int).len() implies ((
        #[trigger] self.occ_seq(l as int)[k]) as int) < 0xFFFF by {
            assert(self.occ_entry_ok(l, self.occ_seq(l as int)[k]));
        }
        lemma_distinct_cids_bounded(self.occ_seq(l as int), 0xFFFF);
    }

    /// The branching choice of `MostLiteralOccurances`: the literal with the
    /// most occurrences among unassigned variables.
    fn get_most_literal_occurances(&self) -> (r: (Variable, bool))
        requires
            self.wf(),
            self.wf_sem(),
            self.spec_num_empty() == 0,
            self.spec_num_active() > 0,
        ensures
            1 <= r.0 as int <= self.nv(),
            self.asg_of(r.0 as int) is None,
            self.spec_variables().contains(r.0),
            self.occ_seq(
                if r.1 {
                    r.0 as int
                } else {
                    -(r.0 as int)
                },
            ).len() > 0,
            forall|k: int|
                0 <= k < self.spec_variables().len() && self.asg_of(
                    #[trigger] self.spec_variables()[k] as int,
                ) is None ==> self.occ_seq(self.spec_variables()[k] as int).len() <= self.occ_seq(
                    if r.1 {
                        r.0 as int
                    } else {
                        -(r.0 as int)
                    },
                ).len() && self.occ_seq(-(self.spec_variables()[k] as int)).len()
                    <= self.occ_seq(
                    if r.1 {
                        r.0 as int
                    } else {
                        -(r.0 as int)
                    },
                ).len(),
    {
        let mut best_occ: usize = 0;
        let mut best_var: Variable = 0;
        let mut best_sign: bool = true;
        let n = self.variables.len();
        let mut i: usize = 0;
        while i < n
            invariant
                self.wf(),
                n == self.spec_variables().len(),
                i <= n,
                best_var != 0 ==> {
                    &&& 1 <= best_var as int <= self.nv()
                    &&& self.asg_of(best_var as int) is None
                    &&& self.spec_variables().contains(best_var)
                    &&& self.occ_seq(
                        if best_sign {
                            best_var as int
                        } else {
                            -(best_var as int)
                        },
                    ).len() == best_occ
                    &&& best_occ > 0
                },
                best_var == 0 ==> best_occ == 0,
                forall|k: int|
                    0 <= k < i && self.asg_of(#[trigger] self.spec_variables()[k] as int)
                        is None ==> self.occ_seq(self.spec_variables()[k] as int).len() <= best_occ
                        && self.occ_seq(-(self.spec_variables()[k] as int)).len() <= best_occ,
            decreases n - i,
        {
            let v = self.variables[i];
            proof {
                assert(self.var_entry_ok(self.spec_variables()[i as int]));
            }
            if self.assignments[v as usize].is_none() {
                let p = self.occ_len(v as Literal);
                let q = self.occ_len(-(v as Literal));
                if p > best_occ {
                    best_occ = p;
                    best_var = v;
                    best_sign = true;
                }
                if q > best_occ {
                    best_occ = q;
                    best_var = v;
                    best_sign = false;
                }
                proof {
                    if best_var == v {
                        assert(self.spec_variables()[i as int] == v);
                        assert(self.spec_variables().contains(v));
                    }
                }
            }
            i = i + 1;
        }
        proof {
            if best_var == 0 {
                self.lemma_branch_candidate();
                let k = choose|k: int|
                    {
                        &&& 0 <= k < self.spec_variables().len()
                        &&& self.asg_of(#[trigger] self.spec_variables()[k] as int) is None
                        &&& self.occ_seq(self.spec_variables()[k] as int).len() + self.occ_seq(
                            -(self.spec_variables()[k] as int),
                        ).len() > 0
                    };
                assert(false);
            }
        }
        (best_var, best_sign)
    }

    /// The branching choice of `MostVariableOccurances`: the unassigned
    /// variable occurring most often, in either polarity; it is tried true.
    fn get_most_variable_occurances(&self) -> (r: (Variable, bool))
        requires
            self.wf(),
            self.wf_sem(),
            self.spec_num_empty() == 0,
            self.spec_num_active() > 0,
        ensures
            1 <= r.0 as int <= self.nv(),
            self.asg_of(r.0 as int) is None,
            self.spec_variables().contains(r.0),
            r.1,
            self.occ_seq(r.0 as int).len() + self.occ_seq(-(r.0 as int)).len() > 0,
            forall|k: int|
                0 <= k < self.spec_variables().len() && self.asg_of(
                    #[trigger] self.spec_variables()[k] as int,
                ) is None ==> self.occ_seq(self.spec_variables()[k] as int).len() + self.occ_seq(
                    -(self.spec_variables()[k] as int),
                ).len() <= self.occ_seq(r.0 as int).len() + self.occ_seq(-(r.0 as int)).len(),
    {
        let mut best_occ: usize = 0;
        let mut best_var: Variable = 0;
        let n = self.variables.len();
        let mut i: usize = 0;
        while i < n
            invariant
                self.wf(),
                n == self.spec_variables().len(),
                i <= n,
                best_var != 0 ==> {
                    &&& 1 <= best_var as int <= self.nv()
                    &&& self.asg_of(best_var as int) is None
                    &&& self.spec_variables().contains(best_var)
                    &&& self.occ_seq(best_var as int).len() + self.occ_seq(-(best_var as int)).len()
                        == best_occ
                    &&& best_occ > 0
                },
                best_var == 0 ==> best_occ == 0,
                forall|k: int|
                    0 <= k < i && self.asg_of(#[trigger] self.spec_variables()[k] as int)
                        is None ==> self.occ_seq(self.spec_variables()[k] as int).len()
                        + self.occ_seq(-(self.spec_variables()[k] as int)).len() <= best_occ,
            decreases n - i,
        {
            let v = self.variables[i];
            proof {
                assert(self.var_entry_ok(self.spec_variables()[i as int]));
                assert(self.lit_ok(v as Literal));
                let nl = (-(v as int)) as Literal;
                assert(self.lit_ok(nl));
                assert(nl as int == -(v as int));
                self.lemma_occ_len_bounded(v as Literal);
                self.lemma_occ_len_bounded(nl);
            }
            if self.assignments[v as usize].is_none() {
                let p = self.occ_len(v as Literal);
                let q = self.occ_len(-(v as Literal));
                let total = p + q;
                if total > best_occ {
                    best_occ = total;
                    best_var = v;
                    proof {
                        assert(self.spec_variables()[i as int] == v);
                        assert(self.spec_variables().contains(v));
                    }
                }
            }
            i = i + 1;
        }
        proof {
            if best_var == 0 {
                self.lemma_branch_candidate();
                let k = choose|k: int|
                    {
                        &&& 0 <= k < self.spec_variables().len()
                        &&& self.asg_of(#[trigger] self.spec_variables()[k] as int) is None
                        &&& self.occ_seq(self.spec_variables()[k] as int).len() + self.occ_seq(
                            -(self.spec_variables()[k] as int),
                        ).len() > 0
                    };
                assert(false);
            }
        }
        (best_var, true)
    }

    /// How many entries of the id list name clauses of exactly length `k`.
    pub closed spec fn cnt_len(self, s: Seq<ClauseId>, k: int) -> int
        decreases s.len(),
    {
        if s.len() == 0 {
            0
        } else {
            self.cnt_len(s.drop_last(), k) + if self.cl(s.last() as int).len() == k {
                1int
            } else {
                0int
            }
        }
    }

    /// How many clauses currently indexed under the literal have length `k`.
    pub closed spec fn spec_len_count(self, l: int, k: int) -> int {
        self.cnt_len(self.occ_seq(l), k)
    }

    /// The `MinimizeClauseLength` score of a variable at clause size `k`.
    pub open spec fn h3_score(self, v: Variable, k: int) -> int {
        let p = self.spec_len_count(v as int, k);
        let q = self.spec_len_count(-(v as int), k);
        ALPHA * (if p >= q {
            p
        } else {
            q
        }) + BETA * (if p >= q {
            q
        } else {
            p
        })
    }

    /// The initial candidates of `MinimizeClauseLength`: known, unassigned
    /// variables with at least one occurrence.
    pub open spec fn h3_candidates(self) -> Set<Variable> {
        Set::new(
            |v: Variable|
                self.spec_variables().contains(v) && self.asg_of(v as int) is None
                    && self.occ_seq(v as int).len() + self.occ_seq(-(v as int)).len() > 0,
        )
    }

    /// One filter round: retain the candidates achieving the maximal score at
    /// clause size `k`.
    pub open spec fn h3_round(self, s: Set<Variable>, k: int) -> Set<Variable> {
        Set::new(
            |v: Variable|
                s.contains(v) && forall|w: Variable|
                    s.contains(w) ==> self.h3_score(w, k) <= self.h3_score(v, k),
        )
    }

    /// The candidate set after the rounds for sizes two up to `k`.
    pub open spec fn h3_after(self, k: int) -> Set<Variable>
        decreases k,
    {
        if k < 2 {
            self.h3_candidates()
        } else {
            self.h3_round(self.h3_after(k - 1), k)
        }
    }

    /// What survives the whole progressive filter of `MinimizeClauseLength`.
    pub open spec fn h3_survivors(self) -> Set<Variable> {
        self.h3_after(4)
    }

    /// A filter round keeps a lone survivor, so stopping early at one
    /// candidate returns the full filter's answer.
    proof fn lemma_h3_round_singleton(self, s: Set<Variable>, v: Variable, k: int)
        requires
            s == Set::<Variable>::empty().insert(v),
        ensures
            self.h3_round(s, k) == s,
    {
        assert(self.h3_round(s, k) =~= s) by {
            assert(s.contains(v));
            assert forall|w: Variable| s.contains(w) implies self.h3_score(w, k)
                <= self.h3_score(v, k) by {
                assert(w == v);
            }
        }
    }

    /// How many clauses in the literal's index currently have exactly the
    /// given length.
    fn count_occurrences_of_length(&self, literal: Literal, length: usize) -> (r: usize)
        requires
            self.wf(),
            literal != 0,
            -self.nv() <= literal as int <= self.nv(),
        ensures
            r <= self.occ_seq(literal as int).len(),
            r == self.spec_len_count(literal as int, length as int),
    {
        let mut count: usize = 0;
        let n = if literal > 0 {
            self.pos_occ[literal as usize].len()
        } else {
            self.neg_occ[(-(literal as i32)) as usize].len()
        };
        let mut k: usize = 0;
        while k < n
            invariant
                self.wf(),
                literal != 0,
                -self.nv() <= literal as int <= self.nv(),
                n == self.occ_seq(literal as int).len(),
                k <= n,
                count <= k,
                count == self.cnt_len(self.occ_seq(literal as int).take(k as int), length as int),
            decreases n - k,
        {
            let cid = if literal > 0 {
                self.pos_occ[literal as usize][k]
            } else {
                self.neg_occ[(-(literal as i32)) as usize][k]
            };
            proof {
                assert(self.lit_ok(literal));
                assert(self.occ_seq(literal as int)[k as int] == cid);
                assert(self.occ_seq(literal as int).contains(cid));
                assert(self.occ_entry_ok(literal, cid));
                let s = self.occ_seq(literal as int);
                assert(s.take(k + 1).drop_last() =~= s.take(k as int));
                assert(s.take(k + 1).last() == cid);
                assert(self.cnt_len(s.take(k + 1), length as int) == self.cnt_len(
                    s.take(k as int),
                    length as int,
                ) + if self.cl(cid as int).len() == length {
                    1int
                } else {
                    0int
                });
            }
            if self.clauses[cid as usize].len() == length {
                count = count + 1;
            }
            k = k + 1;
        }
        proof {
            assert(self.occ_seq(literal as int).take(n as int) =~= self.occ_seq(literal as int));
        }
        count
    }

    /// The branching choice of `MinimizeClauseLength`: a lexicographic filter
    /// over clause sizes two to four; the survivor's polarity is the side with
    /// more occurrences overall.
    fn get_lexicographically_maximizing_literal(&self) -> (r: (Variable, bool))
        requires
            self.wf(),
            self.wf_sem(),
            self.spec_num_empty() == 0,
            self.spec_num_active() > 0,
        ensures
            1 <= r.0 as int <= self.nv(),
            self.asg_of(r.0 as int) is None,
            self.spec_variables().contains(r.0),
            self.occ_seq(r.0 as int).len() + self.occ_seq(-(r.0 as int)).len() > 0,
            self.h3_survivors().contains(r.0),
            r.1 == (self.occ_seq(r.0 as int).len() >= self.occ_seq(-(r.0 as int)).len()),
    {
        let mut best_variables: Vec<Variable> = Vec::new();
        let n = self.variables.len();
        let mut i: usize = 0;
        while i < n
            invariant
                self.wf(),
                self.wf_sem(),
                self.spec_num_empty() == 0,
                self.spec_num_active() > 0,
                n == self.spec_variables().len(),
                i <= n,
                best_variables@.no_duplicates(),
                forall|k: int|
                    0 <= k < best_variables@.len() ==> {
                        &&& 1 <= (#[trigger] best_variables@[k]) as int <= self.nv()
                        &&& self.asg_of(best_variables@[k] as int) is None
                        &&& self.spec_variables().contains(best_variables@[k])
                        &&& self.occ_seq(best_variables@[k] as int).len() + self.occ_seq(
                            -(best_variables@[k] as int),
                        ).len() > 0
                    },
                forall|k: int|
                    0 <= k < best_variables@.len() ==> (exists|j: int|
                        0 <= j < i && #[trigger] self.spec_variables()[j] == (
                        #[trigger] best_variables@[k])),
                forall|k: int|
                    0 <= k < i && self.asg_of(#[trigger] self.spec_variables()[k] as int) is None
                        && self.occ_seq(self.spec_variables()[k] as int).len() + self.occ_seq(
                        -(self.spec_variables()[k] as int),
                    ).len() > 0 ==> best_variables@.contains(self.spec_variables()[k]),
            decreases n - i,
        {
            let v = self.variables[i];
            proof {
                assert(self.var_entry_ok(self.spec_variables()[i as int]));
                assert(self.lit_ok(v as Literal));
                let nl = (-(v as int)) as Literal;
                assert(self.lit_ok(nl));
                assert(nl as int == -(v as int));
                self.lemma_occ_len_bounded(v as Literal);
                self.lemma_occ_len_bounded(nl);
            }
            if self.assignments[v as usize].is_none() {
                let p = self.occ_len(v as Literal);
                let q = self.occ_len(-(v as Literal));
                if p + q > 0 {
                    let ghost before = best_variables@;
                    proof {
                        assert(!before.contains(v)) by {
                            if before.contains(v) {
                                let k2 = choose|k2: int|
                                    0 <= k2 < before.len() && before[k2] == v;
                                let j = choose|j: int|
                                    0 <= j < i && #[trigger] self.spec_variables()[j]
                                        == before[k2];
                                assert(self.spec_variables()[j] == self.spec_variables()[i as int]);
                            }
                        }
                    }
                    best_variables.push(v);
                    proof {
                        assert(best_variables@.last() == v);
                        assert(self.spec_variables()[i as int] == v);
                        assert forall|k2: int|
                            0 <= k2 < before.len() implies best_variables@.contains(
                            #[trigger] before[k2],
                        ) by {
                            assert(best_variables@[k2] == before[k2]);
                        }
                    }
                }
            }
            proof {
                assert forall|k2: int|
                    0 <= k2 < i + 1 && self.asg_of(
                        #[trigger] self.spec_variables()[k2] as int,
                    ) is None && self.occ_seq(self.spec_variables()[k2] as int).len()
                        + self.occ_seq(-(self.spec_variables()[k2] as int)).len()
                        > 0 implies best_variables@.contains(self.spec_variables()[k2]) by {}
            }
            i = i + 1;
        }
        proof {
            self.lemma_branch_candidate();
            let k = choose|k: int|
                {
                    &&& 0 <= k < self.spec_variables().len()
                    &&& self.asg_of(#[trigger] self.spec_variables()[k] as int) is None
                    &&& self.occ_seq(self.spec_variables()[k] as int).len() + self.occ_seq(
                        -(self.spec_variables()[k] as int),
                    ).len() > 0
                };
            assert(best_variables@.len() > 0);
            assert(best_variables@.to_set() =~= self.h3_candidates()) by {
                assert forall|v: Variable| #[trigger] best_variables@.to_set().contains(v)
                    == self.h3_candidates().contains(v) by {
                    if best_variables@.to_set().contains(v) {
                        let k2 = choose|k2: int|
                            0 <= k2 < best_variables@.len() && best_variables@[k2] == v;
                    }
                    if self.h3_candidates().contains(v) {
                        let k2 = choose|k2: int|
                            0 <= k2 < self.spec_variables().len()
                                && #[trigger] self.spec_variables()[k2] == v;
                        assert(best_variables@.contains(v));
                    }
                }
            }
            assert(self.h3_after(1) == self.h3_candidates());
        }
        let mut clause_size: usize = 2;
        while clause_size < 5
            invariant
                self.wf(),
                2 <= clause_size <= 5,
                best_variables@.len() > 0,
                best_variables@.no_duplicates(),
                forall|k: int|
                    0 <= k < best_variables@.len() ==> {
                        &&& 1 <= (#[trigger] best_variables@[k]) as int <= self.nv()
                        &&& self.asg_of(best_variables@[k] as int) is None
                        &&& self.spec_variables().contains(best_variables@[k])
                        &&& self.occ_seq(best_variables@[k] as int).len() + self.occ_seq(
                            -(best_variables@[k] as int),
                        ).len() > 0
                    },
                (clause_size <= 4 && best_variables@.to_set() == self.h3_after(
                    clause_size as int - 1,
                )) || (clause_size == 5 && best_variables@.to_set() == self.h3_after(4)),
            decreases 5 - clause_size,
        {
            let ghost prev_set = best_variables@.to_set();
            let mut best_heuristic_value: usize = 0;
            let mut new_best_variables: Vec<Variable> = Vec::new();
            let m = best_variables.len();
            let mut k: usize = 0;
            while k < m
                invariant
                    self.wf(),
                    m == best_variables@.len(),
                    k <= m,
                    2 <= clause_size <= 4,
                    best_variables@.no_duplicates(),
                    new_best_variables@.no_duplicates(),
                    forall|k2: int|
                        0 <= k2 < best_variables@.len() ==> {
                            &&& 1 <= (#[trigger] best_variables@[k2]) as int <= self.nv()
                            &&& self.asg_of(best_variables@[k2] as int) is None
                            &&& self.spec_variables().contains(best_variables@[k2])
                            &&& self.occ_seq(best_variables@[k2] as int).len() + self.occ_seq(
                                -(best_variables@[k2] as int),
                            ).len() > 0
                        },
                    k > 0 ==> new_best_variables@.len() > 0,
                    new_best_variables@.len() == 0 ==> best_heuristic_value == 0,
                    forall|k2: int|
                        0 <= k2 < new_best_variables@.len() ==> best_variables@.contains(
                            #[trigger] new_best_variables@[k2],
                        ),
                    forall|k2: int|
                        0 <= k2 < new_best_variables@.len() ==> (exists|j: int|
                            0 <= j < k && #[trigger] best_variables@[j] == (
                            #[trigger] new_best_variables@[k2])),
                    forall|k2: int|
                        0 <= k2 < new_best_variables@.len() ==> self.h3_score(
                            #[trigger] new_best_variables@[k2],
                            clause_size as int,
                        ) == best_heuristic_value,
                    forall|j: int|
                        0 <= j < k ==> self.h3_score(
                            #[trigger] best_variables@[j],
                            clause_size as int,
                        ) <= best_heuristic_value,
                    forall|j: int|
                        0 <= j < k && self.h3_score(
                            #[trigger] best_variables@[j],
                            clause_size as int,
                        ) == best_heuristic_value ==> new_best_variables@.contains(
                            best_variables@[j],
                        ),
                decreases m - k,
            {
                let v = best_variables[k];
                proof {
                    assert(1 <= (best_variables@[k as int]) as int <= self.nv());
                    assert(self.lit_ok(v as Literal));
                    let nl = (-(v as int)) as Literal;
                    assert(self.lit_ok(nl));
                    assert(nl as int == -(v as int));
                    self.lemma_occ_len_bounded(v as Literal);
                    self.lemma_occ_len_bounded(nl);
                    lemma_distinct_cids_bounded(self.occ_seq(v as int), 0xFFFF);
                    lemma_distinct_cids_bounded(self.occ_seq(-(v as int)), 0xFFFF);
                }
                let positive = self.count_occurrences_of_length(v as Literal, clause_size);
                let negative = self.count_occurrences_of_length(-(v as Literal), clause_size);
                let larger = if positive > negative {
                    positive
                } else {
                    negative
                };
                let smaller = if positive > negative {
                    negative
                } else {
                    positive
                };
                let heuristic_value = ALPHA * larger + BETA * smaller;
                proof {
                    assert((-(v as Literal)) as int == -(v as int));
                    assert(heuristic_value == self.h3_score(v, clause_size as int));
                }
                let ghost nb0 = new_best_variables@;
                let ghost old_best_value = best_heuristic_value as int;
                if heuristic_value > best_heuristic_value {
                    best_heuristic_value = heuristic_value;
                    new_best_variables = Vec::new();
                    new_best_variables.push(v);
                    proof {
                        assert(new_best_variables@[0] == v);
                        assert(new_best_variables@.contains(v));
                        assert forall|j: int|
                            0 <= j < k + 1 && self.h3_score(
                                #[trigger] best_variables@[j],
                                clause_size as int,
                            ) == best_heuristic_value implies new_best_variables@.contains(
                            best_variables@[j],
                        ) by {
                            if j < k {
                                assert(self.h3_score(best_variables@[j], clause_size as int)
                                    <= old_best_value);
                            } else {
                                assert(best_variables@[j] == v);
                            }
                        }
                    }
                } else if heuristic_value == best_heuristic_value {
                    proof {
                        assert(!nb0.contains(v)) by {
                            if nb0.contains(v) {
                                let k2 = choose|k2: int| 0 <= k2 < nb0.len() && nb0[k2] == v;
                                let j = choose|j: int|
                                    0 <= j < k && #[trigger] best_variables@[j] == nb0[k2];
                                assert(best_variables@[j] == best_variables@[k as int]);
                            }
                        }
                    }
                    new_best_variables.push(v);
                    proof {
                        assert(new_best_variables@.last() == v);
                        assert(new_best_variables@.contains(v));
                        assert forall|j: int|
                            0 <= j < k + 1 && self.h3_score(
                                #[trigger] best_variables@[j],
                                clause_size as int,
                            ) == best_heuristic_value implies new_best_variables@.contains(
                            best_variables@[j],
                        ) by {
                            if j < k {
                                assert(nb0.contains(best_variables@[j]));
                                let k2 = choose|k2: int|
                                    0 <= k2 < nb0.len() && nb0[k2] == best_variables@[j];
                                assert(new_best_variables@[k2] == best_variables@[j]);
                            } else {
                                assert(best_variables@[j] == v);
                            }
                        }
                    }
                }
                proof {
                    assert(best_variables@.contains(v)) by {
                        assert(best_variables@[k as int] == v);
                    }
                    assert forall|k2: int|
                        0 <= k2 < new_best_variables@.len() implies (exists|j: int|
                        0 <= j < k + 1 && #[trigger] best_variables@[j] == (
                        #[trigger] new_best_variables@[k2])) by {
                        if k2 < nb0.len() && new_best_variables@[k2] == nb0[k2] {
                            if exists|j: int|
                                0 <= j < k && #[trigger] best_variables@[j] == nb0[k2] {
                                let j = choose|j: int|
                                    0 <= j < k && #[trigger] best_variables@[j] == nb0[k2];
                            }
                        }
                        if k2 == new_best_variables@.len() - 1 && new_best_variables@[k2] == v {
                            assert(best_variables@[k as int] == new_best_variables@[k2]);
                        }
                    }
                }
                k = k + 1;
            }
            proof {
                assert(new_best_variables@.to_set() =~= self.h3_round(
                    prev_set,
                    clause_size as int,
                )) by {
                    assert forall|v: Variable| #[trigger] new_best_variables@.to_set().contains(
                        v,
                    ) == self.h3_round(prev_set, clause_size as int).contains(v) by {
                        if new_best_variables@.to_set().contains(v) {
                            let k2 = choose|k2: int|
                                0 <= k2 < new_best_variables@.len() && new_best_variables@[k2]
                                    == v;
                            assert(best_variables@.contains(v));
                            assert(prev_set.contains(v));
                            assert forall|w: Variable| prev_set.contains(w) implies self.h3_score(
                                w,
                                clause_size as int,
                            ) <= self.h3_score(v, clause_size as int) by {
                                let j = choose|j: int|
                                    0 <= j < best_variables@.len() && best_variables@[j] == w;
                            }
                        }
                        if self.h3_round(prev_set, clause_size as int).contains(v) {
                            assert(prev_set.contains(v));
                            let j = choose|j: int|
                                0 <= j < best_variables@.len() && best_variables@[j] == v;
                            assert(self.h3_score(v, clause_size as int)
                                <= best_heuristic_value);
                            assert(new_best_variables@.len() > 0);
                            let u = new_best_variables@[0];
                            assert(new_best_variables@.to_set().contains(u));
                            assert(best_variables@.contains(u));
                            assert(prev_set.contains(u));
                            assert(self.h3_score(u, clause_size as int)
                                <= self.h3_score(v, clause_size as int));
                            assert(self.h3_score(v, clause_size as int)
                                == best_heuristic_value);
                            assert(new_best_variables@.contains(v));
                        }
                    }
                }
                assert(self.h3_round(prev_set, clause_size as int) == self.h3_after(
                    clause_size as int,
                )) by {
                    assert(prev_set == self.h3_after(clause_size as int - 1));
                }
            }
            best_variables = new_best_variables;
            proof {
                assert forall|k2: int| 0 <= k2 < best_variables@.len() implies {
                    &&& 1 <= (#[trigger] best_variables@[k2]) as int <= self.nv()
                    &&& self.asg_of(best_variables@[k2] as int) is None
                    &&& self.spec_variables().contains(best_variables@[k2])
                    &&& self.occ_seq(best_variables@[k2] as int).len() + self.occ_seq(
                        -(best_variables@[k2] as int),
                    ).len() > 0
                } by {}
            }
            if best_variables.len() == 1 {
                proof {
                    let v0 = best_variables@[0];
                    assert(best_variables@.to_set() =~= Set::<Variable>::empty().insert(v0)) by {
                        assert(best_variables@.contains(v0));
                        assert forall|w: Variable| best_variables@.to_set().contains(
                            w,
                        ) implies w == v0 by {
                            let k2 = choose|k2: int|
                                0 <= k2 < best_variables@.len() && best_variables@[k2] == w;
                        }
                    }
                    let s1 = best_variables@.to_set();
                    if clause_size == 2 {
                        self.lemma_h3_round_singleton(s1, v0, 3);
                        self.lemma_h3_round_singleton(s1, v0, 4);
                        assert(self.h3_after(3) == s1);
                        assert(self.h3_after(4) == s1);
                    } else if clause_size == 3 {
                        self.lemma_h3_round_singleton(s1, v0, 4);
                        assert(self.h3_after(4) == s1);
                    }
                    assert(best_variables@.to_set() == self.h3_after(4));
                }
                clause_size = 5;
            } else {
                clause_size = clause_size + 1;
            }
        }
        let variable = best_variables[0];
        proof {
            assert(self.lit_ok(variable as Literal));
            assert(best_variables@.to_set() == self.h3_after(4));
            assert(best_variables@.contains(variable)) by {
                assert(best_variables@[0] == variable);
            }
            assert(self.h3_survivors().contains(variable));
        }
        let positive_occurrences = self.occ_len(variable as Literal);
        let negative_occurrences = self.occ_len(-(variable as Literal));
        (variable, positive_occurrences >= negative_occurrences)
    }

    /// Picks the next decision variable and polarity per the heuristic: a
    /// literal of maximal occurrence, a variable of maximal total occurrence
    /// tried true, or a survivor of the progressive length filter with the
    /// polarity of its more frequent side.
    pub fn get_branch_variable(&self) -> (r: (Variable, bool))
        requires
            self.wf(),
            self.wf_sem(),
            self.spec_num_empty() == 0,
            self.spec_num_active() > 0,
        ensures
            1 <= r.0 as int <= self.nv(),
            self.asg_of(r.0 as int) is None,
            self.spec_variables().contains(r.0),
            self.occ_seq(r.0 as int).len() + self.occ_seq(-(r.0 as int)).len() > 0,
            self.spec_heuristic() is MostLiteralOccurances ==> (forall|k: int|
                0 <= k < self.spec_variables().len() && self.asg_of(
                    #[trigger] self.spec_variables()[k] as int,
                ) is None ==> self.occ_seq(self.spec_variables()[k] as int).len()
                    <= self.occ_seq(
                    if r.1 {
                        r.0 as int
                    } else {
                        -(r.0 as int)
                    },
                ).len() && self.occ_seq(-(self.spec_variables()[k] as int)).len()
                    <= self.occ_seq(
                    if r.1 {
                        r.0 as int
                    } else {
                        -(r.0 as int)
                    },
                ).len()),
            self.spec_heuristic() is MostVariableOccurances ==> r.1 && (forall|k: int|
                0 <= k < self.spec_variables().len() && self.asg_of(
                    #[trigger] self.spec_variables()[k] as int,
                ) is None ==> self.occ_seq(self.spec_variables()[k] as int).len()
                    + self.occ_seq(-(self.spec_variables()[k] as int)).len() <= self.occ_seq(
                    r.0 as int,
                ).len() + self.occ_seq(-(r.0 as int)).len()),
            self.spec_heuristic() is MinimizeClauseLength ==> self.h3_survivors().contains(r.0)
                && r.1 == (self.occ_seq(r.0 as int).len() >= self.occ_seq(-(r.0 as int)).len()),
    {
        match self.heuristic {
            SolverHeuristic::MostLiteralOccurances => self.get_most_literal_occurances(),
            SolverHeuristic::MostVariableOccurances => self.get_most_variable_occurances(),
            SolverHeuristic::MinimizeClauseLength => {
                self.get_lexicographically_maximizing_literal()
            },
        }
    }

    /// Builds an expression from a vector of clauses.
    pub fn from_clauses(clauses: Vec<Clause>) -> (r: Expression)
        requires
            clauses@.len() < 0xFFFF,
            forall|c: int, i: int|
                0 <= c < clauses@.len() && 0 <= i < clauses@[c]@.len() ==> (
                #[trigger] clauses@[c]@[i]) != 0 && clauses@[c]@[i] != i16::MIN,
        ensures
            r.wf(),
            r.wf_sem(),
            r.log().len() == 0,
            r.all_unassigned(),
            r.assigned_known(),
            r.orig_formula().len() == clauses@.len(),
            forall|c: int|
                0 <= c < clauses@.len() ==> r.orig_formula()[c] == (#[trigger] clauses@[c])@.to_set(),
            r.spec_heuristic() is MostLiteralOccurances,
    {
        let mut expression = Expression::new();
        let mut rest = clauses;
        let ghost all = rest@;
        let mut i: usize = 0;
        while rest.len() > 0
            invariant
                all.len() < 0xFFFF,
                forall|c: int, k: int|
                    0 <= c < all.len() && 0 <= k < all[c]@.len() ==> (#[trigger] all[c]@[k]) != 0
                        && all[c]@[k] != i16::MIN,
                i as int + rest@.len() == all.len(),
                rest@ == all.skip(i as int),
                expression.wf(),
                expression.wf_sem(),
                expression.log().len() == 0,
                expression.all_unassigned(),
                expression.orig_formula().len() == i as int,
                forall|c: int|
                    0 <= c < i as int ==> expression.orig_formula()[c] == (
                    #[trigger] all[c])@.to_set(),
                expression.spec_heuristic() is MostLiteralOccurances,
            decreases rest@.len(),
        {
            let clause = rest.remove(0);
            proof {
                assert(clause@ == all[i as int]@);
                assert(rest@ =~= all.skip(i as int + 1));
            }
            expression.add_clause(clause);
            i = i + 1;
        }
        expression
    }

    /// An untouched expression's clauses are exactly the formula as added.
    pub proof fn lemma_untouched_cls(self)
        requires
            self.wf(),
            self.wf_sem(),
            self.all_unassigned(),
        ensures
            self.abs().cls == self.orig_formula(),
    {
        assert forall|c: int| 0 <= c < self.orig_formula().len() implies self.abs().cls[c]
            == self.orig_formula()[c] by {
            assert(self.abs().cls[c] == self.cset(c));
            assert(self.is_act(c)) by {
                if !self.abs().act[c] {
                    let l = choose|l: Literal|
                        self.orig_formula()[c].contains(l) && lit_sat(self.abs().asg, l);
                    assert(self.asg_of(spec_var(l) as int) is None);
                }
            }
            assert(self.orig_of(c) == self.orig_formula()[c]);
            assert(self.abs().cls[c] =~= self.orig_of(c)) by {
                assert forall|l: Literal| #[trigger] self.abs().cls[c].contains(
                    l,
                ) implies self.orig_of(c).contains(l) by {
                    assert(self.cset(c).contains(l));
                }
                assert forall|l: Literal| #[trigger] self.orig_of(c).contains(
                    l,
                ) implies self.abs().cls[c].contains(l) by {
                    assert(self.lit_ok(l));
                    assert(1 <= spec_var(l) as int <= self.nv()) by {
                        if l >= 0 {
                        } else {
                        }
                    }
                    assert(self.asg_of(spec_var(l) as int) is None);
                    assert(lit_unassigned(self.abs().asg, l));
                }
            }
        }
        assert(self.abs().cls =~= self.orig_formula());
    }

    /// A fresh copy of the expression, rebuilt clause by clause; the copy
    /// holds the same formula with an empty log and no assignments.
    pub fn duplicate(&self) -> (r: Expression)
        requires
            self.wf(),
            self.wf_sem(),
            self.all_unassigned(),
            self.log().len() == 0,
            self.n_clauses() < 0xFFFF,
        ensures
            r.wf(),
            r.wf_sem(),
            r.log().len() == 0,
            r.all_unassigned(),
            r.assigned_known(),
            r.orig_formula() == self.orig_formula(),
            r.spec_heuristic() is MostLiteralOccurances,
    {
        let copies = self.get_clauses();
        proof {
            assert forall|c: int, i: int|
                0 <= c < copies@.len() && 0 <= i < copies@[c]@.len() implies (
            #[trigger] copies@[c]@[i]) != 0 && copies@[c]@[i] != i16::MIN by {
                assert(copies@[c]@ == self.cl(c));
                assert(self.lit_ok(self.cl(c)[i]));
            }
        }
        let r = Expression::from_clauses(copies);
        proof {
            self.lemma_untouched_cls();
            assert(r.orig_formula() =~= self.orig_formula()) by {
                assert forall|c: int| 0 <= c < r.orig_formula().len() implies r.orig_formula()[c]
                    == self.orig_formula()[c] by {
                    assert(r.orig_formula()[c] == copies@[c]@.to_set());
                    assert(copies@[c]@ == self.cl(c));
                    assert(self.abs().cls[c] == self.orig_formula()[c]);
                    assert(self.cset(c) == self.abs().cls[c]);
                }
            }
        }
        r
    }

    /// The known variables are exactly those the formula mentions.
    pub proof fn lemma_variables_characterized(self)
        requires
            self.wf(),
        ensures
            forall|v: Variable|
                #[trigger] self.spec_variables().contains(v) == formula_mentions(
                    self.orig_formula(),
                    v,
                ),
    {
        assert forall|v: Variable| #[trigger] self.spec_variables().contains(v)
            == formula_mentions(self.orig_formula(), v) by {
            if self.spec_variables().contains(v) {
                let k = choose|k: int|
                    0 <= k < self.variables@.len() && self.variables@[k] == v;
                assert(self.var_entry_ok(self.variables@[k]));
                assert(self.var_occurs(v));
                let c = choose|c: int|
                    0 <= c < self.n_clauses() && ((#[trigger] self.orig_of(c)).contains(
                        v as Literal,
                    ) || self.orig_of(c).contains((-(v as int)) as Literal));
                assert(self.orig_formula()[c] == self.orig_of(c));
                assert(formula_mentions(self.orig_formula(), v));
            }
            if formula_mentions(self.orig_formula(), v) {
                let c = choose|c: int|
                    0 <= c < self.orig_formula().len() && ((
                    #[trigger] self.orig_formula()[c]).contains(v as Literal)
                        || self.orig_formula()[c].contains((-(v as int)) as Literal));
                assert(self.orig_of(c) == self.orig_formula()[c]);
                assert(self.var_occurs(v));
                assert(self.spec_variables().contains(v));
            }
        }
    }

    /// Law: once unit clauses and pure literals are exhausted, the engine is
    /// satisfied, unsatisfiable, or no inference is possible any more.
    pub proof fn lemma_unit_propagation_fixed_point(self)
        requires
            self.wf(),
            self.spec_unit_clauses().len() == 0,
            self.spec_pure_literals().len() == 0,
        ensures
            self.spec_num_empty() > 0 || self.spec_num_active() == 0 || !(self.spec_num_empty()
                == 0 && self.spec_num_active() > 0 && (self.spec_pure_literals().len() > 0
                || self.spec_unit_clauses().len() > 0)),
    {
    }

    /// The assignment vector read entry by entry.
    pub proof fn lemma_asg_seq_of(self)
        requires
            self.wf(),
        ensures
            self.asg_seq().len() == self.nv() + 1,
            self.asg_seq().len() <= 0x8000,
            forall|v: int| 0 <= v < self.asg_seq().len() ==> self.asg_seq()[v] == self.asg_of(v),
    {
    }

    /// Law: an empty active clause refutes every extension of the current
    /// partial assignment.
    pub proof fn lemma_empty_clause_unsat(self)
        requires
            self.wf(),
            self.wf_sem(),
            self.spec_num_empty() > 0,
        ensures
            !sat_extension(self.orig_formula(), self.asg_seq()),
    {
        assert(exists|c: int| 0 <= c < self.n_clauses() && #[trigger] self.empty_flags()[c]) by {
            if forall|c: int| 0 <= c < self.n_clauses() ==> !(#[trigger] self.empty_flags()[c]) {
                lemma_count_true_zero_of_all_false(self.empty_flags(), self.n_clauses());
            }
        }
        let c = choose|c: int| 0 <= c < self.n_clauses() && #[trigger] self.empty_flags()[c];
        assert(self.is_act(c) && self.cl(c).len() == 0);
        assert(self.abs().act[c]);
        if sat_extension(self.orig_formula(), self.asg_seq()) {
            let m = choose|m: Map<Variable, bool>|
                extends_assignment(m, self.asg_seq()) && formula_sat_by(self.orig_formula(), m);
            assert(clause_sat_by(self.orig_formula()[c], m));
            let l = choose|l: Literal|
                self.orig_formula()[c].contains(l) && m.dom().contains(spec_var(l)) && m[
                spec_var(l)] == (l > 0);
            assert(self.orig_of(c).contains(l));
            assert(self.lit_ok(l));
            assert(1 <= spec_var(l) as int <= self.nv()) by {
                if l >= 0 {
                } else {
                }
            }
            assert(!self.abs().cls[c].contains(l)) by {
                assert(self.abs().cls[c] == self.cset(c));
                assert(self.cset(c) =~= Set::<Literal>::empty());
            }
            assert(!lit_unassigned(self.abs().asg, l));
            assert(self.asg_of(spec_var(l) as int) is Some);
            assert(!lit_sat(self.abs().asg, l));
            assert(self.asg_of(spec_var(l) as int) == Some(!(l > 0)));
            assert(self.asg_seq()[spec_var(l) as int] is Some);
            assert(m[spec_var(l)] == !(l > 0));
            assert(false);
        }
    }

    /// How many clauses have been added.
    pub fn clause_count(&self) -> (r: usize)
        ensures
            r == self.n_clauses(),
    {
        self.clauses.len()
    }

    /// The clauses as they currently stand.
    pub fn get_clauses(&self) -> (r: Vec<Clause>)
        ensures
            r@.len() == self.n_clauses(),
            forall|c: int| 0 <= c < r@.len() ==> (#[trigger] r@[c])@ == self.cl(c),
    {
        let mut out: Vec<Clause> = Vec::new();
        let n = self.clauses.len();
        for i in 0..n
            invariant
                n == self.clauses.len(),
                out@.len() == i,
                forall|c: int| 0 <= c < i ==> (#[trigger] out@[c])@ == self.clauses@[c]@,
        {
            let mut copy = Clause::new();
            let m = self.clauses[i].len();
            for j in 0..m
                invariant
                    n == self.clauses.len(),
                    i < n,
                    m == self.clauses@[i as int]@.len(),
                    copy@ == self.clauses@[i as int]@.take(j as int),
            {
                copy.insert(self.clauses[i].get(j));
                proof {
                    assert(self.clauses@[i as int]@.take(j + 1) =~= self.clauses@[
                        i as int]@.take(j as int).push(self.clauses@[i as int]@[j as int]));
                }
            }
            proof {
                assert(self.clauses@[i as int]@.take(m as int) =~= self.clauses@[i as int]@);
            }
            out.push(copy);
        }
        out
    }
}

} // verus!
