//! Literal algebra, clauses, and the action records of the undo log.

use vstd::prelude::*;

verus! {

/// A literal: a nonzero signed integer whose magnitude names the variable and
/// whose sign gives the polarity.
pub type Literal = i16;

/// A variable: the magnitude of a literal.
pub type Variable = u16;

/// Clauses are identified by their dense insertion index.
pub type ClauseId = u16;

/// A mark into the action log: the depth of the log at some earlier moment.
pub type ActionState = usize;

/// One reversible mutation recorded on the action log.
///
/// A run of literal removals is framed as
/// `RemoveLiteralFromClausesStart, RemoveLiteralFromClause(c1), ...,
/// RemoveLiteralFromClausesEnd(l)`, so that replay learns the literal to
/// reinsert from the closing record alone.
#[derive(Debug, Eq, PartialEq, Clone, Copy)]
pub enum Action {
    RemoveClause(ClauseId),
    RemoveLiteralFromClausesStart(),
    RemoveLiteralFromClause(ClauseId),
    RemoveLiteralFromClausesEnd(Literal),
    AssignVariable(Variable),
}

/// A clause: a duplicate-tolerant sequence of literals, read as their
/// disjunction. Removal swaps with the last element, so the order of the
/// literals is not preserved.
#[derive(Debug, Clone)]
pub struct Clause {
    variables: Vec<Literal>,
}

impl View for Clause {
    type V = Seq<Literal>;

    closed spec fn view(&self) -> Seq<Literal> {
        self.variables@
    }
}

impl Clause {
    pub fn new() -> (r: Clause)
        ensures
            r@ == Seq::<Literal>::empty(),
    {
        Clause { variables: Vec::new() }
    }

    /// Appends the literal only when it is not already present.
    pub fn insert_checked(&mut self, variable: Literal)
        ensures
            old(self)@.contains(variable) ==> final(self)@ == old(self)@,
            !old(self)@.contains(variable) ==> final(self)@ == old(self)@.push(variable),
            old(self)@.no_duplicates() ==> final(self)@.no_duplicates(),
    {
        if !contains_literal(&self.variables, variable) {
            self.variables.push(variable);
        }
    }

    /// Appends the literal unconditionally.
    pub fn insert(&mut self, variable: Literal)
        ensures
            final(self)@ == old(self)@.push(variable),
    {
        self.variables.push(variable);
    }

    pub fn len(&self) -> (r: usize)
        ensures
            r == self@.len(),
    {
        self.variables.len()
    }

    pub fn is_empty(&self) -> (r: bool)
        ensures
            r == (self@.len() == 0),
    {
        self.variables.len() == 0
    }

    pub fn contains(&self, variable: Literal) -> (r: bool)
        ensures
            r == self@.contains(variable),
    {
        contains_literal(&self.variables, variable)
    }

    pub fn literals(&self) -> (r: &Vec<Literal>)
        ensures
            r@ == self@,
    {
        &self.variables
    }

    pub fn get(&self, index: usize) -> (r: Literal)
        requires
            index < self@.len(),
        ensures
            r == self@[index as int],
    {
        self.variables[index]
    }

    /// Removes one occurrence of the literal in constant time by swapping the
    /// last element into its place; the order of the remainder is not kept.
    pub fn remove(&mut self, variable: Literal)
        ensures
            !old(self)@.contains(variable) ==> final(self)@ == old(self)@,
            old(self)@.contains(variable) ==> {
                &&& final(self)@.len() == old(self)@.len() - 1
                &&& final(self)@.to_multiset() == old(self)@.to_multiset().remove(variable)
            },
            old(self)@.no_duplicates() ==> {
                &&& final(self)@.no_duplicates()
                &&& forall|x: Literal|
                    final(self)@.contains(x) <==> (old(self)@.contains(x) && x != variable)
            },
    {
        let ghost orig = self.variables@;
        let mut i: usize = 0;
        while i < self.variables.len()
            invariant
                orig == old(self)@,
                self.variables@ == orig,
                i <= orig.len(),
                forall|j: int| 0 <= j < i ==> orig[j] != variable,
            decreases orig.len() - i,
        {
            if self.variables[i] == variable {
                self.variables.swap_remove(i);
                proof {
                    assert(orig[i as int] == variable);
                    assert(orig.contains(variable));
                    lemma_vecset_swap_remove(orig, i as int);
                    assert(self.variables@ == orig.update(i as int, orig.last()).drop_last());
                }
                return;
            }
            i = i + 1;
        }
    }
}

impl Default for Clause {
    fn default() -> (r: Clause)
        ensures
            r@ == Seq::<Literal>::empty(),
    {
        Clause::new()
    }
}

/// Linear scan for a literal in a vector.
fn contains_literal(v: &Vec<Literal>, x: Literal) -> (r: bool)
    ensures
        r == v@.contains(x),
{
    for i in 0..v.len()
        invariant
            forall|j: int| 0 <= j < i ==> v@[j] != x,
    {
        if v[i] == x {
            return true;
        }
    }
    false
}

/// What a swap-with-last removal at `i` leaves behind.
pub(crate) proof fn lemma_vecset_swap_remove<A>(s: Seq<A>, i: int)
    requires
        0 <= i < s.len(),
    ensures
        ({
            let r = s.update(i, s.last()).drop_last();
            &&& r.len() == s.len() - 1
            &&& r.to_multiset() == s.to_multiset().remove(s[i])
            &&& s.no_duplicates() ==> r.no_duplicates()
            &&& s.no_duplicates() ==> forall|x: A|
                r.contains(x) <==> (s.contains(x) && x != s[i])
        }),
{
    let r = s.update(i, s.last()).drop_last();
    assert(r =~= s.update(i, s.last()).remove(s.len() - 1));
    broadcast use vstd::seq_lib::group_seq_properties;

    assert(s.update(i, s.last()).remove(s.len() - 1).to_multiset() =~= s.update(
        i,
        s.last(),
    ).to_multiset().remove(s.update(i, s.last())[s.len() - 1])) by {
        s.update(i, s.last()).to_multiset_ensures();
        vstd::seq_lib::to_multiset_remove(s.update(i, s.last()), s.len() - 1);
    }
    assert(s.update(i, s.last()).to_multiset() =~= s.to_multiset().remove(s[i]).insert(s.last()))
        by {
        lemma_update_to_multiset(s, i, s.last());
    }
    assert(r.to_multiset() =~= s.to_multiset().remove(s[i])) by {
        assert(s.update(i, s.last())[s.len() - 1] == s.last());
        assert(s.to_multiset().remove(s[i]).insert(s.last()).remove(s.last()) =~= s.to_multiset()
            .remove(s[i]));
    }
    assert(r.len() == s.len() - 1);
    if s.no_duplicates() {
        assert forall|x: A| r.contains(x) implies (s.contains(x) && x != s[i]) by {
            let j = choose|j: int| 0 <= j < r.len() && r[j] == x;
            assert(s.contains(x)) by {
                if j == i {
                    assert(s[s.len() - 1] == x);
                } else {
                    assert(s[j] == x);
                }
            }
            if x == s[i] {
                if j == i {
                    assert(s[s.len() - 1] == s[i]);
                    assert(i != s.len() - 1 ==> false);
                    assert(i == s.len() - 1 ==> r.len() == i && !(j < r.len()));
                } else {
                    assert(s[j] == s[i] && j != i);
                }
            }
        }
        assert forall|x: A| (s.contains(x) && x != s[i]) implies r.contains(x) by {
            let j = choose|j: int| 0 <= j < s.len() && s[j] == x;
            if j == s.len() - 1 {
                assert(j != i);
                if i < s.len() - 1 {
                    assert(r[i] == s.last());
                } else {
                    assert(false);
                }
            } else {
                assert(r[j] == x);
            }
        }
        assert(r.no_duplicates()) by {
            assert forall|p: int, q: int|
                0 <= p < r.len() && 0 <= q < r.len() && p != q implies r[p] != r[q] by {
                let sp = if p == i { s.len() - 1 } else { p };
                let sq = if q == i { s.len() - 1 } else { q };
                assert(r[p] == s[sp] && r[q] == s[sq]);
            }
        }
    }
}

/// Multiset effect of overwriting position `i` with `x`.
proof fn lemma_update_to_multiset<A>(s: Seq<A>, i: int, x: A)
    requires
        0 <= i < s.len(),
    ensures
        s.update(i, x).to_multiset() == s.to_multiset().remove(s[i]).insert(x),
{
    broadcast use vstd::seq_lib::group_seq_properties;

    s.to_multiset_ensures();
    s.update(i, x).to_multiset_ensures();
    assert(s.update(i, x).remove(i) =~= s.remove(i));
    vstd::seq_lib::to_multiset_remove(s, i);
    vstd::seq_lib::to_multiset_remove(s.update(i, x), i);
    assert(s.update(i, x)[i] == x);
    assert(s.update(i, x).to_multiset().remove(x) == s.to_multiset().remove(s[i]));
    assert(s.update(i, x).to_multiset().contains(x)) by {
        assert(s.update(i, x)[i] == x);
        assert(s.update(i, x).contains(x));
    }
    assert(s.update(i, x).to_multiset() =~= s.update(i, x).to_multiset().remove(x).insert(x));
}

/// The variable of a literal: its magnitude.
pub fn to_variable(literal: Literal) -> (r: Variable)
    ensures
        r == spec_var(literal),
{
    if literal >= 0 {
        literal as Variable
    } else {
        (-(literal as i32)) as Variable
    }
}

/// The opposite polarity of a literal.
pub fn negate(variable: Literal) -> (r: Literal)
    requires
        variable != i16::MIN,
    ensures
        r == -variable,
{
    -variable
}

/// The positive literal of the same variable.
pub fn to_positive(variable: Literal) -> (r: Literal)
    requires
        variable != i16::MIN,
    ensures
        r == if variable > 0 { variable as int } else { -variable as int },
{
    if variable > 0 {
        variable
    } else {
        -variable
    }
}

/// The variable of a literal, at the specification level.
pub open spec fn spec_var(literal: Literal) -> Variable {
    if literal >= 0 {
        literal as Variable
    } else {
        (-(literal as int)) as Variable
    }
}

} // verus!
