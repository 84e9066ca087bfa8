//! A total or partial truth assignment, variable to boolean.
//!
//! The map is backed by `hashbrown::HashMap`; the engine and the verifier see
//! it only through the small trusted interface below, whose contracts speak of
//! the mathematical map [`assignment_map`].

use vstd::prelude::*;
use crate::cnf::Variable;

verus! {

/// A mapping from variables to truth values.
#[verifier::external_body]
pub struct Assignment {
    map: hashbrown::HashMap<Variable, bool>,
}

/// The mathematical content of an [`Assignment`].
pub uninterp spec fn assignment_map(a: Assignment) -> Map<Variable, bool>;

impl Assignment {
    /// Relies on `hashbrown::HashMap::new`: a freshly created map is empty.
    #[verifier::external_body]
    pub fn new() -> (r: Assignment)
        ensures
            assignment_map(r).dom() == Set::<Variable>::empty(),
    {
        Assignment { map: hashbrown::HashMap::new() }
    }

    /// Relies on `hashbrown::HashMap::insert`: after the call the key maps to
    /// the given value and no other entry changes.
    #[verifier::external_body]
    pub fn insert(&mut self, variable: Variable, value: bool)
        ensures
            assignment_map(*final(self)) == assignment_map(*old(self)).insert(variable, value),
    {
        self.map.insert(variable, value);
    }

    /// Relies on `hashbrown::HashMap::get`: returns the value stored under the
    /// key, or nothing when the key is absent.
    #[verifier::external_body]
    pub fn get(&self, variable: Variable) -> (r: Option<bool>)
        ensures
            r == if assignment_map(*self).dom().contains(variable) {
                Some(assignment_map(*self)[variable])
            } else {
                None::<bool>
            },
    {
        self.map.get(&variable).copied()
    }

    /// Relies on `hashbrown::HashMap::contains_key`.
    #[verifier::external_body]
    pub fn contains_key(&self, variable: Variable) -> (r: bool)
        ensures
            r == assignment_map(*self).dom().contains(variable),
    {
        self.map.contains_key(&variable)
    }

    /// Relies on `hashbrown::HashMap::clone`: the copy holds the same entries.
    #[verifier::external_body]
    pub fn duplicate(&self) -> (r: Assignment)
        ensures
            assignment_map(r) == assignment_map(*self),
    {
        Assignment { map: self.map.clone() }
    }
}

} // verus!
