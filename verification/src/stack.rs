//! A simple stack, used for the action log of the CNF engine.

use vstd::prelude::*;

verus! {

/// A LIFO stack backed by a vector.
#[derive(Clone)]
pub struct Stack<T> {
    stack: Vec<T>,
}

impl<T> View for Stack<T> {
    type V = Seq<T>;

    closed spec fn view(&self) -> Seq<T> {
        self.stack@
    }
}

impl<T> Stack<T> {
    /// Initializes a new stack with the given capacity.
    pub fn new(capacity: usize) -> (r: Stack<T>)
        ensures
            r@ == Seq::<T>::empty(),
    {
        Stack { stack: Vec::with_capacity(capacity) }
    }

    /// Pushes a new value onto the stack.
    pub fn push(&mut self, value: T)
        ensures
            final(self)@ == old(self)@.push(value),
    {
        self.stack.push(value);
    }

    /// Pops the top value from the stack.
    pub fn pop(&mut self) -> (r: Option<T>)
        ensures
            old(self)@.len() == 0 ==> final(self)@ == old(self)@ && r is None,
            old(self)@.len() > 0 ==> {
                &&& final(self)@ == old(self)@.drop_last()
                &&& r == Some(old(self)@.last())
            },
    {
        self.stack.pop()
    }

    /// Returns the length of the stack.
    pub fn len(&self) -> (r: usize)
        ensures
            r == self@.len(),
    {
        self.stack.len()
    }

    /// Returns true if the stack is empty.
    pub fn is_empty(&self) -> (r: bool)
        ensures
            r == (self@.len() == 0),
    {
        self.stack.len() == 0
    }

    /// Peeks at the top value of the stack.
    pub fn peek(&self) -> (r: &T)
        requires
            self@.len() > 0,
        ensures
            r == self@.last(),
    {
        &self.stack[self.stack.len() - 1]
    }
}

impl Stack<(u16, bool)> {
    /// Checks if the stack contains a value.
    pub fn contains(&self, value: &(u16, bool)) -> (r: bool)
        ensures
            r == self@.contains(*value),
    {
        for i in 0..self.stack.len()
            invariant
                forall|j: int| 0 <= j < i ==> self.stack@[j] != *value,
        {
            let entry = self.stack[i];
            if entry.0 == value.0 && entry.1 == value.1 {
                return true;
            }
        }
        false
    }

    /// The entries of the stack, bottom first.
    pub fn iter(&self) -> (r: Vec<(u16, bool)>)
        ensures
            r@ == self@,
    {
        let mut out: Vec<(u16, bool)> = Vec::new();
        for i in 0..self.stack.len()
            invariant
                out@ == self.stack@.take(i as int),
        {
            out.push(self.stack[i]);
            proof {
                assert(self.stack@.take(i + 1) =~= self.stack@.take(i as int).push(
                    self.stack@[i as int],
                ));
            }
        }
        proof {
            assert(self.stack@.take(self.stack@.len() as int) =~= self.stack@);
        }
        out
    }
}

} // verus!
