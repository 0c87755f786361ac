//! A single-value cell used for the tree-links of a node.
//!
//! Its role is to hold one link of a node (a `parent`, sibling or child
//! reference) and let the tree engine move values in and out of it.  Its
//! view is simply the value it holds.

use vstd::prelude::*;

verus! {

pub struct MoveCell<T> {
    value: T,
}

impl<T> View for MoveCell<T> {
    type V = T;

    closed spec fn view(&self) -> T {
        self.value
    }
}

impl<T> MoveCell<T> {
    pub fn new(x: T) -> (c: MoveCell<T>)
        ensures
            c@ == x,
    {
        MoveCell { value: x }
    }

    pub fn set(&mut self, x: T)
        ensures
            final(self)@ == x,
    {
        self.value = x;
    }

    pub fn replace(&mut self, x: T) -> (r: T)
        ensures
            final(self)@ == x,
            r == old(self)@,
    {
        let mut x = x;
        core::mem::swap(&mut self.value, &mut x);
        x
    }
}

impl<T> MoveCell<Option<T>> {
    pub fn is_none(&self) -> (r: bool)
        ensures
            r == (self@ is None),
    {
        match &self.value {
            Option::None => true,
            Option::Some(_) => false,
        }
    }

    pub fn take(&mut self) -> (r: Option<T>)
        ensures
            final(self)@ is None,
            r == old(self)@,
    {
        self.replace(None)
    }
}

impl<T: Copy> MoveCell<T> {
    pub fn clone_inner(&self) -> (r: T)
        ensures
            r == self@,
    {
        self.value
    }
}

} // verus!
