//! A cell for a value that a parse sets late, with borrows that read and
//! write it.

use std::ops::{Deref, DerefMut};
use vstd::prelude::*;

verus! {

/// A shared borrow of what a `ParamType` holds.
#[derive(Debug, Clone)]
pub struct Ref<'a, T> {
    target: &'a Option<T>,
}

impl<'a, T> Ref<'a, T> {
    /// The value borrowed.
    pub closed spec fn value(&self) -> Option<T> {
        *self.target
    }
}

impl<'a, T: Default> Deref for Ref<'a, T> {
    type Target = Option<T>;

    fn deref(&self) -> (r: &Option<T>)
        ensures
            *r == self.value(),
    {
        self.target
    }
}

/// An exclusive borrow of what a `ParamType` holds. What the cell holds once
/// the borrow has ended is what `target` points to then.
pub struct RefMut<'a, T> {
    pub target: &'a mut Option<T>,
}

impl<'a, T> RefMut<'a, T> {
    /// The value borrowed, as it is now.
    pub open spec fn value(&self) -> Option<T> {
        *self.target
    }
}

impl<'a, T: Default> Deref for RefMut<'a, T> {
    type Target = Option<T>;

    fn deref(&self) -> (r: &Option<T>)
        ensures
            *r == self.value(),
    {
        &*self.target
    }
}

impl<'a, T: Default> DerefMut for RefMut<'a, T> {
    fn deref_mut(&mut self) -> (r: &mut Option<T>)
        ensures
            *r == old(self).value(),
            final(self).value() == *final(r),
            *final(final(self).target) == *final(old(self).target),
    {
        &mut *self.target
    }
}

/// A value that may not be there yet.
#[derive(Debug)]
pub struct ParamType<T: Default> {
    value: Option<T>,
}

impl<T: Default> View for ParamType<T> {
    type V = Option<T>;

    closed spec fn view(&self) -> Option<T> {
        self.value
    }
}

impl<T: Default> Default for ParamType<T> {
    /// The cell that holds nothing yet.
    fn default() -> (r: Self)
        ensures
            r@ is None,
    {
        ParamType { value: None }
    }
}

impl<T: Default> ParamType<T> {
    /// A cell that holds `t`.
    pub fn new(t: T) -> (r: Self)
        ensures
            r@ == Some(t),
    {
        ParamType { value: Some(t) }
    }

    /// Borrows the value to read it.
    pub fn borrow(&self) -> (r: Ref<'_, T>)
        ensures
            r.value() == self@,
    {
        Ref { target: &self.value }
    }

    /// Borrows the value to change it: the cell ends up holding what the
    /// borrow holds when it ends.
    pub fn borrow_mut(&mut self) -> (r: RefMut<'_, T>)
        ensures
            r.value() == old(self)@,
            final(self)@ == *final(r.target),
    {
        RefMut { target: &mut self.value }
    }
}

impl<T: Default> Deref for ParamType<T> {
    type Target = Option<T>;

    fn deref(&self) -> (r: &Option<T>)
        ensures
            *r == self@,
    {
        &self.value
    }
}

impl<T: Default> DerefMut for ParamType<T> {
    fn deref_mut(&mut self) -> (r: &mut Option<T>)
        ensures
            *r == old(self)@,
            final(self)@ == *final(r),
    {
        &mut self.value
    }
}

} // verus!
