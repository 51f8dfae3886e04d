//! A handle on a shared node that can be bound after it is made.

use std::rc::Rc;
use vstd::prelude::*;

verus! {

/// A lazily bound, clonable handle on a shared value: empty when made by
/// `default`, bound by `new` or `set`.
#[derive(Debug)]
pub struct SharedType<T> {
    handle: Option<Rc<T>>,
}

impl<T> View for SharedType<T> {
    type V = Option<T>;

    /// The value that the handle is bound to, if any.
    closed spec fn view(&self) -> Option<T> {
        match self.handle {
            Some(rc) => Some(*rc),
            None => None,
        }
    }
}

impl<T> Default for SharedType<T> {
    /// The empty handle.
    fn default() -> (r: Self)
        ensures
            r@ is None,
    {
        SharedType { handle: None }
    }
}

impl<T> SharedType<T> {
    /// A handle bound to what `rc` points to.
    pub fn new(rc: Rc<T>) -> (r: Self)
        ensures
            r@ == Some(*rc),
    {
        SharedType { handle: Some(Rc::clone(&rc)) }
    }

    /// Whether the handle is bound.
    pub fn is_set(&self) -> (b: bool)
        ensures
            b == (self@ is Some),
    {
        self.handle.is_some()
    }

    /// Another handle on the same value. The handle must be bound.
    pub fn clone(&self) -> (r: Self)
        requires
            self@ is Some,
        ensures
            r@ == self@,
    {
        match &self.handle {
            Some(rc) => SharedType { handle: Some(Rc::clone(rc)) },
            None => SharedType { handle: None },
        }
    }

    /// The value that the handle is bound to. The handle must be bound.
    pub fn get(&self) -> (rc: Rc<T>)
        requires
            self@ is Some,
        ensures
            self@ == Some(*rc),
    {
        match &self.handle {
            Some(rc) => Rc::clone(rc),
            None => {
                proof {
                    assert(false);
                }
                vstd::pervasive::unreached()
            },
        }
    }

    /// Binds the handle to what `rc` points to.
    pub fn set(&mut self, rc: Rc<T>)
        ensures
            final(self)@ == Some(*rc),
    {
        self.handle = Some(Rc::clone(&rc));
    }
}

} // verus!
