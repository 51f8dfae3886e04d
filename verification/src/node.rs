//! The contract of a parse-tree node and the helpers that make a node and
//! wire it to its ancestors.

use crate::error::{KError, KResult};
use crate::model::StreamModel;
use crate::shared::SharedType;
use crate::stream::KStream;
use std::rc::Rc;
use vstd::prelude::*;

verus! {

/// A node of a parse tree. `Root` is the type of the outermost node of the
/// parse, `Parent` that of the node that encloses this one.
pub trait KStruct: Default {
    type Root;

    type Parent;

    /// What a read of this node type does: whether `node`, read from the
    /// stream `before` under the ancestors `root` and `parent`, may leave the
    /// stream `after` and give `r`. A node type that says nothing here
    /// allows every outcome.
    open spec fn read_spec(
        node: &Self,
        before: StreamModel,
        root: Option<Self::Root>,
        parent: Option<Self::Parent>,
        after: StreamModel,
        r: KResult<()>,
    ) -> bool {
        true
    }

    /// Parses this node, and its children, from `io`. The stream stays well
    /// formed and its bytes are not changed.
    fn read<'a, S: KStream<'a>>(
        self_rc: &Rc<Self>,
        io: &mut S,
        root: SharedType<Self::Root>,
        parent: SharedType<Self::Parent>,
    ) -> (r: KResult<()>)
        requires
            old(io).model().wf(),
        ensures
            final(io).model().wf(),
            final(io).model().bytes == old(io).model().bytes,
            Self::read_spec(
                &**self_rc,
                old(io).model(),
                root@,
                parent@,
                final(io).model(),
                r,
            ),
    ;
}

/// The handle given, or, where none is given, a fresh handle on `t` itself:
/// at the top of a parse a node is its own ancestor.
pub fn downcast<T>(opt_rc: Option<SharedType<T>>, t: Rc<T>) -> (r: SharedType<T>)
    ensures
        match opt_rc {
            Some(h) => r == h,
            None => r@ == Some(*t),
        },
{
    match opt_rc {
        Some(h) => h,
        None => SharedType::new(t),
    }
}

/// Makes a node of type `T` by default, parses it from `io` under the
/// ancestors given, and returns it if the parse succeeded; the node's own
/// failure is passed on as it is.
pub fn read_into<'a, S: KStream<'a>, T: KStruct>(
    io: &mut S,
    root: SharedType<T::Root>,
    parent: SharedType<T::Parent>,
) -> (r: KResult<Rc<T>>)
    requires
        old(io).model().wf(),
    ensures
        final(io).model().wf(),
        final(io).model().bytes == old(io).model().bytes,
        match r {
            Ok(t) => T::default.ensures((), *t) && T::read_spec(
                &*t,
                old(io).model(),
                root@,
                parent@,
                final(io).model(),
                Ok(()),
            ),
            Err(e) => exists|node: T|
                T::default.ensures((), node) && #[trigger] T::read_spec(
                    &node,
                    old(io).model(),
                    root@,
                    parent@,
                    final(io).model(),
                    Err(e),
                ),
        },
{
    let t = Rc::new(T::default());
    let res = T::read(&t, io, root, parent);
    match res {
        Ok(u) => {
            assert(res == Ok::<(), KError>(()));
            Ok(t)
        },
        Err(e) => {
            assert(T::read_spec(&*t, old(io).model(), root@, parent@, io.model(), Err(e)));
            Err(e)
        },
    }
}

/// Makes the outermost node of a parse, which is its own root and its own
/// parent, parses it from `io`, and returns it if the parse succeeded.
pub fn read_root<'a, S: KStream<'a>, T: KStruct<Root = T, Parent = T>>(io: &mut S) -> (r: KResult<
    Rc<T>,
>)
    requires
        old(io).model().wf(),
    ensures
        final(io).model().wf(),
        final(io).model().bytes == old(io).model().bytes,
        match r {
            Ok(t) => T::default.ensures((), *t) && T::read_spec(
                &*t,
                old(io).model(),
                Some(*t),
                Some(*t),
                final(io).model(),
                Ok(()),
            ),
            Err(e) => exists|node: T|
                T::default.ensures((), node) && #[trigger] T::read_spec(
                    &node,
                    old(io).model(),
                    Some(node),
                    Some(node),
                    final(io).model(),
                    Err(e),
                ),
        },
{
    let t = Rc::new(T::default());
    let root = downcast(None, Rc::clone(&t));
    let parent = downcast(None, Rc::clone(&t));
    let res = T::read(&t, io, root, parent);
    match res {
        Ok(u) => {
            assert(res == Ok::<(), KError>(()));
            Ok(t)
        },
        Err(e) => {
            assert(T::read_spec(&*t, old(io).model(), Some(*t), Some(*t), io.model(), Err(e)));
            Err(e)
        },
    }
}

/// The node that stands above the outermost node: its own root and parent,
/// with nothing to read.
#[derive(Debug, PartialEq, Eq, Clone, Copy)]
pub struct KStructUnit {}

impl Default for KStructUnit {
    fn default() -> (r: Self) {
        KStructUnit {  }
    }
}

impl KStruct for KStructUnit {
    type Root = KStructUnit;

    type Parent = KStructUnit;

    open spec fn read_spec(
        node: &Self,
        before: StreamModel,
        root: Option<KStructUnit>,
        parent: Option<KStructUnit>,
        after: StreamModel,
        r: KResult<()>,
    ) -> bool {
        r is Ok && after == before
    }

    /// Reads nothing and leaves the stream as it is.
    fn read<'a, S: KStream<'a>>(
        self_rc: &Rc<Self>,
        io: &mut S,
        root: SharedType<KStructUnit>,
        parent: SharedType<KStructUnit>,
    ) -> (r: KResult<()>) {
        Ok(())
    }
}

} // verus!
