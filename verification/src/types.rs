//! Capability traits and helper types of the store's public surface.

use vstd::prelude::*;

use crate::atom::{Atom, AtomView};
use crate::error::AtomError;
use crate::model::{spec_get, spec_set_dyn};
use crate::store::{res_view, unit_res_view, Store};
use crate::value::{Value, ValueView};
use crate::error::ErrorView;

verus! {

/// Read capability: resolves a node's current value through the read path
/// and, inside a tracked computation, records the node as a dependency.
pub trait Getter: Sized {
    /// What a read must do: how the post-state and result follow from the
    /// pre-state and the atom.
    spec fn get_post(pre: Self, a: AtomView, post: Self, r: Result<ValueView, ErrorView>) -> bool;

    /// Reads the current value of a node, computing and caching as needed.
    fn get(&mut self, atom: &Atom<Value>) -> (r: Result<Value, AtomError>)
        ensures
            Self::get_post(*old(self), atom@, *final(self), res_view(r)),
    ;
}

/// Write capability: applies a value to a node addressed by id.
pub trait Setter: Sized {
    /// What a write must do: how the post-state and result follow from the
    /// pre-state, the node and the value.
    spec fn set_post(pre: Self, id: int, v: ValueView, post: Self, r: Result<
        (),
        ErrorView,
    >) -> bool;

    /// Applies `value` to the node, cascading invalidation, recomputation
    /// and notification; a node with no registered write behavior is
    /// rejected with Not-Writable before any mutation.
    fn set(&mut self, atom: &Atom<Value>, value: Value) -> (r: Result<(), AtomError>)
        ensures
            Self::set_post(*old(self), atom.id as int, value@, *final(self), unit_res_view(r)),
    ;
}

impl Getter for Store {
    open spec fn get_post(pre: Store, a: AtomView, post: Store, r: Result<
        ValueView,
        ErrorView,
    >) -> bool {
        (post@, r) == spec_get(pre@, a)
    }

    fn get(&mut self, atom: &Atom<Value>) -> (r: Result<Value, AtomError>) {
        Store::get(self, atom)
    }
}

impl Setter for Store {
    open spec fn set_post(pre: Store, id: int, v: ValueView, post: Store, r: Result<
        (),
        ErrorView,
    >) -> bool {
        (post@, r) == spec_set_dyn(pre@, id, v)
    }

    fn set(&mut self, atom: &Atom<Value>, value: Value) -> (r: Result<(), AtomError>) {
        self.set_registered(atom.id, value)
    }
}

/// Action handed to a write: either a direct value or an updater from the
/// previous value.
pub enum SetStateAction<T, F> {
    /// Direct value to set.
    Value(T),
    /// Updater that receives the current value and returns the new one.
    Updater(F),
}

} // verus!
