//! The arena substrate: a bulk-owned store that hands out stable indices
//! (`Node`) on insertion. Both the plan graph and the expression graph live in
//! one arena each, so that nodes can refer to other nodes by index instead of
//! by ownership.

use vstd::prelude::*;
use vstd::pervasive::VecAdditionalExecFns;

verus! {

/// An opaque, copyable handle into exactly one arena. Equality is handle
/// equality, not structural equality of the pointed-to values.
#[derive(Clone, Copy, PartialEq, Eq, Structural, Debug)]
pub struct Node(pub usize);

/// A flat store of values, addressed by the `Node` handed out at insertion.
/// Indices are stable: the arena only grows, and a slot's content can be
/// swapped out and back without disturbing any other slot.
pub struct Arena<T> {
    pub items: Vec<T>,
}

impl<T> View for Arena<T> {
    type V = Seq<T>;

    open spec fn view(&self) -> Seq<T> {
        self.items@
    }
}

/// A sequence that views an arena fits in a machine word, as every vector
/// does.
pub proof fn lemma_arena_len_bound<T>(a: &Arena<T>)
    ensures
        a@.len() <= usize::MAX,
{
    vstd::std_specs::vec::axiom_spec_len(&a.items);
}

impl<T> Arena<T> {
    /// An empty arena.
    pub fn new() -> (r: Arena<T>)
        ensures
            r@ == Seq::<T>::empty(),
    {
        Arena { items: Vec::new() }
    }

    /// How many slots the arena holds.
    pub fn len(&self) -> (r: usize)
        ensures
            r == self@.len(),
    {
        self.items.len()
    }

    /// Inserts a value and returns its stable handle.
    pub fn add(&mut self, value: T) -> (n: Node)
        ensures
            final(self)@ == old(self)@.push(value),
            n.0 == old(self)@.len(),
    {
        let n = Node(self.items.len());
        self.items.push(value);
        n
    }

    /// Reads the value a handle points at.
    pub fn get(&self, n: Node) -> (r: &T)
        requires
            n.0 < self@.len(),
        ensures
            *r == self@[n.0 as int],
    {
        &self.items[n.0]
    }

    /// Overwrites the slot a handle points at.
    pub fn replace(&mut self, n: Node, value: T)
        requires
            n.0 < old(self)@.len(),
        ensures
            final(self)@ == old(self)@.update(n.0 as int, value),
    {
        self.items.set(n.0, value);
    }

    /// Removes the value a handle points at, leaving `placeholder` in the
    /// slot, and hands the removed value to the caller ("temporarily own,
    /// then give back").
    pub fn take_with(&mut self, n: Node, placeholder: T) -> (r: T)
        requires
            n.0 < old(self)@.len(),
        ensures
            r == old(self)@[n.0 as int],
            final(self)@ == old(self)@.update(n.0 as int, placeholder),
    {
        let mut value = placeholder;
        self.items.set_and_swap(n.0, &mut value);
        value
    }
}

} // verus!
