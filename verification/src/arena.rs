//! An append-only store that hands out stable handles.
//!
//! A handle is the position at which its item was allocated. It stays good
//! for as long as the arena lives, and means nothing to any other arena.
use std::marker::PhantomData;
use vstd::prelude::*;
use vstd::std_specs::cmp::PartialEqSpecImpl;

verus! {

/// Short name for a handle.
pub type Ap<T> = ArenaPointer<T>;

/// Items of one type, kept in the order in which they were allocated.
/// Nothing is ever removed.
pub struct Arena<T> {
    items: Vec<T>,
}

/// A handle to one item of an [`Arena`]: the position at which the item was
/// allocated.
pub struct ArenaPointer<T>(usize, PhantomData<T>);

impl<T> View for Arena<T> {
    type V = Seq<T>;

    /// The items, oldest first.
    closed spec fn view(&self) -> Seq<T> {
        self.items@
    }
}

impl<T> Arena<T> {
    pub fn new() -> (r: Self)
        ensures
            r@ == Seq::<T>::empty(),
    {
        Self { items: Vec::new() }
    }

    pub fn len(&self) -> (r: usize)
        ensures
            r == self@.len(),
    {
        self.items.len()
    }

    /// An empty arena with room set aside for `capacity` items.
    pub fn with_capacity(capacity: usize) -> (r: Self)
        ensures
            r@ == Seq::<T>::empty(),
    {
        Self { items: Vec::with_capacity(capacity) }
    }

    /// The item behind a handle of this arena.
    pub fn get(&self, ap: &Ap<T>) -> (r: &T)
        requires
            ap.index() < self@.len(),
        ensures
            *r == self@[ap.index() as int],
    {
        &self.items[ap.0]
    }

    /// The item behind a handle of this arena, to be changed in place.
    pub fn get_mut(&mut self, ap: &Ap<T>) -> (r: &mut T)
        requires
            ap.index() < old(self)@.len(),
        ensures
            *r == old(self)@[ap.index() as int],
            final(self)@ == old(self)@.update(ap.index() as int, *final(r)),
    {
        &mut self.items[ap.0]
    }

    /// Appends the item. Its handle is the number of items allocated before.
    pub fn allocate(&mut self, item: T) -> (r: Ap<T>)
        ensures
            final(self)@ == old(self)@.push(item),
            r.index() == old(self)@.len(),
    {
        self.items.push(item);
        ArenaPointer(self.items.len() - 1, PhantomData)
    }
}

impl<T> Clone for ArenaPointer<T> {
    fn clone(&self) -> (r: Self)
        ensures
            r.index() == self.index(),
    {
        Self(self.0, PhantomData)
    }
}

impl<T> Copy for ArenaPointer<T> {}

impl<T> PartialEq for ArenaPointer<T> {
    fn eq(&self, other: &Self) -> (r: bool) {
        self.0 == other.0
    }
}

impl<T> PartialEqSpecImpl for ArenaPointer<T> {
    open spec fn obeys_eq_spec() -> bool {
        true
    }

    open spec fn eq_spec(&self, other: &Self) -> bool {
        self.index() == other.index()
    }
}

impl<T> ArenaPointer<T> {
    /// The position in the arena that the handle stands for.
    pub closed spec fn index(&self) -> nat {
        self.0 as nat
    }

    pub fn get<'a>(&self, arena: &'a Arena<T>) -> (r: &'a T)
        requires
            self.index() < arena@.len(),
        ensures
            *r == arena@[self.index() as int],
    {
        arena.get(self)
    }

    pub fn get_mut<'a>(&self, arena: &'a mut Arena<T>) -> (r: &'a mut T)
        requires
            self.index() < old(arena)@.len(),
        ensures
            *r == old(arena)@[self.index() as int],
            final(arena)@ == old(arena)@.update(self.index() as int, *final(r)),
    {
        arena.get_mut(self)
    }

    pub fn internal_index(&self) -> (r: usize)
        ensures
            r == self.index(),
    {
        self.0
    }
}

} // verus!
