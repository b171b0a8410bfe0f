//! An append-only arena: every inserted value gets a fresh id, and the id of
//! a removed value is never handed out again, so a stale id finds nothing.

use vstd::prelude::*;

verus! {

/// The key of a value in an [`Arena`]: the number of its slot.
#[derive(Clone, Copy, Debug, PartialEq, Eq, Hash, Structural)]
pub struct Id {
    pub index: usize,
}

/// Slots indexed by [`Id`]; a slot is `None` once its value was removed.
pub struct Arena<T> {
    slots: Vec<Option<T>>,
}

impl<T> View for Arena<T> {
    type V = Seq<Option<T>>;

    closed spec fn view(&self) -> Seq<Option<T>> {
        self.slots@
    }
}

/// Whether `id` names a value that is present in `slots`.
pub open spec fn slot_live<T>(slots: Seq<Option<T>>, id: Id) -> bool {
    id.index < slots.len() && slots[id.index as int] is Some
}

/// The value that `id` names in `slots` (meaningful when `slot_live`).
pub open spec fn slot_value<T>(slots: Seq<Option<T>>, id: Id) -> T {
    slots[id.index as int]->Some_0
}

impl<T> Arena<T> {
    pub fn new() -> (a: Self)
        ensures
            a@ == Seq::<Option<T>>::empty(),
    {
        Arena { slots: Vec::new() }
    }

    /// Number of slots ever handed out, live or not.
    pub fn len(&self) -> (n: usize)
        ensures
            n == self@.len(),
    {
        self.slots.len()
    }

    /// Stores `value` in a fresh slot at the end and returns its id.
    pub fn insert(&mut self, value: T) -> (id: Id)
        ensures
            id.index == old(self)@.len(),
            final(self)@ == old(self)@.push(Some(value)),
    {
        let id = Id { index: self.slots.len() };
        self.slots.push(Some(value));
        id
    }

    pub fn contains(&self, id: Id) -> (b: bool)
        ensures
            b == slot_live(self@, id),
    {
        id.index < self.slots.len() && self.slots[id.index].is_some()
    }

    pub fn get(&self, id: Id) -> (r: Option<&T>)
        ensures
            match r {
                Some(v) => slot_live(self@, id) && *v == slot_value(self@, id),
                None => !slot_live(self@, id),
            },
    {
        if id.index < self.slots.len() {
            self.slots[id.index].as_ref()
        } else {
            None
        }
    }

    pub fn get_mut(&mut self, id: Id) -> (r: Option<&mut T>)
        ensures
            match r {
                Some(m) => {
                    &&& slot_live(old(self)@, id)
                    &&& *m == slot_value(old(self)@, id)
                    &&& final(self)@ == old(self)@.update(id.index as int, Some(*final(m)))
                },
                None => {
                    &&& !slot_live(old(self)@, id)
                    &&& final(self)@ == old(self)@
                },
            },
    {
        if id.index < self.slots.len() {
            self.slots[id.index].as_mut()
        } else {
            None
        }
    }

    /// Takes the value out of its slot; the slot stays empty for good.
    pub fn remove(&mut self, id: Id) -> (r: Option<T>)
        ensures
            match r {
                Some(v) => {
                    &&& slot_live(old(self)@, id)
                    &&& v == slot_value(old(self)@, id)
                    &&& final(self)@ == old(self)@.update(id.index as int, None)
                },
                None => {
                    &&& !slot_live(old(self)@, id)
                    &&& final(self)@ == old(self)@
                },
            },
    {
        if id.index < self.slots.len() {
            self.slots[id.index].take()
        } else {
            None
        }
    }
}

} // verus!
