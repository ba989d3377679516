//! A table from entities to one kind of attribute.
use vstd::prelude::*;
use crate::components::Entity;

verus! {

/// What `table` holds for `e`, if anything. Entities past the end of the table hold nothing.
pub open spec fn lookup<T>(table: Seq<Option<T>>, e: Entity) -> Option<T> {
    if e < table.len() {
        table[e as int]
    } else {
        None
    }
}

/// A table with as many rows as `table` and nothing in any of them.
pub open spec fn emptied<T>(table: Seq<Option<T>>) -> Seq<Option<T>> {
    Seq::new(table.len(), |i: int| None)
}

/// One attribute for each entity that has it. Row `e` belongs to entity `e`.
pub struct Storage<T> {
    pub slots: Vec<Option<T>>,
}

impl<T> View for Storage<T> {
    type V = Seq<Option<T>>;

    open spec fn view(&self) -> Seq<Option<T>> {
        self.slots@
    }
}

impl<T> Storage<T> {
    /// A table without rows.
    pub fn new() -> (s: Self)
        ensures
            s@ == Seq::<Option<T>>::empty(),
    {
        Storage { slots: Vec::new() }
    }

    /// The number of rows.
    pub fn len(&self) -> (n: usize)
        ensures
            n == self@.len(),
    {
        self.slots.len()
    }

    /// Adds an empty row for one more entity.
    pub fn grow(&mut self)
        ensures
            final(self)@ == old(self)@.push(None),
    {
        self.slots.push(None);
    }

    /// Whether `e` has the attribute.
    pub fn has(&self, e: Entity) -> (r: bool)
        ensures
            r == lookup(self@, e).is_some(),
    {
        e < self.slots.len() && self.slots[e].is_some()
    }

    /// The attribute of `e`, if it has one.
    pub fn get(&self, e: Entity) -> (r: Option<&T>)
        ensures
            match r {
                Some(value) => lookup(self@, e) == Some(*value),
                None => lookup(self@, e).is_none(),
            },
    {
        if e < self.slots.len() {
            self.slots[e].as_ref()
        } else {
            None
        }
    }

    /// Gives `e` the attribute, in place of the one it may have had.
    pub fn insert(&mut self, e: Entity, value: T)
        requires
            e < old(self)@.len(),
        ensures
            final(self)@ == old(self)@.update(e as int, Some(value)),
    {
        self.slots[e] = Some(value);
    }

    /// Takes the attribute away from `e` and returns it.
    pub fn remove(&mut self, e: Entity) -> (r: Option<T>)
        ensures
            r == lookup(old(self)@, e),
            final(self)@ == (if e < old(self)@.len() {
                old(self)@.update(e as int, None)
            } else {
                old(self)@
            }),
    {
        if e < self.slots.len() {
            let mut taken: Option<T> = None;
            core::mem::swap(&mut taken, &mut self.slots[e]);
            taken
        } else {
            None
        }
    }

    /// Takes the attribute away from every entity.
    pub fn clear(&mut self)
        ensures
            final(self)@ == emptied(old(self)@),
    {
        let mut i: usize = 0;
        while i < self.slots.len()
            invariant
                i <= self.slots@.len(),
                self.slots@.len() == old(self)@.len(),
                forall|k: int| 0 <= k < i ==> self.slots@[k].is_none(),
            decreases self.slots@.len() - i,
        {
            self.slots[i] = None;
            i = i + 1;
        }
        assert(self@ =~= emptied(old(self)@));
    }
}

} // verus!
