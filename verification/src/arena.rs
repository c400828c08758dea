//! Typed arenas: growable stores whose items are named by small integer ids.
use std::marker::PhantomData;
use vstd::prelude::*;

verus! {

/// The id of an item in an [`Arena<T>`]: its position in the arena.
#[derive(Debug)]
pub struct ArenaId<T> {
    id: u32,
    _marker: PhantomData<T>,
}

impl<T> Clone for ArenaId<T> {
    fn clone(&self) -> (r: Self)
        ensures
            r == *self,
    {
        *self
    }
}

impl<T> Copy for ArenaId<T> {
}

impl<T> PartialEq for ArenaId<T> {
    fn eq(&self, other: &Self) -> (r: bool) {
        self.id == other.id
    }
}

impl<T> vstd::std_specs::cmp::PartialEqSpecImpl for ArenaId<T> {
    open spec fn obeys_eq_spec() -> bool {
        true
    }

    open spec fn eq_spec(&self, other: &Self) -> bool {
        self.value() == other.value()
    }
}

impl<T> Eq for ArenaId<T> {
}

/// The id that names position `id`.
pub open spec fn arena_id<T>(id: u32) -> ArenaId<T> {
    ArenaId::<T>::from_value(id)
}

impl<T> ArenaId<T> {
    /// The position in its arena that this id names.
    pub closed spec fn value(self) -> u32 {
        self.id
    }

    /// The id whose position is `id`.
    pub closed spec fn from_value(id: u32) -> Self {
        ArenaId { id, _marker: PhantomData }
    }

    /// Ids are determined by their positions.
    pub broadcast proof fn lemma_from_value(id: u32)
        ensures
            #[trigger] Self::from_value(id).value() == id,
    {
    }

    /// Two ids are equal exactly when they name the same position.
    pub broadcast proof fn lemma_value_injective(a: Self, b: Self)
        ensures
            #[trigger] a.value() == #[trigger] b.value() ==> a == b,
    {
    }

    /// Makes the id of position `id`. The largest `u32` is not a position.
    pub fn new(id: u32) -> (r: Self)
        requires
            id < u32::MAX,
        ensures
            r.value() == id,
            r == Self::from_value(id),
    {
        ArenaId { id, _marker: PhantomData }
    }

    /// The position this id names.
    #[inline]
    pub fn get(self) -> (r: u32)
        ensures
            r == self.value(),
    {
        self.id
    }

    /// The position this id names, as an index.
    #[inline]
    pub fn idx(self) -> (r: usize)
        ensures
            r == self.value(),
    {
        self.id as usize
    }
}

pub broadcast group group_arena_id {
    ArenaId::lemma_from_value,
    ArenaId::lemma_value_injective,
}

/// A store of items; each item keeps the id it was given when it was added.
#[derive(Debug)]
pub struct Arena<T> {
    items: Vec<T>,
}

impl<T> View for Arena<T> {
    type V = Seq<T>;

    closed spec fn view(&self) -> Seq<T> {
        self.items@
    }
}

impl<T> Arena<T> {
    /// `id` names an item of this arena.
    pub open spec fn contains_id(&self, id: ArenaId<T>) -> bool {
        id.value() < self@.len()
    }

    /// The item that `id` names.
    pub open spec fn spec_index(&self, id: ArenaId<T>) -> T {
        self@[id.value() as int]
    }

    /// The id that the next allocated item gets; a further item fits.
    pub open spec fn has_room(&self) -> bool {
        self@.len() < u32::MAX
    }

    /// An empty arena.
    pub fn new() -> (r: Self)
        ensures
            r@ == Seq::<T>::empty(),
    {
        Arena { items: Vec::new() }
    }

    /// Adds `item` at the end and returns its id.
    pub fn add(&mut self, item: T) -> (r: ArenaId<T>)
        requires
            old(self).has_room(),
        ensures
            final(self)@ == old(self)@.push(item),
            r.value() == old(self)@.len(),
    {
        let id = self.items.len() as u32;
        self.items.push(item);
        ArenaId::new(id)
    }

    /// Adds all `items` at the end, in order, and returns the range of their ids.
    pub fn alloc_iter(&mut self, items: Vec<T>) -> (r: ArenaRange<T>)
        requires
            old(self)@.len() + items@.len() < u32::MAX,
        ensures
            final(self)@ == old(self)@ + items@,
            r.start() == old(self)@.len(),
            r.end() == final(self)@.len(),
    {
        let start = self.items.len() as u32;
        let mut items = items;
        self.items.append(&mut items);
        let end = self.items.len() as u32;
        ArenaRange::new(ArenaId::new(start), ArenaId::new(end))
    }

    /// The item that `id` names, if there is one.
    pub fn get(&self, id: ArenaId<T>) -> (r: Option<&T>)
        ensures
            self.contains_id(id) ==> r == Some(&self@[id.value() as int]),
            !self.contains_id(id) ==> r is None,
    {
        let i = id.idx();
        if i < self.items.len() {
            Some(&self.items[i])
        } else {
            None
        }
    }

    /// A mutable reference to the item that `id` names, if there is one.
    pub fn get_mut(&mut self, id: ArenaId<T>) -> (r: Option<&mut T>)
        ensures
            id.value() < old(self)@.len() ==> (r matches Some(x) && *x == old(self)@[id.value() as int]
                && final(self)@ == old(self)@.update(id.value() as int, *final(x))),
            id.value() >= old(self)@.len() ==> r is None && final(self)@ == old(self)@,
    {
        let i = id.idx();
        if i < self.items.len() {
            Some(&mut self.items[i])
        } else {
            None
        }
    }

    /// The item that `id` names; the id must name an item of this arena.
    pub fn index(&self, id: ArenaId<T>) -> (r: &T)
        requires
            self.contains_id(id),
        ensures
            *r == self@[id.value() as int],
    {
        &self.items[id.idx()]
    }

    /// The items whose ids lie in `range`; the range must lie inside this arena.
    pub fn slice(&self, range: ArenaRange<T>) -> (r: &[T])
        requires
            range.start() <= range.end() <= self@.len(),
        ensures
            r@ == self@.subrange(range.start() as int, range.end() as int),
    {
        vstd::slice::slice_subrange(self.items.as_slice(), range.start as usize, range.end as usize)
    }

    /// The number of items.
    pub fn len(&self) -> (r: usize)
        ensures
            r == self@.len(),
    {
        self.items.len()
    }

    /// Whether there are no items.
    pub fn is_empty(&self) -> (r: bool)
        ensures
            r == (self@.len() == 0),
    {
        self.items.len() == 0
    }
}

impl<T: Copy> Arena<T> {
    /// A copy of the item that `id` names; the id must name an item of this arena.
    pub fn at(&self, id: ArenaId<T>) -> (r: T)
        requires
            self.contains_id(id),
        ensures
            r == self@[id.value() as int],
    {
        self.items[id.idx()]
    }
}

/// A range of consecutive ids `start..end` in an [`Arena<T>`].
#[derive(Debug)]
pub struct ArenaRange<T> {
    start: u32,
    end: u32,
    _marker: PhantomData<T>,
}

impl<T> Clone for ArenaRange<T> {
    fn clone(&self) -> (r: Self)
        ensures
            r == *self,
    {
        *self
    }
}

impl<T> Copy for ArenaRange<T> {
}

impl<T> PartialEq for ArenaRange<T> {
    fn eq(&self, other: &Self) -> (r: bool) {
        self.start == other.start && self.end == other.end
    }
}

impl<T> vstd::std_specs::cmp::PartialEqSpecImpl for ArenaRange<T> {
    open spec fn obeys_eq_spec() -> bool {
        true
    }

    open spec fn eq_spec(&self, other: &Self) -> bool {
        self.start() == other.start() && self.end() == other.end()
    }
}

impl<T> Eq for ArenaRange<T> {
}

impl<T> ArenaRange<T> {
    /// The first position in the range.
    pub closed spec fn start(self) -> u32 {
        self.start
    }

    /// The position just past the range.
    pub closed spec fn end(self) -> u32 {
        self.end
    }

    /// The range of ids `start..end`.
    pub closed spec fn from_bounds(start: u32, end: u32) -> Self {
        ArenaRange { start, end, _marker: PhantomData }
    }

    /// The range `start..end`.
    pub fn new(start: ArenaId<T>, end: ArenaId<T>) -> (r: Self)
        ensures
            r.start() == start.value(),
            r.end() == end.value(),
    {
        ArenaRange { start: start.get(), end: end.get(), _marker: PhantomData }
    }

    /// The number of ids in the range; `start` must not lie past `end`.
    pub fn len(&self) -> (r: u32)
        requires
            self.start() <= self.end(),
        ensures
            r == self.end() - self.start(),
    {
        self.end - self.start
    }

    /// Whether the range holds no id; `start` must not lie past `end`.
    pub fn is_empty(&self) -> (r: bool)
        requires
            self.start() <= self.end(),
        ensures
            r == (self.start() == self.end()),
    {
        self.len() == 0
    }

    /// The ids of the range, in order.
    pub fn iter(&self) -> (r: Vec<ArenaId<T>>)
        requires
            self.end() < u32::MAX,
        ensures
            self.start() <= self.end() ==> r@.len() == self.end() - self.start(),
            self.start() > self.end() ==> r@.len() == 0,
            forall|i: int| 0 <= i < r@.len() ==> (#[trigger] r@[i]).value() == self.start() + i,
    {
        let mut r: Vec<ArenaId<T>> = Vec::new();
        let mut i: u32 = self.start;
        while i < self.end
            invariant
                self.start <= self.end ==> i <= self.end,
                self.start > self.end ==> i == self.start,
                self.end < u32::MAX,
                i >= self.start,
                r@.len() == i - self.start,
                forall|k: int| 0 <= k < r@.len() ==> (#[trigger] r@[k]).value() == self.start + k,
            decreases self.end - i,
        {
            r.push(ArenaId::new(i));
            i = i + 1;
        }
        r
    }
}

} // verus!
