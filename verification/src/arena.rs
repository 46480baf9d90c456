//! A typed arena: values are appended and referred to by their index.
use vstd::prelude::*;

verus! {

/// An index into an `Arena`.
#[derive(Clone, Copy, PartialEq, Eq, Hash, PartialOrd, Ord, Debug)]
pub struct ArenaId(pub usize);

impl ArenaId {
    /// The numeric index into the arena.
    pub open spec fn index(self) -> nat {
        self.0 as nat
    }

    /// Builds the id that refers to position `idx`.
    pub fn new(idx: usize) -> (id: ArenaId)
        ensures
            id.index() == idx,
    {
        ArenaId(idx)
    }

    /// The numeric index into the arena.
    pub fn idx(&self) -> (idx: usize)
        ensures
            idx == self.index(),
    {
        self.0
    }

    /// The id that this id becomes when its arena is appended after `offset`
    /// other elements.
    pub fn shifted(self, offset: usize) -> (id: ArenaId)
        requires
            self.index() + offset <= usize::MAX,
        ensures
            id.index() == self.index() + offset,
    {
        ArenaId(self.0 + offset)
    }
}

/// An append-only store of values, addressed by `ArenaId`.
pub struct Arena<T> {
    inner: Vec<T>,
}

impl<T> View for Arena<T> {
    type V = Seq<T>;

    open spec fn view(&self) -> Seq<T> {
        self.spec_items()
    }
}

impl<T> Arena<T> {
    /// The stored values, in allocation order.
    pub closed spec fn spec_items(&self) -> Seq<T> {
        self.inner@
    }

    /// Whether `id` refers to a stored value.
    pub open spec fn contains(&self, id: ArenaId) -> bool {
        id.index() < self@.len()
    }

    /// An empty arena.
    pub fn new() -> (arena: Self)
        ensures
            arena@ == Seq::<T>::empty(),
    {
        Arena { inner: Vec::new() }
    }

    /// Builds an arena holding `items`, in order.
    pub fn from_vec(items: Vec<T>) -> (arena: Self)
        ensures
            arena@ == items@,
    {
        Arena { inner: items }
    }

    /// Gives back the stored values, in allocation order.
    pub fn into_vec(self) -> (items: Vec<T>)
        ensures
            items@ == self@,
    {
        self.inner
    }

    /// Stores `val` and returns its id.
    pub fn allocate(&mut self, val: T) -> (id: ArenaId)
        ensures
            final(self)@ == old(self)@.push(val),
            id.index() == old(self)@.len(),
    {
        let idx = self.inner.len();
        self.inner.push(val);
        ArenaId(idx)
    }


    /// Appends all values of `other`, converting each with `transform_idx`.
    ///
    /// `transform_idx` is given each value of `other` together with the
    /// offset at which `other` starts in this arena, so that it can shift
    /// the ids held inside the value (see `ArenaId::shifted`). The result is
    /// the id that `root_node` of `other` has in this arena.
    pub fn extend_map<I, F: Fn(I, usize) -> T>(
        &mut self,
        other: Arena<I>,
        root_node: ArenaId,
        transform_idx: F,
    ) -> (new_root: ArenaId)
        requires
            old(self)@.len() + other@.len() <= usize::MAX,
            other.contains(root_node),
            forall|i: int|
                0 <= i < other@.len() ==> #[trigger] transform_idx.requires(
                    (other@[i], old(self)@.len() as usize),
                ),
        ensures
            final(self)@.len() == old(self)@.len() + other@.len(),
            final(self)@.subrange(0, old(self)@.len() as int) == old(self)@,
            forall|i: int|
                0 <= i < other@.len() ==> #[trigger] transform_idx.ensures(
                    (other@[i], old(self)@.len() as usize),
                    final(self)@[old(self)@.len() + i],
                ),
            new_root.index() == old(self)@.len() + root_node.index(),
    {
        let offset = self.inner.len();
        let ghost start = self@;
        let ghost items = other@;
        let values = other.into_vec();
        assert forall|i: int| 0 <= i < items.len() implies #[trigger] transform_idx.requires(
            (items[i], offset),
        ) by {
            assert(transform_idx.requires((other@[i], old(self)@.len() as usize)));
        }
        for item in it: values
            invariant
                offset == start.len(),
                items == values@,
                it.seq() == items,
                start.len() + items.len() <= usize::MAX,
                self@.len() == start.len() + it.index(),
                self@.subrange(0, start.len() as int) == start,
                forall|i: int|
                    0 <= i < items.len() ==> #[trigger] transform_idx.requires(
                        (items[i], offset),
                    ),
                forall|i: int|
                    0 <= i < it.index() ==> #[trigger] transform_idx.ensures(
                        (items[i], offset),
                        self@[start.len() + i],
                    ),
        {
            let converted = transform_idx(item, offset);
            self.inner.push(converted);
            assert(self@.subrange(0, start.len() as int) =~= start);
        }
        root_node.shifted(offset)
    }

    /// Converts every value with `transform`, keeping ids valid.
    pub fn map<I, F: Fn(T) -> I>(self, transform: F) -> (mapped: Arena<I>)
        requires
            forall|i: int| 0 <= i < self@.len() ==> #[trigger] transform.requires((self@[i],)),
        ensures
            mapped@.len() == self@.len(),
            forall|i: int|
                0 <= i < self@.len() ==> #[trigger] transform.ensures((self@[i],), mapped@[i]),
    {
        let ghost items = self@;
        let values = self.into_vec();
        let mut out: Vec<I> = Vec::new();
        for item in it: values
            invariant
                items == values@,
                it.seq() == items,
                out@.len() == it.index(),
                forall|i: int| 0 <= i < items.len() ==> #[trigger] transform.requires((items[i],)),
                forall|i: int|
                    0 <= i < it.index() ==> #[trigger] transform.ensures((items[i],), out@[i]),
        {
            out.push(transform(item));
        }
        Arena { inner: out }
    }

    /// The number of stored values.
    pub fn size(&self) -> (n: usize)
        ensures
            n == self@.len(),
    {
        self.inner.len()
    }

    /// The id of position `idx`, if it holds a value.
    pub fn get_index_from(&self, idx: usize) -> (id: Option<ArenaId>)
        ensures
            id == (if idx < self@.len() { Some(ArenaId(idx)) } else { None::<ArenaId> }),
    {
        if idx < self.inner.len() {
            Some(ArenaId(idx))
        } else {
            None
        }
    }

    /// The ids of all stored values, in allocation order.
    pub fn iter_indices(&self) -> (ids: Vec<ArenaId>)
        ensures
            ids@.len() == self@.len(),
            forall|i: int| 0 <= i < ids@.len() ==> (#[trigger] ids@[i]).index() == i,
    {
        let n = self.inner.len();
        let mut ids: Vec<ArenaId> = Vec::new();
        let mut i: usize = 0;
        while i < n
            invariant
                n == self@.len(),
                i <= n,
                ids@.len() == i,
                forall|j: int| 0 <= j < ids@.len() ==> (#[trigger] ids@[j]).index() == j,
            decreases n - i,
        {
            ids.push(ArenaId(i));
            i = i + 1;
        }
        ids
    }

    /// The value stored under `id`.
    pub fn get(&self, id: ArenaId) -> (val: &T)
        requires
            self.contains(id),
        ensures
            *val == self@[id.index() as int],
    {
        &self.inner[id.0]
    }

    /// Replaces the value stored under `id`, returning the previous one.
    pub fn replace(&mut self, id: ArenaId, val: T) -> (prev: T)
        requires
            old(self).contains(id),
        ensures
            prev == old(self)@[id.index() as int],
            final(self)@ == old(self)@.update(id.index() as int, val),
    {
        let mut v = val;
        self.inner.set_and_swap(id.0, &mut v);
        v
    }
}

} // verus!
