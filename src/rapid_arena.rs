//! An arena meant to be shared between threads: items are added through an
//! exclusive borrow, and any number of threads may read them through shared
//! borrows, without a lock, while no allocation is in progress.
//!
//! Handles are positions in allocation order. Buckets are never resized or
//! removed once created, so a handle keeps denoting the same item for the
//! arena's whole lifetime.

use core::marker::PhantomData;
use crate::fast_arena::{buckets_needed, FastIdArena, FastId};
use vstd::prelude::*;

verus! {

/// The number of bytes that a bucket of a default arena takes up.
pub const DEFAULT_BUCKET_SIZE_IN_BYTES: usize = 65536;

/// How many items of `item_size` bytes a default bucket holds: as many as
/// fit in its byte budget, and at least one.
pub open spec fn default_capacity(item_size: nat) -> nat {
    if item_size == 0 {
        DEFAULT_BUCKET_SIZE_IN_BYTES as nat
    } else if DEFAULT_BUCKET_SIZE_IN_BYTES as nat / item_size == 0 {
        1
    } else {
        DEFAULT_BUCKET_SIZE_IN_BYTES as nat / item_size
    }
}

/// An arena that can be used to allocate objects efficiently.
#[derive(Debug)]
pub struct RapIdArena<T> {
    items_per_bucket: usize,
    internals: FastIdArena<T>,
}

/// A handle to an item of a [`RapIdArena`]: its position in allocation order.
#[derive(Debug)]
pub struct RapId<T> {
    index: usize,
    _t: PhantomData<T>,
}

impl<T> RapId<T> {
    /// The position that the handle denotes.
    pub closed spec fn position(&self) -> nat {
        self.index as nat
    }

    /// The position that the handle denotes.
    pub fn index(&self) -> (r: usize)
        ensures
            r == self.position(),
    {
        self.index
    }
}

impl<T> Clone for RapId<T> {
    fn clone(&self) -> (r: RapId<T>)
        ensures
            r.position() == self.position(),
    {
        RapId { index: self.index, _t: PhantomData }
    }
}

impl<T> Copy for RapId<T> {
}

impl<T> View for RapIdArena<T> {
    type V = Seq<T>;

    /// The items in allocation order.
    closed spec fn view(&self) -> Seq<T> {
        self.internals@
    }
}

impl<T> RapIdArena<T> {
    /// The internal invariant.
    pub closed spec fn wf(&self) -> bool {
        &&& self.internals.wf()
        &&& self.internals.capacity() == self.items_per_bucket
    }

    /// The capacity of each bucket.
    pub closed spec fn capacity(&self) -> nat {
        self.items_per_bucket as nat
    }

    /// The number of buckets created so far.
    pub closed spec fn bucket_count(&self) -> nat {
        self.internals.bucket_count()
    }

    /// Creates an arena whose buckets take up about 64 KiB each and hold at
    /// least one item.
    pub fn new() -> (r: RapIdArena<T>)
        ensures
            r.wf(),
            r@ == Seq::<T>::empty(),
            r.capacity() == default_capacity(vstd::layout::size_of::<T>()),
            r.bucket_count() == 1,
    {
        let item_size = core::mem::size_of::<T>();
        let fitting = if item_size == 0 {
            DEFAULT_BUCKET_SIZE_IN_BYTES
        } else {
            DEFAULT_BUCKET_SIZE_IN_BYTES / item_size
        };
        let items_per_bucket = if fitting == 0 {
            1
        } else {
            fitting
        };
        Self::new_with_bucket_size(items_per_bucket)
    }

    /// Creates an arena whose buckets each hold `items_per_bucket` items; a
    /// capacity of zero is a programming error.
    pub fn new_with_bucket_size(items_per_bucket: usize) -> (r: RapIdArena<T>)
        requires
            items_per_bucket > 0,
        ensures
            r.wf(),
            r@ == Seq::<T>::empty(),
            r.capacity() == items_per_bucket,
            r.bucket_count() == 1,
    {
        RapIdArena {
            items_per_bucket,
            internals: FastIdArena::new_with_bucket_size(items_per_bucket),
        }
    }

    /// The maximum number of items per bucket.
    pub fn items_per_bucket(&self) -> (r: usize)
        ensures
            r == self.capacity(),
    {
        self.items_per_bucket
    }

    /// The number of buckets created so far.
    pub fn buckets_len(&self) -> (r: usize)
        requires
            self.wf(),
        ensures
            r == self.bucket_count(),
    {
        self.internals.buckets_len()
    }

    /// Stores an item, adding a new bucket first when the active one is full,
    /// and returns its handle.
    pub fn allocate(&mut self, item: T) -> (id: RapId<T>)
        requires
            old(self).wf(),
            old(self)@.len() < usize::MAX,
        ensures
            final(self).wf(),
            final(self)@ == old(self)@.push(item),
            final(self).capacity() == old(self).capacity(),
            final(self).bucket_count() == buckets_needed(final(self)@.len(), final(self).capacity()),
            id.position() == old(self)@.len(),
    {
        let id = self.internals.allocate(item);
        RapId { index: id.index(), _t: PhantomData }
    }

    /// The item that a handle denotes, or nothing if the handle's position is
    /// past the allocated items.
    pub fn get(&self, id: RapId<T>) -> (r: Option<&T>)
        requires
            self.wf(),
        ensures
            match r {
                Some(item) => id.position() < self@.len() && *item == self@[id.position() as int],
                None => id.position() >= self@.len(),
            },
    {
        self.internals.get(FastId::from_index(id.index))
    }

    /// A mutable reference to the item that a handle denotes, or nothing if
    /// the handle's position is past the allocated items.
    pub fn get_mut(&mut self, id: RapId<T>) -> (r: Option<&mut T>)
        requires
            old(self).wf(),
        ensures
            final(self).wf(),
            final(self).capacity() == old(self).capacity(),
            final(self).bucket_count() == old(self).bucket_count(),
            match r {
                Some(item) => {
                    &&& id.position() < old(self)@.len()
                    &&& *item == old(self)@[id.position() as int]
                    &&& final(self)@ =~= old(self)@.update(id.position() as int, *final(item))
                },
                None => id.position() >= old(self)@.len() && final(self)@ =~= old(self)@,
            },
    {
        self.internals.get_mut(FastId::from_index(id.index))
    }

    /// The number of allocated items.
    pub fn len(&self) -> (r: usize)
        requires
            self.wf(),
        ensures
            r == self@.len(),
    {
        self.internals.len()
    }

    /// Whether no item is allocated.
    pub fn is_empty(&self) -> (r: bool)
        requires
            self.wf(),
        ensures
            r == (self@.len() == 0),
    {
        self.len() == 0
    }

    /// A snapshot of the handles of all items allocated so far, in allocation
    /// order; it can be walked without touching the arena again.
    pub fn iter(&self) -> (r: RapIdArenaIterator<T>)
        requires
            self.wf(),
        ensures
            r.wf(),
            r.remaining() =~= Seq::new(self@.len(), |i: int| i as nat),
    {
        let len = self.len();
        let mut data: Vec<RapId<T>> = Vec::with_capacity(len);
        let mut i: usize = 0;
        while i < len
            invariant
                i <= len,
                data@.len() == i,
                forall|j: int| 0 <= j < i ==> (#[trigger] data@[j]).position() == j,
            decreases len - i,
        {
            data.push(RapId { index: i, _t: PhantomData });
            i = i + 1;
        }
        RapIdArenaIterator { data, index: 0 }
    }

    /// Handle stability: items that later allocations append after an item
    /// leave it, and so what its handle denotes, unchanged.
    pub proof fn lemma_handle_stable(&self, later: &RapIdArena<T>, id: RapId<T>, added: Seq<T>)
        requires
            self.wf(),
            later.wf(),
            later@ == self@ + added,
            id.position() < self@.len(),
        ensures
            id.position() < later@.len(),
            later@[id.position() as int] == self@[id.position() as int],
    {
    }
}

impl<T> Default for RapIdArena<T> {
    fn default() -> (r: RapIdArena<T>)
        ensures
            r.wf(),
            r@ == Seq::<T>::empty(),
            r.capacity() == default_capacity(vstd::layout::size_of::<T>()),
            r.bucket_count() == 1,
    {
        Self::new()
    }
}

/// A walk over a snapshot of an arena's handles.
#[derive(Debug)]
pub struct RapIdArenaIterator<T> {
    data: Vec<RapId<T>>,
    index: usize,
}

impl<T> RapIdArenaIterator<T> {
    /// The internal invariant: the cursor stays within the snapshot.
    pub closed spec fn wf(&self) -> bool {
        self.index <= self.data@.len()
    }

    /// The positions of the handles not yet handed out, in order.
    pub closed spec fn remaining(&self) -> Seq<nat> {
        Seq::new(
            (self.data@.len() - self.index) as nat,
            |i: int| self.data@[i + self.index].position(),
        )
    }

    /// The next handle, or nothing once all have been handed out.
    pub fn next(&mut self) -> (r: Option<RapId<T>>)
        requires
            old(self).wf(),
        ensures
            final(self).wf(),
            match r {
                Some(id) => {
                    &&& old(self).remaining().len() > 0
                    &&& id.position() == old(self).remaining()[0]
                    &&& final(self).remaining() =~= old(self).remaining().drop_first()
                },
                None => old(self).remaining().len() == 0 && final(self).remaining()
                    =~= old(self).remaining(),
            },
    {
        if self.index < self.data.len() {
            let id = self.data[self.index];
            self.index = self.index + 1;
            Some(id)
        } else {
            None
        }
    }
}

} // verus!
