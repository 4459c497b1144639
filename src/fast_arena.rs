//! A single-owner arena that stores items in fixed-capacity buckets and hands
//! out copyable index handles.

use core::marker::PhantomData;
use vstd::arithmetic::div_mod::{
    lemma_fundamental_div_mod, lemma_fundamental_div_mod_converse, lemma_mod_bound,
};
use vstd::prelude::*;

verus! {

/// Relies on page_size::get: the memory page size of this machine. Nothing is
/// promised of the value.
pub assume_specification[ page_size::get ]() -> usize;

/// Relies on page_size::get_granularity: the allocation granularity of this
/// machine. Nothing is promised of the value.
pub assume_specification[ page_size::get_granularity ]() -> usize;

/// Where the item at a position of the arena lies: its bucket, then its slot.
pub proof fn lemma_position_split(i: int, cap: int, full: int, last: int)
    requires
        cap > 0,
        full >= 0,
        0 <= last <= cap,
        0 <= i < full * cap + last,
    ensures
        0 <= i / cap <= full,
        0 <= i % cap < cap,
        i / cap == full ==> i % cap < last,
        i == (i / cap) * cap + i % cap,
{
    lemma_fundamental_div_mod(i, cap);
    lemma_mod_bound(i, cap);
    let q = i / cap;
    let r = i % cap;
    assert(q * cap == cap * q) by (nonlinear_arith);
    assert(q >= 0) by (nonlinear_arith)
        requires
            i == q * cap + r,
            0 <= r < cap,
            i >= 0,
            cap > 0,
    ;
    assert(q <= full) by (nonlinear_arith)
        requires
            i == q * cap + r,
            0 <= r < cap,
            i < full * cap + last,
            last <= cap,
            cap > 0,
    ;
    if q == full {
        assert(r < last) by (nonlinear_arith)
            requires
                i == q * cap + r,
                q == full,
                i < full * cap + last,
        ;
    }
}

/// The number of buckets that an arena holding `len` items with buckets of
/// `cap` items has: a fresh arena has one empty bucket, and a new bucket is
/// added only when an item arrives while the last one is full.
pub open spec fn buckets_needed(len: nat, cap: nat) -> nat
    recommends
        cap > 0,
{
    if len == 0 {
        1
    } else {
        ((len - 1) as nat / cap) + 1
    }
}

/// How many items of `item_size` bytes a bucket of `bucket_bytes` bytes
/// holds: as many as fit, and at least one.
pub open spec fn page_capacity(bucket_bytes: nat, item_size: nat) -> nat {
    if item_size == 0 {
        if bucket_bytes == 0 { 1 } else { bucket_bytes }
    } else if bucket_bytes / item_size == 0 {
        1
    } else {
        bucket_bytes / item_size
    }
}

/// An arena that can be used to allocate objects efficiently.
#[derive(Debug)]
pub struct FastIdArena<T> {
    buckets: Vec<Vec<T>>,
    items_per_bucket: usize,
    bucket_index: usize,
}

/// A handle to an item of a [`FastIdArena`]: its position in allocation order.
#[derive(Debug)]
pub struct FastId<T> {
    index: usize,
    _t: PhantomData<T>,
}

impl<T> FastId<T> {
    /// The position that the handle denotes.
    pub closed spec fn position(&self) -> nat {
        self.index as nat
    }

    /// A handle to the given position; it denotes an item only once that many
    /// items and one more have been allocated.
    pub fn from_index(index: usize) -> (r: FastId<T>)
        ensures
            r.position() == index,
    {
        FastId { index, _t: PhantomData }
    }

    /// The position that the handle denotes.
    pub fn index(&self) -> (r: usize)
        ensures
            r == self.position(),
    {
        self.index
    }
}

impl<T> Clone for FastId<T> {
    fn clone(&self) -> (r: FastId<T>)
        ensures
            r.position() == self.position(),
    {
        FastId { index: self.index, _t: PhantomData }
    }
}

impl<T> Copy for FastId<T> {
}

impl<T> View for FastIdArena<T> {
    type V = Seq<T>;

    /// The items in allocation order.
    closed spec fn view(&self) -> Seq<T> {
        Seq::new(
            self.spec_len(),
            |i: int|
                self.buckets@[i / self.items_per_bucket as int]@[i % self.items_per_bucket as int],
        )
    }
}

impl<T> FastIdArena<T> {
    closed spec fn spec_len(&self) -> nat {
        ((self.bucket_index as nat) * (self.items_per_bucket as nat)
            + self.buckets@[self.bucket_index as int].len()) as nat
    }

    /// The internal invariant: every bucket but the last is full, and the last
    /// is the active one.
    pub closed spec fn wf(&self) -> bool {
        &&& self.items_per_bucket > 0
        &&& self.buckets@.len() >= 1
        &&& self.bucket_index == self.buckets@.len() - 1
        &&& forall|b: int|
            0 <= b < self.bucket_index ==> (#[trigger] self.buckets@[b]).len()
                == self.items_per_bucket
        &&& self.buckets@[self.bucket_index as int].len() <= self.items_per_bucket
        &&& self.bucket_index > 0 ==> self.buckets@[self.bucket_index as int].len() > 0
        &&& self.spec_len() <= usize::MAX
    }

    /// The capacity of each bucket.
    pub closed spec fn capacity(&self) -> nat {
        self.items_per_bucket as nat
    }

    /// The number of buckets created since construction or the last reset.
    pub closed spec fn bucket_count(&self) -> nat {
        self.buckets@.len()
    }

    /// Under the invariant the bucket count follows from the length alone.
    pub proof fn lemma_bucket_count(&self)
        requires
            self.wf(),
        ensures
            self.bucket_count() == buckets_needed(self@.len(), self.capacity()),
            self.capacity() > 0,
    {
        let cap = self.items_per_bucket as int;
        let bi = self.bucket_index as int;
        let last = self.buckets@[bi].len() as int;
        let len = self@.len() as int;
        if len > 0 {
            if last == 0 {
                assert(bi > 0) by (nonlinear_arith)
                    requires
                        bi >= 0,
                        cap > 0,
                        len == bi * cap + last,
                        last == 0,
                        len > 0,
                ;
                assert(len - 1 == (bi - 1) * cap + (cap - 1)) by (nonlinear_arith)
                    requires
                        len == bi * cap + last,
                        last == 0,
                ;
                lemma_fundamental_div_mod_converse(len - 1, cap, bi - 1, cap - 1);
            } else {
                assert(len - 1 == bi * cap + (last - 1));
                lemma_fundamental_div_mod_converse(len - 1, cap, bi, last - 1);
            }
        } else {
            assert(bi * cap == 0);
            assert(bi == 0) by (nonlinear_arith)
                requires
                    bi * cap == 0,
                    cap > 0,
            ;
        }
    }

    /// Growth: an arena holding `n` full buckets' worth of items and `k` more,
    /// with `0 < k < capacity`, has exactly `n + 1` buckets.
    pub proof fn lemma_arena_growth(&self, n: nat, k: nat)
        requires
            self.wf(),
            0 < k < self.capacity(),
            self@.len() == n * self.capacity() + k,
        ensures
            self.bucket_count() == n + 1,
    {
        self.lemma_bucket_count();
        let cap = self.capacity() as int;
        assert(self@.len() - 1 == n * cap + (k - 1));
        lemma_fundamental_div_mod_converse(self@.len() - 1, cap, n as int, k - 1);
    }

    /// A fresh arena whose buckets each hold `items_per_bucket` items.
    fn with_capacity(items_per_bucket: usize) -> (r: FastIdArena<T>)
        requires
            items_per_bucket > 0,
        ensures
            r.wf(),
            r@ == Seq::<T>::empty(),
            r.capacity() == items_per_bucket,
            r.bucket_count() == 1,
    {
        let mut buckets: Vec<Vec<T>> = Vec::new();
        buckets.push(Vec::with_capacity(items_per_bucket));
        let r = FastIdArena { buckets, items_per_bucket, bucket_index: 0 };
        assert(r@ =~= Seq::<T>::empty());
        r
    }

    /// Creates an arena whose buckets are about one memory page (or allocation
    /// granule, if larger) in size, and hold at least one item.
    pub fn new() -> (r: FastIdArena<T>)
        ensures
            r.wf(),
            r@ == Seq::<T>::empty(),
            r.capacity() > 0,
            r.bucket_count() == 1,
    {
        Self::new_for_page_size(page_size::get(), page_size::get_granularity())
    }

    /// Creates an arena for a machine with the given page size and allocation
    /// granularity: each bucket holds as many items as fit in the larger of
    /// the two, and at least one.
    pub fn new_for_page_size(page_size: usize, granularity: usize) -> (r: FastIdArena<T>)
        ensures
            r.wf(),
            r@ == Seq::<T>::empty(),
            r.capacity() == page_capacity(
                if page_size >= granularity { page_size as nat } else { granularity as nat },
                vstd::layout::size_of::<T>(),
            ),
            r.bucket_count() == 1,
    {
        let bucket_bytes = if page_size >= granularity {
            page_size
        } else {
            granularity
        };
        let item_size = core::mem::size_of::<T>();
        let fitting = if item_size == 0 {
            bucket_bytes
        } else {
            bucket_bytes / item_size
        };
        let items_per_bucket = if fitting == 0 {
            1
        } else {
            fitting
        };
        Self::with_capacity(items_per_bucket)
    }

    /// Creates an arena whose buckets each hold `items_per_bucket` items.
    pub fn new_with_bucket_size(items_per_bucket: usize) -> (r: FastIdArena<T>)
        requires
            items_per_bucket > 0,
        ensures
            r.wf(),
            r@ == Seq::<T>::empty(),
            r.capacity() == items_per_bucket,
            r.bucket_count() == 1,
    {
        Self::with_capacity(items_per_bucket)
    }

    /// The maximum number of items per bucket.
    pub fn items_per_bucket(&self) -> (r: usize)
        ensures
            r == self.capacity(),
    {
        self.items_per_bucket
    }

    /// The number of buckets created since construction or the last reset.
    pub fn buckets_len(&self) -> (r: usize)
        requires
            self.wf(),
        ensures
            r == self.bucket_count(),
    {
        self.buckets.len()
    }

    /// Stores an item at the end of the active bucket, first adding a new
    /// bucket when the active one is full, and returns its handle.
    pub fn allocate(&mut self, item: T) -> (id: FastId<T>)
        requires
            old(self).wf(),
            old(self)@.len() < usize::MAX,
        ensures
            final(self).wf(),
            final(self)@ == old(self)@.push(item),
            final(self).capacity() == old(self).capacity(),
            final(self).bucket_count() == buckets_needed(final(self)@.len(), final(self).capacity()),
            id.position() == old(self)@.len(),
    {
        let ghost old_arena = *self;
        let cap = self.items_per_bucket;
        let len = self.len();
        if self.buckets[self.bucket_index].len() == cap {
            proof {
                let obi = self.bucket_index as int;
                assert(obi + 1 <= obi * (cap as int) + (cap as int)) by (nonlinear_arith)
                    requires
                        cap > 0,
                        obi >= 0,
                ;
            }
            self.buckets.push(Vec::with_capacity(cap));
            self.bucket_index = self.bucket_index + 1;
        }
        let bi = self.bucket_index;
        self.buckets[bi].push(item);
        proof {
            let c = cap as int;
            let obi = old_arena.bucket_index as int;
            let olast = old_arena.buckets@[obi].len() as int;
            let nlast = self.buckets@[bi as int].len() as int;
            assert((bi as int) * c + nlast == len + 1) by (nonlinear_arith)
                requires
                    (bi as int == obi && nlast == olast + 1 && len == obi * c + olast)
                        || (bi as int == obi + 1 && nlast == 1 && olast == c && len == obi * c
                        + olast),
            ;
            assert(len as int == (bi as int) * c + (nlast - 1)) by (nonlinear_arith)
                requires
                    (bi as int) * c + nlast == len + 1,
            ;
            lemma_fundamental_div_mod_converse(len as int, c, bi as int, nlast - 1);
            assert forall|i: int| 0 <= i < len implies #[trigger] self@[i] == old_arena@[i] by {
                lemma_position_split(i, c, obi, olast);
            }
            assert(self@ =~= old_arena@.push(item));
            self.lemma_bucket_count();
        }
        FastId { index: len, _t: PhantomData }
    }

    /// The item that a handle denotes, or nothing if no item has been allocated
    /// at its position.
    pub fn get(&self, id: FastId<T>) -> (r: Option<&T>)
        requires
            self.wf(),
        ensures
            match r {
                Some(item) => id.position() < self@.len() && *item == self@[id.position() as int],
                None => id.position() >= self@.len(),
            },
    {
        if id.index < self.len() {
            let b = id.index / self.items_per_bucket;
            let s = id.index % self.items_per_bucket;
            proof {
                lemma_position_split(
                    id.index as int,
                    self.items_per_bucket as int,
                    self.bucket_index as int,
                    self.buckets@[self.bucket_index as int].len() as int,
                );
            }
            Some(&self.buckets[b][s])
        } else {
            None
        }
    }

    /// The item that a handle denotes; the handle must be valid.
    pub fn index(&self, id: FastId<T>) -> (r: &T)
        requires
            self.wf(),
            id.position() < self@.len(),
        ensures
            *r == self@[id.position() as int],
    {
        let b = id.index / self.items_per_bucket;
        let s = id.index % self.items_per_bucket;
        proof {
            lemma_position_split(
                id.index as int,
                self.items_per_bucket as int,
                self.bucket_index as int,
                self.buckets@[self.bucket_index as int].len() as int,
            );
        }
        &self.buckets[b][s]
    }

    /// A mutable reference to the item that a handle denotes, or nothing if no
    /// item has been allocated at its position.
    pub fn get_mut(&mut self, id: FastId<T>) -> (r: Option<&mut T>)
        requires
            old(self).wf(),
        ensures
            final(self).wf(),
            final(self).capacity() == old(self).capacity(),
            final(self).bucket_count() == old(self).bucket_count(),
            match r {
                Some(item) => {
                    &&& id.position() < old(self)@.len()
                    &&& *item == old(self)@[id.position() as int]
                    &&& final(self)@ =~= old(self)@.update(id.position() as int, *final(item))
                },
                None => id.position() >= old(self)@.len() && final(self)@ =~= old(self)@,
            },
    {
        if id.index < self.len() {
            let b = id.index / self.items_per_bucket;
            let s = id.index % self.items_per_bucket;
            proof {
                lemma_position_split(
                    id.index as int,
                    self.items_per_bucket as int,
                    self.bucket_index as int,
                    self.buckets@[self.bucket_index as int].len() as int,
                );
            }
            proof {
                let cap = self.items_per_bucket as int;
                assert forall|i: int| 0 <= i < self@.len() implies {
                    &&& 0 <= #[trigger] (i / cap) <= self.bucket_index
                    &&& 0 <= i % cap < cap
                    &&& i / cap == self.bucket_index ==> i % cap < self.buckets@[self.bucket_index as int].len()
                    &&& i == (i / cap) * cap + i % cap
                } by {
                    lemma_position_split(
                        i,
                        cap,
                        self.bucket_index as int,
                        self.buckets@[self.bucket_index as int].len() as int,
                    );
                }
            }
            Some(&mut self.buckets[b][s])
        } else {
            None
        }
    }

    /// The number of allocated items.
    pub fn len(&self) -> (r: usize)
        requires
            self.wf(),
        ensures
            r == self@.len(),
    {
        proof {
            assert((self.bucket_index as int) * (self.items_per_bucket as int) >= 0)
                by (nonlinear_arith);
        }
        self.bucket_index * self.items_per_bucket + self.buckets[self.bucket_index].len()
    }

    /// Whether no item is allocated.
    pub fn is_empty(&self) -> (r: bool)
        requires
            self.wf(),
        ensures
            r == (self@.len() == 0),
    {
        self.len() == 0
    }

    /// Drops every item and goes back to a single empty bucket; handles given
    /// out before no longer denote anything.
    pub fn reset(&mut self)
        requires
            old(self).wf(),
        ensures
            final(self).wf(),
            final(self)@ == Seq::<T>::empty(),
            final(self).capacity() == old(self).capacity(),
            final(self).bucket_count() == 1,
    {
        self.buckets.truncate(1);
        self.buckets[0].clear();
        self.bucket_index = 0;
        assert(self@ =~= Seq::<T>::empty());
    }
}

impl<T> Default for FastIdArena<T> {
    fn default() -> (r: FastIdArena<T>)
        ensures
            r.wf(),
            r@ == Seq::<T>::empty(),
            r.capacity() > 0,
            r.bucket_count() == 1,
    {
        Self::new()
    }
}

} // verus!
