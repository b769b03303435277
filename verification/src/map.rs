//! The map for its users.
use std::time::Instant;
use vstd::prelude::*;
use crate::bucket::{bucket_intact, offset_of, padded, Entry, Timestamp, BUCKET_ALIGN, BUCKET_SIZE};
use crate::clock::{is_reading, since};
use crate::codec::Storable;
use crate::contents::{
    inserted, looked_up, new_entry, taken_out, SharedMemoryContents, SharedMemoryHashMapBucketIter,
};
use crate::error::Error;
use crate::laws::healthy;
use crate::memory::{lemma_round_up, round_to_boundary};
use crate::region::{image_of, oldest, position, region_in, Region, CONTENTS_SIZE};

verus! {

/// A map of bounded size in a block of memory. The block begins with the lock
/// that guards it; the map's contents follow the lock.
///
/// Whoever calls a method holds the lock.
pub struct SharedMemoryHashMap<K, V> {
    lock_size: usize,
    epoch: Instant,
    contents: SharedMemoryContents<K, V>,
}

impl<K, V> View for SharedMemoryHashMap<K, V> {
    type V = Region;

    closed spec fn view(&self) -> Region {
        self.contents@
    }
}

impl<K, V> SharedMemoryHashMap<K, V> {
    /// Bytes that the lock in front of the contents takes.
    pub closed spec fn lock_bytes(self) -> nat {
        self.lock_size as nat
    }

    /// When the map was made.
    pub closed spec fn made_at(self) -> Instant {
        self.epoch
    }

    /// The two are the same map, but for the contents.
    pub open spec fn same_setup(self, other: Self) -> bool {
        &&& self.lock_bytes() == other.lock_bytes()
        &&& self.made_at() == other.made_at()
    }
}

/// Walks over the entries, from the first to the last.
pub struct SharedMemoryHashMapIter<'a, K, V> {
    pub buckets: SharedMemoryHashMapBucketIter<'a, K, V>,
}

impl<'a, K: Storable, V: Storable> SharedMemoryHashMapIter<'a, K, V> {
    /// The next entry, if there is one.
    pub fn next(&mut self) -> (r: Option<(K, V)>)
        requires
            old(self).buckets.wf(),
        ensures
            final(self).buckets.wf(),
            final(self).buckets.map == old(self).buckets.map,
            match r {
                Some((key, value)) => {
                    let e = old(self).buckets.map@.entries()[old(self).buckets.current as int];
                    &&& old(self).buckets.current < old(self).buckets.map@.bucket_count
                    &&& final(self).buckets.current == old(self).buckets.current + 1
                    &&& K::decoded(e.key) == Some(key.model())
                    &&& V::decoded(e.value) == Some(value.model())
                },
                None => {
                    &&& old(self).buckets.current == old(self).buckets.map@.bucket_count
                    &&& final(self).buckets.current == old(self).buckets.current
                },
            },
    {
        let ghost r = self.buckets.map@;
        let ghost n: nat = self.buckets.current as nat;
        match self.buckets.next() {
            Some((at, bucket)) => {
                assert(bucket_intact::<K, V>(r.area, offset_of(r.area, n)));
                Some(self.buckets.map.entry(at, &bucket))
            },
            None => None,
        }
    }
}

impl<K: Storable, V: Storable> SharedMemoryHashMap<K, V> {
    /// The contents are in order, and the sizes are those of a block of memory.
    pub open spec fn wf(self) -> bool {
        &&& self@.wf::<K, V>()
        &&& self.lock_bytes() + self@.size + BUCKET_ALIGN <= usize::MAX
    }

    /// A map without entries in a block of memory that was asked for with
    /// `size` bytes and has `mapped` bytes, of which the lock takes the first
    /// `lock_size`.
    pub fn new(size: usize, mapped: usize, lock_size: usize) -> (result: Result<Self, Error>)
        requires
            size <= mapped,
            mapped + BUCKET_ALIGN <= usize::MAX,
        ensures
            if size < lock_size + CONTENTS_SIZE {
                result is Err && result->Err_0 == Error::TooLargeError
            } else {
                &&& result is Ok
                &&& result->Ok_0.wf()
                &&& result->Ok_0.lock_bytes() == lock_size
                &&& call_ensures(Instant::now, (), result->Ok_0.made_at())
                &&& result->Ok_0@.bucket_count == 0
                &&& result->Ok_0@.used == 0
                &&& result->Ok_0@.size == mapped - lock_size
                &&& result->Ok_0@.tight()
                &&& healthy::<K, V>(result->Ok_0@)
                &&& result->Ok_0@.entries() == Seq::<Entry>::empty()
            },
    {
        if size < lock_size || size - lock_size < CONTENTS_SIZE {
            return Err(Error::TooLargeError);
        }
        Ok(
            SharedMemoryHashMap {
                lock_size,
                epoch: Instant::now(),
                contents: SharedMemoryContents::new(mapped - lock_size),
            },
        )
    }

    /// The map whose contents lie in `memory`, behind a lock of `lock_size`
    /// bytes, and whose entries are dated from `epoch` on; if all of it is in
    /// order.
    pub fn attach(memory: &[u8], lock_size: usize, epoch: Instant) -> (r: Option<Self>)
        ensures
            r is Some <==> {
                &&& CONTENTS_SIZE <= memory@.len()
                &&& region_in(memory@).wf::<K, V>()
                &&& lock_size + region_in(memory@).size + BUCKET_ALIGN <= usize::MAX
            },
            r matches Some(map) ==> {
                &&& map.wf()
                &&& map@ == region_in(memory@)
                &&& map.lock_bytes() == lock_size
                &&& map.made_at() == epoch
            },
    {
        match SharedMemoryContents::load(memory) {
            Some(contents) => {
                if memory.len() <= usize::MAX - BUCKET_ALIGN && lock_size <= usize::MAX
                    - BUCKET_ALIGN - memory.len() {
                    Some(SharedMemoryHashMap { lock_size, epoch, contents })
                } else {
                    None
                }
            },
            None => None,
        }
    }

    /// The memory that the contents lie in.
    pub fn image(&self) -> (memory: Vec<u8>)
        ensures
            memory@ == image_of(self@),
            region_in(memory@) == self@,
    {
        self.contents.image()
    }

    /// When the map was made.
    pub fn epoch(&self) -> (epoch: Instant)
        ensures
            epoch == self.made_at(),
    {
        self.epoch
    }

    /// Starts a walk over the entries.
    pub fn iter(&self) -> (iter: SharedMemoryHashMapIter<'_, K, V>)
        requires
            self.wf(),
        ensures
            iter.buckets.wf(),
            iter.buckets.current == 0,
            iter.buckets.map@ == self@,
    {
        SharedMemoryHashMapIter { buckets: self.contents.bucket_iter() }
    }

    /// Like `try_insert`, but an entry that is too large is dropped silently.
    pub fn insert(&mut self, key: K, value: V) -> (r: Option<V>)
        requires
            old(self).wf(),
        ensures
            exists|now: Timestamp, result: Result<Option<V>, Error>|
                {
                    &&& #[trigger] inserted::<K, V>(old(self)@, key, value, now, result, final(self)@)
                    &&& is_reading(old(self).made_at(), now)
                    &&& r == (match result {
                        Ok(option) => option,
                        Err(_) => None,
                    })
                },
            BUCKET_SIZE + K::encode(key.model()).len() + V::encode(value.model()).len() > old(
                self,
            )@.size ==> r is None && final(self)@ == old(self)@,
            final(self).wf(),
            final(self).same_setup(*old(self)),
            final(self).made_at() == old(self).made_at(),
            final(self).lock_bytes() == old(self).lock_bytes(),
            final(self)@.size == old(self)@.size,
            healthy::<K, V>(old(self)@) ==> healthy::<K, V>(final(self)@),
    {
        match self.try_insert(key, value) {
            Ok(option) => option,
            Err(_) => None,
        }
    }

    /// Puts an entry in, accessed at this moment: see `try_insert_at`.
    pub fn try_insert(&mut self, key: K, value: V) -> (result: Result<Option<V>, Error>)
        requires
            old(self).wf(),
        ensures
            exists|now: Timestamp|
                {
                    &&& #[trigger] inserted::<K, V>(old(self)@, key, value, now, result, final(self)@)
                    &&& is_reading(old(self).made_at(), now)
                },
            BUCKET_SIZE + K::encode(key.model()).len() + V::encode(value.model()).len() > old(
                self,
            )@.size ==> result == Err::<Option<V>, Error>(Error::TooLargeError) && final(self)@
                == old(self)@,
            final(self).wf(),
            final(self).same_setup(*old(self)),
            final(self).made_at() == old(self).made_at(),
            final(self).lock_bytes() == old(self).lock_bytes(),
            final(self)@.size == old(self)@.size,
            result is Ok <==> CONTENTS_SIZE + BUCKET_SIZE + K::encode(key.model()).len() + V::encode(
                value.model(),
            ).len() <= old(self)@.size,
            healthy::<K, V>(old(self)@) ==> healthy::<K, V>(final(self)@),
    {
        let now = since(&self.epoch);
        self.try_insert_at(key, value, now)
    }

    /// Puts an entry in, accessed at `now`, and makes room for it: see
    /// `SharedMemoryContents::try_insert`.
    pub fn try_insert_at(&mut self, key: K, value: V, now: Timestamp) -> (result: Result<
        Option<V>,
        Error,
    >)
        requires
            old(self).wf(),
        ensures
            inserted::<K, V>(old(self)@, key, value, now, result, final(self)@),
            BUCKET_SIZE + K::encode(key.model()).len() + V::encode(value.model()).len() > old(
                self,
            )@.size ==> result == Err::<Option<V>, Error>(Error::TooLargeError) && final(self)@
                == old(self)@,
            final(self).wf(),
            final(self).same_setup(*old(self)),
            final(self).made_at() == old(self).made_at(),
            final(self).lock_bytes() == old(self).lock_bytes(),
            final(self)@.size == old(self)@.size,
            result is Ok <==> CONTENTS_SIZE + BUCKET_SIZE + K::encode(key.model()).len() + V::encode(
                value.model(),
            ).len() <= old(self)@.size,
            healthy::<K, V>(old(self)@) ==> healthy::<K, V>(final(self)@),
    {
        self.contents.try_insert(key, value, now)
    }

    /// Like `try_insert`, for a key that counts as the same as `stored`: see
    /// `SharedMemoryContents::try_insert_in_place_of`.
    pub fn try_insert_in_place_of(&mut self, stored: &K, key: K, value: V) -> (result: Result<
        Option<V>,
        Error,
    >)
        requires
            old(self).wf(),
        ensures
            if BUCKET_SIZE + K::encode(key.model()).len() + V::encode(value.model()).len() > old(
                self,
            )@.size {
                &&& result == Err::<Option<V>, Error>(Error::TooLargeError)
                &&& final(self)@ == old(self)@
            } else {
                exists|now: Timestamp|
                    {
                        &&& #[trigger] inserted::<K, V>(
                            old(self)@.forgotten::<K>(stored.model()),
                            key,
                            value,
                            now,
                            result,
                            final(self)@,
                        )
                        &&& is_reading(old(self).made_at(), now)
                    }
            },
            final(self).wf(),
            final(self).same_setup(*old(self)),
            final(self).made_at() == old(self).made_at(),
            final(self).lock_bytes() == old(self).lock_bytes(),
            final(self)@.size == old(self)@.size,
            result is Ok <==> CONTENTS_SIZE + BUCKET_SIZE + K::encode(key.model()).len() + V::encode(
                value.model(),
            ).len() <= old(self)@.size,
            healthy::<K, V>(old(self)@) ==> healthy::<K, V>(final(self)@),
    {
        let now = since(&self.epoch);
        let ghost e = new_entry::<K, V>(key, value, now);
        let result = self.contents.try_insert_in_place_of(stored, key, value, now);
        assert(e.need() <= old(self)@.size ==> inserted::<K, V>(
            old(self)@.forgotten::<K>(stored.model()),
            key,
            value,
            now,
            result,
            self@,
        ));
        result
    }

    /// The value of that key. The entry counts as accessed at this moment.
    pub fn get(&mut self, key: &K) -> (r: Option<V>)
        requires
            old(self).wf(),
        ensures
            exists|now: Timestamp|
                {
                    &&& #[trigger] looked_up::<K, V>(old(self)@, key.model(), now, r, final(self)@)
                    &&& is_reading(old(self).made_at(), now)
                },
            final(self).wf(),
            healthy::<K, V>(old(self)@) ==> healthy::<K, V>(final(self)@),
            final(self).same_setup(*old(self)),
            final(self).made_at() == old(self).made_at(),
            final(self).lock_bytes() == old(self).lock_bytes(),
    {
        let now = since(&self.epoch);
        self.get_at(key, now)
    }

    /// The value of that key. The entry counts as accessed at `now`.
    pub fn get_at(&mut self, key: &K, now: Timestamp) -> (r: Option<V>)
        requires
            old(self).wf(),
        ensures
            looked_up::<K, V>(old(self)@, key.model(), now, r, final(self)@),
            final(self).wf(),
            healthy::<K, V>(old(self)@) ==> healthy::<K, V>(final(self)@),
            final(self).same_setup(*old(self)),
            final(self).made_at() == old(self).made_at(),
            final(self).lock_bytes() == old(self).lock_bytes(),
    {
        self.contents.get(key, now)
    }

    /// The value of that key. This does not count as an access.
    pub fn peak(&self, key: &K) -> (r: Option<V>)
        requires
            self.wf(),
        ensures
            match position::<K>(self@.entries(), key.model()) {
                Some(i) => {
                    &&& r is Some
                    &&& V::decoded(self@.entries()[i].value) == Some(r->Some_0.model())
                },
                None => r is None,
            },
    {
        self.contents.peak(key)
    }

    /// The entry that was accessed the longest ago, if there is one. This does
    /// not count as an access.
    pub fn get_lru(&self) -> (r: Option<(K, V)>)
        requires
            self.wf(),
        ensures
            match r {
                Some((key, value)) => {
                    &&& oldest(self@.entries()) is Some
                    &&& K::decoded(self@.entries()[oldest(self@.entries())->Some_0].key) == Some(
                        key.model(),
                    )
                    &&& V::decoded(self@.entries()[oldest(self@.entries())->Some_0].value)
                        == Some(value.model())
                },
                None => self@.bucket_count == 0 && oldest(self@.entries()) is None,
            },
    {
        match self.contents.get_lru() {
            Some((at, bucket)) => Some(self.contents.entry(at, &bucket)),
            None => None,
        }
    }

    /// Takes the first entry with that key out, and returns its value.
    pub fn remove(&mut self, key: &K) -> (r: Option<V>)
        requires
            old(self).wf(),
        ensures
            taken_out::<K, V>(old(self)@, key.model(), r, final(self)@),
            final(self).wf(),
            healthy::<K, V>(old(self)@) ==> healthy::<K, V>(final(self)@),
            final(self).same_setup(*old(self)),
            final(self).made_at() == old(self).made_at(),
            final(self).lock_bytes() == old(self).lock_bytes(),
    {
        self.contents.remove(key)
    }

    /// Number of entries.
    pub fn len(&self) -> (n: usize)
        ensures
            n == self@.bucket_count,
            n == self@.entries().len(),
    {
        self.contents.len()
    }

    /// Whether there is no entry.
    pub fn is_empty(&self) -> (r: bool)
        ensures
            r == (self@.bucket_count == 0),
            r == (self@.entries().len() == 0),
    {
        self.contents.is_empty()
    }

    /// Bytes in use, those of the lock and of the header among them.
    pub fn used(&self) -> (n: usize)
        requires
            self.wf(),
        ensures
            n == self@.total_used() + self.lock_bytes(),
    {
        self.contents.used() + self.lock_size
    }

    /// Bytes that are not in use.
    pub fn free(&self) -> (n: usize)
        requires
            self.wf(),
            self@.total_used() <= self@.size,
        ensures
            n == self@.size - self@.total_used(),
    {
        self.contents.free()
    }

    /// Whether there is an entry with that key.
    pub fn contains_key(&self, key: &K) -> (r: bool)
        requires
            self.wf(),
        ensures
            r == (position::<K>(self@.entries(), key.model()) is Some),
    {
        self.contents.contains_key(key)
    }

    /// Drops all entries, and gives their memory back.
    pub fn clear(&mut self)
        requires
            old(self).wf(),
        ensures
            final(self)@ == old(self)@.cleared(),
            final(self).wf(),
            final(self)@.entries() == Seq::<Entry>::empty(),
            final(self)@.tight(),
            healthy::<K, V>(final(self)@),
            final(self).same_setup(*old(self)),
            final(self).made_at() == old(self).made_at(),
            final(self).lock_bytes() == old(self).lock_bytes(),
    {
        self.contents.clear()
    }

    /// Bytes that an entry takes in the map.
    pub fn size_of(key: &K, value: &V) -> (n: usize)
        requires
            BUCKET_SIZE + K::encode(key.model()).len() + V::encode(value.model()).len()
                + BUCKET_ALIGN <= usize::MAX,
        ensures
            n == BUCKET_SIZE + padded(
                K::encode(key.model()).len() + V::encode(value.model()).len(),
            ),
    {
        let value_size: usize = value.serialized_size() as usize;
        let key_size: usize = key.serialized_size() as usize;
        proof {
            lemma_round_up(value_size + key_size, BUCKET_ALIGN as int);
        }
        BUCKET_SIZE + round_to_boundary(value_size + key_size, BUCKET_ALIGN)
    }
}

} // verus!
