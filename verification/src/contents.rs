//! The map as it lies in memory, for whoever may access that memory alone.
use core::marker::PhantomData;
use vstd::prelude::*;
use vstd::slice::slice_subrange;
use crate::bucket::{
    bucket_intact, entry_at, lemma_header_len, lemma_next, lemma_offset_bound, lemma_offsets,
    next_at, offset_of, Bucket, Entry, Timestamp, BUCKET_ALIGN, BUCKET_SIZE,
};
use crate::codec::Storable;
use crate::error::Error;
use crate::laws::{healthy, law_get, law_insert, law_make_room, law_new, law_remove};
use crate::memory::{lemma_round_up, move_down, push_le, read_u64};
use crate::region::{
    image_of, is_first_match, is_oldest, law_region_in_image, lemma_appended, lemma_cleared,
    lemma_oldest, lemma_position, lemma_shrunk, lemma_touched, lemma_victim,
    lemma_without, oldest, position, region_in, Region, CONTENTS_SIZE,
};

verus! {

/// The header of the memory, and the memory behind the header.
pub struct SharedMemoryContents<K, V> {
    bucket_count: usize,
    used: usize,
    phantom: PhantomData<(K, V)>,
    size: usize,
    area: Vec<u8>,
}

impl<K, V> View for SharedMemoryContents<K, V> {
    type V = Region;

    closed spec fn view(&self) -> Region {
        Region {
            bucket_count: self.bucket_count as nat,
            used: self.used as nat,
            size: self.size as nat,
            area: self.area@,
        }
    }
}

/// Walks over the buckets, from the first to the last.
pub struct SharedMemoryHashMapBucketIter<'a, K, V> {
    pub current: usize,
    pub current_ptr: usize,
    pub map: &'a SharedMemoryContents<K, V>,
}

impl<'a, K: Storable, V: Storable> SharedMemoryHashMapBucketIter<'a, K, V> {
    /// `current` buckets have been handed out, and the next one starts at
    /// `current_ptr`.
    pub open spec fn wf(self) -> bool {
        &&& self.map@.wf::<K, V>()
        &&& self.current <= self.map@.bucket_count
        &&& self.current_ptr == self.map@.offset(self.current as int)
    }

    /// The place and the header of the next bucket, if there is one.
    pub fn next(&mut self) -> (r: Option<(usize, Bucket<K, V>)>)
        requires
            old(self).wf(),
        ensures
            final(self).wf(),
            final(self).map == old(self).map,
            match r {
                Some((at, bucket)) => {
                    &&& old(self).current < old(self).map@.bucket_count
                    &&& final(self).current == old(self).current + 1
                    &&& at == old(self).map@.offset(old(self).current as int)
                    &&& bucket.stands_at(old(self).map@.area, at as int)
                },
                None => {
                    &&& old(self).current == old(self).map@.bucket_count
                    &&& final(self).current == old(self).current
                },
            },
    {
        if self.current < self.map.bucket_count {
            let at: usize = self.current_ptr;
            let ghost n: nat = self.current as nat;
            let ghost r = self.map@;
            proof {
                assert(bucket_intact::<K, V>(r.area, offset_of(r.area, n)));
                lemma_offsets(r.area, n, r.bucket_count);
            }
            let bucket: Bucket<K, V> = Bucket::read(self.map.area.as_slice(), at);
            self.current = self.current + 1;
            self.current_ptr = bucket.next(at);
            assert(offset_of(r.area, n + 1) == next_at(r.area, offset_of(r.area, n)));
            Some((at, bucket))
        } else {
            None
        }
    }
}

impl<K: Storable, V: Storable> SharedMemoryContents<K, V> {
    /// A map without entries in `size` bytes.
    pub fn new(size: usize) -> (contents: Self)
        requires
            CONTENTS_SIZE <= size,
            size + BUCKET_ALIGN <= usize::MAX,
        ensures
            contents@ == (Region {
                bucket_count: 0,
                used: 0,
                size: size as nat,
                area: Seq::new((size - CONTENTS_SIZE) as nat, |i: int| 0u8),
            }),
            contents@.wf::<K, V>(),
            contents@.tight(),
            contents@.entries() == Seq::<Entry>::empty(),
            healthy::<K, V>(contents@),
    {
        let room: usize = size - CONTENTS_SIZE;
        let area: Vec<u8> = vec![0u8; room];
        let contents = SharedMemoryContents {
            bucket_count: 0,
            used: 0,
            phantom: PhantomData,
            size,
            area,
        };
        assert(contents@.area =~= Seq::new((size - CONTENTS_SIZE) as nat, |i: int| 0u8));
        assert(contents@.entries() =~= Seq::<Entry>::empty());
        contents
    }

    /// Whether every bucket is in order. Memory that comes from elsewhere need
    /// not be.
    pub fn is_intact(&self) -> (r: bool)
        ensures
            r == self@.wf::<K, V>(),
    {
        let ghost r = self@;
        let len: usize = self.area.len();
        if self.size < CONTENTS_SIZE || self.size - CONTENTS_SIZE != len || self.size > usize::MAX
            - BUCKET_ALIGN {
            return false;
        }
        let mut at: usize = 0;
        let mut i: usize = 0;
        while i < self.bucket_count
            invariant
                r == self@,
                len == r.area.len(),
                r.size == len + CONTENTS_SIZE,
                r.size + BUCKET_ALIGN <= usize::MAX,
                i <= r.bucket_count,
                at == offset_of(r.area, i as nat),
                at < len + BUCKET_ALIGN,
                forall|k: nat|
                    k < i ==> bucket_intact::<K, V>(r.area, #[trigger] offset_of(r.area, k)),
            decreases r.bucket_count - i,
        {
            if len < BUCKET_SIZE || at > len - BUCKET_SIZE {
                assert(!bucket_intact::<K, V>(r.area, offset_of(r.area, i as nat)));
                return false;
            }
            let behind: u64 = (len - at - BUCKET_SIZE) as u64;
            let value_size: u64 = read_u64(self.area.as_slice(), at);
            let key_size: u64 = read_u64(self.area.as_slice(), at + 8);
            if key_size > behind || value_size > behind - key_size {
                assert(!bucket_intact::<K, V>(r.area, offset_of(r.area, i as nat)));
                return false;
            }
            let bucket: Bucket<K, V> = Bucket::read(self.area.as_slice(), at);
            let p: usize = bucket.key_ptr(at);
            let q: usize = bucket.value_ptr(at);
            let key: Option<K> = K::deserialize(slice_subrange(self.area.as_slice(), p, q));
            let value: Option<V> = V::deserialize(
                slice_subrange(self.area.as_slice(), q, q + bucket.value_size),
            );
            if key.is_none() || value.is_none() {
                assert(!bucket_intact::<K, V>(r.area, offset_of(r.area, i as nat)));
                return false;
            }
            proof {
                lemma_next(r.area, at as int);
                assert(bucket_intact::<K, V>(r.area, offset_of(r.area, i as nat)));
                assert(offset_of(r.area, (i + 1) as nat) == next_at(r.area, at as int));
            }
            at = bucket.next(at);
            i = i + 1;
        }
        at == self.used
    }

    /// The map that lies in `memory`, if all of it is in order.
    pub fn load(memory: &[u8]) -> (r: Option<Self>)
        ensures
            r is Some <==> CONTENTS_SIZE <= memory@.len() && region_in(memory@).wf::<K, V>(),
            r matches Some(contents) ==> contents@ == region_in(memory@),
    {
        if memory.len() < CONTENTS_SIZE {
            return None;
        }
        let bucket_count: u64 = read_u64(memory, 0);
        let used: u64 = read_u64(memory, 8);
        let size: u64 = read_u64(memory, 16);
        proof {
            let r = region_in(memory@);
            lemma_offset_bound(r.area, r.bucket_count);
        }
        if bucket_count > usize::MAX as u64 || used > usize::MAX as u64 || size > usize::MAX as u64 {
            return None;
        }
        let rest = slice_subrange(memory, CONTENTS_SIZE, memory.len());
        let mut area: Vec<u8> = Vec::new();
        area.extend_from_slice(rest);
        let contents = SharedMemoryContents {
            bucket_count: bucket_count as usize,
            used: used as usize,
            phantom: PhantomData,
            size: size as usize,
            area,
        };
        proof {
            assert(contents@.area =~= memory@.skip(CONTENTS_SIZE as int));
            assert(contents@ =~= region_in(memory@));
        }
        if contents.is_intact() {
            Some(contents)
        } else {
            None
        }
    }

    /// The memory that the map lies in.
    pub fn image(&self) -> (memory: Vec<u8>)
        ensures
            memory@ == image_of(self@),
            region_in(memory@) == self@,
    {
        let mut memory: Vec<u8> = Vec::new();
        push_le(&mut memory, self.bucket_count as u64, 8);
        push_le(&mut memory, self.used as u64, 8);
        push_le(&mut memory, self.size as u64, 8);
        memory.extend_from_slice(self.area.as_slice());
        proof {
            assert(memory@ =~= image_of(self@));
            law_region_in_image(self@);
        }
        memory
    }

    /// Starts a walk over the buckets.
    pub fn bucket_iter(&self) -> (iter: SharedMemoryHashMapBucketIter<'_, K, V>)
        requires
            self@.wf::<K, V>(),
        ensures
            iter.wf(),
            iter.current == 0,
            iter.map == self,
    {
        SharedMemoryHashMapBucketIter { current: 0, current_ptr: self.buckets_ptr(), map: self }
    }

    /// Where the first bucket starts.
    pub fn buckets_ptr(&self) -> (at: usize)
        ensures
            at == self@.offset(0),
    {
        0
    }

    /// Which bucket is the first with that key, and where it starts.
    fn find(&self, key: &K) -> (r: Option<(usize, usize)>)
        requires
            self@.wf::<K, V>(),
        ensures
            match r {
                Some((i, at)) => {
                    &&& position::<K>(self@.entries(), key.model()) == Some(i as int)
                    &&& is_first_match::<K>(self@.entries(), key.model(), i as int)
                    &&& at == self@.offset(i as int)
                    &&& bucket_intact::<K, V>(self@.area, at as int)
                },
                None => position::<K>(self@.entries(), key.model()) is None,
            },
    {
        let mut iter = self.bucket_iter();
        loop
            invariant
                iter.wf(),
                iter.map == self,
                self@.wf::<K, V>(),
                forall|j: int|
                    0 <= j < iter.current ==> K::decoded(#[trigger] self@.entries()[j].key)
                        != Some(key.model()),
            decreases self@.bucket_count - iter.current,
        {
            let i: usize = iter.current;
            match iter.next() {
                Some((at, bucket)) => {
                    assert(bucket_intact::<K, V>(self@.area, offset_of(self@.area, i as nat)));
                    let stored: K = bucket.get_key(self.area.as_slice(), at);
                    if stored.same(key) {
                        proof {
                            assert(is_first_match::<K>(self@.entries(), key.model(), i as int));
                            lemma_position::<K>(self@.entries(), key.model(), i as int);
                        }
                        return Some((i, at));
                    }
                },
                None => {
                    return None;
                },
            }
        }
    }

    /// The key and the value of the bucket at `at`.
    pub fn entry(&self, at: usize, bucket: &Bucket<K, V>) -> (entry: (K, V))
        requires
            bucket.stands_at(self@.area, at as int),
            bucket_intact::<K, V>(self@.area, at as int),
        ensures
            K::decoded(entry_at(self@.area, at as int).key) == Some(entry.0.model()),
            V::decoded(entry_at(self@.area, at as int).value) == Some(entry.1.model()),
    {
        (
            bucket.get_key(self.area.as_slice(), at),
            bucket.get_value(self.area.as_slice(), at),
        )
    }

    /// The value of that key. The entry counts as accessed at `now`.
    pub fn get(&mut self, key: &K, now: Timestamp) -> (r: Option<V>)
        requires
            old(self)@.wf::<K, V>(),
        ensures
            final(self)@.wf::<K, V>(),
            looked_up::<K, V>(old(self)@, key.model(), now, r, final(self)@),
            healthy::<K, V>(old(self)@) ==> healthy::<K, V>(final(self)@),
    {
        match self.find(key) {
            Some((i, at)) => {
                proof {
                    lemma_touched::<K, V>(self@, i as int, now);
                }
                let mut bucket: Bucket<K, V> = Bucket::read(self.area.as_slice(), at);
                let value: V = bucket.get_value(self.area.as_slice(), at);
                bucket.last_accessed = now;
                bucket.write(&mut self.area, at);
                assert(self@ =~= old(self)@.touched(i as int, now));
                proof {
                    law_get::<K, V>(
                        old(self)@,
                        key.model(),
                        now,
                        Some(value),
                        self@,
                        key.model(),
                    );
                }
                Some(value)
            },
            None => None,
        }
    }

    /// The value of that key. This does not count as an access.
    pub fn peak(&self, key: &K) -> (r: Option<V>)
        requires
            self@.wf::<K, V>(),
        ensures
            match position::<K>(self@.entries(), key.model()) {
                Some(i) => {
                    &&& r is Some
                    &&& V::decoded(self@.entries()[i].value) == Some(r->Some_0.model())
                },
                None => r is None,
            },
    {
        match self.find(key) {
            Some((i, at)) => {
                let bucket: Bucket<K, V> = Bucket::read(self.area.as_slice(), at);
                Some(bucket.get_value(self.area.as_slice(), at))
            },
            None => None,
        }
    }

    /// Whether there is an entry with that key.
    pub fn contains_key(&self, key: &K) -> (r: bool)
        requires
            self@.wf::<K, V>(),
        ensures
            r == (position::<K>(self@.entries(), key.model()) is Some),
    {
        self.find(key).is_some()
    }

    /// Takes the first entry with that key out, and returns its value. The
    /// buckets behind it move down over it.
    pub fn remove(&mut self, key: &K) -> (r: Option<V>)
        requires
            old(self)@.wf::<K, V>(),
        ensures
            final(self)@.wf::<K, V>(),
            taken_out::<K, V>(old(self)@, key.model(), r, final(self)@),
            healthy::<K, V>(old(self)@) ==> healthy::<K, V>(final(self)@),
    {
        match self.find(key) {
            Some((i, at)) => {
                let ghost r = self@;
                proof {
                    lemma_without::<K, V>(r, i as int);
                    lemma_offsets(r.area, i as nat, r.bucket_count);
                    lemma_offsets(r.area, (i + 1) as nat, r.bucket_count);
                    assert(r.offset(i + 1) == next_at(r.area, r.offset(i as int)));
                    if i + 1 < r.bucket_count {
                        assert(bucket_intact::<K, V>(r.area, offset_of(r.area, (i + 1) as nat)));
                    }
                }
                let bucket: Bucket<K, V> = Bucket::read(self.area.as_slice(), at);
                let value: V = bucket.get_value(self.area.as_slice(), at);
                let followed: bool = i + 1 < self.bucket_count;
                self.bucket_count = self.bucket_count - 1;
                self.used = self.used - bucket.size();
                if followed {
                    let next: usize = bucket.next(at);
                    let behind: usize = self.area.len() - next;
                    let count: usize = if self.used < behind {
                        self.used
                    } else {
                        behind
                    };
                    move_down(&mut self.area, at, next, count);
                }
                assert(self@ =~= r.without(i as int));
                proof {
                    if healthy::<K, V>(r) {
                        law_remove::<K, V>(r, key.model(), Some(value), self@, key.model());
                    }
                }
                Some(value)
            },
            None => None,
        }
    }

    /// Number of entries.
    pub fn len(&self) -> (n: usize)
        ensures
            n == self@.bucket_count,
            n == self@.entries().len(),
    {
        self.bucket_count
    }

    /// Whether there is no entry.
    pub fn is_empty(&self) -> (r: bool)
        ensures
            r == (self@.bucket_count == 0),
            r == (self@.entries().len() == 0),
    {
        self.len() == 0
    }

    /// Bytes in use, the header's among them.
    pub fn used(&self) -> (n: usize)
        requires
            self@.wf::<K, V>(),
        ensures
            n == self@.total_used(),
    {
        self.used + CONTENTS_SIZE
    }

    /// Bytes that are not in use. There are none to speak of while the last
    /// bucket's unused bytes lie behind the end of the memory.
    pub fn free(&self) -> (n: usize)
        requires
            self@.wf::<K, V>(),
            self@.total_used() <= self@.size,
        ensures
            n == self@.size - self@.total_used(),
    {
        self.size - self.used()
    }

    /// Drops all entries, and gives their memory back.
    pub fn clear(&mut self)
        requires
            old(self)@.wf::<K, V>(),
        ensures
            final(self)@ == old(self)@.cleared(),
            final(self)@.wf::<K, V>(),
            final(self)@.tight(),
            final(self)@.entries() == Seq::<Entry>::empty(),
            healthy::<K, V>(final(self)@),
    {
        proof {
            lemma_cleared::<K, V>(self@);
        }
        self.bucket_count = 0;
        self.used = 0;
        proof {
            law_new::<K, V>(self@);
        }
        assert(self@ =~= old(self)@.cleared());
    }

    /// The place and the header of the bucket that was accessed the longest
    /// ago, if there is one.
    pub fn get_lru(&self) -> (r: Option<(usize, Bucket<K, V>)>)
        requires
            self@.wf::<K, V>(),
        ensures
            match r {
                Some((at, bucket)) => {
                    &&& oldest(self@.entries()) is Some
                    &&& at == self@.offset(oldest(self@.entries())->Some_0)
                    &&& bucket.stands_at(self@.area, at as int)
                    &&& bucket_intact::<K, V>(self@.area, at as int)
                },
                None => self@.bucket_count == 0 && oldest(self@.entries()) is None,
            },
    {
        let mut found: Option<(usize, Bucket<K, V>)> = None;
        let mut iter = self.bucket_iter();
        let ghost mut best: int = 0;
        loop
            invariant
                iter.wf(),
                iter.map == self,
                self@.wf::<K, V>(),
                found is None <==> iter.current == 0,
                found matches Some((at, bucket)) ==> {
                    &&& 0 <= best < iter.current
                    &&& at == self@.offset(best)
                    &&& bucket.stands_at(self@.area, at as int)
                    &&& is_oldest(self@.entries().take(iter.current as int), best)
                },
            decreases self@.bucket_count - iter.current,
        {
            let ghost i: int = iter.current as int;
            let ghost seen = self@.entries().take(i);
            let ghost more = self@.entries().take(i + 1);
            match iter.next() {
                Some((at, bucket)) => {
                    assert(forall|j: int| 0 <= j < i ==> seen[j] == #[trigger] more[j]);
                    assert(more[i].last_accessed == bucket.last_accessed);
                    let take: bool = match &found {
                        None => true,
                        Some((_, held)) => bucket.last_accessed.before(&held.last_accessed),
                    };
                    if take {
                        proof {
                            if found is Some {
                                assert forall|j: int| 0 <= j < i implies more[i].last_accessed.precedes(
                                    (#[trigger] more[j]).last_accessed,
                                ) by {
                                    assert(!seen[j].last_accessed.precedes(
                                        seen[best].last_accessed,
                                    ));
                                }
                            }
                            best = i;
                            assert(is_oldest(more, best));
                        }
                        found = Some((at, bucket));
                    } else {
                        proof {
                            assert forall|j: int| 0 <= j < more.len() implies !(
                            #[trigger] more[j]).last_accessed.precedes(
                                more[best].last_accessed,
                            ) by {
                                if j < i {
                                    assert(!seen[j].last_accessed.precedes(
                                        seen[best].last_accessed,
                                    ));
                                }
                            }
                            assert(is_oldest(more, best));
                        }
                    }
                },
                None => {
                    proof {
                        assert(seen =~= self@.entries());
                        if found is Some {
                            lemma_oldest(self@.entries(), best);
                            assert(bucket_intact::<K, V>(
                                self@.area,
                                offset_of(self@.area, best as nat),
                            ));
                        }
                    }
                    return found;
                },
            }
        }
    }

    /// Takes out the entry that was accessed the longest ago, and returns its
    /// value.
    pub fn evict(&mut self) -> (r: Option<V>)
        requires
            old(self)@.wf::<K, V>(),
        ensures
            final(self)@.wf::<K, V>(),
            evicted::<K, V>(old(self)@, r, final(self)@),
            healthy::<K, V>(old(self)@) ==> healthy::<K, V>(final(self)@),
    {
        match self.get_lru() {
            Some((at, bucket)) => {
                proof {
                    lemma_victim::<K, V>(self@);
                }
                let key: K = bucket.get_key(self.area.as_slice(), at);
                self.remove(&key)
            },
            None => None,
        }
    }

    /// Puts an entry in, accessed at `now`, and takes out first the entry with
    /// the same key, if there is one, and then as many as it takes to make
    /// room, beginning with the one that was accessed the longest ago.
    ///
    /// Returns the value of the last entry that left for want of room. If the
    /// entry is too large for the memory, it is refused: without any effect if
    /// it is larger than all of the memory, and else when all entries have been
    /// taken out and there is still no room.
    pub fn try_insert(&mut self, key: K, value: V, now: Timestamp) -> (result: Result<
        Option<V>,
        Error,
    >)
        requires
            old(self)@.wf::<K, V>(),
        ensures
            inserted::<K, V>(old(self)@, key, value, now, result, final(self)@),
            final(self)@.wf::<K, V>(),
            BUCKET_SIZE + K::encode(key.model()).len() + V::encode(value.model()).len() > old(
                self,
            )@.size ==> result == Err::<Option<V>, Error>(Error::TooLargeError) && final(self)@
                == old(self)@,
            result is Ok <==> CONTENTS_SIZE + BUCKET_SIZE + K::encode(key.model()).len() + V::encode(
                value.model(),
            ).len() <= old(self)@.size,
            result is Ok ==> {
                &&& final(self)@.entries().len() > 0
                &&& final(self)@.entries().last() == (Entry {
                    key: K::encode(key.model()),
                    value: V::encode(value.model()),
                    last_accessed: now,
                })
            },
            final(self)@.size == old(self)@.size,
            result is Ok <==> CONTENTS_SIZE + new_entry::<K, V>(key, value, now).need() <= old(
                self,
            )@.size,
            healthy::<K, V>(old(self)@) ==> healthy::<K, V>(final(self)@),
    {
        let ghost e = new_entry::<K, V>(key, value, now);
        let need: usize = match self.need(&key, &value) {
            Some(need) => need,
            None => {
                return Err(Error::TooLargeError);
            },
        };
        if self.contains_key(&key) {
            let _ = self.remove(&key);
        }
        proof {
            lemma_shrunk::<K, V>(self@, need as int, None);
            if healthy::<K, V>(self@) {
                law_make_room::<K, V>(self@, need as int, None);
            }
        }
        let removed = self.make_room(need)?;
        proof {
            K::decoded_encode(key.model());
            V::decoded_encode(value.model());
            lemma_appended::<K, V>(self@, e);
        }
        self.append(&key, &value, now);
        proof {
            if healthy::<K, V>(old(self)@) {
                law_insert::<K, V>(old(self)@, key, value, now, Ok(removed), self@);
            }
        }
        Ok(removed)
    }

    /// Like `try_insert`, for a key that counts as the same as `stored`, though
    /// its bytes may be others: the entry that leaves first is that of
    /// `stored`.
    pub fn try_insert_in_place_of(
        &mut self,
        stored: &K,
        key: K,
        value: V,
        now: Timestamp,
    ) -> (result: Result<Option<V>, Error>)
        requires
            old(self)@.wf::<K, V>(),
        ensures
            if new_entry::<K, V>(key, value, now).need() > old(self)@.size {
                &&& result == Err::<Option<V>, Error>(Error::TooLargeError)
                &&& final(self)@ == old(self)@
            } else {
                inserted::<K, V>(
                    old(self)@.forgotten::<K>(stored.model()),
                    key,
                    value,
                    now,
                    result,
                    final(self)@,
                )
            },
            final(self)@.wf::<K, V>(),
            final(self)@.size == old(self)@.size,
            BUCKET_SIZE + K::encode(key.model()).len() + V::encode(value.model()).len() > old(
                self,
            )@.size ==> final(self)@ == old(self)@,
            result is Ok <==> CONTENTS_SIZE + BUCKET_SIZE + K::encode(key.model()).len() + V::encode(
                value.model(),
            ).len() <= old(self)@.size,
            result is Ok ==> {
                &&& final(self)@.entries().len() > 0
                &&& final(self)@.entries().last() == (Entry {
                    key: K::encode(key.model()),
                    value: V::encode(value.model()),
                    last_accessed: now,
                })
            },
            result is Ok <==> CONTENTS_SIZE + new_entry::<K, V>(key, value, now).need() <= old(
                self,
            )@.size,
            healthy::<K, V>(old(self)@) ==> healthy::<K, V>(final(self)@),
    {
        if self.need(&key, &value).is_none() {
            return Err(Error::TooLargeError);
        }
        let _ = self.remove(stored);
        self.try_insert(key, value, now)
    }

    /// Bytes that there has to be room for to store an entry, if that is not
    /// more than all of the memory.
    fn need(&self, key: &K, value: &V) -> (r: Option<usize>)
        ensures
            match r {
                Some(n) => n == BUCKET_SIZE + K::encode(key.model()).len() + V::encode(
                    value.model(),
                ).len() <= self@.size,
                None => BUCKET_SIZE + K::encode(key.model()).len() + V::encode(value.model()).len()
                    > self@.size,
            },
    {
        let value_size: u64 = value.serialized_size();
        let key_size: u64 = key.serialized_size();
        let limit: u64 = self.size as u64;
        if limit < BUCKET_SIZE as u64 || value_size > limit - BUCKET_SIZE as u64 || key_size > limit
            - BUCKET_SIZE as u64 - value_size {
            None
        } else {
            Some(BUCKET_SIZE + value_size as usize + key_size as usize)
        }
    }

    /// Takes entries out until there is room for `need` bytes, beginning with
    /// the one that was accessed the longest ago.
    fn make_room(&mut self, need: usize) -> (result: Result<Option<V>, Error>)
        requires
            old(self)@.wf::<K, V>(),
        ensures
            final(self)@.wf::<K, V>(),
            ({
                let (r, removed) = old(self)@.shrunk::<K>(need as int, None);
                &&& final(self)@ == r
                &&& r.has_room(need as int) ==> result is Ok && stands_for::<V>(
                    result->Ok_0,
                    removed,
                )
                &&& !r.has_room(need as int) ==> result == Err::<Option<V>, Error>(
                    Error::TooLargeError,
                ) && r.bucket_count == 0
            }),
    {
        let ghost start = self@;
        let ghost mut removed_bytes: Option<Seq<u8>> = None;
        let mut removed: Option<V> = None;
        while self.used() > self.size || need > self.size - self.used()
            invariant
                start == old(self)@,
                self@.wf::<K, V>(),
                start.shrunk::<K>(need as int, None) == self@.shrunk::<K>(
                    need as int,
                    removed_bytes,
                ),
                stands_for::<V>(removed, removed_bytes),
            decreases self@.bucket_count,
        {
            let ghost before = self@;
            match self.evict() {
                Some(item) => {
                    removed = Some(item);
                    proof {
                        removed_bytes = Some(before.entries()[before.victim::<K>()].value);
                    }
                },
                None => {
                    return Err(Error::TooLargeError);
                },
            }
        }
        Ok(removed)
    }

    /// Writes an entry to where the next bucket goes.
    fn append(&mut self, key: &K, value: &V, now: Timestamp)
        requires
            old(self)@.wf::<K, V>(),
            old(self)@.has_room(new_entry::<K, V>(*key, *value, now).need()),
        ensures
            final(self)@ == old(self)@.appended(new_entry::<K, V>(*key, *value, now)),
    {
        let ghost e = new_entry::<K, V>(*key, *value, now);
        let ghost r = self@;
        proof {
            lemma_offset_bound(r.area, r.bucket_count);
            lemma_round_up((e.key.len() + e.value.len()) as int, BUCKET_ALIGN as int);
        }
        let at: usize = self.used;
        let mut bucket: Bucket<K, V> = Bucket {
            value_size: 0,
            key_size: 0,
            phantom: PhantomData,
            last_accessed: now,
        };
        bucket.write(&mut self.area, at);
        self.bucket_count = self.bucket_count + 1;
        // The value goes behind the key, so the key has to be there first.
        bucket.set_key(&mut self.area, at, key);
        bucket.set_value(&mut self.area, at, value);
        self.used = self.used + bucket.size();
        proof {
            lemma_header_len(0, 0, now);
            lemma_header_len(0, e.key.len(), now);
            lemma_header_len(e.value.len(), e.key.len(), now);
            assert(self@.area =~= r.appended(e).area);
            assert(self@ =~= r.appended(e));
        }
    }
}

/// The entry that an insertion makes.
pub open spec fn new_entry<K: Storable, V: Storable>(key: K, value: V, now: Timestamp) -> Entry {
    Entry {
        key: K::encode(key.model()),
        value: V::encode(value.model()),
        last_accessed: now,
    }
}

/// What an insertion at `now` does to the map, and what it returns.
pub open spec fn inserted<K: Storable, V: Storable>(
    before: Region,
    key: K,
    value: V,
    now: Timestamp,
    result: Result<Option<V>, Error>,
    after: Region,
) -> bool {
    let e = new_entry::<K, V>(key, value, now);
    let need = e.need();
    let (r, removed) = before.forgotten::<K>(key.model()).shrunk::<K>(need, None);
    if need > before.size {
        &&& result == Err::<Option<V>, Error>(Error::TooLargeError)
        &&& after == before
    } else if !r.has_room(need) {
        &&& result == Err::<Option<V>, Error>(Error::TooLargeError)
        &&& after == r
        &&& r.bucket_count == 0
    } else {
        &&& result is Ok
        &&& stands_for::<V>(result->Ok_0, removed)
        &&& after == r.appended(e)
        &&& after.entries() == r.entries().push(e)
    }
}

/// What a lookup at `now` does to the map, and what it returns.
pub open spec fn looked_up<K: Storable, V: Storable>(
    before: Region,
    key: K::Model,
    now: Timestamp,
    result: Option<V>,
    after: Region,
) -> bool {
    match position::<K>(before.entries(), key) {
        Some(i) => {
            &&& result is Some
            &&& V::decoded(before.entries()[i].value) == Some(result->Some_0.model())
            &&& after == before.touched(i, now)
            &&& after.entries() == before.entries().update(
                i,
                Entry { last_accessed: now, ..before.entries()[i] },
            )
        },
        None => {
            &&& result is None
            &&& after == before
        },
    }
}

/// What taking an entry out does to the map, and what it returns.
pub open spec fn taken_out<K: Storable, V: Storable>(
    before: Region,
    key: K::Model,
    result: Option<V>,
    after: Region,
) -> bool {
    match position::<K>(before.entries(), key) {
        Some(i) => {
            &&& result is Some
            &&& V::decoded(before.entries()[i].value) == Some(result->Some_0.model())
            &&& after == before.without(i)
            &&& after.entries() == before.entries().remove(i)
        },
        None => {
            &&& result is None
            &&& after == before
        },
    }
}

/// What an eviction does to the map, and what it returns.
pub open spec fn evicted<K: Storable, V: Storable>(
    before: Region,
    result: Option<V>,
    after: Region,
) -> bool {
    if before.bucket_count == 0 {
        &&& result is None
        &&& after == before
    } else {
        let i = before.victim::<K>();
        &&& 0 <= i < before.bucket_count
        &&& result is Some
        &&& V::decoded(before.entries()[i].value) == Some(result->Some_0.model())
        &&& after == before.without(i)
        &&& after.entries() == before.entries().remove(i)
    }
}

/// The value is what the bytes decode to, or there is neither.
pub open spec fn stands_for<V: Storable>(value: Option<V>, bytes: Option<Seq<u8>>) -> bool {
    match bytes {
        Some(b) => value is Some && V::decoded(b) == Some(value->Some_0.model()),
        None => value is None,
    }
}

} // verus!
