//! A map without eviction: entries stay until they are taken out.
//!
//! The block of memory starts with one byte for the lock, the count of the
//! buckets in eight bytes, and the bytes that the buckets take in eight bytes.
//! The last of these is not counted in the block's size. The buckets follow,
//! one right behind the other: the key in eight bytes, the number of bytes of
//! the value in eight bytes, and the value's bytes.
use core::marker::PhantomData;
use vstd::prelude::*;
use vstd::slice::slice_subrange;
use crate::codec::Storable;
use crate::error::Error;
use crate::memory::{
    le_bytes, le_value, lemma_le_bounds, lemma_le_bytes, lemma_le_value, move_down, overwrite,
    push_le, read_u64, slide, write_bytes,
};

verus! {

/// Bytes that a bucket's header takes.
pub const BUCKET_SIZE: usize = 16;

/// Bytes of a block that are not there for buckets: the lock and the count.
pub const FIXED_SIZE: usize = 9;

/// Bytes of the two numbers in front of the buckets.
pub const CONTENTS_SIZE: usize = 16;

/// Bytes that `dump_data` shows.
pub const DUMP_SIZE: usize = 20;

/// A key that fits into eight bytes and is stored there as it is.
pub trait InlineKey: Sized {
    /// The key as a number.
    spec fn word(&self) -> u64;

    /// Different keys are different numbers.
    proof fn injective(a: Self, b: Self)
        requires
            a.word() == b.word(),
        ensures
            a == b,
    ;

    /// The key as a number.
    fn to_word(&self) -> (w: u64)
        ensures
            w == self.word(),
    ;
}

impl InlineKey for u8 {
    open spec fn word(&self) -> u64 {
        *self as u64
    }

    proof fn injective(a: u8, b: u8) {
    }

    fn to_word(&self) -> (w: u64) {
        *self as u64
    }
}

impl InlineKey for u16 {
    open spec fn word(&self) -> u64 {
        *self as u64
    }

    proof fn injective(a: u16, b: u16) {
    }

    fn to_word(&self) -> (w: u64) {
        *self as u64
    }
}

impl InlineKey for u32 {
    open spec fn word(&self) -> u64 {
        *self as u64
    }

    proof fn injective(a: u32, b: u32) {
    }

    fn to_word(&self) -> (w: u64) {
        *self as u64
    }
}

impl InlineKey for usize {
    open spec fn word(&self) -> u64 {
        *self as u64
    }

    proof fn injective(a: usize, b: usize) {
    }

    fn to_word(&self) -> (w: u64) {
        *self as u64
    }
}

impl InlineKey for u64 {
    open spec fn word(&self) -> u64 {
        *self
    }

    proof fn injective(a: u64, b: u64) {
    }

    fn to_word(&self) -> (w: u64) {
        *self
    }
}

impl InlineKey for i32 {
    open spec fn word(&self) -> u64 {
        (if *self < 0 {
            *self + 0x1_0000_0000
        } else {
            *self as int
        }) as u64
    }

    proof fn injective(a: i32, b: i32) {
    }

    fn to_word(&self) -> (w: u64) {
        if *self < 0 {
            (*self as i64 + 0x1_0000_0000) as u64
        } else {
            *self as u64
        }
    }
}

impl InlineKey for i8 {
    open spec fn word(&self) -> u64 {
        (if *self < 0 {
            *self + 0x100
        } else {
            *self as int
        }) as u64
    }

    proof fn injective(a: i8, b: i8) {
    }

    fn to_word(&self) -> (w: u64) {
        if *self < 0 {
            (*self as i64 + 0x100) as u64
        } else {
            *self as u64
        }
    }
}

impl InlineKey for i16 {
    open spec fn word(&self) -> u64 {
        (if *self < 0 {
            *self + 0x1_0000
        } else {
            *self as int
        }) as u64
    }

    proof fn injective(a: i16, b: i16) {
    }

    fn to_word(&self) -> (w: u64) {
        if *self < 0 {
            (*self as i64 + 0x1_0000) as u64
        } else {
            *self as u64
        }
    }
}

impl InlineKey for i64 {
    open spec fn word(&self) -> u64 {
        (if *self < 0 {
            *self + 0x1_0000_0000_0000_0000
        } else {
            *self as int
        }) as u64
    }

    proof fn injective(a: i64, b: i64) {
    }

    fn to_word(&self) -> (w: u64) {
        if *self < 0 {
            (*self as i128 + 0x1_0000_0000_0000_0000) as u64
        } else {
            *self as u64
        }
    }
}

/// What one bucket holds.
#[verifier::ext_equal]
pub struct Entry {
    pub key: u64,
    pub value: Seq<u8>,
}

pub open spec fn key_at(mem: Seq<u8>, at: int) -> u64 {
    le_value(mem.subrange(at, at + 8)) as u64
}

pub open spec fn value_size_at(mem: Seq<u8>, at: int) -> nat {
    le_value(mem.subrange(at + 8, at + 16))
}

/// Where the next bucket starts.
pub open spec fn next_at(mem: Seq<u8>, at: int) -> int {
    at + BUCKET_SIZE + value_size_at(mem, at)
}

/// The bucket lies inside the memory.
pub open spec fn bucket_fits(mem: Seq<u8>, at: int) -> bool {
    &&& 0 <= at
    &&& at + BUCKET_SIZE <= mem.len()
    &&& next_at(mem, at) <= mem.len()
}

/// What the bucket at `at` holds.
pub open spec fn entry_at(mem: Seq<u8>, at: int) -> Entry {
    Entry {
        key: key_at(mem, at),
        value: mem.subrange(at + BUCKET_SIZE, next_at(mem, at)),
    }
}

/// Where the `n`th bucket starts, when the first one starts at 0.
pub open spec fn offset_of(mem: Seq<u8>, n: nat) -> int
    decreases n,
{
    if n == 0 {
        0
    } else {
        next_at(mem, offset_of(mem, (n - 1) as nat))
    }
}

/// A whole bucket in memory.
pub open spec fn bucket_bytes(e: Entry) -> Seq<u8> {
    le_bytes(e.key as nat, 8) + le_bytes(e.value.len(), 8) + e.value
}

/// `i` is the first entry with that key.
pub open spec fn is_first_match(entries: Seq<Entry>, key: u64, i: int) -> bool {
    &&& 0 <= i < entries.len()
    &&& entries[i].key == key
    &&& forall|j: int| 0 <= j < i ==> (#[trigger] entries[j]).key != key
}

/// The place of the first entry with that key.
pub open spec fn position(entries: Seq<Entry>, key: u64) -> Option<int> {
    if exists|i: int| is_first_match(entries, key, i) {
        Some(choose|i: int| is_first_match(entries, key, i))
    } else {
        None
    }
}

/// The count of the buckets, the bytes that they take, and their memory.
#[verifier::ext_equal]
pub struct Region {
    pub bucket_count: nat,
    pub used: nat,
    pub area: Seq<u8>,
}

impl Region {
    /// Where the `i`th bucket starts.
    pub open spec fn offset(self, i: int) -> int {
        offset_of(self.area, i as nat)
    }

    /// Where the last bucket ends.
    pub open spec fn end(self) -> int {
        offset_of(self.area, self.bucket_count)
    }

    /// What the buckets hold.
    pub open spec fn entries(self) -> Seq<Entry> {
        Seq::new(self.bucket_count, |i: int| entry_at(self.area, self.offset(i)))
    }

    /// Every bucket lies inside the memory.
    pub open spec fn wf(self) -> bool {
        &&& self.area.len() + FIXED_SIZE <= usize::MAX
        &&& forall|i: nat|
            i < self.bucket_count ==> bucket_fits(self.area, #[trigger] offset_of(self.area, i))
        &&& self.used <= self.area.len()
    }

    /// A bucket has been written behind the last one.
    pub open spec fn appended(self, e: Entry) -> Region {
        Region {
            bucket_count: self.bucket_count + 1,
            used: (self.end() + bucket_bytes(e).len()) as nat,
            area: overwrite(self.area, self.end(), bucket_bytes(e)),
        }
    }

    /// The `i`th bucket is gone, and those behind it have moved down. The
    /// number of bytes in use is that after the last insertion.
    pub open spec fn without(self, i: int) -> Region {
        let at = self.offset(i);
        let next = self.offset(i + 1);
        Region {
            bucket_count: (self.bucket_count - 1) as nat,
            area: if i + 1 < self.bucket_count {
                slide(self.area, at, next, self.area.len() - next)
            } else {
                self.area
            },
            ..self
        }
    }

    /// No bucket counts any more.
    pub open spec fn cleared(self) -> Region {
        Region { bucket_count: 0, ..self }
    }
}

/// The model of a block of memory behind the lock: two numbers of eight bytes,
/// and the buckets behind them.
pub open spec fn region_in(memory: Seq<u8>) -> Region {
    Region {
        bucket_count: le_value(memory.subrange(0, 8)),
        used: le_value(memory.subrange(8, 16)),
        area: memory.skip(CONTENTS_SIZE as int),
    }
}

/// The block of memory that a model describes.
pub open spec fn image_of(r: Region) -> Seq<u8> {
    le_bytes(r.bucket_count, 8) + le_bytes(r.used, 8) + r.area
}

/// What is laid out in memory is what is found there.
pub proof fn law_region_in_image(r: Region)
    requires
        r.bucket_count <= u64::MAX,
        r.used <= u64::MAX,
    ensures
        region_in(image_of(r)) == r,
        image_of(r).len() == CONTENTS_SIZE + r.area.len(),
{
    lemma_le_bounds();
    lemma_le_bytes(r.bucket_count, 8);
    lemma_le_bytes(r.used, 8);
    let m = image_of(r);
    assert(m.subrange(0, 8) =~= le_bytes(r.bucket_count, 8));
    assert(m.subrange(8, 16) =~= le_bytes(r.used, 8));
    assert(m.skip(CONTENTS_SIZE as int) =~= r.area);
    assert(region_in(m) =~= r);
}

/// Memory that is read and laid out again stays what it is.
pub proof fn law_image_of_region(memory: Seq<u8>)
    requires
        CONTENTS_SIZE <= memory.len(),
    ensures
        image_of(region_in(memory)) == memory,
{
    lemma_le_value(memory.subrange(0, 8));
    lemma_le_value(memory.subrange(8, 16));
    assert(image_of(region_in(memory)) =~= memory);
}

proof fn lemma_position(entries: Seq<Entry>, key: u64, i: int)
    requires
        is_first_match(entries, key, i),
    ensures
        position(entries, key) == Some(i),
{
    let j = choose|j: int| is_first_match(entries, key, j);
    assert(is_first_match(entries, key, j));
    if j < i {
        assert(entries[j].key != key);
    }
    if i < j {
        assert(entries[i].key != key);
    }
}

/// Where a key stands, if it stands anywhere.
proof fn lemma_found(entries: Seq<Entry>, key: u64)
    ensures
        position(entries, key) is Some ==> is_first_match(
            entries,
            key,
            position(entries, key)->Some_0,
        ),
        position(entries, key) is None ==> forall|j: int|
            0 <= j < entries.len() ==> (#[trigger] entries[j]).key != key,
{
    if position(entries, key) is None {
        assert forall|j: int| 0 <= j < entries.len() implies (#[trigger] entries[j]).key != key by {
            if entries[j].key == key {
                lemma_first_exists(entries, key, j);
            }
        }
    }
}

proof fn lemma_first_exists(entries: Seq<Entry>, key: u64, i: int)
    requires
        0 <= i < entries.len(),
        entries[i].key == key,
    ensures
        exists|j: int| is_first_match(entries, key, j),
    decreases i,
{
    if forall|j: int| 0 <= j < i ==> (#[trigger] entries[j]).key != key {
        assert(is_first_match(entries, key, i));
    } else {
        let j = choose|j: int| 0 <= j < i && (#[trigger] entries[j]).key == key;
        lemma_first_exists(entries, key, j);
    }
}

/// A bucket holds the same wherever its bytes lie.
proof fn lemma_bucket_moved(m1: Seq<u8>, p: int, m2: Seq<u8>, q: int)
    requires
        bucket_fits(m1, p),
        0 <= q,
        q + next_at(m1, p) - p <= m2.len(),
        forall|i: int| p <= i < next_at(m1, p) ==> #[trigger] m1[i] == m2[i - p + q],
    ensures
        bucket_fits(m2, q),
        entry_at(m2, q) == entry_at(m1, p),
        next_at(m2, q) - q == next_at(m1, p) - p,
{
    assert(m1.subrange(p, p + 8) =~= m2.subrange(q, q + 8));
    assert(m1.subrange(p + 8, p + 16) =~= m2.subrange(q + 8, q + 16));
    assert(entry_at(m1, p).value =~= entry_at(m2, q).value);
}

proof fn lemma_offsets(mem: Seq<u8>, i: nat, n: nat)
    requires
        i <= n,
    ensures
        0 <= offset_of(mem, i) <= offset_of(mem, n),
        i < n ==> next_at(mem, offset_of(mem, i)) <= offset_of(mem, n),
        i < n ==> offset_of(mem, i) + BUCKET_SIZE <= offset_of(mem, n),
        offset_of(mem, n) >= BUCKET_SIZE * n,
    decreases n,
{
    if i < n {
        lemma_offsets(mem, i, (n - 1) as nat);
    } else if n > 0 {
        lemma_offsets(mem, (n - 1) as nat, (n - 1) as nat);
    }
}

proof fn lemma_end(r: Region)
    requires
        r.wf(),
    ensures
        0 <= r.end() <= r.area.len(),
        r.bucket_count <= r.area.len(),
{
    lemma_offsets(r.area, r.bucket_count, r.bucket_count);
    if r.bucket_count > 0 {
        assert(bucket_fits(r.area, offset_of(r.area, (r.bucket_count - 1) as nat)));
    }
}

/// Two memories that agree up to `limit` have the same buckets up to there.
proof fn lemma_same_front(m1: Seq<u8>, m2: Seq<u8>, limit: int, n: nat)
    requires
        m1.len() == m2.len(),
        limit <= m1.len(),
        forall|i: int| 0 <= i < limit ==> #[trigger] m1[i] == m2[i],
        forall|k: nat| k < n ==> bucket_fits(m1, #[trigger] offset_of(m1, k)),
        offset_of(m1, n) <= limit,
    ensures
        forall|k: nat| k <= n ==> #[trigger] offset_of(m2, k) == offset_of(m1, k),
        forall|k: nat|
            k < n ==> {
                &&& bucket_fits(m2, #[trigger] offset_of(m2, k))
                &&& entry_at(m2, offset_of(m2, k)) == entry_at(m1, offset_of(m1, k))
            },
    decreases n,
{
    if n > 0 {
        let p: nat = (n - 1) as nat;
        lemma_offsets(m1, p, n);
        lemma_same_front(m1, m2, limit, p);
        assert(offset_of(m2, p) == offset_of(m1, p));
        assert(bucket_fits(m1, offset_of(m1, p)));
        lemma_bucket_moved(m1, offset_of(m1, p), m2, offset_of(m2, p));
        assert(offset_of(m2, n) == offset_of(m1, n));
    }
}

/// A bucket that is written behind the others follows them and changes none.
proof fn lemma_appended(r: Region, e: Entry)
    requires
        r.wf(),
        r.end() + BUCKET_SIZE + e.value.len() <= r.area.len(),
    ensures
        bucket_bytes(e).len() == BUCKET_SIZE + e.value.len(),
        r.appended(e).wf(),
        r.appended(e).entries() == r.entries().push(e),
        r.appended(e).end() == r.appended(e).used,
{
    let n = r.bucket_count;
    let r2 = r.appended(e);
    let b = bucket_bytes(e);
    let at = r.end();
    lemma_le_bytes(e.key as nat, 8);
    lemma_le_bytes(e.value.len(), 8);
    lemma_le_bounds();
    lemma_end(r);
    lemma_same_front(r.area, r2.area, at, n);
    let m = r2.area;
    assert(m.subrange(at, at + 8) =~= le_bytes(e.key as nat, 8));
    assert(m.subrange(at + 8, at + 16) =~= le_bytes(e.value.len(), 8));
    assert(m.subrange(at + BUCKET_SIZE, at + b.len()) =~= e.value);
    assert(entry_at(m, at) =~= e);
    assert(offset_of(m, n) == at);
    assert(r2.end() == next_at(m, offset_of(m, n)));
    assert(r2.entries() =~= r.entries().push(e));
}

/// The bytes of a bucket behind one that is taken out move down by its size.
proof fn lemma_bytes_moved_down(r: Region, i: int, j: int)
    requires
        r.wf(),
        0 <= i < j < r.bucket_count,
    ensures
        ({
            let from = r.offset(j);
            let to = from - (r.offset(i + 1) - r.offset(i));
            &&& bucket_fits(r.without(i).area, to)
            &&& entry_at(r.without(i).area, to) == entry_at(r.area, from)
            &&& next_at(r.without(i).area, to) - to == next_at(r.area, from) - from
        }),
{
    let m1 = r.area;
    let from = r.offset(j);
    lemma_offsets(m1, i as nat, (i + 1) as nat);
    lemma_offsets(m1, (i + 1) as nat, j as nat);
    assert(bucket_fits(m1, offset_of(m1, j as nat)));
    lemma_bucket_moved(m1, from, r.without(i).area, from - (r.offset(i + 1) - r.offset(i)));
}

proof fn lemma_stays(r: Region, i: int)
    requires
        r.wf(),
        0 <= i,
        i + 1 < r.bucket_count,
    ensures
        forall|k: nat|
            k <= i ==> #[trigger] offset_of(r.without(i).area, k) == offset_of(r.area, k),
        forall|k: nat|
            k < i ==> {
                &&& bucket_fits(r.without(i).area, #[trigger] offset_of(r.without(i).area, k))
                &&& entry_at(r.without(i).area, offset_of(r.without(i).area, k)) == entry_at(
                    r.area,
                    offset_of(r.area, k),
                )
            },
{
    assert(bucket_fits(r.area, offset_of(r.area, i as nat)));
    assert(bucket_fits(r.area, offset_of(r.area, (i + 1) as nat)));
    lemma_same_front(r.area, r.without(i).area, r.offset(i), i as nat);
}

proof fn lemma_moved_down(r: Region, i: int, j: int)
    requires
        r.wf(),
        0 <= i <= j < r.bucket_count,
        i + 1 < r.bucket_count,
    ensures
        r.without(i).offset(j) == r.offset(j + 1) - (r.offset(i + 1) - r.offset(i)),
    decreases j,
{
    if j > i {
        lemma_moved_down(r, i, j - 1);
        lemma_bytes_moved_down(r, i, j);
        assert(r.without(i).offset(j) == next_at(
            r.without(i).area,
            r.without(i).offset(j - 1),
        ));
        assert(r.offset(j + 1) == next_at(r.area, r.offset(j)));
    } else {
        lemma_stays(r, i);
        assert(offset_of(r.without(i).area, i as nat) == offset_of(r.area, i as nat));
    }
}

proof fn lemma_entry_without(r: Region, i: int, k: int)
    requires
        r.wf(),
        0 <= i < r.bucket_count,
        0 <= k < r.bucket_count - 1,
    ensures
        bucket_fits(r.without(i).area, r.without(i).offset(k)),
        entry_at(r.without(i).area, r.without(i).offset(k)) == r.entries().remove(i)[k],
{
    let m2 = r.without(i).area;
    if i + 1 < r.bucket_count {
        if k < i {
            lemma_stays(r, i);
            assert(bucket_fits(m2, offset_of(m2, k as nat)));
        } else {
            lemma_moved_down(r, i, k);
            lemma_bytes_moved_down(r, i, k + 1);
        }
    } else {
        assert(bucket_fits(r.area, offset_of(r.area, k as nat)));
    }
}

/// Taking a bucket out leaves the others, in their order.
proof fn lemma_without(r: Region, i: int)
    requires
        r.wf(),
        0 <= i < r.bucket_count,
    ensures
        r.without(i).wf(),
        r.without(i).entries() == r.entries().remove(i),
{
    let r2 = r.without(i);
    let n = r.bucket_count;
    assert forall|k: nat| k < r2.bucket_count implies bucket_fits(
        r2.area,
        #[trigger] offset_of(r2.area, k),
    ) by {
        lemma_entry_without(r, i, k as int);
    }
    assert forall|k: int| 0 <= k < n - 1 implies #[trigger] r2.entries()[k]
        == r.entries().remove(i)[k] by {
        lemma_entry_without(r, i, k);
    }
    assert(r2.entries() =~= r.entries().remove(i));
}

/// The header of a bucket, taken out of the memory that it stands in.
#[derive(Debug)]
pub struct Bucket<K, V> {
    pub key: u64,
    pub value_size: usize,
    pub phantom: PhantomData<(K, V)>,
}

impl<K: InlineKey, V: Storable> Bucket<K, V> {
    /// This is the header that stands at `at`.
    pub open spec fn stands_at(self, mem: Seq<u8>, at: int) -> bool {
        &&& bucket_fits(mem, at)
        &&& self.key == key_at(mem, at)
        &&& self.value_size == value_size_at(mem, at)
    }

    /// Reads the header at `at`.
    pub fn read(mem: &[u8], at: usize) -> (bucket: Self)
        requires
            bucket_fits(mem@, at as int),
        ensures
            bucket.stands_at(mem@, at as int),
    {
        proof {
            assert(mem.len() == mem@.len());
            lemma_le_value(mem@.subrange(at as int, at + 8));
            lemma_le_bounds();
        }
        let key: u64 = read_u64(mem, at);
        let value_size: u64 = read_u64(mem, at + 8);
        Bucket { key, value_size: value_size as usize, phantom: PhantomData }
    }

    /// The value of the bucket at `at`, if its bytes are a value's.
    pub fn get_value(&self, mem: &[u8], at: usize) -> (r: Option<V>)
        requires
            self.stands_at(mem@, at as int),
        ensures
            match V::decoded(entry_at(mem@, at as int).value) {
                Some(v) => r is Some && r->Some_0.model() == v,
                None => r is None,
            },
    {
        assert(mem.len() == mem@.len());
        let p: usize = at + BUCKET_SIZE;
        V::deserialize(slice_subrange(mem, p, p + self.value_size))
    }

    /// Writes the bucket with this value to `at`.
    pub fn set_value(&mut self, mem: &mut Vec<u8>, at: usize, value: &V)
        requires
            at + BUCKET_SIZE + V::encode(value.model()).len() <= old(mem)@.len(),
        ensures
            final(self).key == old(self).key,
            final(self).value_size == V::encode(value.model()).len(),
            final(mem)@ == overwrite(
                old(mem)@,
                at as int,
                bucket_bytes(Entry { key: old(self).key, value: V::encode(value.model()) }),
            ),
    {
        let value: Vec<u8> = value.serialize();
        self.value_size = value.len();
        let mut bytes: Vec<u8> = Vec::new();
        push_le(&mut bytes, self.key, 8);
        push_le(&mut bytes, self.value_size as u64, 8);
        bytes.extend_from_slice(value.as_slice());
        proof {
            lemma_le_bytes(self.key as nat, 8);
            lemma_le_bytes(self.value_size as nat, 8);
            assert(bytes@ =~= bucket_bytes(Entry { key: self.key, value: value@ }));
        }
        write_bytes(mem, at, bytes.as_slice());
    }

    /// Where the next bucket starts, for a bucket at `at`.
    pub fn next(&self, at: usize) -> (p: usize)
        requires
            at + BUCKET_SIZE + self.value_size <= usize::MAX,
        ensures
            p == at + BUCKET_SIZE + self.value_size,
    {
        at + BUCKET_SIZE + self.value_size
    }
}

/// The map.
pub struct SharedMemoryHashMap<K, V> {
    bucket_count: usize,
    used: usize,
    area: Vec<u8>,
    phantom: PhantomData<(K, V)>,
}

impl<K, V> View for SharedMemoryHashMap<K, V> {
    type V = Region;

    closed spec fn view(&self) -> Region {
        Region {
            bucket_count: self.bucket_count as nat,
            used: self.used as nat,
            area: self.area@,
        }
    }
}

/// Walks over the buckets, from the first to the last.
pub struct SharedMemoryHashMapIter<'a, K, V> {
    pub current: usize,
    pub current_ptr: usize,
    pub hashmap: &'a SharedMemoryHashMap<K, V>,
}

impl<'a, K: InlineKey, V: Storable> SharedMemoryHashMapIter<'a, K, V> {
    /// `current` buckets have been handed out, and the next one starts at
    /// `current_ptr`.
    pub open spec fn wf(self) -> bool {
        &&& self.hashmap@.wf()
        &&& self.current <= self.hashmap@.bucket_count
        &&& self.current_ptr == self.hashmap@.offset(self.current as int)
    }

    /// The place and the header of the next bucket, if there is one.
    pub fn next(&mut self) -> (r: Option<(usize, Bucket<K, V>)>)
        requires
            old(self).wf(),
        ensures
            final(self).wf(),
            final(self).hashmap == old(self).hashmap,
            match r {
                Some((at, bucket)) => {
                    &&& old(self).current < old(self).hashmap@.bucket_count
                    &&& final(self).current == old(self).current + 1
                    &&& at == old(self).hashmap@.offset(old(self).current as int)
                    &&& bucket.stands_at(old(self).hashmap@.area, at as int)
                },
                None => {
                    &&& old(self).current == old(self).hashmap@.bucket_count
                    &&& final(self).current == old(self).current
                },
            },
    {
        if self.current < self.hashmap.bucket_count {
            let at: usize = self.current_ptr;
            let ghost n: nat = self.current as nat;
            let ghost mem = self.hashmap@.area;
            assert(bucket_fits(mem, offset_of(mem, n)));
            let bucket: Bucket<K, V> = Bucket::read(self.hashmap.area.as_slice(), at);
            self.current = self.current + 1;
            self.current_ptr = bucket.next(at);
            assert(offset_of(mem, n + 1) == next_at(mem, offset_of(mem, n)));
            Some((at, bucket))
        } else {
            None
        }
    }
}

/// What an insertion does to the map, and what it returns.
pub open spec fn inserted<K: InlineKey, V: Storable>(
    before: Region,
    key: K,
    value: V,
    result: Result<(), Error>,
    after: Region,
) -> bool {
    let e = Entry { key: key.word(), value: V::encode(value.model()) };
    if before.end() + BUCKET_SIZE + e.value.len() > before.area.len() {
        &&& result == Err::<(), Error>(Error::TooLargeError)
        &&& after == before
    } else {
        &&& result is Ok
        &&& after == before.appended(e)
        &&& after.entries() == before.entries().push(e)
        &&& after.used == before.end() + BUCKET_SIZE + e.value.len()
    }
}

impl<K: InlineKey, V: Storable> SharedMemoryHashMap<K, V> {
    /// A map without entries in a block of `size` bytes.
    pub fn new(size: usize) -> (map: Self)
        requires
            FIXED_SIZE <= size,
        ensures
            map@.wf(),
            map@.bucket_count == 0,
            map@.used == 0,
            map@.area.len() == size - FIXED_SIZE,
            map@.entries() == Seq::<Entry>::empty(),
    {
        let room: usize = size - FIXED_SIZE;
        let map = SharedMemoryHashMap {
            bucket_count: 0,
            used: 0,
            area: vec![0u8; room],
            phantom: PhantomData,
        };
        assert(map@.entries() =~= Seq::<Entry>::empty());
        map
    }

    /// Whether every bucket lies inside the memory.
    fn is_intact(&self) -> (r: bool)
        ensures
            r == self@.wf(),
    {
        let ghost r = self@;
        let len: usize = self.area.len();
        if len > usize::MAX - FIXED_SIZE || self.used > len {
            return false;
        }
        let mut at: usize = 0;
        let mut i: usize = 0;
        while i < self.bucket_count
            invariant
                r == self@,
                len == r.area.len(),
                len + FIXED_SIZE <= usize::MAX,
                i <= r.bucket_count,
                at == offset_of(r.area, i as nat),
                at <= len,
                forall|k: nat| k < i ==> bucket_fits(r.area, #[trigger] offset_of(r.area, k)),
            decreases r.bucket_count - i,
        {
            if len < BUCKET_SIZE || at > len - BUCKET_SIZE {
                assert(!bucket_fits(r.area, offset_of(r.area, i as nat)));
                return false;
            }
            let behind: u64 = (len - at - BUCKET_SIZE) as u64;
            let value_size: u64 = read_u64(self.area.as_slice(), at + 8);
            if value_size > behind {
                assert(!bucket_fits(r.area, offset_of(r.area, i as nat)));
                return false;
            }
            proof {
                assert(bucket_fits(r.area, offset_of(r.area, i as nat)));
                assert(offset_of(r.area, (i + 1) as nat) == next_at(r.area, at as int));
            }
            at = at + BUCKET_SIZE + value_size as usize;
            i = i + 1;
        }
        true
    }

    /// The map that lies in `memory`, behind the lock, if all of it is in
    /// order.
    pub fn load(memory: &[u8]) -> (r: Option<Self>)
        ensures
            r is Some <==> CONTENTS_SIZE <= memory@.len() && region_in(memory@).wf(),
            r matches Some(map) ==> map@ == region_in(memory@),
    {
        if memory.len() < CONTENTS_SIZE {
            return None;
        }
        let bucket_count: u64 = read_u64(memory, 0);
        let used: u64 = read_u64(memory, 8);
        proof {
            let r = region_in(memory@);
            if r.wf() {
                lemma_end(r);
            }
        }
        if bucket_count > usize::MAX as u64 || used > usize::MAX as u64 {
            return None;
        }
        let mut area: Vec<u8> = Vec::new();
        area.extend_from_slice(slice_subrange(memory, CONTENTS_SIZE, memory.len()));
        let map = SharedMemoryHashMap {
            bucket_count: bucket_count as usize,
            used: used as usize,
            area,
            phantom: PhantomData,
        };
        proof {
            assert(map@.area =~= memory@.skip(CONTENTS_SIZE as int));
            assert(map@ =~= region_in(memory@));
        }
        if map.is_intact() {
            Some(map)
        } else {
            None
        }
    }

    /// The memory that the map lies in, behind the lock.
    pub fn image(&self) -> (memory: Vec<u8>)
        ensures
            memory@ == image_of(self@),
            region_in(memory@) == self@,
    {
        let mut memory: Vec<u8> = Vec::new();
        push_le(&mut memory, self.bucket_count as u64, 8);
        push_le(&mut memory, self.used as u64, 8);
        memory.extend_from_slice(self.area.as_slice());
        proof {
            assert(memory@ =~= image_of(self@));
            law_region_in_image(self@);
        }
        memory
    }

    /// Starts a walk over the buckets.
    pub fn bucket_iter(&self) -> (iter: SharedMemoryHashMapIter<'_, K, V>)
        requires
            self@.wf(),
        ensures
            iter.wf(),
            iter.current == 0,
            iter.hashmap == self,
    {
        SharedMemoryHashMapIter { current: 0, current_ptr: 0, hashmap: self }
    }

    /// Like `try_insert`, but does not say what went wrong.
    pub fn insert(&mut self, key: K, value: V) -> (r: Option<()>)
        requires
            old(self)@.wf(),
        ensures
            final(self)@.wf(),
            inserted::<K, V>(
                old(self)@,
                key,
                value,
                (if r is Some {
                    Ok(())
                } else {
                    Err(Error::TooLargeError)
                }),
                final(self)@,
            ),
    {
        match self.try_insert(key, value) {
            Ok(()) => Some(()),
            Err(_) => None,
        }
    }

    /// Puts an entry in behind the others, if there is room for it. An entry
    /// with the same key is not replaced, and hides the new one.
    pub fn try_insert(&mut self, key: K, value: V) -> (result: Result<(), Error>)
        requires
            old(self)@.wf(),
        ensures
            final(self)@.wf(),
            inserted::<K, V>(old(self)@, key, value, result, final(self)@),
    {
        let value_size: u64 = value.serialized_size();
        let ghost r = self@;
        let ghost e = Entry { key: key.word(), value: V::encode(value.model()) };
        proof {
            lemma_end(r);
        }
        let at: usize = self.last_end();
        let behind: usize = self.area.len() - at;
        if behind < BUCKET_SIZE || value_size > (behind - BUCKET_SIZE) as u64 {
            return Err(Error::TooLargeError);
        }
        proof {
            lemma_appended(r, e);
        }
        let mut bucket: Bucket<K, V> = Bucket {
            key: key.to_word(),
            value_size: 0,
            phantom: PhantomData,
        };
        self.bucket_count = self.bucket_count + 1;
        bucket.set_value(&mut self.area, at, &value);
        self.used = bucket.next(at);
        assert(self@ =~= r.appended(e));
        Ok(())
    }

    /// Where the last bucket ends.
    fn last_end(&self) -> (at: usize)
        requires
            self@.wf(),
        ensures
            at == self@.end(),
    {
        let mut iter = self.bucket_iter();
        loop
            invariant
                iter.wf(),
                iter.hashmap == self,
            decreases self@.bucket_count - iter.current,
        {
            let at: usize = iter.current_ptr;
            if iter.next().is_none() {
                return at;
            }
        }
    }

    /// Which bucket is the first with that key, and where it starts.
    fn find(&self, key: &K) -> (r: Option<(usize, usize)>)
        requires
            self@.wf(),
        ensures
            match r {
                Some((i, at)) => {
                    &&& position(self@.entries(), key.word()) == Some(i as int)
                    &&& i < self@.bucket_count
                    &&& at == self@.offset(i as int)
                    &&& bucket_fits(self@.area, at as int)
                },
                None => position(self@.entries(), key.word()) is None,
            },
    {
        let word: u64 = key.to_word();
        let mut iter = self.bucket_iter();
        loop
            invariant
                iter.wf(),
                iter.hashmap == self,
                self@.wf(),
                word == key.word(),
                forall|j: int|
                    0 <= j < iter.current ==> (#[trigger] self@.entries()[j]).key != word,
            decreases self@.bucket_count - iter.current,
        {
            let i: usize = iter.current;
            match iter.next() {
                Some((at, bucket)) => {
                    if bucket.key == word {
                        proof {
                            assert(is_first_match(self@.entries(), word, i as int));
                            lemma_position(self@.entries(), word, i as int);
                        }
                        return Some((i, at));
                    }
                },
                None => {
                    return None;
                },
            }
        }
    }

    /// The value of the first entry with that key, if its bytes are a value's.
    pub fn get(&self, key: &K) -> (r: Option<V>)
        requires
            self@.wf(),
        ensures
            match position(self@.entries(), key.word()) {
                Some(i) => match V::decoded(self@.entries()[i].value) {
                    Some(v) => r is Some && r->Some_0.model() == v,
                    None => r is None,
                },
                None => r is None,
            },
    {
        match self.find(key) {
            Some((i, at)) => {
                let bucket: Bucket<K, V> = Bucket::read(self.area.as_slice(), at);
                bucket.get_value(self.area.as_slice(), at)
            },
            None => None,
        }
    }

    /// Takes the first entry with that key out. Nothing is returned of it.
    pub fn remove(&mut self, key: &K) -> (r: Option<V>)
        requires
            old(self)@.wf(),
        ensures
            r is None,
            final(self)@.wf(),
            match position(old(self)@.entries(), key.word()) {
                Some(i) => {
                    &&& final(self)@ == old(self)@.without(i)
                    &&& final(self)@.entries() == old(self)@.entries().remove(i)
                },
                None => final(self)@ == old(self)@,
            },
            final(self)@.used == old(self)@.used,
            final(self)@.area.len() == old(self)@.area.len(),
    {
        match self.find(key) {
            Some((i, at)) => {
                let ghost r = self@;
                proof {
                    lemma_without(r, i as int);
                    assert(r.offset(i + 1) == next_at(r.area, r.offset(i as int)));
                }
                let bucket: Bucket<K, V> = Bucket::read(self.area.as_slice(), at);
                let followed: bool = i + 1 < self.bucket_count;
                self.bucket_count = self.bucket_count - 1;
                if followed {
                    let next: usize = bucket.next(at);
                    let behind: usize = self.area.len() - next;
                    move_down(&mut self.area, at, next, behind);
                }
                assert(self@ =~= r.without(i as int));
                None
            },
            None => None,
        }
    }

    /// Number of entries.
    pub fn len(&self) -> (n: usize)
        ensures
            n == self@.bucket_count,
            n == self@.entries().len(),
    {
        self.bucket_count
    }

    /// Whether there is no entry.
    pub fn is_empty(&self) -> (r: bool)
        ensures
            r == (self@.bucket_count == 0),
    {
        self.len() == 0
    }

    /// Bytes that the buckets took after the last insertion.
    pub fn used(&self) -> (n: usize)
        ensures
            n == self@.used,
    {
        self.used
    }

    /// Bytes of the block that the buckets did not take after the last
    /// insertion, those in front of the buckets among them.
    pub fn free(&self) -> (n: usize)
        requires
            self@.wf(),
        ensures
            n == FIXED_SIZE + self@.area.len() - self@.used,
    {
        FIXED_SIZE + self.area.len() - self.used
    }

    /// Whether there is an entry with that key.
    pub fn contains_key(&self, key: &K) -> (r: bool)
        requires
            self@.wf(),
        ensures
            r == (position(self@.entries(), key.word()) is Some),
    {
        self.find(key).is_some()
    }

    /// Drops all entries.
    pub fn clear(&mut self)
        requires
            old(self)@.wf(),
        ensures
            final(self)@ == old(self)@.cleared(),
            final(self)@.wf(),
            final(self)@.entries() == Seq::<Entry>::empty(),
            final(self)@.used == old(self)@.used,
            final(self)@.area == old(self)@.area,
    {
        self.bucket_count = 0;
        assert(self@ =~= old(self)@.cleared());
        assert(self@.entries() =~= Seq::<Entry>::empty());
    }

    /// The first bytes of the memory of the buckets.
    pub fn dump_data(&self) -> (bytes: Vec<u8>)
        requires
            DUMP_SIZE <= self@.area.len(),
        ensures
            bytes@ == self@.area.take(DUMP_SIZE as int),
    {
        let mut bytes: Vec<u8> = Vec::new();
        bytes.extend_from_slice(slice_subrange(self.area.as_slice(), 0, DUMP_SIZE));
        assert(bytes@ =~= self@.area.take(DUMP_SIZE as int));
        bytes
    }
}

/// The value that a lookup of the key gives.
pub open spec fn value_of<V: Storable>(r: Region, key: u64) -> Option<V::Model> {
    match position(r.entries(), key) {
        Some(i) => V::decoded(r.entries()[i].value),
        None => None,
    }
}

/// A read gives back what was written under a key that was not there; a key
/// that was there keeps its value, and so does every other key.
pub proof fn law_insert<K: InlineKey, V: Storable>(
    before: Region,
    key: K,
    value: V,
    result: Result<(), Error>,
    after: Region,
    other: K,
)
    requires
        before.wf(),
        inserted::<K, V>(before, key, value, result, after),
    ensures
        after.wf(),
        result is Ok <==> before.end() + BUCKET_SIZE + V::encode(value.model()).len()
            <= before.area.len(),
        result is Ok && position(before.entries(), key.word()) is None ==> value_of::<V>(
            after,
            key.word(),
        ) == Some(value.model()),
        position(before.entries(), other.word()) is Some || other != key ==> value_of::<V>(
            after,
            other.word(),
        ) == value_of::<V>(before, other.word()),
        result is Err ==> after == before,
        result is Ok ==> after.bucket_count == before.bucket_count + 1,
        result is Ok && before.used == before.end() ==> after.used == before.used + BUCKET_SIZE
            + V::encode(value.model()).len(),
        result is Ok ==> after.used == after.end(),
{
    let e = Entry { key: key.word(), value: V::encode(value.model()) };
    if result is Ok {
        lemma_end(before);
        lemma_appended(before, e);
        V::decoded_encode(value.model());
        let a = before.entries();
        let b = after.entries();
        lemma_found(a, key.word());
        lemma_found(a, other.word());
        lemma_found(b, other.word());
        assert forall|j: int| 0 <= j < a.len() implies #[trigger] b[j] == a[j] by {}
        if position(a, key.word()) is None {
            assert(is_first_match(b, key.word(), a.len() as int));
            lemma_position(b, key.word(), a.len() as int);
        }
        if let Some(i) = position(a, other.word()) {
            assert(is_first_match(b, other.word(), i));
            lemma_position(b, other.word(), i);
        } else if other != key {
            if other.word() == key.word() {
                K::injective(other, key);
            }
            if let Some(i) = position(b, other.word()) {
                assert(b[i] == e || b[i] == a[i]);
            }
        }
    }
}

/// Taking an entry out leaves every other key its value; the key is gone if it
/// was there once.
pub proof fn law_remove<V: Storable>(before: Region, i: int, other: u64)
    requires
        before.wf(),
        0 <= i < before.bucket_count,
        position(before.entries(), before.entries()[i].key) == Some(i),
    ensures
        before.without(i).wf(),
        before.without(i).bucket_count == before.bucket_count - 1,
        other != before.entries()[i].key ==> value_of::<V>(before.without(i), other)
            == value_of::<V>(before, other),
        (forall|j: int|
            i < j < before.entries().len() ==> (#[trigger] before.entries()[j]).key
                != before.entries()[i].key) ==> position(
            before.without(i).entries(),
            before.entries()[i].key,
        ) is None,
{
    lemma_without(before, i);
    let a = before.entries();
    let b = before.without(i).entries();
    let key = a[i].key;
    lemma_found(a, key);
    lemma_found(a, other);
    lemma_found(b, other);
    lemma_found(b, key);
    assert forall|k: int| 0 <= k < b.len() implies #[trigger] b[k] == (if k < i {
        a[k]
    } else {
        a[k + 1]
    }) by {}
    if other != key {
        if let Some(j) = position(a, other) {
            let x: int = if j < i {
                j
            } else {
                j - 1
            };
            assert(b[x] == a[j]);
            assert(is_first_match(b, other, x));
            lemma_position(b, other, x);
        } else if let Some(x) = position(b, other) {
            let j: int = if x < i {
                x
            } else {
                x + 1
            };
            assert(b[x] == a[j]);
        }
    }
}

/// After a clearing no key is there.
pub proof fn law_clear<V: Storable>(before: Region, key: u64)
    requires
        before.wf(),
    ensures
        before.cleared().wf(),
        before.cleared().bucket_count == 0,
        position(before.cleared().entries(), key) is None,
        value_of::<V>(before.cleared(), key) is None,
{
    lemma_found(before.cleared().entries(), key);
}

/// Bytes that the buckets of some entries take.
pub open spec fn taken(entries: Seq<Entry>) -> int
    decreases entries.len(),
{
    if entries.len() == 0 {
        0
    } else {
        taken(entries.drop_last()) + BUCKET_SIZE + entries.last().value.len()
    }
}

proof fn lemma_offset_is_taken(r: Region, n: nat)
    requires
        r.wf(),
        n <= r.bucket_count,
    ensures
        offset_of(r.area, n) == taken(r.entries().take(n as int)),
    decreases n,
{
    if n > 0 {
        let p: nat = (n - 1) as nat;
        let front = r.entries().take(n as int);
        lemma_offset_is_taken(r, p);
        assert(front.drop_last() =~= r.entries().take(p as int));
        assert(bucket_fits(r.area, offset_of(r.area, p)));
        assert(front.last() == entry_at(r.area, offset_of(r.area, p)));
    }
}

/// The last bucket ends where the sum of all of them says: each takes 16 bytes
/// and those of its value.
pub proof fn law_end(r: Region, entries: Seq<Entry>, e: Entry)
    requires
        r.wf(),
    ensures
        r.end() == taken(r.entries()),
        r.entries().len() == r.bucket_count,
        taken(Seq::<Entry>::empty()) == 0,
        taken(entries.push(e)) == taken(entries) + 16 + e.value.len(),
{
    lemma_offset_is_taken(r, r.bucket_count);
    assert(r.entries().take(r.bucket_count as int) =~= r.entries());
    assert(entries.push(e).drop_last() =~= entries);
}

/// What an insertion does: it succeeds exactly if the bucket fits behind the
/// others, and puts it there; if not, nothing changes.
pub proof fn law_insert_in_full<K: InlineKey, V: Storable>(
    before: Region,
    key: K,
    value: V,
    result: Result<(), Error>,
    after: Region,
)
    requires
        before.wf(),
        inserted::<K, V>(before, key, value, result, after),
    ensures
        after.area.len() == before.area.len(),
        ({
            let bytes = V::encode(value.model());
            let behind = taken(before.entries()) + 16 + bytes.len();
            if behind <= before.area.len() {
                &&& result is Ok
                &&& after.entries() == before.entries().push(
                    Entry { key: key.word(), value: bytes },
                )
                &&& after.used == behind
            } else {
                &&& result == Err::<(), Error>(Error::TooLargeError)
                &&& after == before
            }
        }),
{
    law_end(before, before.entries(), Entry { key: key.word(), value: V::encode(value.model()) });
}

/// Where a key is found: at the first of the entries that have it, if one has
/// it.
pub proof fn law_position(entries: Seq<Entry>, key: u64)
    ensures
        position(entries, key) is Some <==> exists|i: int|
            0 <= i < entries.len() && (#[trigger] entries[i]).key == key,
        position(entries, key) matches Some(i) ==> {
            &&& 0 <= i < entries.len()
            &&& entries[i].key == key
            &&& forall|j: int| 0 <= j < i ==> (#[trigger] entries[j]).key != key
        },
{
    lemma_found(entries, key);
    if let Some(i) = position(entries, key) {
        assert(entries[i].key == key);
    }
}

/// An unsigned key is stored as it is, and a signed one as its two's complement
/// in its own width.
pub proof fn law_words(a: u8, b: u16, c: u32, d: u64, e: usize, f: i8, g: i16, h: i32, i: i64)
    ensures
        a.word() == a,
        b.word() == b,
        c.word() == c,
        d.word() == d,
        e.word() == e,
        f.word() == (if f < 0 {
            f + 0x100
        } else {
            f as int
        }),
        g.word() == (if g < 0 {
            g + 0x1_0000
        } else {
            g as int
        }),
        h.word() == (if h < 0 {
            h + 0x1_0000_0000
        } else {
            h as int
        }),
        i.word() == (if i < 0 {
            i + 0x1_0000_0000_0000_0000
        } else {
            i as int
        }),
{
}

/// Where the bytes of an entry lie: one bucket right behind the other, each with
/// its key and the number of bytes of its value in front of the value.
pub proof fn law_layout(r: Region, i: int)
    requires
        r.wf(),
        0 <= i < r.bucket_count,
    ensures
        r.offset(0) == 0,
        ({
            let e = r.entries()[i];
            let at = r.offset(i);
            &&& 0 <= at
            &&& at + 16 + e.value.len() <= r.area.len()
            &&& le_value(r.area.subrange(at, at + 8)) == e.key
            &&& le_value(r.area.subrange(at + 8, at + 16)) == e.value.len()
            &&& r.area.subrange(at + 16, at + 16 + e.value.len()) == e.value
            &&& r.offset(i + 1) == at + 16 + e.value.len()
        }),
{
    let at = r.offset(i);
    assert(bucket_fits(r.area, offset_of(r.area, i as nat)));
    assert(r.offset(i + 1) == next_at(r.area, at));
    lemma_le_value(r.area.subrange(at, at + 8));
    lemma_le_bounds();
}

/// What is behind the lock: the number of entries, the bytes in use, and the
/// buckets.
pub proof fn law_image_layout(r: Region)
    requires
        r.bucket_count <= u64::MAX,
        r.used <= u64::MAX,
    ensures
        image_of(r).len() == 16 + r.area.len(),
        le_value(image_of(r).subrange(0, 8)) == r.bucket_count,
        le_value(image_of(r).subrange(8, 16)) == r.used,
        image_of(r).skip(16) == r.area,
{
    law_region_in_image(r);
}

/// A header that stands in memory is read from there.
pub proof fn law_header<K: InlineKey, V: Storable>(bucket: Bucket<K, V>, mem: Seq<u8>, at: int)
    ensures
        bucket.stands_at(mem, at) <==> {
            &&& 0 <= at
            &&& at + 16 + bucket.value_size <= mem.len()
            &&& le_value(mem.subrange(at, at + 8)) == bucket.key
            &&& le_value(mem.subrange(at + 8, at + 16)) == bucket.value_size
        },
{
    lemma_le_bounds();
    if 0 <= at && at + 16 <= mem.len() {
        lemma_le_value(mem.subrange(at, at + 8));
    }
}

} // verus!
