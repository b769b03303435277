//! One entry of the map as it lies in memory.
//!
//! A bucket is a header of `BUCKET_SIZE` bytes; the key's bytes follow it, then
//! the value's bytes, and then as many unused bytes as it takes to end on a
//! multiple of `BUCKET_ALIGN`.
//!
//! | bytes    | field                            |
//! |----------|----------------------------------|
//! | 0 .. 8   | number of bytes of the value     |
//! | 8 .. 16  | number of bytes of the key       |
//! | 16 .. 24 | last access, whole seconds       |
//! | 24 .. 28 | last access, nanoseconds         |
//! | 28 .. 32 | unused                           |
use core::marker::PhantomData;
use vstd::prelude::*;
use vstd::slice::slice_subrange;
use crate::codec::Storable;
use crate::memory::{
    le_bytes, le_value, lemma_le_bounds, lemma_le_bytes, lemma_le_value, lemma_round_up, overwrite,
    push_le, read_u32, read_u64, round_to_boundary, round_up, write_bytes,
};

verus! {

/// Bytes that a bucket's header takes.
pub const BUCKET_SIZE: usize = 32;

/// Buckets start at multiples of this.
pub const BUCKET_ALIGN: usize = 8;

/// A point in time, as the time that has passed since the map was made.
#[derive(Clone, Copy, PartialEq, Eq, Structural, Debug)]
pub struct Timestamp {
    pub secs: u64,
    pub nanos: u32,
}

impl Timestamp {
    /// Whether `self` is the earlier of the two.
    pub open spec fn precedes(self, other: Timestamp) -> bool {
        self.secs < other.secs || (self.secs == other.secs && self.nanos < other.nanos)
    }

    /// Whether `self` is the earlier of the two.
    pub fn before(&self, other: &Timestamp) -> (r: bool)
        ensures
            r == self.precedes(*other),
            r <==> self.secs < other.secs || (self.secs == other.secs && self.nanos < other.nanos),
            self.nanos < 1_000_000_000 && other.nanos < 1_000_000_000 ==> (r <==> self.secs
                * 1_000_000_000 + self.nanos < other.secs * 1_000_000_000 + other.nanos),
    {
        self.secs < other.secs || (self.secs == other.secs && self.nanos < other.nanos)
    }
}

/// The order of two points in time is that of the nanoseconds that have passed.
/// It is the order of the seconds first, and then that of the nanoseconds.
pub proof fn law_time_order(a: Timestamp, b: Timestamp)
    ensures
        a.nanos < 1_000_000_000 && b.nanos < 1_000_000_000 ==> (a.precedes(b) <==> a.secs
            * 1_000_000_000 + a.nanos < b.secs * 1_000_000_000 + b.nanos),
        a.secs < b.secs ==> a.precedes(b),
        a.secs == b.secs ==> (a.precedes(b) <==> a.nanos < b.nanos),
        a.precedes(b) ==> !b.precedes(a),
        a.precedes(b) || b.precedes(a) || a == b,
{
}

/// What one bucket holds.
#[verifier::ext_equal]
pub struct Entry {
    pub key: Seq<u8>,
    pub value: Seq<u8>,
    pub last_accessed: Timestamp,
}

/// Bytes of a key and a value together with the unused bytes behind them.
pub open spec fn padded(data_size: nat) -> int {
    round_up(data_size as int, BUCKET_ALIGN as int)
}

impl Entry {
    /// Bytes that there has to be room for to store the entry: the unused
    /// bytes at the bucket's end need none.
    pub open spec fn need(self) -> int {
        BUCKET_SIZE + self.key.len() + self.value.len()
    }

    /// Bytes that the entry's bucket takes.
    pub open spec fn size(self) -> int {
        BUCKET_SIZE + padded(self.key.len() + self.value.len())
    }
}

/// A key and a value are padded with as few bytes as it takes to end on a
/// multiple of eight.
pub proof fn law_padded(data_size: nat)
    ensures
        data_size <= padded(data_size) < data_size + 8,
        padded(data_size) % 8 == 0,
{
    lemma_round_up(data_size as int, BUCKET_ALIGN as int);
}

/// An entry needs its header's 32 bytes and those of its key and its value; its
/// bucket takes the padding too.
pub proof fn law_entry_size(e: Entry)
    ensures
        e.need() == 32 + e.key.len() + e.value.len(),
        e.size() == 32 + padded(e.key.len() + e.value.len()),
        e.need() <= e.size() < e.need() + 8,
        e.size() % 8 == 0,
{
    law_padded(e.key.len() + e.value.len());
}

pub open spec fn value_size_at(mem: Seq<u8>, at: int) -> nat {
    le_value(mem.subrange(at, at + 8))
}

pub open spec fn key_size_at(mem: Seq<u8>, at: int) -> nat {
    le_value(mem.subrange(at + 8, at + 16))
}

pub open spec fn stamp_at(mem: Seq<u8>, at: int) -> Timestamp {
    Timestamp {
        secs: le_value(mem.subrange(at + 16, at + 24)) as u64,
        nanos: le_value(mem.subrange(at + 24, at + 28)) as u32,
    }
}

/// Where the value's bytes end.
pub open spec fn data_end(mem: Seq<u8>, at: int) -> int {
    at + BUCKET_SIZE + key_size_at(mem, at) + value_size_at(mem, at)
}

/// Where the next bucket starts.
pub open spec fn next_at(mem: Seq<u8>, at: int) -> int {
    at + BUCKET_SIZE + padded(key_size_at(mem, at) + value_size_at(mem, at))
}

/// The header and the bytes of the key and the value lie inside the memory.
pub open spec fn bucket_fits(mem: Seq<u8>, at: int) -> bool {
    &&& 0 <= at
    &&& at + BUCKET_SIZE <= mem.len()
    &&& data_end(mem, at) <= mem.len()
}

pub open spec fn key_at(mem: Seq<u8>, at: int) -> Seq<u8> {
    mem.subrange(at + BUCKET_SIZE, at + BUCKET_SIZE + key_size_at(mem, at))
}

pub open spec fn value_at(mem: Seq<u8>, at: int) -> Seq<u8> {
    mem.subrange(at + BUCKET_SIZE + key_size_at(mem, at), data_end(mem, at))
}

/// What the bucket at `at` holds.
pub open spec fn entry_at(mem: Seq<u8>, at: int) -> Entry {
    Entry {
        key: key_at(mem, at),
        value: value_at(mem, at),
        last_accessed: stamp_at(mem, at),
    }
}

/// The bucket lies inside the memory and holds a key and a value.
pub open spec fn bucket_intact<K: Storable, V: Storable>(mem: Seq<u8>, at: int) -> bool {
    &&& bucket_fits(mem, at)
    &&& K::decoded(key_at(mem, at)) is Some
    &&& V::decoded(value_at(mem, at)) is Some
}

/// Where the `n`th bucket starts, when the first one starts at 0.
pub open spec fn offset_of(mem: Seq<u8>, n: nat) -> int
    decreases n,
{
    if n == 0 {
        0
    } else {
        next_at(mem, offset_of(mem, (n - 1) as nat))
    }
}

/// A header in memory.
pub open spec fn header_bytes(value_size: nat, key_size: nat, stamp: Timestamp) -> Seq<u8> {
    le_bytes(value_size, 8) + le_bytes(key_size, 8) + le_bytes(stamp.secs as nat, 8) + le_bytes(
        stamp.nanos as nat,
        4,
    ) + le_bytes(0, 4)
}

/// A whole bucket in memory, without the unused bytes at its end.
pub open spec fn bucket_bytes(e: Entry) -> Seq<u8> {
    header_bytes(e.value.len(), e.key.len(), e.last_accessed) + e.key + e.value
}

pub(crate) proof fn lemma_header_len(value_size: nat, key_size: nat, stamp: Timestamp)
    ensures
        header_bytes(value_size, key_size, stamp).len() == BUCKET_SIZE,
{
    lemma_le_bytes(value_size, 8);
    lemma_le_bytes(key_size, 8);
    lemma_le_bytes(stamp.secs as nat, 8);
    lemma_le_bytes(stamp.nanos as nat, 4);
    lemma_le_bytes(0, 4);
}

/// What a written header says.
pub(crate) proof fn lemma_header(
    mem: Seq<u8>,
    at: int,
    value_size: nat,
    key_size: nat,
    stamp: Timestamp,
)
    requires
        0 <= at,
        at + BUCKET_SIZE <= mem.len(),
        mem.subrange(at, at + BUCKET_SIZE) == header_bytes(value_size, key_size, stamp),
        value_size <= u64::MAX,
        key_size <= u64::MAX,
    ensures
        value_size_at(mem, at) == value_size,
        key_size_at(mem, at) == key_size,
        stamp_at(mem, at) == stamp,
{
    lemma_le_bytes(value_size, 8);
    lemma_le_bytes(key_size, 8);
    lemma_le_bytes(stamp.secs as nat, 8);
    lemma_le_bytes(stamp.nanos as nat, 4);
    lemma_le_bytes(0, 4);
    lemma_le_bounds();
    let h = header_bytes(value_size, key_size, stamp);
    let m = mem.subrange(at, at + BUCKET_SIZE);
    assert(mem.subrange(at, at + 8) =~= m.subrange(0, 8));
    assert(mem.subrange(at + 8, at + 16) =~= m.subrange(8, 16));
    assert(mem.subrange(at + 16, at + 24) =~= m.subrange(16, 24));
    assert(mem.subrange(at + 24, at + 28) =~= m.subrange(24, 28));
    assert(h.subrange(0, 8) =~= le_bytes(value_size, 8));
    assert(h.subrange(8, 16) =~= le_bytes(key_size, 8));
    assert(h.subrange(16, 24) =~= le_bytes(stamp.secs as nat, 8));
    assert(h.subrange(24, 28) =~= le_bytes(stamp.nanos as nat, 4));
}

/// What a bucket that was written whole holds.
pub(crate) proof fn lemma_bucket_written(mem: Seq<u8>, at: int, e: Entry)
    requires
        0 <= at,
        at + bucket_bytes(e).len() <= mem.len(),
        mem.subrange(at, at + bucket_bytes(e).len()) == bucket_bytes(e),
        e.key.len() <= u64::MAX,
        e.value.len() <= u64::MAX,
    ensures
        bucket_bytes(e).len() == BUCKET_SIZE + e.key.len() + e.value.len(),
        bucket_fits(mem, at),
        entry_at(mem, at) == e,
        next_at(mem, at) == at + e.size(),
{
    let h = header_bytes(e.value.len(), e.key.len(), e.last_accessed);
    lemma_header_len(e.value.len(), e.key.len(), e.last_accessed);
    let b = bucket_bytes(e);
    let m = mem.subrange(at, at + b.len());
    assert(mem.subrange(at, at + BUCKET_SIZE) =~= m.subrange(0, BUCKET_SIZE as int));
    assert(b.subrange(0, BUCKET_SIZE as int) =~= h);
    lemma_header(mem, at, e.value.len(), e.key.len(), e.last_accessed);
    let k: int = BUCKET_SIZE + e.key.len();
    assert(key_at(mem, at) =~= m.subrange(BUCKET_SIZE as int, k));
    assert(b.subrange(BUCKET_SIZE as int, k) =~= e.key);
    assert(value_at(mem, at) =~= m.subrange(k, b.len() as int));
    assert(b.subrange(k, b.len() as int) =~= e.value);
}

/// A bucket is read as it was written.
pub proof fn law_bucket_read_back(mem: Seq<u8>, at: int, e: Entry)
    requires
        0 <= at,
        at + BUCKET_SIZE + e.key.len() + e.value.len() <= mem.len(),
        mem.len() <= u64::MAX,
    ensures
        ({
            let written = overwrite(mem, at, bucket_bytes(e));
            &&& entry_at(written, at) == e
            &&& next_at(written, at) == at + BUCKET_SIZE + padded(e.key.len() + e.value.len())
            &&& written.len() == mem.len()
            &&& forall|i: int|
                0 <= i < mem.len() && !(at <= i < at + BUCKET_SIZE + e.key.len() + e.value.len())
                    ==> #[trigger] written[i] == mem[i]
        }),
{
    let b = bucket_bytes(e);
    let written = overwrite(mem, at, b);
    lemma_header_len(e.value.len(), e.key.len(), e.last_accessed);
    assert(written.subrange(at, at + b.len()) =~= b);
    lemma_bucket_written(written, at, e);
}

/// A bucket holds the same wherever its bytes lie.
pub(crate) proof fn lemma_bucket_moved(m1: Seq<u8>, p: int, m2: Seq<u8>, q: int)
    requires
        bucket_fits(m1, p),
        0 <= q,
        q + data_end(m1, p) - p <= m2.len(),
        forall|i: int| p <= i < data_end(m1, p) ==> #[trigger] m1[i] == m2[i - p + q],
    ensures
        bucket_fits(m2, q),
        entry_at(m2, q) == entry_at(m1, p),
        key_size_at(m2, q) == key_size_at(m1, p),
        value_size_at(m2, q) == value_size_at(m1, p),
        data_end(m2, q) - q == data_end(m1, p) - p,
        next_at(m2, q) - q == next_at(m1, p) - p,
{
    assert(m1.subrange(p, p + 8) =~= m2.subrange(q, q + 8));
    assert(m1.subrange(p + 8, p + 16) =~= m2.subrange(q + 8, q + 16));
    assert(m1.subrange(p + 16, p + 24) =~= m2.subrange(q + 16, q + 24));
    assert(m1.subrange(p + 24, p + 28) =~= m2.subrange(q + 24, q + 28));
    assert(key_at(m1, p) =~= key_at(m2, q));
    assert(value_at(m1, p) =~= value_at(m2, q));
}

/// A bucket starts no earlier than where the one before it ends.
pub(crate) proof fn lemma_next(mem: Seq<u8>, at: int)
    ensures
        at + BUCKET_SIZE <= data_end(mem, at) <= next_at(mem, at) < data_end(mem, at)
            + BUCKET_ALIGN,
{
    lemma_round_up(
        (key_size_at(mem, at) + value_size_at(mem, at)) as int,
        BUCKET_ALIGN as int,
    );
}

pub(crate) proof fn lemma_offsets(mem: Seq<u8>, i: nat, n: nat)
    requires
        i <= n,
    ensures
        0 <= offset_of(mem, i) <= offset_of(mem, n),
        i < n ==> data_end(mem, offset_of(mem, i)) <= next_at(mem, offset_of(mem, i)) <= offset_of(
            mem,
            n,
        ),
        i < n ==> offset_of(mem, i) + BUCKET_SIZE <= offset_of(mem, n),
    decreases n,
{
    if i < n {
        lemma_offsets(mem, i, (n - 1) as nat);
        lemma_next(mem, offset_of(mem, i));
        lemma_next(mem, offset_of(mem, (n - 1) as nat));
    } else if n > 0 {
        lemma_offsets(mem, (n - 1) as nat, (n - 1) as nat);
        lemma_next(mem, offset_of(mem, (n - 1) as nat));
    }
}

/// A bucket takes at least its header's bytes.
pub(crate) proof fn lemma_offset_bound(mem: Seq<u8>, n: nat)
    ensures
        offset_of(mem, n) >= BUCKET_SIZE * n,
    decreases n,
{
    if n > 0 {
        lemma_offset_bound(mem, (n - 1) as nat);
        lemma_next(mem, offset_of(mem, (n - 1) as nat));
    }
}

/// The header of a bucket, taken out of the memory that it stands in.
#[derive(Debug)]
pub struct Bucket<K, V> {
    pub value_size: usize,
    pub key_size: usize,
    pub phantom: PhantomData<(K, V)>,
    pub last_accessed: Timestamp,
}

impl<K, V> Bucket<K, V> {
    /// This is the header that stands at `at`.
    pub open spec fn stands_at(self, mem: Seq<u8>, at: int) -> bool {
        &&& bucket_fits(mem, at)
        &&& self.value_size == value_size_at(mem, at)
        &&& self.key_size == key_size_at(mem, at)
        &&& self.last_accessed == stamp_at(mem, at)
    }

    /// The header as bytes.
    pub open spec fn header(self) -> Seq<u8> {
        header_bytes(self.value_size as nat, self.key_size as nat, self.last_accessed)
    }

    /// Reads the header at `at`.
    pub fn read(mem: &[u8], at: usize) -> (bucket: Self)
        requires
            bucket_fits(mem@, at as int),
        ensures
            bucket.stands_at(mem@, at as int),
    {
        proof {
            assert(mem.len() == mem@.len());
            lemma_le_value(mem@.subrange(at + 16, at + 24));
            lemma_le_value(mem@.subrange(at + 24, at + 28));
            lemma_le_bounds();
        }
        let value_size: u64 = read_u64(mem, at);
        let key_size: u64 = read_u64(mem, at + 8);
        let secs: u64 = read_u64(mem, at + 16);
        let nanos: u32 = read_u32(mem, at + 24);
        Bucket {
            value_size: value_size as usize,
            key_size: key_size as usize,
            phantom: PhantomData,
            last_accessed: Timestamp { secs, nanos },
        }
    }

    /// Writes the header to `at`.
    pub fn write(&self, mem: &mut Vec<u8>, at: usize)
        requires
            at + BUCKET_SIZE <= old(mem)@.len(),
        ensures
            final(mem)@ == overwrite(old(mem)@, at as int, self.header()),
    {
        let mut bytes: Vec<u8> = Vec::new();
        push_le(&mut bytes, self.value_size as u64, 8);
        push_le(&mut bytes, self.key_size as u64, 8);
        push_le(&mut bytes, self.last_accessed.secs, 8);
        push_le(&mut bytes, self.last_accessed.nanos as u64, 4);
        push_le(&mut bytes, 0, 4);
        proof {
            assert(bytes@ =~= self.header());
            lemma_header_len(
                self.value_size as nat,
                self.key_size as nat,
                self.last_accessed,
            );
        }
        write_bytes(mem, at, bytes.as_slice());
    }

    /// Where the key's bytes start, for a bucket at `at`.
    pub fn key_ptr(&self, at: usize) -> (p: usize)
        requires
            at + BUCKET_SIZE <= usize::MAX,
        ensures
            p == at + BUCKET_SIZE,
    {
        at + BUCKET_SIZE
    }

    /// Where the value's bytes start, for a bucket at `at`.
    pub fn value_ptr(&self, at: usize) -> (p: usize)
        requires
            at + BUCKET_SIZE + self.key_size <= usize::MAX,
        ensures
            p == at + BUCKET_SIZE + self.key_size,
    {
        at + BUCKET_SIZE + self.key_size
    }

    /// Bytes that the whole bucket takes.
    pub open spec fn spec_size(self) -> int {
        BUCKET_SIZE + padded((self.value_size + self.key_size) as nat)
    }

    /// Bytes that the whole bucket takes.
    pub fn size(&self) -> (n: usize)
        requires
            self.spec_size() <= usize::MAX,
        ensures
            n == self.spec_size(),
    {
        proof {
            lemma_round_up(self.value_size + self.key_size, BUCKET_ALIGN as int);
        }
        BUCKET_SIZE + round_to_boundary(self.value_size + self.key_size, BUCKET_ALIGN)
    }

    /// Where the next bucket starts, for a bucket at `at`.
    pub fn next(&self, at: usize) -> (p: usize)
        requires
            at + self.spec_size() <= usize::MAX,
        ensures
            p == at + self.spec_size(),
    {
        proof {
            lemma_round_up(self.value_size + self.key_size, BUCKET_ALIGN as int);
        }
        at + self.size()
    }
}

impl<K: Storable, V: Storable> Bucket<K, V> {
    /// The key of the bucket at `at`.
    pub fn get_key(&self, mem: &[u8], at: usize) -> (key: K)
        requires
            self.stands_at(mem@, at as int),
            K::decoded(key_at(mem@, at as int)) is Some,
        ensures
            K::decoded(key_at(mem@, at as int)) == Some(key.model()),
    {
        assert(mem.len() == mem@.len());
        let p: usize = self.key_ptr(at);
        let bytes = slice_subrange(mem, p, p + self.key_size);
        K::deserialize(bytes).unwrap()
    }

    /// The value of the bucket at `at`.
    pub fn get_value(&self, mem: &[u8], at: usize) -> (value: V)
        requires
            self.stands_at(mem@, at as int),
            V::decoded(value_at(mem@, at as int)) is Some,
        ensures
            V::decoded(value_at(mem@, at as int)) == Some(value.model()),
    {
        assert(mem.len() == mem@.len());
        let p: usize = self.value_ptr(at);
        let bytes = slice_subrange(mem, p, p + self.value_size);
        V::deserialize(bytes).unwrap()
    }

    /// Puts a key into the bucket at `at`: its size into the header and its
    /// bytes behind the header. The key has to be put in before the value.
    pub fn set_key(&mut self, mem: &mut Vec<u8>, at: usize, key: &K)
        requires
            at + BUCKET_SIZE + K::encode(key.model()).len() <= old(mem)@.len(),
        ensures
            final(self).key_size == K::encode(key.model()).len(),
            final(self).value_size == old(self).value_size,
            final(self).last_accessed == old(self).last_accessed,
            final(mem)@ == overwrite(
                overwrite(old(mem)@, at as int, final(self).header()),
                at + BUCKET_SIZE,
                K::encode(key.model()),
            ),
    {
        let bytes: Vec<u8> = key.serialize();
        assert(mem.len() == mem@.len());
        self.key_size = bytes.len();
        self.write(mem, at);
        let p: usize = self.key_ptr(at);
        write_bytes(mem, p, bytes.as_slice());
    }

    /// Puts a value into the bucket at `at`: its size into the header and its
    /// bytes behind those of the key.
    pub fn set_value(&mut self, mem: &mut Vec<u8>, at: usize, value: &V)
        requires
            at + BUCKET_SIZE + old(self).key_size + V::encode(value.model()).len() <= old(
                mem,
            )@.len(),
        ensures
            final(self).value_size == V::encode(value.model()).len(),
            final(self).key_size == old(self).key_size,
            final(self).last_accessed == old(self).last_accessed,
            final(mem)@ == overwrite(
                overwrite(old(mem)@, at as int, final(self).header()),
                at + BUCKET_SIZE + old(self).key_size,
                V::encode(value.model()),
            ),
    {
        let bytes: Vec<u8> = value.serialize();
        assert(mem.len() == mem@.len());
        self.value_size = bytes.len();
        self.write(mem, at);
        let p: usize = self.value_ptr(at);
        write_bytes(mem, p, bytes.as_slice());
    }
}

/// What a header says, and where: the sizes of the value and of the key, and the
/// time of the last access. A header that stands in memory is read from there.
pub proof fn law_header<K, V>(bucket: Bucket<K, V>, mem: Seq<u8>, at: int)
    ensures
        bucket.spec_size() == 32 + padded((bucket.value_size + bucket.key_size) as nat),
        ({
            let h = bucket.header();
            &&& h.len() == 32
            &&& le_value(h.subrange(0, 8)) == bucket.value_size
            &&& le_value(h.subrange(8, 16)) == bucket.key_size
            &&& le_value(h.subrange(16, 24)) == bucket.last_accessed.secs
            &&& le_value(h.subrange(24, 28)) == bucket.last_accessed.nanos
        }),
        bucket.stands_at(mem, at) <==> {
            &&& 0 <= at
            &&& at + 32 <= mem.len()
            &&& at + 32 + bucket.key_size + bucket.value_size <= mem.len()
            &&& le_value(mem.subrange(at, at + 8)) == bucket.value_size
            &&& le_value(mem.subrange(at + 8, at + 16)) == bucket.key_size
            &&& le_value(mem.subrange(at + 16, at + 24)) == bucket.last_accessed.secs
            &&& le_value(mem.subrange(at + 24, at + 28)) == bucket.last_accessed.nanos
        },
{
    let h = bucket.header();
    lemma_header_len(bucket.value_size as nat, bucket.key_size as nat, bucket.last_accessed);
    lemma_le_bounds();
    assert(h.subrange(0, 32) =~= h);
    lemma_le_value(h.subrange(16, 24));
    lemma_le_value(h.subrange(24, 28));
    lemma_header(h, 0, bucket.value_size as nat, bucket.key_size as nat, bucket.last_accessed);
    if 0 <= at && at + 32 <= mem.len() {
        lemma_le_value(mem.subrange(at + 16, at + 24));
        lemma_le_value(mem.subrange(at + 24, at + 28));
    }
}

} // verus!
