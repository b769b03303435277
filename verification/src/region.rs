//! The mathematical model of the map's memory: a header of three numbers and a
//! block of bytes in which the buckets stand one after the other.
use vstd::prelude::*;
use crate::bucket::{
    bucket_bytes, bucket_fits, bucket_intact, data_end, entry_at, header_bytes, key_at, law_padded,
    law_time_order, lemma_bucket_moved, lemma_bucket_written, lemma_header, lemma_header_len,
    lemma_next, lemma_offsets, next_at, offset_of, value_at, Entry, Timestamp, BUCKET_ALIGN,
    BUCKET_SIZE,
};
use crate::codec::Storable;
use crate::memory::{
    le_bytes, le_value, lemma_le_bounds, lemma_le_bytes, lemma_le_value, lemma_round_up, overwrite,
    slide,
};

verus! {

/// Bytes that the header in front of the buckets takes.
pub const CONTENTS_SIZE: usize = 24;

/// The header's three numbers, and the bytes behind the header.
///
/// `size` counts the header's own bytes too. `used` is where the next bucket
/// goes; it may lie up to `BUCKET_ALIGN - 1` bytes behind the end of the
/// memory, because the unused bytes at a bucket's end need no memory.
#[verifier::ext_equal]
pub struct Region {
    pub bucket_count: nat,
    pub used: nat,
    pub size: nat,
    pub area: Seq<u8>,
}

/// `i` is the first entry with that key.
pub open spec fn is_first_match<K: Storable>(entries: Seq<Entry>, key: K::Model, i: int) -> bool {
    &&& 0 <= i < entries.len()
    &&& K::decoded(entries[i].key) == Some(key)
    &&& forall|j: int| 0 <= j < i ==> K::decoded(#[trigger] entries[j].key) != Some(key)
}

/// The place of the first entry with that key.
pub open spec fn position<K: Storable>(entries: Seq<Entry>, key: K::Model) -> Option<int> {
    if exists|i: int| is_first_match::<K>(entries, key, i) {
        Some(choose|i: int| is_first_match::<K>(entries, key, i))
    } else {
        None
    }
}

/// `i` is the first of the entries that were accessed the longest ago.
pub open spec fn is_oldest(entries: Seq<Entry>, i: int) -> bool {
    &&& 0 <= i < entries.len()
    &&& forall|j: int|
        0 <= j < entries.len() ==> !(#[trigger] entries[j]).last_accessed.precedes(
            entries[i].last_accessed,
        )
    &&& forall|j: int|
        0 <= j < i ==> entries[i].last_accessed.precedes((#[trigger] entries[j]).last_accessed)
}

/// The place of the entry that was accessed the longest ago.
pub open spec fn oldest(entries: Seq<Entry>) -> Option<int> {
    if exists|i: int| is_oldest(entries, i) {
        Some(choose|i: int| is_oldest(entries, i))
    } else {
        None
    }
}

/// No two entries have the same key.
pub open spec fn distinct_keys<K: Storable>(entries: Seq<Entry>) -> bool {
    forall|i: int, j: int|
        0 <= i < j < entries.len() ==> K::decoded(#[trigger] entries[i].key) != K::decoded(
            #[trigger] entries[j].key,
        )
}

impl Region {
    /// Where the `i`th bucket starts.
    pub open spec fn offset(self, i: int) -> int {
        offset_of(self.area, i as nat)
    }

    /// Where the last bucket ends.
    pub open spec fn end(self) -> int {
        offset_of(self.area, self.bucket_count)
    }

    /// What the buckets hold.
    pub open spec fn entries(self) -> Seq<Entry> {
        Seq::new(self.bucket_count, |i: int| entry_at(self.area, self.offset(i)))
    }

    /// The next bucket goes right behind the last one.
    pub open spec fn tight(self) -> bool {
        self.used == self.end()
    }

    /// Every bucket lies inside the memory and holds a key and a value, and
    /// the next bucket goes right behind them.
    pub open spec fn wf<K: Storable, V: Storable>(self) -> bool {
        &&& self.size == self.area.len() + CONTENTS_SIZE
        &&& self.size + BUCKET_ALIGN <= usize::MAX
        &&& forall|i: nat|
            i < self.bucket_count ==> bucket_intact::<K, V>(
                self.area,
                #[trigger] offset_of(self.area, i),
            )
        &&& self.tight()
        &&& self.used < self.area.len() + BUCKET_ALIGN
    }

    /// Bytes in use, the header's among them.
    pub open spec fn total_used(self) -> int {
        self.used + CONTENTS_SIZE
    }

    /// There is room for a bucket of `need` bytes, not counting the unused
    /// bytes at its end.
    pub open spec fn has_room(self, need: int) -> bool {
        self.total_used() + need <= self.size
    }

    /// The `i`th entry has been accessed at `now`.
    pub open spec fn touched(self, i: int, now: Timestamp) -> Region {
        let e = self.entries()[i];
        Region {
            area: overwrite(
                self.area,
                self.offset(i),
                header_bytes(e.value.len(), e.key.len(), now),
            ),
            ..self
        }
    }

    /// The `i`th bucket is gone, and those behind it have moved down.
    pub open spec fn without(self, i: int) -> Region {
        let at = self.offset(i);
        let next = self.offset(i + 1);
        let used = self.used - (next - at);
        let count = if used < self.area.len() - next {
            used
        } else {
            self.area.len() - next
        };
        Region {
            bucket_count: (self.bucket_count - 1) as nat,
            used: used as nat,
            area: if i + 1 < self.bucket_count {
                slide(self.area, at, next, count)
            } else {
                self.area
            },
            ..self
        }
    }

    /// A bucket has been written to where the next one goes.
    pub open spec fn appended(self, e: Entry) -> Region {
        Region {
            bucket_count: self.bucket_count + 1,
            used: (self.used + e.size()) as nat,
            area: overwrite(self.area, self.used as int, bucket_bytes(e)),
            ..self
        }
    }

    /// There is no bucket any more, and the first one will go to the front.
    pub open spec fn cleared(self) -> Region {
        Region { bucket_count: 0, used: 0, ..self }
    }

    /// The entry with that key is gone, if there was one.
    pub open spec fn forgotten<K: Storable>(self, key: K::Model) -> Region {
        match position::<K>(self.entries(), key) {
            Some(i) => self.without(i),
            None => self,
        }
    }

    /// The bucket that leaves when room is needed: the first with the same key
    /// as the entry that was accessed the longest ago.
    pub open spec fn victim<K: Storable>(self) -> int {
        let old = oldest(self.entries())->Some_0;
        position::<K>(self.entries(), K::decoded(self.entries()[old].key)->Some_0)->Some_0
    }

    /// Entries leave one by one until there is room for `need` bytes or no
    /// entry is left. `removed` is the value of the last of them, as bytes.
    pub open spec fn shrunk<K: Storable>(self, need: int, removed: Option<Seq<u8>>) -> (
        Region,
        Option<Seq<u8>>,
    )
        decreases self.bucket_count,
    {
        if self.has_room(need) || self.bucket_count == 0 {
            (self, removed)
        } else {
            let i = self.victim::<K>();
            self.without(i).shrunk::<K>(need, Some(self.entries()[i].value))
        }
    }
}

/// The model of a block of memory: three numbers of eight bytes, and the
/// buckets behind them.
pub open spec fn region_in(memory: Seq<u8>) -> Region {
    Region {
        bucket_count: le_value(memory.subrange(0, 8)),
        used: le_value(memory.subrange(8, 16)),
        size: le_value(memory.subrange(16, 24)),
        area: memory.skip(CONTENTS_SIZE as int),
    }
}

/// The block of memory that a model describes.
pub open spec fn image_of(r: Region) -> Seq<u8> {
    le_bytes(r.bucket_count, 8) + le_bytes(r.used, 8) + le_bytes(r.size, 8) + r.area
}

/// What is laid out in memory is what is found there.
pub proof fn law_region_in_image(r: Region)
    requires
        r.bucket_count <= u64::MAX,
        r.used <= u64::MAX,
        r.size <= u64::MAX,
    ensures
        region_in(image_of(r)) == r,
        image_of(r).len() == CONTENTS_SIZE + r.area.len(),
{
    lemma_le_bounds();
    lemma_le_bytes(r.bucket_count, 8);
    lemma_le_bytes(r.used, 8);
    lemma_le_bytes(r.size, 8);
    let m = image_of(r);
    assert(m.subrange(0, 8) =~= le_bytes(r.bucket_count, 8));
    assert(m.subrange(8, 16) =~= le_bytes(r.used, 8));
    assert(m.subrange(16, 24) =~= le_bytes(r.size, 8));
    assert(m.skip(CONTENTS_SIZE as int) =~= r.area);
    assert(region_in(m) =~= r);
}

/// Memory that is read and laid out again stays what it is.
pub proof fn law_image_of_region(memory: Seq<u8>)
    requires
        CONTENTS_SIZE <= memory.len(),
    ensures
        image_of(region_in(memory)) == memory,
{
    lemma_le_value(memory.subrange(0, 8));
    lemma_le_value(memory.subrange(8, 16));
    lemma_le_value(memory.subrange(16, 24));
    assert(image_of(region_in(memory)) =~= memory);
}

pub(crate) proof fn lemma_position<K: Storable>(entries: Seq<Entry>, key: K::Model, i: int)
    requires
        is_first_match::<K>(entries, key, i),
    ensures
        position::<K>(entries, key) == Some(i),
{
    let j = choose|j: int| is_first_match::<K>(entries, key, j);
    assert(is_first_match::<K>(entries, key, j));
    if j < i {
        assert(K::decoded(entries[j].key) != Some(key));
    }
    if i < j {
        assert(K::decoded(entries[i].key) != Some(key));
    }
}

/// Where some entry has the key, there is a first one.
pub(crate) proof fn lemma_position_exists<K: Storable>(entries: Seq<Entry>, key: K::Model, i: int)
    requires
        0 <= i < entries.len(),
        K::decoded(entries[i].key) == Some(key),
    ensures
        position::<K>(entries, key) is Some,
        0 <= position::<K>(entries, key)->Some_0 <= i,
        is_first_match::<K>(entries, key, position::<K>(entries, key)->Some_0),
    decreases i,
{
    if forall|j: int| 0 <= j < i ==> K::decoded(#[trigger] entries[j].key) != Some(key) {
        assert(is_first_match::<K>(entries, key, i));
        lemma_position::<K>(entries, key, i);
    } else {
        let j = choose|j: int|
            0 <= j < i && K::decoded(#[trigger] entries[j].key) == Some(key);
        lemma_position_exists::<K>(entries, key, j);
    }
}

pub(crate) proof fn lemma_no_position<K: Storable>(entries: Seq<Entry>, key: K::Model)
    requires
        forall|j: int|
            0 <= j < entries.len() ==> K::decoded(#[trigger] entries[j].key) != Some(key),
    ensures
        position::<K>(entries, key) is None,
{
}

pub(crate) proof fn lemma_oldest(entries: Seq<Entry>, i: int)
    requires
        is_oldest(entries, i),
    ensures
        oldest(entries) == Some(i),
{
    let j = choose|j: int| is_oldest(entries, j);
    assert(is_oldest(entries, j));
    if j < i {
        assert(entries[i].last_accessed.precedes(entries[j].last_accessed));
        assert(!entries[i].last_accessed.precedes(entries[j].last_accessed));
    }
    if i < j {
        assert(entries[j].last_accessed.precedes(entries[i].last_accessed));
        assert(!entries[j].last_accessed.precedes(entries[i].last_accessed));
    }
}

/// Of some entries, one was accessed the longest ago.
pub(crate) proof fn lemma_oldest_exists(entries: Seq<Entry>)
    requires
        entries.len() > 0,
    ensures
        oldest(entries) is Some,
        is_oldest(entries, oldest(entries)->Some_0),
    decreases entries.len(),
{
    let last: int = entries.len() - 1;
    if entries.len() == 1 {
        assert(is_oldest(entries, 0));
    } else {
        let front = entries.drop_last();
        lemma_oldest_exists(front);
        let i = oldest(front)->Some_0;
        assert forall|j: int| 0 <= j < front.len() implies front[j] == entries[j] by {}
        if entries[last].last_accessed.precedes(entries[i].last_accessed) {
            assert forall|j: int| 0 <= j < last implies entries[last].last_accessed.precedes(
                (#[trigger] entries[j]).last_accessed,
            ) by {
                assert(!front[j].last_accessed.precedes(front[i].last_accessed));
            }
            assert(is_oldest(entries, last));
        } else {
            assert forall|j: int| 0 <= j < entries.len() implies !(
            #[trigger] entries[j]).last_accessed.precedes(entries[i].last_accessed) by {
                if j < last {
                    assert(!front[j].last_accessed.precedes(front[i].last_accessed));
                }
            }
            assert forall|j: int| 0 <= j < i implies entries[i].last_accessed.precedes(
                (#[trigger] entries[j]).last_accessed,
            ) by {
                assert(front[i].last_accessed.precedes(front[j].last_accessed));
            }
            assert(is_oldest(entries, i));
        }
    }
}

/// Two memories that agree up to `limit` have the same buckets up to there.
pub(crate) proof fn lemma_same_front(m1: Seq<u8>, m2: Seq<u8>, limit: int, n: nat)
    requires
        m1.len() == m2.len(),
        limit <= m1.len(),
        forall|i: int| 0 <= i < limit ==> #[trigger] m1[i] == m2[i],
        forall|k: nat|
            k < n ==> {
                &&& bucket_fits(m1, #[trigger] offset_of(m1, k))
                &&& data_end(m1, offset_of(m1, k)) <= limit
            },
    ensures
        forall|k: nat| k <= n ==> #[trigger] offset_of(m2, k) == offset_of(m1, k),
        forall|k: nat|
            k < n ==> {
                &&& bucket_fits(m2, #[trigger] offset_of(m2, k))
                &&& entry_at(m2, offset_of(m2, k)) == entry_at(m1, offset_of(m1, k))
            },
    decreases n,
{
    if n > 0 {
        let p: nat = (n - 1) as nat;
        lemma_same_front(m1, m2, limit, p);
        assert(offset_of(m2, p) == offset_of(m1, p));
        lemma_bucket_moved(m1, offset_of(m1, p), m2, offset_of(m2, p));
        assert(offset_of(m2, n) == offset_of(m1, n));
    }
}

/// Where the buckets end that lie in front of another one.
pub(crate) proof fn lemma_data_ends<K: Storable, V: Storable>(r: Region, n: nat)
    requires
        r.wf::<K, V>(),
        n <= r.bucket_count,
    ensures
        0 <= offset_of(r.area, n) <= r.end(),
        forall|k: nat|
            k < n ==> {
                &&& bucket_fits(r.area, #[trigger] offset_of(r.area, k))
                &&& data_end(r.area, offset_of(r.area, k)) <= offset_of(r.area, n)
            },
{
    lemma_offsets(r.area, n, r.bucket_count);
    assert forall|k: nat| k < n implies {
        &&& bucket_fits(r.area, #[trigger] offset_of(r.area, k))
        &&& data_end(r.area, offset_of(r.area, k)) <= offset_of(r.area, n)
    } by {
        lemma_offsets(r.area, k, n);
    }
}

/// Writing a bucket leaves the others as they are, and the new one follows
/// them.
pub(crate) proof fn lemma_appended<K: Storable, V: Storable>(r: Region, e: Entry)
    requires
        r.wf::<K, V>(),
        r.has_room(BUCKET_SIZE + e.key.len() + e.value.len()),
        K::decoded(e.key) is Some,
        V::decoded(e.value) is Some,
    ensures
        r.appended(e).entries() == r.entries().push(e),
        r.appended(e).wf::<K, V>(),
{
    let n = r.bucket_count;
    let r2 = r.appended(e);
    let b = bucket_bytes(e);
    lemma_header_len(e.value.len(), e.key.len(), e.last_accessed);
    lemma_round_up((e.key.len() + e.value.len()) as int, BUCKET_ALIGN as int);
    lemma_data_ends::<K, V>(r, n);
    lemma_same_front(r.area, r2.area, r.used as int, n);
    assert(r2.area.subrange(r.used as int, (r.used + b.len()) as int) =~= b);
    lemma_bucket_written(r2.area, r.used as int, e);
    assert(offset_of(r2.area, n) == r.end());
    assert(r2.end() == next_at(r2.area, offset_of(r2.area, n)));
    assert(r2.entries() =~= r.entries().push(e));
    assert forall|i: nat| i < r2.bucket_count implies bucket_intact::<K, V>(
        r2.area,
        #[trigger] offset_of(r2.area, i),
    ) by {
        if i < n {
            assert(bucket_intact::<K, V>(r.area, offset_of(r.area, i)));
            lemma_intact_again::<K, V>(
                r.area,
                offset_of(r.area, i),
                r2.area,
                offset_of(r2.area, i),
            );
        } else {
            let o = r.end();
            assert(entry_at(r2.area, o).key == key_at(r2.area, o));
            assert(entry_at(r2.area, o).value == value_at(r2.area, o));
        }
    }
}

/// An entry whose bucket was intact is so wherever the same entry is found.
proof fn lemma_intact_again<K: Storable, V: Storable>(m1: Seq<u8>, p: int, m2: Seq<u8>, q: int)
    requires
        bucket_intact::<K, V>(m1, p),
        bucket_fits(m2, q),
        entry_at(m2, q).key == entry_at(m1, p).key,
        entry_at(m2, q).value == entry_at(m1, p).value,
    ensures
        bucket_intact::<K, V>(m2, q),
{
    assert(entry_at(m2, q).key == key_at(m2, q));
    assert(entry_at(m2, q).value == value_at(m2, q));
    assert(entry_at(m1, p).key == key_at(m1, p));
    assert(entry_at(m1, p).value == value_at(m1, p));
}

/// The buckets in front of one that is taken out stay where they are.
proof fn lemma_stays<K: Storable, V: Storable>(r: Region, i: int)
    requires
        r.wf::<K, V>(),
        0 <= i,
        i + 1 < r.bucket_count,
    ensures
        forall|k: nat|
            k <= i ==> #[trigger] offset_of(r.without(i).area, k) == offset_of(r.area, k),
        forall|k: nat|
            k < i ==> {
                &&& bucket_fits(r.without(i).area, #[trigger] offset_of(r.without(i).area, k))
                &&& entry_at(r.without(i).area, offset_of(r.without(i).area, k)) == entry_at(
                    r.area,
                    offset_of(r.area, k),
                )
            },
{
    lemma_data_ends::<K, V>(r, i as nat);
    assert(bucket_intact::<K, V>(r.area, offset_of(r.area, i as nat)));
    lemma_same_front(r.area, r.without(i).area, r.offset(i), i as nat);
}

/// The bytes of a bucket behind one that is taken out move down by its size.
proof fn lemma_bytes_moved_down<K: Storable, V: Storable>(r: Region, i: int, j: int)
    requires
        r.wf::<K, V>(),
        0 <= i < j < r.bucket_count,
    ensures
        ({
            let from = r.offset(j);
            let to = from - (r.offset(i + 1) - r.offset(i));
            &&& bucket_fits(r.without(i).area, to)
            &&& entry_at(r.without(i).area, to) == entry_at(r.area, from)
            &&& next_at(r.without(i).area, to) - to == next_at(r.area, from) - from
        }),
{
    let m1 = r.area;
    let m2 = r.without(i).area;
    let at = r.offset(i);
    let next = r.offset(i + 1);
    let from = r.offset(j);
    lemma_offsets(m1, i as nat, (i + 1) as nat);
    lemma_offsets(m1, (i + 1) as nat, j as nat);
    lemma_offsets(m1, j as nat, r.bucket_count);
    assert(bucket_intact::<K, V>(m1, offset_of(m1, j as nat)));
    lemma_bucket_moved(m1, from, m2, from - (next - at));
}

/// The buckets behind one that is taken out move down by its size.
proof fn lemma_moved_down<K: Storable, V: Storable>(r: Region, i: int, j: int)
    requires
        r.wf::<K, V>(),
        0 <= i <= j < r.bucket_count,
        i + 1 < r.bucket_count,
    ensures
        r.without(i).offset(j) == r.offset(j + 1) - (r.offset(i + 1) - r.offset(i)),
    decreases j,
{
    if j > i {
        lemma_moved_down::<K, V>(r, i, j - 1);
        lemma_bytes_moved_down::<K, V>(r, i, j);
        assert(r.without(i).offset(j) == next_at(
            r.without(i).area,
            r.without(i).offset(j - 1),
        ));
        assert(r.offset(j + 1) == next_at(r.area, r.offset(j)));
    } else {
        lemma_stays::<K, V>(r, i);
        assert(offset_of(r.without(i).area, i as nat) == offset_of(r.area, i as nat));
    }
}

/// What the buckets hold once one has been taken out.
proof fn lemma_entry_without<K: Storable, V: Storable>(r: Region, i: int, k: int)
    requires
        r.wf::<K, V>(),
        0 <= i < r.bucket_count,
        0 <= k < r.bucket_count - 1,
    ensures
        bucket_intact::<K, V>(r.without(i).area, r.without(i).offset(k)),
        entry_at(r.without(i).area, r.without(i).offset(k)) == r.entries().remove(i)[k],
{
    let m1 = r.area;
    let m2 = r.without(i).area;
    let from: int = if k < i {
        k
    } else {
        k + 1
    };
    assert(bucket_intact::<K, V>(m1, offset_of(m1, from as nat)));
    if i + 1 < r.bucket_count {
        if k < i {
            lemma_stays::<K, V>(r, i);
            assert(bucket_fits(m2, offset_of(m2, k as nat)));
        } else {
            lemma_moved_down::<K, V>(r, i, k);
            lemma_bytes_moved_down::<K, V>(r, i, k + 1);
        }
        lemma_intact_again::<K, V>(m1, r.offset(from), m2, r.without(i).offset(k));
    }
}

/// Taking a bucket out leaves the others, in their order.
pub(crate) proof fn lemma_without<K: Storable, V: Storable>(r: Region, i: int)
    requires
        r.wf::<K, V>(),
        0 <= i < r.bucket_count,
    ensures
        r.without(i).entries() == r.entries().remove(i),
        r.without(i).wf::<K, V>(),
        r.without(i).used == r.used - r.entries()[i].size(),
        r.offset(i + 1) == r.offset(i) + r.entries()[i].size(),
        r.offset(i + 1) <= r.used,
{
    let r2 = r.without(i);
    let n = r.bucket_count;
    let at = r.offset(i);
    assert(bucket_intact::<K, V>(r.area, offset_of(r.area, i as nat)));
    assert(r.offset(i + 1) == next_at(r.area, at));
    lemma_offsets(r.area, i as nat, (i + 1) as nat);
    lemma_offsets(r.area, (i + 1) as nat, n);
    if i + 1 < n {
        lemma_moved_down::<K, V>(r, i, n - 1);
    }
    assert(r2.end() == r2.offset(n - 1));
    assert forall|k: nat| k < r2.bucket_count implies bucket_intact::<K, V>(
        r2.area,
        #[trigger] offset_of(r2.area, k),
    ) by {
        lemma_entry_without::<K, V>(r, i, k as int);
    }
    assert forall|k: int| 0 <= k < n - 1 implies #[trigger] r2.entries()[k]
        == r.entries().remove(i)[k] by {
        lemma_entry_without::<K, V>(r, i, k);
    }
    assert(r2.entries() =~= r.entries().remove(i));
}

/// Noting an access changes the time of that entry and nothing else.
pub(crate) proof fn lemma_touched<K: Storable, V: Storable>(r: Region, i: int, now: Timestamp)
    requires
        r.wf::<K, V>(),
        0 <= i < r.bucket_count,
    ensures
        r.touched(i, now).entries() == r.entries().update(
            i,
            Entry { last_accessed: now, ..r.entries()[i] },
        ),
        forall|k: nat|
            k <= r.bucket_count ==> #[trigger] offset_of(r.touched(i, now).area, k) == offset_of(
                r.area,
                k,
            ),
        r.touched(i, now).wf::<K, V>(),
{
    let r2 = r.touched(i, now);
    let m1 = r.area;
    let m2 = r2.area;
    let n = r.bucket_count;
    lemma_data_ends::<K, V>(r, n);
    lemma_touched_walk::<K, V>(r, i, now, n);
    assert forall|k: nat| k < n implies bucket_intact::<K, V>(
        m2,
        #[trigger] offset_of(m2, k),
    ) by {
        assert(bucket_intact::<K, V>(m1, offset_of(m1, k)));
        lemma_intact_again::<K, V>(m1, offset_of(m1, k), m2, offset_of(m2, k));
    }
    assert(r2.entries() =~= r.entries().update(
        i,
        Entry { last_accessed: now, ..r.entries()[i] },
    )) by {
        assert forall|k: int| 0 <= k < n implies #[trigger] r2.entries()[k]
            == r.entries().update(i, Entry { last_accessed: now, ..r.entries()[i] })[k] by {
            assert(offset_of(m2, k as nat) == r2.offset(k));
        }
    }
}

proof fn lemma_touched_walk<K: Storable, V: Storable>(r: Region, i: int, now: Timestamp, n: nat)
    requires
        r.wf::<K, V>(),
        0 <= i < r.bucket_count,
        n <= r.bucket_count,
    ensures
        forall|k: nat|
            k <= n ==> #[trigger] offset_of(r.touched(i, now).area, k) == offset_of(r.area, k),
        forall|k: nat|
            k < n ==> {
                &&& bucket_fits(r.touched(i, now).area, #[trigger] offset_of(r.area, k))
                &&& entry_at(r.touched(i, now).area, offset_of(r.area, k)) == if k == i {
                    Entry { last_accessed: now, ..entry_at(r.area, offset_of(r.area, k)) }
                } else {
                    entry_at(r.area, offset_of(r.area, k))
                }
            },
    decreases n,
{
    let m1 = r.area;
    let m2 = r.touched(i, now).area;
    let at = r.offset(i);
    let e = r.entries()[i];
    lemma_header_len(e.value.len(), e.key.len(), now);
    if n > 0 {
        let p: nat = (n - 1) as nat;
        lemma_touched_walk::<K, V>(r, i, now, p);
        let o = offset_of(m1, p);
        assert(offset_of(m2, p) == o);
        assert(bucket_intact::<K, V>(m1, offset_of(m1, p)));
        assert(bucket_intact::<K, V>(m1, offset_of(m1, i as nat)));
        lemma_offsets(m1, p, p);
        lemma_next(m1, o);
        lemma_next(m1, at);
        if p == i {
            assert(m2.subrange(at, at + BUCKET_SIZE) =~= header_bytes(
                e.value.len(),
                e.key.len(),
                now,
            ));
            lemma_header(m2, at, e.value.len(), e.key.len(), now);
            assert(key_at(m2, at) =~= key_at(m1, at));
            assert(value_at(m2, at) =~= value_at(m1, at));
        } else {
            if p < i {
                lemma_offsets(m1, p, i as nat);
            } else {
                lemma_offsets(m1, i as nat, p);
            }
            lemma_bucket_moved(m1, o, m2, o);
        }
        assert(offset_of(m2, n) == next_at(m2, o));
        assert(offset_of(m1, n) == next_at(m1, o));
    }
}

/// Clearing leaves no entry.
pub(crate) proof fn lemma_cleared<K: Storable, V: Storable>(r: Region)
    requires
        r.wf::<K, V>(),
    ensures
        r.cleared().entries() == Seq::<Entry>::empty(),
        r.cleared().wf::<K, V>(),
{
    assert(r.cleared().entries() =~= Seq::<Entry>::empty());
}

/// There is an entry to leave as long as there is one at all.
pub(crate) proof fn lemma_victim<K: Storable, V: Storable>(r: Region)
    requires
        r.wf::<K, V>(),
        r.bucket_count > 0,
    ensures
        0 <= r.victim::<K>() < r.bucket_count,
        oldest(r.entries()) is Some,
        is_oldest(r.entries(), oldest(r.entries())->Some_0),
        ({
            let old = oldest(r.entries())->Some_0;
            let key = K::decoded(r.entries()[old].key);
            &&& key is Some
            &&& r.victim::<K>() <= old
            &&& position::<K>(r.entries(), key->Some_0) == Some(r.victim::<K>())
            &&& K::decoded(r.entries()[r.victim::<K>()].key) == key
        }),
{
    lemma_oldest_exists(r.entries());
    let old = oldest(r.entries())->Some_0;
    assert(bucket_intact::<K, V>(r.area, offset_of(r.area, old as nat)));
    lemma_position_exists::<K>(
        r.entries(),
        K::decoded(r.entries()[old].key)->Some_0,
        old,
    );
}

/// What holds after entries have left to make room.
pub(crate) proof fn lemma_shrunk<K: Storable, V: Storable>(
    r: Region,
    need: int,
    removed: Option<Seq<u8>>,
)
    requires
        r.wf::<K, V>(),
    ensures
        ({
            let (r2, removed2) = r.shrunk::<K>(need, removed);
            &&& r2.wf::<K, V>()
            &&& r2.size == r.size
            &&& r2.bucket_count <= r.bucket_count
            &&& r2.has_room(need) || r2.bucket_count == 0
        }),
    decreases r.bucket_count,
{
    if !r.has_room(need) && r.bucket_count > 0 {
        lemma_victim::<K, V>(r);
        let i = r.victim::<K>();
        lemma_without::<K, V>(r, i);
        lemma_shrunk::<K, V>(r.without(i), need, Some(r.entries()[i].value));
    }
}

/// Where a key is found: at the first of the entries that have it, if one has
/// it.
pub proof fn law_position<K: Storable>(entries: Seq<Entry>, key: K::Model)
    ensures
        position::<K>(entries, key) is Some <==> exists|i: int|
            0 <= i < entries.len() && K::decoded(#[trigger] entries[i].key) == Some(key),
        position::<K>(entries, key) matches Some(i) ==> {
            &&& 0 <= i < entries.len()
            &&& K::decoded(entries[i].key) == Some(key)
            &&& forall|j: int| 0 <= j < i ==> K::decoded(#[trigger] entries[j].key) != Some(key)
        },
{
    if exists|i: int| 0 <= i < entries.len() && K::decoded(#[trigger] entries[i].key) == Some(key) {
        let i = choose|i: int|
            0 <= i < entries.len() && K::decoded(#[trigger] entries[i].key) == Some(key);
        lemma_position_exists::<K>(entries, key, i);
    } else if position::<K>(entries, key) is Some {
        let i = position::<K>(entries, key)->Some_0;
        assert(is_first_match::<K>(entries, key, i));
        assert(K::decoded(entries[i].key) == Some(key));
    }
}

/// The entry that was accessed the longest ago was accessed before every other
/// one, or at the same time and stands in front of it.
pub proof fn law_oldest(entries: Seq<Entry>)
    ensures
        oldest(entries) is Some <==> entries.len() > 0,
        oldest(entries) matches Some(i) ==> {
            &&& 0 <= i < entries.len()
            &&& forall|j: int|
                0 <= j < entries.len() && j != i ==> {
                    let a = entries[i].last_accessed;
                    let b = (#[trigger] entries[j]).last_accessed;
                    a.precedes(b) || (a == b && i < j)
                }
        },
{
    if entries.len() > 0 {
        lemma_oldest_exists(entries);
        let i = oldest(entries)->Some_0;
        assert forall|j: int| 0 <= j < entries.len() && j != i implies {
            let a = entries[i].last_accessed;
            let b = (#[trigger] entries[j]).last_accessed;
            a.precedes(b) || (a == b && i < j)
        } by {
            law_time_order(entries[i].last_accessed, entries[j].last_accessed);
            if j < i {
                assert(entries[i].last_accessed.precedes(entries[j].last_accessed));
            } else {
                assert(!entries[j].last_accessed.precedes(entries[i].last_accessed));
            }
        }
    }
}

/// Where the bytes of an entry lie. The first bucket lies in front; each is
/// followed by the next one, behind as few unused bytes as it takes to end on a
/// multiple of eight.
pub proof fn law_layout<K: Storable, V: Storable>(r: Region, i: int)
    requires
        r.wf::<K, V>(),
        0 <= i < r.bucket_count,
    ensures
        r.entries().len() == r.bucket_count,
        r.offset(0) == 0,
        r.used == r.offset(r.bucket_count as int),
        r.size == r.area.len() + 24,
        ({
            let e = r.entries()[i];
            let at = r.offset(i);
            &&& 0 <= at
            &&& at + 32 + e.key.len() + e.value.len() <= r.area.len()
            &&& le_value(r.area.subrange(at, at + 8)) == e.value.len()
            &&& le_value(r.area.subrange(at + 8, at + 16)) == e.key.len()
            &&& le_value(r.area.subrange(at + 16, at + 24)) == e.last_accessed.secs
            &&& le_value(r.area.subrange(at + 24, at + 28)) == e.last_accessed.nanos
            &&& r.area.subrange(at + 32, at + 32 + e.key.len()) == e.key
            &&& r.area.subrange(
                at + 32 + e.key.len(),
                at + 32 + e.key.len() + e.value.len(),
            ) == e.value
            &&& at + 32 + e.key.len() + e.value.len() <= r.offset(i + 1) < at + 32 + e.key.len()
                + e.value.len() + 8
            &&& (r.offset(i + 1) - at) % 8 == 0
        }),
{
    let at = r.offset(i);
    assert(bucket_intact::<K, V>(r.area, offset_of(r.area, i as nat)));
    assert(r.offset(i + 1) == next_at(r.area, at));
    law_padded(r.entries()[i].key.len() + r.entries()[i].value.len());
    lemma_le_value(r.area.subrange(at + 16, at + 24));
    lemma_le_value(r.area.subrange(at + 24, at + 28));
    lemma_le_bounds();
}

/// A block begins with the number of entries, the bytes that their buckets take
/// and the block's size, and the buckets follow.
pub proof fn law_image_layout(r: Region)
    requires
        r.bucket_count <= u64::MAX,
        r.used <= u64::MAX,
        r.size <= u64::MAX,
    ensures
        image_of(r).len() == 24 + r.area.len(),
        le_value(image_of(r).subrange(0, 8)) == r.bucket_count,
        le_value(image_of(r).subrange(8, 16)) == r.used,
        le_value(image_of(r).subrange(16, 24)) == r.size,
        image_of(r).skip(24) == r.area,
{
    law_region_in_image(r);
}

} // verus!
