//! What holds of the map across its operations.
use vstd::prelude::*;
use crate::bucket::{
    bucket_intact, data_end, entry_at, lemma_next, lemma_offsets, offset_of, padded, Entry,
    Timestamp, BUCKET_ALIGN, BUCKET_SIZE,
};
use crate::codec::Storable;
use crate::contents::{inserted, looked_up, new_entry, taken_out};
use crate::error::Error;
use crate::memory::{lemma_round_up, round_up};
use crate::region::{
    distinct_keys, is_first_match, is_oldest, law_position, lemma_appended, lemma_cleared,
    lemma_no_position, lemma_oldest_exists, lemma_position, lemma_position_exists, lemma_shrunk,
    lemma_touched, lemma_victim, lemma_without, oldest, position, Region, CONTENTS_SIZE,
};

verus! {

/// The key's and the value's bytes are those that they are stored with.
pub open spec fn is_encoded<K: Storable, V: Storable>(e: Entry) -> bool {
    &&& K::decoded(e.key) is Some
    &&& e.key == K::encode(K::decoded(e.key)->Some_0)
    &&& V::decoded(e.value) is Some
    &&& e.value == V::encode(V::decoded(e.value)->Some_0)
}

/// A map that is in order in every respect. A new map is so, and every
/// operation keeps it so.
pub open spec fn healthy<K: Storable, V: Storable>(r: Region) -> bool {
    &&& r.wf::<K, V>()
    &&& distinct_keys::<K>(r.entries())
    &&& forall|i: int|
        0 <= i < r.entries().len() ==> is_encoded::<K, V>(#[trigger] r.entries()[i])
}

/// The value that a lookup of the key gives.
pub open spec fn value_of<K: Storable, V: Storable>(r: Region, key: K::Model) -> Option<V::Model> {
    match position::<K>(r.entries(), key) {
        Some(i) => V::decoded(r.entries()[i].value),
        None => None,
    }
}

/// A map without entries and without bytes in use is in order.
pub proof fn law_new<K: Storable, V: Storable>(r: Region)
    requires
        r.size == r.area.len() + CONTENTS_SIZE,
        r.size + BUCKET_ALIGN <= usize::MAX,
        r.bucket_count == 0,
        r.used == 0,
    ensures
        healthy::<K, V>(r),
{
}

proof fn lemma_value_at<K: Storable, V: Storable>(r: Region, key: K::Model, i: int)
    requires
        distinct_keys::<K>(r.entries()),
        0 <= i < r.entries().len(),
        K::decoded(r.entries()[i].key) == Some(key),
    ensures
        position::<K>(r.entries(), key) == Some(i),
        value_of::<K, V>(r, key) == V::decoded(r.entries()[i].value),
{
    assert(is_first_match::<K>(r.entries(), key, i)) by {
        assert forall|j: int| 0 <= j < i implies K::decoded(#[trigger] r.entries()[j].key)
            != Some(key) by {
            assert(K::decoded(r.entries()[j].key) != K::decoded(r.entries()[i].key));
        }
    }
    lemma_position::<K>(r.entries(), key, i);
}

proof fn lemma_distinct_remove<K: Storable>(entries: Seq<Entry>, i: int)
    requires
        distinct_keys::<K>(entries),
        0 <= i < entries.len(),
    ensures
        distinct_keys::<K>(entries.remove(i)),
{
    let rest = entries.remove(i);
    assert forall|a: int, b: int| 0 <= a < b < rest.len() implies K::decoded(
        #[trigger] rest[a].key,
    ) != K::decoded(#[trigger] rest[b].key) by {
        let x: int = if a < i {
            a
        } else {
            a + 1
        };
        let y: int = if b < i {
            b
        } else {
            b + 1
        };
        assert(rest[a] == entries[x]);
        assert(rest[b] == entries[y]);
        assert(K::decoded(entries[x].key) != K::decoded(entries[y].key));
    }
}

/// A map that is in order stays so when an entry leaves.
pub(crate) proof fn lemma_healthy_without<K: Storable, V: Storable>(r: Region, i: int)
    requires
        healthy::<K, V>(r),
        0 <= i < r.bucket_count,
    ensures
        healthy::<K, V>(r.without(i)),
{
    lemma_without::<K, V>(r, i);
    lemma_distinct_remove::<K>(r.entries(), i);
    let rest = r.without(i).entries();
    assert forall|k: int| 0 <= k < rest.len() implies is_encoded::<K, V>(#[trigger] rest[k]) by {
        let x: int = if k < i {
            k
        } else {
            k + 1
        };
        assert(rest[k] == r.entries()[x]);
    }
}

pub(crate) proof fn lemma_removed_key<K: Storable>(entries: Seq<Entry>, key: K::Model, i: int)
    requires
        distinct_keys::<K>(entries),
        is_first_match::<K>(entries, key, i),
    ensures
        position::<K>(entries.remove(i), key) is None,
{
    let rest = entries.remove(i);
    assert forall|j: int| 0 <= j < rest.len() implies K::decoded(#[trigger] rest[j].key) != Some(
        key,
    ) by {
        let x: int = if j < i {
            j
        } else {
            j + 1
        };
        assert(rest[j] == entries[x]);
        if x < i {
            assert(K::decoded(entries[x].key) != K::decoded(entries[i].key));
        } else {
            assert(K::decoded(entries[i].key) != K::decoded(entries[x].key));
        }
    }
    lemma_no_position::<K>(rest, key);
}

/// Where a key stands, if it stands anywhere.
pub(crate) proof fn lemma_found<K: Storable>(entries: Seq<Entry>, key: K::Model)
    ensures
        position::<K>(entries, key) is Some ==> is_first_match::<K>(
            entries,
            key,
            position::<K>(entries, key)->Some_0,
        ),
        position::<K>(entries, key) is None ==> forall|j: int|
            0 <= j < entries.len() ==> K::decoded(#[trigger] entries[j].key) != Some(key),
{
    if position::<K>(entries, key) is None {
        assert forall|j: int| 0 <= j < entries.len() implies K::decoded(
            #[trigger] entries[j].key,
        ) != Some(key) by {
            if K::decoded(entries[j].key) == Some(key) {
                lemma_position_exists::<K>(entries, key, j);
            }
        }
    }
}

/// Taking an entry out gives the key's value back, takes the key out, and leaves
/// every other key its value.
pub proof fn law_remove<K: Storable, V: Storable>(
    before: Region,
    key: K::Model,
    result: Option<V>,
    after: Region,
    other: K::Model,
)
    requires
        healthy::<K, V>(before),
        taken_out::<K, V>(before, key, result, after),
    ensures
        healthy::<K, V>(after),
        value_of::<K, V>(after, key) is None,
        position::<K>(after.entries(), key) is None,
        other != key ==> value_of::<K, V>(after, other) == value_of::<K, V>(before, other),
        position::<K>(before.entries(), key) is Some ==> after.bucket_count == before.bucket_count
            - 1,
        result is Some <==> value_of::<K, V>(before, key) is Some,
        result matches Some(v) ==> value_of::<K, V>(before, key) == Some(v.model()),
{
    lemma_found::<K>(before.entries(), key);
    if let Some(i) = position::<K>(before.entries(), key) {
        lemma_without::<K, V>(before, i);
        lemma_healthy_without::<K, V>(before, i);
        lemma_removed_key::<K>(before.entries(), key, i);
        if other != key {
            lemma_kept_without::<K, V>(before, i, other);
        }
    }
}

/// A key keeps its value when the entry of another one leaves.
proof fn lemma_kept_without<K: Storable, V: Storable>(r: Region, i: int, other: K::Model)
    requires
        healthy::<K, V>(r),
        0 <= i < r.bucket_count,
        K::decoded(r.entries()[i].key) != Some(other),
    ensures
        value_of::<K, V>(r.without(i), other) == value_of::<K, V>(r, other),
        position::<K>(r.without(i).entries(), other) is Some <==> position::<K>(
            r.entries(),
            other,
        ) is Some,
{
    lemma_without::<K, V>(r, i);
    lemma_healthy_without::<K, V>(r, i);
    lemma_found::<K>(r.entries(), other);
    lemma_found::<K>(r.without(i).entries(), other);
    let rest = r.without(i).entries();
    if let Some(j) = position::<K>(r.entries(), other) {
        let x: int = if j < i {
            j
        } else {
            j - 1
        };
        assert(rest[x] == r.entries()[j]);
        lemma_value_at::<K, V>(r.without(i), other, x);
        lemma_value_at::<K, V>(r, other, j);
    } else if let Some(x) = position::<K>(rest, other) {
        let j: int = if x < i {
            x
        } else {
            x + 1
        };
        assert(rest[x] == r.entries()[j]);
    }
}

/// Where no two entries have the same key, it is the entry that was accessed
/// the longest ago that leaves.
pub proof fn law_victim_is_oldest<K: Storable, V: Storable>(r: Region)
    requires
        healthy::<K, V>(r),
        r.bucket_count > 0,
    ensures
        is_oldest(r.entries(), r.victim::<K>()),
{
    lemma_victim::<K, V>(r);
    let old = oldest(r.entries())->Some_0;
    let i = r.victim::<K>();
    if i < old {
        assert(K::decoded(r.entries()[i].key) != K::decoded(r.entries()[old].key));
    }
}

/// The entry that leaves for want of room takes its key along; every other key
/// keeps its value.
pub proof fn law_evict<K: Storable, V: Storable>(r: Region, other: K::Model)
    requires
        healthy::<K, V>(r),
        r.bucket_count > 0,
    ensures
        ({
            let i = r.victim::<K>();
            &&& healthy::<K, V>(r.without(i))
            &&& r.without(i).entries() == r.entries().remove(i)
            &&& K::decoded(r.entries()[i].key) == Some(other) ==> value_of::<K, V>(
                r.without(i),
                other,
            ) is None
            &&& K::decoded(r.entries()[i].key) != Some(other) ==> value_of::<K, V>(
                r.without(i),
                other,
            ) == value_of::<K, V>(r, other)
        }),
{
    lemma_victim::<K, V>(r);
    let i = r.victim::<K>();
    lemma_without::<K, V>(r, i);
    lemma_healthy_without::<K, V>(r, i);
    if K::decoded(r.entries()[i].key) == Some(other) {
        lemma_first::<K>(r.entries(), other, i);
        lemma_removed_key::<K>(r.entries(), other, i);
    } else {
        lemma_kept_without::<K, V>(r, i, other);
    }
}

/// What holds of the entries that are left after others have left for want of
/// room.
pub open spec fn made_room(before: Region, need: int, after: Region) -> bool {
    // nothing is made up or changed
    &&& forall|y: Entry| after.entries().contains(y) ==> #[trigger] before.entries().contains(y)
    // those that have left had not been accessed later than any that is left
    &&& forall|x: Entry, y: Entry|
        before.entries().contains(x) && !after.entries().contains(x) && after.entries().contains(y)
            ==> !(#[trigger] y.last_accessed.precedes(x.last_accessed))
    // nothing leaves unless there is no room
    &&& before.has_room(need) ==> after == before
}

pub(crate) proof fn lemma_contains_without<K: Storable, V: Storable>(r: Region, i: int)
    requires
        healthy::<K, V>(r),
        0 <= i < r.bucket_count,
    ensures
        forall|y: Entry|
            r.without(i).entries().contains(y) ==> #[trigger] r.entries().contains(y),
        forall|x: Entry| #[trigger]
            r.entries().contains(x) && x != r.entries()[i] ==> r.without(i).entries().contains(x),
{
    lemma_without::<K, V>(r, i);
    let rest = r.without(i).entries();
    assert forall|y: Entry| rest.contains(y) implies #[trigger] r.entries().contains(y) by {
        let a = choose|a: int| 0 <= a < rest.len() && rest[a] == y;
        let x: int = if a < i {
            a
        } else {
            a + 1
        };
        assert(r.entries()[x] == y);
    }
    assert forall|x: Entry| #[trigger]
        r.entries().contains(x) && x != r.entries()[i] implies rest.contains(x) by {
        let a = choose|a: int| 0 <= a < r.entries().len() && r.entries()[a] == x;
        let b: int = if a < i {
            a
        } else {
            a - 1
        };
        assert(rest[b] == x);
    }
}

/// Making room takes out the entries that were accessed the longest ago, and
/// none while there is room; the keys that are left keep their values.
pub proof fn law_make_room<K: Storable, V: Storable>(
    r: Region,
    need: int,
    removed: Option<Seq<u8>>,
)
    requires
        healthy::<K, V>(r),
    ensures
        ({
            let after = r.shrunk::<K>(need, removed).0;
            &&& healthy::<K, V>(after)
            &&& made_room(r, need, after)
            &&& forall|key: K::Model| #[trigger]
                position::<K>(after.entries(), key) is Some ==> value_of::<K, V>(after, key)
                    == value_of::<K, V>(r, key) && position::<K>(r.entries(), key) is Some
        }),
    decreases r.bucket_count,
{
    let (after, last) = r.shrunk::<K>(need, removed);
    if !r.has_room(need) && r.bucket_count > 0 {
        law_victim_is_oldest::<K, V>(r);
        let i = r.victim::<K>();
        let s = r.without(i);
        lemma_without::<K, V>(r, i);
        lemma_healthy_without::<K, V>(r, i);
        lemma_contains_without::<K, V>(r, i);
        law_make_room::<K, V>(s, need, Some(r.entries()[i].value));
        assert forall|y: Entry| after.entries().contains(y) implies #[trigger] r.entries().contains(
            y,
        ) by {
            assert(s.entries().contains(y));
        }
        assert forall|x: Entry, y: Entry|
            r.entries().contains(x) && !after.entries().contains(x) && after.entries().contains(
                y,
            ) implies !(#[trigger] y.last_accessed.precedes(x.last_accessed)) by {
            assert(s.entries().contains(y));
            assert(r.entries().contains(y));
            if x == r.entries()[i] {
                let b = choose|b: int| 0 <= b < r.entries().len() && r.entries()[b] == y;
                assert(!r.entries()[b].last_accessed.precedes(r.entries()[i].last_accessed));
            } else {
                assert(s.entries().contains(x));
            }
        }
        assert forall|key: K::Model| #[trigger]
            position::<K>(after.entries(), key) is Some implies value_of::<K, V>(after, key)
            == value_of::<K, V>(r, key) && position::<K>(r.entries(), key) is Some by {
            assert(value_of::<K, V>(after, key) == value_of::<K, V>(s, key));
            lemma_found::<K>(s.entries(), key);
            if K::decoded(r.entries()[i].key) == Some(key) {
                lemma_first::<K>(r.entries(), key, i);
                lemma_removed_key::<K>(r.entries(), key, i);
            }
            lemma_kept_without::<K, V>(r, i, key);
        }
    }
}

pub(crate) proof fn lemma_first<K: Storable>(entries: Seq<Entry>, key: K::Model, i: int)
    requires
        distinct_keys::<K>(entries),
        0 <= i < entries.len(),
        K::decoded(entries[i].key) == Some(key),
    ensures
        is_first_match::<K>(entries, key, i),
{
    assert forall|j: int| 0 <= j < i implies K::decoded(#[trigger] entries[j].key) != Some(
        key,
    ) by {
        assert(K::decoded(entries[j].key) != K::decoded(entries[i].key));
    }
}

/// What is taken out before an insertion: the entry with the same key.
pub(crate) proof fn lemma_forgotten<K: Storable, V: Storable>(r: Region, key: K::Model)
    requires
        healthy::<K, V>(r),
    ensures
        healthy::<K, V>(r.forgotten::<K>(key)),
        position::<K>(r.forgotten::<K>(key).entries(), key) is None,
        r.forgotten::<K>(key).size == r.size,
        forall|other: K::Model|
            other != key ==> #[trigger] value_of::<K, V>(r.forgotten::<K>(key), other)
                == value_of::<K, V>(r, other),
        forall|other: K::Model|
            other != key ==> (#[trigger] position::<K>(
                r.forgotten::<K>(key).entries(),
                other,
            ) is Some <==> position::<K>(r.entries(), other) is Some),
        forall|y: Entry|
            r.forgotten::<K>(key).entries().contains(y) ==> #[trigger] r.entries().contains(y),
        forall|x: Entry| #[trigger]
            r.entries().contains(x) && K::decoded(x.key) != Some(key) ==> r.forgotten::<K>(
                key,
            ).entries().contains(x),
{
    lemma_found::<K>(r.entries(), key);
    if let Some(i) = position::<K>(r.entries(), key) {
        lemma_without::<K, V>(r, i);
        lemma_healthy_without::<K, V>(r, i);
        lemma_removed_key::<K>(r.entries(), key, i);
        lemma_contains_without::<K, V>(r, i);
        assert forall|other: K::Model| other != key implies #[trigger] value_of::<K, V>(
            r.without(i),
            other,
        ) == value_of::<K, V>(r, other) by {
            lemma_kept_without::<K, V>(r, i, other);
        }
        assert forall|other: K::Model| other != key implies (#[trigger] position::<K>(
            r.without(i).entries(),
            other,
        ) is Some <==> position::<K>(r.entries(), other) is Some) by {
            lemma_kept_without::<K, V>(r, i, other);
        }
    }
}

/// A new entry follows the others and changes none of them.
proof fn lemma_pushed<K: Storable, V: Storable>(r: Region, after: Region, key: K::Model, e: Entry)
    requires
        distinct_keys::<K>(r.entries()),
        position::<K>(r.entries(), key) is None,
        K::decoded(e.key) == Some(key),
        after.entries() == r.entries().push(e),
    ensures
        distinct_keys::<K>(after.entries()),
        value_of::<K, V>(after, key) == V::decoded(e.value),
        position::<K>(after.entries(), key) == Some(r.entries().len() as int),
        forall|other: K::Model|
            other != key ==> #[trigger] value_of::<K, V>(after, other) == value_of::<K, V>(
                r,
                other,
            ),
        forall|other: K::Model|
            other != key ==> (#[trigger] position::<K>(after.entries(), other) is Some
                <==> position::<K>(r.entries(), other) is Some),
{
    let n: int = r.entries().len() as int;
    lemma_found::<K>(r.entries(), key);
    assert forall|i: int, j: int| 0 <= i < j < after.entries().len() implies K::decoded(
        #[trigger] after.entries()[i].key,
    ) != K::decoded(#[trigger] after.entries()[j].key) by {
        assert(after.entries()[i] == r.entries()[i]);
        if j < n {
            assert(after.entries()[j] == r.entries()[j]);
            assert(K::decoded(r.entries()[i].key) != K::decoded(r.entries()[j].key));
        } else {
            assert(K::decoded(r.entries()[i].key) != Some(key));
        }
    }
    lemma_value_at::<K, V>(after, key, n);
    assert forall|other: K::Model| other != key implies (#[trigger] value_of::<K, V>(after, other)
        == value_of::<K, V>(r, other)) && (position::<K>(after.entries(), other) is Some
        <==> position::<K>(r.entries(), other) is Some) by {
        lemma_pushed_other::<K, V>(r, after, e, other);
    }
    assert forall|other: K::Model| other != key implies (#[trigger] position::<K>(
        after.entries(),
        other,
    ) is Some <==> position::<K>(r.entries(), other) is Some) by {
        lemma_pushed_other::<K, V>(r, after, e, other);
    }
}

proof fn lemma_pushed_other<K: Storable, V: Storable>(
    r: Region,
    after: Region,
    e: Entry,
    other: K::Model,
)
    requires
        distinct_keys::<K>(r.entries()),
        distinct_keys::<K>(after.entries()),
        K::decoded(e.key) != Some(other),
        after.entries() == r.entries().push(e),
    ensures
        value_of::<K, V>(after, other) == value_of::<K, V>(r, other),
        position::<K>(after.entries(), other) is Some <==> position::<K>(
            r.entries(),
            other,
        ) is Some,
{
    lemma_found::<K>(r.entries(), other);
    lemma_found::<K>(after.entries(), other);
    if let Some(i) = position::<K>(r.entries(), other) {
        assert(after.entries()[i] == r.entries()[i]);
        lemma_value_at::<K, V>(after, other, i);
        lemma_value_at::<K, V>(r, other, i);
    } else if let Some(i) = position::<K>(after.entries(), other) {
        assert(after.entries()[i] == r.entries()[i]);
    }
}

/// A read gives back what was written: an insertion succeeds exactly if the
/// entry fits into the memory behind the header; the key then has the value,
/// and every other key that is still there has the value that it had.
pub proof fn law_insert<K: Storable, V: Storable>(
    before: Region,
    key: K,
    value: V,
    now: Timestamp,
    result: Result<Option<V>, Error>,
    after: Region,
)
    requires
        healthy::<K, V>(before),
        inserted::<K, V>(before, key, value, now, result, after),
    ensures
        healthy::<K, V>(after),
        result is Ok <==> CONTENTS_SIZE + new_entry::<K, V>(key, value, now).need() <= before.size,
        result is Ok ==> value_of::<K, V>(after, key.model()) == Some(value.model()),
        result is Err ==> after == before || after.bucket_count == 0,
        forall|other: K::Model|
            other != key.model() && #[trigger] position::<K>(after.entries(), other) is Some
                ==> position::<K>(before.entries(), other) is Some && value_of::<K, V>(after, other)
                == value_of::<K, V>(before, other),
{
    let e = new_entry::<K, V>(key, value, now);
    let s = before.forgotten::<K>(key.model());
    let (r, removed) = s.shrunk::<K>(e.need(), None);
    lemma_forgotten::<K, V>(before, key.model());
    lemma_shrunk::<K, V>(s, e.need(), None);
    law_make_room::<K, V>(s, e.need(), None);
    if e.need() <= before.size {
        if r.has_room(e.need()) {
            K::decoded_encode(key.model());
            V::decoded_encode(value.model());
            lemma_appended::<K, V>(r, e);
            lemma_pushed::<K, V>(r, after, key.model(), e);
        }
        assert forall|other: K::Model|
            other != key.model() && #[trigger] position::<K>(
                after.entries(),
                other,
            ) is Some implies position::<K>(before.entries(), other) is Some && value_of::<K, V>(
            after,
            other,
        ) == value_of::<K, V>(before, other) by {
            assert(position::<K>(r.entries(), other) is Some);
            assert(value_of::<K, V>(r, other) == value_of::<K, V>(s, other));
            assert(position::<K>(s.entries(), other) is Some);
            assert(value_of::<K, V>(s, other) == value_of::<K, V>(before, other));
        }
    }
}

/// Looking a key up right after it has been put in gives the value that was
/// put in.
pub proof fn law_get_after_insert<K: Storable, V: Storable>(
    before: Region,
    key: K,
    value: V,
    now: Timestamp,
    result: Result<Option<V>, Error>,
    after: Region,
    later: Timestamp,
    found: Option<V>,
    then: Region,
)
    requires
        healthy::<K, V>(before),
        inserted::<K, V>(before, key, value, now, result, after),
        result is Ok,
        looked_up::<K, V>(after, key.model(), later, found, then),
    ensures
        found is Some,
        found->Some_0.model() == value.model(),
{
    law_insert::<K, V>(before, key, value, now, result, after);
}

/// An insertion for which there is room takes out no entry but one with the
/// same key, and takes as many bytes as `size_of` says.
pub proof fn law_insert_with_room<K: Storable, V: Storable>(
    before: Region,
    key: K,
    value: V,
    now: Timestamp,
    result: Result<Option<V>, Error>,
    after: Region,
)
    requires
        healthy::<K, V>(before),
        inserted::<K, V>(before, key, value, now, result, after),
        before.forgotten::<K>(key.model()).has_room(new_entry::<K, V>(key, value, now).need()),
    ensures
        healthy::<K, V>(after),
        result is Ok,
        result->Ok_0 is None,
        after.used == before.forgotten::<K>(key.model()).used + BUCKET_SIZE + padded(
            K::encode(key.model()).len() + V::encode(value.model()).len(),
        ),
        after.entries() == before.forgotten::<K>(key.model()).entries().push(
            new_entry::<K, V>(key, value, now),
        ),
        position::<K>(before.entries(), key.model()) is None ==> {
            &&& before.forgotten::<K>(key.model()) == before
            &&& after.bucket_count == before.bucket_count + 1
        },
        position::<K>(before.entries(), key.model()) is Some ==> after.bucket_count
            == before.bucket_count,
        forall|other: K::Model|
            other != key.model() ==> #[trigger] value_of::<K, V>(after, other) == value_of::<K, V>(
                before,
                other,
            ),
{
    let e = new_entry::<K, V>(key, value, now);
    let s = before.forgotten::<K>(key.model());
    lemma_forgotten::<K, V>(before, key.model());
    lemma_found::<K>(before.entries(), key.model());
    assert(s.shrunk::<K>(e.need(), None) == (s, None::<Seq<u8>>));
    K::decoded_encode(key.model());
    V::decoded_encode(value.model());
    lemma_appended::<K, V>(s, e);
    lemma_pushed::<K, V>(s, after, key.model(), e);
}

/// The entries that an insertion takes out for want of room were accessed no
/// later than any of those that it leaves.
pub proof fn law_insert_takes_out_the_oldest<K: Storable, V: Storable>(
    before: Region,
    key: K,
    value: V,
    now: Timestamp,
    result: Result<Option<V>, Error>,
    after: Region,
    gone: Entry,
    left: Entry,
)
    requires
        healthy::<K, V>(before),
        inserted::<K, V>(before, key, value, now, result, after),
        result is Ok,
        before.entries().contains(gone),
        K::decoded(gone.key) != Some(key.model()),
        !after.entries().contains(gone),
        after.entries().contains(left),
        K::decoded(left.key) != Some(key.model()),
    ensures
        before.entries().contains(left),
        !left.last_accessed.precedes(gone.last_accessed),
{
    let e = new_entry::<K, V>(key, value, now);
    let s = before.forgotten::<K>(key.model());
    let (r, removed) = s.shrunk::<K>(e.need(), None);
    lemma_forgotten::<K, V>(before, key.model());
    lemma_shrunk::<K, V>(s, e.need(), None);
    law_make_room::<K, V>(s, e.need(), None);
    K::decoded_encode(key.model());
    V::decoded_encode(value.model());
    lemma_appended::<K, V>(r, e);
    assert(after.entries() == r.entries().push(e));
    assert(r.entries().contains(left)) by {
        let i = choose|i: int| 0 <= i < after.entries().len() && after.entries()[i] == left;
        if i == r.entries().len() {
            assert(left == e);
        }
        assert(r.entries()[i] == left);
    }
    assert(s.entries().contains(left));
    assert(s.entries().contains(gone));
    assert(!r.entries().contains(gone)) by {
        if r.entries().contains(gone) {
            let i = choose|i: int| 0 <= i < r.entries().len() && r.entries()[i] == gone;
            assert(after.entries()[i] == gone);
        }
    }
    assert(!left.last_accessed.precedes(gone.last_accessed));
}

/// The entry has left for want of room for another one, which has that key.
pub open spec fn left_for_room<K: Storable>(
    before: Region,
    key: K::Model,
    after: Region,
    gone: Entry,
) -> bool {
    &&& before.entries().contains(gone)
    &&& K::decoded(gone.key) != Some(key)
    &&& !after.entries().contains(gone)
}

/// What comes back of the entries that leave is the value of the last of them.
proof fn lemma_last_removed<K: Storable, V: Storable>(
    r: Region,
    need: int,
    removed: Option<Seq<u8>>,
)
    requires
        healthy::<K, V>(r),
        !r.has_room(need),
        r.bucket_count > 0,
    ensures
        ({
            let (after, last) = r.shrunk::<K>(need, removed);
            exists|e: Entry|
                {
                    &&& #[trigger] r.entries().contains(e)
                    &&& !after.entries().contains(e)
                    &&& last == Some(e.value)
                    &&& forall|x: Entry| #[trigger]
                        r.entries().contains(x) && !after.entries().contains(x)
                            ==> !e.last_accessed.precedes(x.last_accessed)
                }
        }),
    decreases r.bucket_count,
{
    law_victim_is_oldest::<K, V>(r);
    let i = r.victim::<K>();
    let s = r.without(i);
    let gone = r.entries()[i];
    let (after, last) = r.shrunk::<K>(need, removed);
    lemma_without::<K, V>(r, i);
    lemma_healthy_without::<K, V>(r, i);
    lemma_contains_without::<K, V>(r, i);
    assert(r.entries().contains(gone));
    if s.has_room(need) || s.bucket_count == 0 {
        assert(!s.entries().contains(gone)) by {
            let key = K::decoded(gone.key)->Some_0;
            assert(is_encoded::<K, V>(r.entries()[i]));
            lemma_first::<K>(r.entries(), key, i);
            lemma_removed_key::<K>(r.entries(), key, i);
            lemma_found::<K>(s.entries(), key);
        }
        assert(s.shrunk::<K>(need, Some(gone.value)) == (s, Some(gone.value)));
    } else {
        lemma_last_removed::<K, V>(s, need, Some(gone.value));
        let e = choose|e: Entry|
            {
                &&& #[trigger] s.entries().contains(e)
                &&& !after.entries().contains(e)
                &&& last == Some(e.value)
                &&& forall|x: Entry| #[trigger]
                    s.entries().contains(x) && !after.entries().contains(x)
                        ==> !e.last_accessed.precedes(x.last_accessed)
            };
        assert(r.entries().contains(e));
        assert forall|x: Entry| #[trigger]
            r.entries().contains(x) && !after.entries().contains(
                x,
            ) implies !e.last_accessed.precedes(x.last_accessed) by {
            if x == gone {
                let b = choose|b: int| 0 <= b < r.entries().len() && r.entries()[b] == e;
                assert(!r.entries()[b].last_accessed.precedes(r.entries()[i].last_accessed));
            } else {
                assert(s.entries().contains(x));
            }
        }
    }
}

/// What an insertion returns is the value of the entry that was the last to
/// leave for it: of all that have left, none was accessed later. It returns
/// nothing exactly if none has left.
pub proof fn law_insert_returns_the_last_to_leave<K: Storable, V: Storable>(
    before: Region,
    key: K,
    value: V,
    now: Timestamp,
    result: Result<Option<V>, Error>,
    after: Region,
)
    requires
        healthy::<K, V>(before),
        inserted::<K, V>(before, key, value, now, result, after),
        result is Ok,
    ensures
        result->Ok_0 is None ==> forall|gone: Entry|
            !#[trigger] left_for_room::<K>(before, key.model(), after, gone),
        result->Ok_0 matches Some(v) ==> exists|gone: Entry|
            {
                &&& #[trigger] left_for_room::<K>(before, key.model(), after, gone)
                &&& V::decoded(gone.value) == Some(v.model())
                &&& forall|other: Entry| #[trigger]
                    left_for_room::<K>(before, key.model(), after, other)
                        ==> !gone.last_accessed.precedes(other.last_accessed)
            },
{
    let e = new_entry::<K, V>(key, value, now);
    let s = before.forgotten::<K>(key.model());
    let (r, removed) = s.shrunk::<K>(e.need(), None);
    lemma_forgotten::<K, V>(before, key.model());
    lemma_found::<K>(s.entries(), key.model());
    K::decoded_encode(key.model());
    assert(after.entries() == r.entries().push(e));
    assert forall|x: Entry| K::decoded(x.key) != Some(key.model()) implies (
    #[trigger] after.entries().contains(x) <==> r.entries().contains(x)) by {
        if r.entries().contains(x) {
            let i = choose|i: int| 0 <= i < r.entries().len() && r.entries()[i] == x;
            assert(after.entries()[i] == x);
        }
        if after.entries().contains(x) {
            let i = choose|i: int| 0 <= i < after.entries().len() && after.entries()[i] == x;
            if i < r.entries().len() {
                assert(r.entries()[i] == x);
            }
        }
    }
    if s.has_room(e.need()) || s.bucket_count == 0 {
        assert(r == s && removed is None);
    } else {
        lemma_last_removed::<K, V>(s, e.need(), None);
        let gone = choose|x: Entry|
            {
                &&& #[trigger] s.entries().contains(x)
                &&& !r.entries().contains(x)
                &&& removed == Some(x.value)
                &&& forall|y: Entry| #[trigger]
                    s.entries().contains(y) && !r.entries().contains(y)
                        ==> !x.last_accessed.precedes(y.last_accessed)
            };
        assert(before.entries().contains(gone));
        let i = choose|i: int| 0 <= i < s.entries().len() && s.entries()[i] == gone;
        assert(K::decoded(s.entries()[i].key) != Some(key.model()));
        assert(left_for_room::<K>(before, key.model(), after, gone));
        assert forall|other: Entry| #[trigger]
            left_for_room::<K>(
                before,
                key.model(),
                after,
                other,
            ) implies !gone.last_accessed.precedes(other.last_accessed) by {
            assert(s.entries().contains(other));
            assert(!r.entries().contains(other));
        }
    }
}

/// No entry leaves for nothing: there was no room before the last one left.
pub proof fn law_make_room_stops<K: Storable, V: Storable>(
    r: Region,
    need: int,
    removed: Option<Seq<u8>>,
)
    requires
        healthy::<K, V>(r),
        r.shrunk::<K>(need, removed).0 != r,
    ensures
        exists|last: Region|
            {
                &&& #[trigger] healthy::<K, V>(last)
                &&& last.bucket_count > 0
                &&& !last.has_room(need)
                &&& r.shrunk::<K>(need, removed).0 == last.without(last.victim::<K>())
            },
    decreases r.bucket_count,
{
    lemma_victim::<K, V>(r);
    let i = r.victim::<K>();
    let s = r.without(i);
    lemma_without::<K, V>(r, i);
    lemma_healthy_without::<K, V>(r, i);
    if s.shrunk::<K>(need, Some(r.entries()[i].value)).0 != s {
        law_make_room_stops::<K, V>(s, need, Some(r.entries()[i].value));
    } else {
        assert(healthy::<K, V>(r));
    }
}

/// Looking a key up changes no key's value, and keeps the map in order.
pub proof fn law_get<K: Storable, V: Storable>(
    before: Region,
    key: K::Model,
    now: Timestamp,
    result: Option<V>,
    after: Region,
    other: K::Model,
)
    requires
        before.wf::<K, V>(),
        looked_up::<K, V>(before, key, now, result, after),
    ensures
        healthy::<K, V>(before) ==> healthy::<K, V>(after),
        result is Some <==> value_of::<K, V>(before, key) is Some,
        result is Some ==> value_of::<K, V>(before, key) == Some(result->Some_0.model()),
        position::<K>(after.entries(), other) == position::<K>(before.entries(), other),
        value_of::<K, V>(after, other) == value_of::<K, V>(before, other),
        after.used == before.used,
        after.bucket_count == before.bucket_count,
{
    lemma_found::<K>(before.entries(), key);
    lemma_found::<K>(before.entries(), other);
    if let Some(i) = position::<K>(before.entries(), key) {
        lemma_touched::<K, V>(before, i, now);
        let a = before.entries();
        let b = after.entries();
        assert forall|j: int| 0 <= j < a.len() implies (#[trigger] b[j]).key == a[j].key && b[j].value
            == a[j].value by {}
        if let Some(k) = position::<K>(a, other) {
            assert(is_first_match::<K>(b, other, k));
            lemma_position::<K>(b, other, k);
        } else {
            lemma_no_position::<K>(b, other);
        }
        if healthy::<K, V>(before) {
            assert forall|x: int, y: int| 0 <= x < y < b.len() implies K::decoded(
                #[trigger] b[x].key,
            ) != K::decoded(#[trigger] b[y].key) by {
                assert(K::decoded(a[x].key) != K::decoded(a[y].key));
            }
        }
    }
}

/// An access keeps an entry from being the next to leave, as long as some
/// other entry was accessed earlier.
pub proof fn law_access_protects<K: Storable, V: Storable>(
    before: Region,
    key: K::Model,
    now: Timestamp,
    result: Option<V>,
    after: Region,
    j: int,
)
    requires
        before.wf::<K, V>(),
        looked_up::<K, V>(before, key, now, result, after),
        position::<K>(before.entries(), key) is Some,
        0 <= j < before.entries().len(),
        j != position::<K>(before.entries(), key)->Some_0,
        before.entries()[j].last_accessed.precedes(now),
    ensures
        oldest(after.entries()) is Some,
        oldest(after.entries())->Some_0 != position::<K>(before.entries(), key)->Some_0,
{
    lemma_found::<K>(before.entries(), key);
    lemma_oldest_exists(after.entries());
    assert(after.entries()[j] == before.entries()[j]);
}

/// After a clearing no key is there, and all of the memory is free again: the
/// map has the entries and the bytes in use of a new map of the same size.
pub proof fn law_clear<K: Storable, V: Storable>(before: Region, fresh: Region, key: K::Model)
    requires
        before.wf::<K, V>(),
        fresh.wf::<K, V>(),
        fresh.bucket_count == 0,
        fresh.size == before.size,
    ensures
        healthy::<K, V>(before.cleared()),
        alike(before.cleared(), fresh),
        before.cleared().bucket_count == 0,
        before.cleared().entries() == Seq::<Entry>::empty(),
        before.cleared().entries() == fresh.entries(),
        before.cleared().total_used() == fresh.total_used(),
        before.cleared().total_used() == CONTENTS_SIZE,
        before.cleared().size - before.cleared().total_used() == fresh.size - fresh.total_used(),
        position::<K>(before.cleared().entries(), key) is None,
        value_of::<K, V>(before.cleared(), key) is None,
{
    lemma_cleared::<K, V>(before);
    lemma_no_position::<K>(before.cleared().entries(), key);
    assert(fresh.entries() =~= Seq::<Entry>::empty());
}

/// Two maps of the same size that hold the same entries, in the same order.
/// What bytes lie around behind the entries does not matter.
pub open spec fn alike(a: Region, b: Region) -> bool {
    &&& a.size == b.size
    &&& a.entries() == b.entries()
}

/// Bytes that the buckets of some entries take.
pub open spec fn sizes(entries: Seq<Entry>) -> int
    decreases entries.len(),
{
    if entries.len() == 0 {
        0
    } else {
        sizes(entries.drop_last()) + entries.last().size()
    }
}

proof fn lemma_offset_is_sizes<K: Storable, V: Storable>(r: Region, n: nat)
    requires
        r.wf::<K, V>(),
        n <= r.bucket_count,
    ensures
        offset_of(r.area, n) == sizes(r.entries().take(n as int)),
    decreases n,
{
    if n > 0 {
        let p: nat = (n - 1) as nat;
        let front = r.entries().take(n as int);
        lemma_offset_is_sizes::<K, V>(r, p);
        assert(front.drop_last() =~= r.entries().take(p as int));
        assert(bucket_intact::<K, V>(r.area, offset_of(r.area, p)));
        assert(front.last() == entry_at(r.area, offset_of(r.area, p)));
    }
}

/// The bytes in use are those of the entries' buckets and of the header.
pub(crate) proof fn lemma_used<K: Storable, V: Storable>(r: Region)
    requires
        r.wf::<K, V>(),
    ensures
        r.used == sizes(r.entries()),
{
    lemma_offset_is_sizes::<K, V>(r, r.bucket_count);
    assert(r.entries().take(r.bucket_count as int) =~= r.entries());
}

/// The keys and the values that a map holds, in the order of their buckets.
pub open spec fn held<K: Storable, V: Storable>(r: Region) -> Seq<(K::Model, V::Model)> {
    Seq::new(
        r.entries().len(),
        |i: int|
            (
                K::decoded(r.entries()[i].key)->Some_0,
                V::decoded(r.entries()[i].value)->Some_0,
            ),
    )
}

/// Bytes that a key and its value take in a map: what `size_of` gives.
pub open spec fn stored_size<K: Storable, V: Storable>(item: (K::Model, V::Model)) -> int {
    BUCKET_SIZE + padded(K::encode(item.0).len() + V::encode(item.1).len())
}

/// Bytes that some keys and their values take in a map.
pub open spec fn stored_sizes<K: Storable, V: Storable>(items: Seq<(K::Model, V::Model)>) -> int
    decreases items.len(),
{
    if items.len() == 0 {
        0
    } else {
        stored_sizes::<K, V>(items.drop_last()) + stored_size::<K, V>(items.last())
    }
}

proof fn lemma_stored_sizes<K: Storable, V: Storable>(
    entries: Seq<Entry>,
    items: Seq<(K::Model, V::Model)>,
)
    requires
        entries.len() == items.len(),
        forall|i: int| 0 <= i < entries.len() ==> is_encoded::<K, V>(#[trigger] entries[i]),
        forall|i: int|
            0 <= i < entries.len() ==> #[trigger] items[i] == (
                K::decoded(entries[i].key)->Some_0,
                V::decoded(entries[i].value)->Some_0,
            ),
    ensures
        sizes(entries) == stored_sizes::<K, V>(items),
    decreases entries.len(),
{
    if entries.len() > 0 {
        lemma_stored_sizes::<K, V>(entries.drop_last(), items.drop_last());
        let last: int = entries.len() - 1;
        assert(is_encoded::<K, V>(entries[last]));
        assert(items[last] == (
            K::decoded(entries[last].key)->Some_0,
            V::decoded(entries[last].value)->Some_0,
        ));
    }
}

/// The bytes in use depend on what the map holds, and not on how it came
/// there: they are those of the header and, for each key and its value, those
/// that `size_of` gives.
pub proof fn law_used<K: Storable, V: Storable>(r: Region)
    requires
        healthy::<K, V>(r),
    ensures
        r.total_used() == CONTENTS_SIZE + stored_sizes::<K, V>(held::<K, V>(r)),
{
    lemma_used::<K, V>(r);
    lemma_stored_sizes::<K, V>(r.entries(), held::<K, V>(r));
}

proof fn lemma_stored_sizes_remove<K: Storable, V: Storable>(
    items: Seq<(K::Model, V::Model)>,
    i: int,
)
    requires
        0 <= i < items.len(),
    ensures
        stored_sizes::<K, V>(items) == stored_sizes::<K, V>(items.remove(i)) + stored_size::<K, V>(
            items[i],
        ),
    decreases items.len(),
{
    let rest = items.remove(i);
    if i == items.len() - 1 {
        assert(rest =~= items.drop_last());
    } else {
        lemma_stored_sizes_remove::<K, V>(items.drop_last(), i);
        assert(rest.drop_last() =~= items.drop_last().remove(i));
        assert(rest.last() == items.last());
    }
}

proof fn lemma_stored_sizes_order<K: Storable, V: Storable>(
    a: Seq<(K::Model, V::Model)>,
    b: Seq<(K::Model, V::Model)>,
)
    requires
        a.to_multiset() == b.to_multiset(),
    ensures
        stored_sizes::<K, V>(a) == stored_sizes::<K, V>(b),
    decreases a.len(),
{
    a.to_multiset_ensures();
    b.to_multiset_ensures();
    if a.len() > 0 {
        let last: int = a.len() - 1;
        assert(a.contains(a[last]));
        assert(a.to_multiset().count(a[last]) > 0);
        assert(b.contains(a[last]));
        let j = choose|j: int| 0 <= j < b.len() && b[j] == a[last];
        assert(a.remove(last).to_multiset() =~= a.to_multiset().remove(a[last]));
        assert(b.remove(j).to_multiset() =~= b.to_multiset().remove(b[j]));
        lemma_stored_sizes_remove::<K, V>(a, last);
        lemma_stored_sizes_remove::<K, V>(b, j);
        lemma_stored_sizes_order::<K, V>(a.remove(last), b.remove(j));
    }
}

/// What a lookup of a key gives is the value of an entry with that key, if there
/// is one.
pub proof fn law_value_of<K: Storable, V: Storable>(r: Region, key: K::Model)
    requires
        r.wf::<K, V>(),
    ensures
        value_of::<K, V>(r, key) is Some <==> exists|i: int|
            0 <= i < r.entries().len() && K::decoded(#[trigger] r.entries()[i].key) == Some(key),
        value_of::<K, V>(r, key) is Some ==> exists|i: int|
            0 <= i < r.entries().len() && K::decoded(#[trigger] r.entries()[i].key) == Some(key)
                && V::decoded(r.entries()[i].value) == value_of::<K, V>(r, key),
{
    law_position::<K>(r.entries(), key);
    if let Some(i) = position::<K>(r.entries(), key) {
        assert(bucket_intact::<K, V>(r.area, offset_of(r.area, i as nat)));
    }
}

/// The bytes in use are the sum of those that the entries' buckets take: each
/// takes 32 bytes and those of its key and its value with the padding. With the
/// header's they are what `used` gives.
pub proof fn law_used_by_entries<K: Storable, V: Storable>(
    r: Region,
    entries: Seq<Entry>,
    e: Entry,
)
    requires
        r.wf::<K, V>(),
    ensures
        r.used == sizes(r.entries()),
        r.total_used() == 24 + r.used,
        sizes(Seq::<Entry>::empty()) == 0,
        sizes(entries.push(e)) == sizes(entries) + 32 + padded(e.key.len() + e.value.len()),
{
    lemma_used::<K, V>(r);
    assert(entries.push(e).drop_last() =~= entries);
}

/// A key and its value take 32 bytes and those of their encodings with the
/// padding, and several take the sum of that.
pub proof fn law_stored_size<K: Storable, V: Storable>(
    items: Seq<(K::Model, V::Model)>,
    item: (K::Model, V::Model),
)
    ensures
        stored_sizes::<K, V>(Seq::<(K::Model, V::Model)>::empty()) == 0,
        stored_sizes::<K, V>(items.push(item)) == stored_sizes::<K, V>(items) + 32 + padded(
            K::encode(item.0).len() + V::encode(item.1).len(),
        ),
{
    assert(items.push(item).drop_last() =~= items);
}

/// Two maps that hold the same keys and values, in whatever order, have the
/// same bytes in use.
pub proof fn law_used_of_the_same<K: Storable, V: Storable>(a: Region, b: Region)
    requires
        healthy::<K, V>(a),
        healthy::<K, V>(b),
        held::<K, V>(a).to_multiset() == held::<K, V>(b).to_multiset(),
    ensures
        a.total_used() == b.total_used(),
{
    law_used::<K, V>(a);
    law_used::<K, V>(b);
    lemma_stored_sizes_order::<K, V>(held::<K, V>(a), held::<K, V>(b));
}

/// A key that is there can always be given a value of the same size, counted
/// with the unused bytes behind it: nothing leaves, and no more bytes are in
/// use than before.
pub proof fn law_insert_again<K: Storable, V: Storable>(
    before: Region,
    key: K,
    value: V,
    now: Timestamp,
    result: Result<Option<V>, Error>,
    after: Region,
    was: V::Model,
)
    requires
        healthy::<K, V>(before),
        before.total_used() <= before.size,
        value_of::<K, V>(before, key.model()) == Some(was),
        padded(K::encode(key.model()).len() + V::encode(value.model()).len()) == padded(
            K::encode(key.model()).len() + V::encode(was).len(),
        ),
        inserted::<K, V>(before, key, value, now, result, after),
    ensures
        healthy::<K, V>(after),
        result == Ok::<Option<V>, Error>(None),
        after.bucket_count == before.bucket_count,
        after.used == before.used,
        value_of::<K, V>(after, key.model()) == Some(value.model()),
        forall|other: K::Model|
            other != key.model() ==> #[trigger] value_of::<K, V>(after, other) == value_of::<K, V>(
                before,
                other,
            ),
{
    let i = position::<K>(before.entries(), key.model())->Some_0;
    lemma_found::<K>(before.entries(), key.model());
    assert(is_encoded::<K, V>(before.entries()[i]));
    lemma_without::<K, V>(before, i);
    lemma_round_up(
        (K::encode(key.model()).len() + V::encode(value.model()).len()) as int,
        BUCKET_ALIGN as int,
    );
    law_insert_with_room::<K, V>(before, key, value, now, result, after);
    law_insert::<K, V>(before, key, value, now, result, after);
}

proof fn lemma_offsets_aligned(mem: Seq<u8>, n: nat)
    ensures
        offset_of(mem, n) % (BUCKET_ALIGN as int) == 0,
    decreases n,
{
    if n > 0 {
        let at = offset_of(mem, (n - 1) as nat);
        lemma_offsets_aligned(mem, (n - 1) as nat);
        lemma_round_up(data_end(mem, at) - at - BUCKET_SIZE, BUCKET_ALIGN as int);
    }
}

/// The map takes no more than the memory that it was given, if that is a
/// multiple of a bucket's alignment, and else no more than the next such
/// multiple.
pub proof fn law_memory_limit<K: Storable, V: Storable>(r: Region)
    requires
        r.wf::<K, V>(),
    ensures
        r.total_used() <= round_up(r.size as int, BUCKET_ALIGN as int),
        r.size % (BUCKET_ALIGN as nat) == 0 ==> r.total_used() <= r.size,
{
    let n = r.bucket_count;
    lemma_round_up(r.size as int, BUCKET_ALIGN as int);
    lemma_offsets_aligned(r.area, n);
    if n > 0 {
        let at = offset_of(r.area, (n - 1) as nat);
        assert(bucket_intact::<K, V>(r.area, at));
        lemma_next(r.area, at);
    }
}

/// The map stays inside its memory: the bytes of every entry lie in it, and
/// the buckets do not overlap.
pub proof fn law_bounded<K: Storable, V: Storable>(r: Region, i: int, j: int)
    requires
        r.wf::<K, V>(),
        0 <= i < j < r.bucket_count,
    ensures
        0 <= r.offset(i),
        data_end(r.area, r.offset(i)) <= r.offset(j),
        r.offset(i) + r.entries()[i].size() <= r.offset(j),
        data_end(r.area, r.offset(j)) <= r.area.len(),
        r.area.len() + CONTENTS_SIZE == r.size,
        r.total_used() < r.size + BUCKET_ALIGN,
{
    lemma_offsets(r.area, i as nat, j as nat);
    assert(bucket_intact::<K, V>(r.area, offset_of(r.area, i as nat)));
    assert(bucket_intact::<K, V>(r.area, offset_of(r.area, j as nat)));
}

} // verus!
