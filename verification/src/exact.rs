//! What each operation does to the entries of a map, in full.
use vstd::prelude::*;
use crate::bucket::{padded, Entry, Timestamp, BUCKET_SIZE};
use crate::codec::Storable;
use crate::contents::{evicted, inserted, looked_up, new_entry, taken_out};
use crate::error::Error;
use crate::laws::{
    healthy, is_encoded, law_insert, law_make_room, law_victim_is_oldest, lemma_contains_without,
    lemma_first, lemma_forgotten, lemma_found, lemma_healthy_without, lemma_removed_key,
};
use crate::region::{
    law_oldest, law_position, lemma_cleared, lemma_shrunk, lemma_touched, lemma_victim,
    lemma_without, oldest, position, Region, CONTENTS_SIZE,
};

verus! {

/// Of two entries, the `i`th was accessed earlier than the `j`th, or at the
/// same time and stands in front of it.
spec fn first(entries: Seq<Entry>, i: int, j: int) -> bool {
    let a = entries[i].last_accessed;
    let b = entries[j].last_accessed;
    a.precedes(b) || (a == b && i < j)
}

/// Where the entry at `x` stands once the one at `p` is gone.
spec fn shift(p: int, x: int) -> int {
    if x < p {
        x
    } else {
        x - 1
    }
}

/// No two entries of a map are the same.
proof fn lemma_different<K: Storable, V: Storable>(r: Region, i: int, j: int)
    requires
        healthy::<K, V>(r),
        0 <= i < r.entries().len(),
        0 <= j < r.entries().len(),
        i != j,
    ensures
        r.entries()[i] != r.entries()[j],
{
    if i < j {
        assert(K::decoded(r.entries()[i].key) != K::decoded(r.entries()[j].key));
    } else {
        assert(K::decoded(r.entries()[j].key) != K::decoded(r.entries()[i].key));
    }
}

/// An entry that has been taken out is not there any more.
proof fn lemma_gone<K: Storable, V: Storable>(r: Region, i: int)
    requires
        healthy::<K, V>(r),
        0 <= i < r.entries().len(),
    ensures
        !r.without(i).entries().contains(r.entries()[i]),
{
    let key = K::decoded(r.entries()[i].key)->Some_0;
    assert(is_encoded::<K, V>(r.entries()[i]));
    lemma_without::<K, V>(r, i);
    lemma_first::<K>(r.entries(), key, i);
    lemma_removed_key::<K>(r.entries(), key, i);
    lemma_found::<K>(r.without(i).entries(), key);
}

/// The entry that leaves next goes before every other one.
proof fn lemma_victim_first<K: Storable, V: Storable>(r: Region, j: int)
    requires
        healthy::<K, V>(r),
        0 <= j < r.entries().len(),
        j != r.victim::<K>(),
    ensures
        first(r.entries(), r.victim::<K>(), j),
{
    law_victim_is_oldest::<K, V>(r);
    let i = r.victim::<K>();
    let a = r.entries()[i].last_accessed;
    let b = r.entries()[j].last_accessed;
    assert(!r.entries()[j].last_accessed.precedes(r.entries()[i].last_accessed));
    if j < i {
        assert(r.entries()[i].last_accessed.precedes(r.entries()[j].last_accessed));
    } else if !a.precedes(b) {
        assert(a.secs == b.secs && a.nanos == b.nanos);
    }
}

/// What leaves to make room goes before what stays.
proof fn lemma_leavers<K: Storable, V: Storable>(
    r: Region,
    need: int,
    removed: Option<Seq<u8>>,
    g: int,
    l: int,
)
    requires
        healthy::<K, V>(r),
        0 <= g < r.entries().len(),
        0 <= l < r.entries().len(),
        !r.shrunk::<K>(need, removed).0.entries().contains(r.entries()[g]),
        r.shrunk::<K>(need, removed).0.entries().contains(r.entries()[l]),
    ensures
        first(r.entries(), g, l),
    decreases r.bucket_count,
{
    if r.has_room(need) || r.bucket_count == 0 {
        assert(r.shrunk::<K>(need, removed).0 == r);
        assert(r.entries().contains(r.entries()[g]));
    } else {
        lemma_victim::<K, V>(r);
        let i = r.victim::<K>();
        let s = r.without(i);
        lemma_without::<K, V>(r, i);
        lemma_healthy_without::<K, V>(r, i);
        lemma_gone::<K, V>(r, i);
        law_make_room::<K, V>(s, need, Some(r.entries()[i].value));
        assert(s.entries().contains(r.entries()[l]));
        assert(l != i);
        if g == i {
            lemma_victim_first::<K, V>(r, l);
        } else {
            let g2 = shift(i, g);
            let l2 = shift(i, l);
            assert(s.entries()[g2] == r.entries()[g]);
            assert(s.entries()[l2] == r.entries()[l]);
            lemma_leavers::<K, V>(s, need, Some(r.entries()[i].value), g2, l2);
        }
    }
}

/// The `g`th entry was the last to leave, and there was no room before.
spec fn last_gone(r: Region, need: int, after: Region, last: Option<Seq<u8>>, g: int) -> bool {
    &&& 0 <= g < r.entries().len()
    &&& !after.entries().contains(r.entries()[g])
    &&& last == Some(r.entries()[g].value)
    &&& after.total_used() + r.entries()[g].size() + need > r.size
    &&& forall|h: int|
        0 <= h < r.entries().len() && h != g && !after.entries().contains(
            #[trigger] r.entries()[h],
        ) ==> first(r.entries(), h, g)
}

proof fn lemma_last_gone<K: Storable, V: Storable>(
    r: Region,
    need: int,
    removed: Option<Seq<u8>>,
) -> (g: int)
    requires
        healthy::<K, V>(r),
        !r.has_room(need),
        r.bucket_count > 0,
    ensures
        last_gone(r, need, r.shrunk::<K>(need, removed).0, r.shrunk::<K>(need, removed).1, g),
    decreases r.bucket_count,
{
    lemma_victim::<K, V>(r);
    let i = r.victim::<K>();
    let s = r.without(i);
    let bytes = Some(r.entries()[i].value);
    let (after, last) = r.shrunk::<K>(need, removed);
    lemma_without::<K, V>(r, i);
    lemma_healthy_without::<K, V>(r, i);
    lemma_gone::<K, V>(r, i);
    lemma_contains_without::<K, V>(r, i);
    if s.has_room(need) || s.bucket_count == 0 {
        assert(s.shrunk::<K>(need, bytes) == (s, bytes));
        assert forall|h: int|
            0 <= h < r.entries().len() && h != i && !after.entries().contains(
                #[trigger] r.entries()[h],
            ) implies first(r.entries(), h, i) by {
            lemma_different::<K, V>(r, h, i);
            assert(r.entries().contains(r.entries()[h]));
        }
        i
    } else {
        let g2 = lemma_last_gone::<K, V>(s, need, bytes);
        let g: int = if g2 < i {
            g2
        } else {
            g2 + 1
        };
        assert(s.entries()[g2] == r.entries()[g]);
        assert forall|h: int|
            0 <= h < r.entries().len() && h != g && !after.entries().contains(
                #[trigger] r.entries()[h],
            ) implies first(r.entries(), h, g) by {
            if h == i {
                lemma_victim_first::<K, V>(r, g);
            } else {
                let h2 = shift(i, h);
                assert(s.entries()[h2] == r.entries()[h]);
            }
        }
        g
    }
}

/// Holds of the entries that are there in `after`.
pub open spec fn present(after: Seq<Entry>) -> spec_fn(Entry) -> bool {
    |e: Entry| after.contains(e)
}

proof fn lemma_filter_remove(a: Seq<Entry>, i: int, p: spec_fn(Entry) -> bool)
    requires
        0 <= i < a.len(),
        !p(a[i]),
    ensures
        a.filter(p) == a.remove(i).filter(p),
    decreases a.len(),
{
    reveal(Seq::filter);
    let b = a.remove(i);
    if i == a.len() - 1 {
        assert(b =~= a.drop_last());
    } else {
        lemma_filter_remove(a.drop_last(), i, p);
        assert(b.drop_last() =~= a.drop_last().remove(i));
        assert(b.last() == a.last());
    }
}

proof fn lemma_filter_all(a: Seq<Entry>, p: spec_fn(Entry) -> bool)
    requires
        forall|i: int| 0 <= i < a.len() ==> p(#[trigger] a[i]),
    ensures
        a.filter(p) == a,
    decreases a.len(),
{
    reveal(Seq::filter);
    if a.len() > 0 {
        lemma_filter_all(a.drop_last(), p);
        assert(p(a[a.len() - 1]));
        assert(a =~= a.drop_last().push(a.last()));
    }
}

/// What stays keeps its order.
proof fn lemma_room_filter<K: Storable, V: Storable>(
    r: Region,
    need: int,
    removed: Option<Seq<u8>>,
    p: spec_fn(Entry) -> bool,
)
    requires
        healthy::<K, V>(r),
        forall|e: Entry| #[trigger]
            p(e) <==> r.shrunk::<K>(need, removed).0.entries().contains(e),
    ensures
        r.shrunk::<K>(need, removed).0.entries() == r.entries().filter(p),
    decreases r.bucket_count,
{
    let after = r.shrunk::<K>(need, removed).0;
    if r.has_room(need) || r.bucket_count == 0 {
        assert(after == r);
        assert forall|i: int| 0 <= i < r.entries().len() implies p(#[trigger] r.entries()[i]) by {
            assert(r.entries().contains(r.entries()[i]));
        }
        lemma_filter_all(r.entries(), p);
    } else {
        lemma_victim::<K, V>(r);
        let i = r.victim::<K>();
        let s = r.without(i);
        let bytes = Some(r.entries()[i].value);
        lemma_without::<K, V>(r, i);
        lemma_healthy_without::<K, V>(r, i);
        lemma_gone::<K, V>(r, i);
        law_make_room::<K, V>(s, need, bytes);
        assert(!p(r.entries()[i]));
        lemma_filter_remove(r.entries(), i, p);
        lemma_room_filter::<K, V>(s, need, bytes, p);
    }
}

/// The state between the two halves of an insertion that succeeds: the entry
/// with the same key has left, and then others for want of room.
proof fn lemma_halves<K: Storable, V: Storable>(
    before: Region,
    key: K,
    value: V,
    now: Timestamp,
    result: Result<Option<V>, Error>,
    after: Region,
)
    requires
        healthy::<K, V>(before),
        inserted::<K, V>(before, key, value, now, result, after),
        result is Ok,
    ensures
        ({
            let e = new_entry::<K, V>(key, value, now);
            let s = before.forgotten::<K>(key.model());
            let r = s.shrunk::<K>(e.need(), None).0;
            &&& healthy::<K, V>(s)
            &&& healthy::<K, V>(r)
            &&& s.size == before.size
            &&& r.size == before.size
            &&& after.size == before.size
            &&& after.entries() == r.entries().push(e)
            &&& after.used == r.used + e.size()
            &&& K::decoded(e.key) == Some(key.model())
            &&& forall|x: Entry|
                K::decoded(x.key) != Some(key.model()) ==> (#[trigger] after.entries().contains(x)
                    <==> r.entries().contains(x))
            &&& forall|i: int|
                0 <= i < r.entries().len() ==> K::decoded(#[trigger] r.entries()[i].key) != Some(
                    key.model(),
                )
        }),
{
    let e = new_entry::<K, V>(key, value, now);
    let s = before.forgotten::<K>(key.model());
    let r = s.shrunk::<K>(e.need(), None).0;
    lemma_forgotten::<K, V>(before, key.model());
    lemma_shrunk::<K, V>(s, e.need(), None);
    law_make_room::<K, V>(s, e.need(), None);
    lemma_found::<K>(r.entries(), key.model());
    K::decoded_encode(key.model());
    assert forall|x: Entry| K::decoded(x.key) != Some(key.model()) implies (
    #[trigger] after.entries().contains(x) <==> r.entries().contains(x)) by {
        if r.entries().contains(x) {
            let i = choose|i: int| 0 <= i < r.entries().len() && r.entries()[i] == x;
            assert(after.entries()[i] == x);
        }
        if after.entries().contains(x) {
            let i = choose|i: int| 0 <= i < after.entries().len() && after.entries()[i] == x;
            if i < r.entries().len() {
                assert(r.entries()[i] == x);
            }
        }
    }
}

/// The entry that an insertion stores has the encodings of the key and of the
/// value, and is dated by `now`.
pub proof fn law_new_entry<K: Storable, V: Storable>(key: K, value: V, now: Timestamp)
    ensures
        new_entry::<K, V>(key, value, now).key == K::encode(key.model()),
        new_entry::<K, V>(key, value, now).value == V::encode(value.model()),
        new_entry::<K, V>(key, value, now).last_accessed == now,
{
}

/// What an insertion does, by the bytes that the entry needs. One that needs
/// more than all of the memory changes nothing. One that needs more than there
/// is behind the header finds no room even when all entries have left. Any
/// other is stored behind those that stay, dated by `now`, and those that stay
/// keep their order.
pub proof fn law_insert_in_full<K: Storable, V: Storable>(
    before: Region,
    key: K,
    value: V,
    now: Timestamp,
    result: Result<Option<V>, Error>,
    after: Region,
)
    requires
        healthy::<K, V>(before),
        inserted::<K, V>(before, key, value, now, result, after),
    ensures
        after.size == before.size,
        ({
            let key_bytes = K::encode(key.model());
            let value_bytes = V::encode(value.model());
            let need = BUCKET_SIZE + key_bytes.len() + value_bytes.len();
            if need > before.size {
                &&& result == Err::<Option<V>, Error>(Error::TooLargeError)
                &&& after == before
            } else if CONTENTS_SIZE + need > before.size {
                &&& result == Err::<Option<V>, Error>(Error::TooLargeError)
                &&& after.entries() == Seq::<Entry>::empty()
                &&& after.used == 0
            } else {
                &&& result is Ok
                &&& after.entries().len() > 0
                &&& after.entries().last() == (Entry {
                    key: key_bytes,
                    value: value_bytes,
                    last_accessed: now,
                })
                &&& after.entries().drop_last() == before.entries().filter(
                    present(after.entries().drop_last()),
                )
                &&& forall|i: int|
                    0 <= i < after.entries().len() - 1 ==> K::decoded(
                        #[trigger] after.entries()[i].key,
                    ) != Some(key.model())
            }
        }),
{
    let e = new_entry::<K, V>(key, value, now);
    law_insert::<K, V>(before, key, value, now, result, after);
    let s = before.forgotten::<K>(key.model());
    let r = s.shrunk::<K>(e.need(), None).0;
    lemma_forgotten::<K, V>(before, key.model());
    lemma_shrunk::<K, V>(s, e.need(), None);
    if result is Ok {
        lemma_halves::<K, V>(before, key, value, now, result, after);
        assert(after.entries().drop_last() =~= r.entries());
        let p = present(after.entries().drop_last());
        lemma_room_filter::<K, V>(s, e.need(), None, p);
        lemma_found::<K>(before.entries(), key.model());
        if let Some(i) = position::<K>(before.entries(), key.model()) {
            lemma_without::<K, V>(before, i);
            if r.entries().contains(before.entries()[i]) {
                let x = choose|x: int|
                    0 <= x < r.entries().len() && r.entries()[x] == before.entries()[i];
                assert(K::decoded(r.entries()[x].key) != Some(key.model()));
            }
            lemma_filter_remove(before.entries(), i, p);
        }
        assert forall|i: int| 0 <= i < after.entries().len() - 1 implies K::decoded(
            #[trigger] after.entries()[i].key,
        ) != Some(key.model()) by {
            assert(after.entries()[i] == r.entries()[i]);
        }
    } else if e.need() <= before.size {
        assert(after.entries() =~= Seq::<Entry>::empty());
    }
}

/// Who leaves for want of room, and who stays: of two entries with other keys,
/// the one that leaves was accessed earlier than the one that stays, or at the
/// same time and stood in front of it.
#[verifier::rlimit(40)]
pub proof fn law_insert_who_leaves<K: Storable, V: Storable>(
    before: Region,
    key: K,
    value: V,
    now: Timestamp,
    result: Result<Option<V>, Error>,
    after: Region,
    gone: int,
    left: int,
)
    requires
        healthy::<K, V>(before),
        inserted::<K, V>(before, key, value, now, result, after),
        result is Ok,
        0 <= gone < before.entries().len(),
        0 <= left < before.entries().len(),
        K::decoded(before.entries()[gone].key) != Some(key.model()),
        K::decoded(before.entries()[left].key) != Some(key.model()),
        !after.entries().contains(before.entries()[gone]),
        after.entries().contains(before.entries()[left]),
    ensures
        ({
            let a = before.entries()[gone].last_accessed;
            let b = before.entries()[left].last_accessed;
            a.precedes(b) || (a == b && gone < left)
        }),
{
    let e = new_entry::<K, V>(key, value, now);
    let s = before.forgotten::<K>(key.model());
    lemma_halves::<K, V>(before, key, value, now, result, after);
    lemma_found::<K>(before.entries(), key.model());
    if let Some(p) = position::<K>(before.entries(), key.model()) {
        lemma_without::<K, V>(before, p);
        let g = shift(p, gone);
        let l = shift(p, left);
        assert(s.entries()[g] == before.entries()[gone]);
        assert(s.entries()[l] == before.entries()[left]);
        lemma_leavers::<K, V>(s, e.need(), None, g, l);
    } else {
        lemma_leavers::<K, V>(s, e.need(), None, gone, left);
    }
}

/// No more entries leave than it takes, and what is returned is the value of
/// the last one: were that one still there, the new entry would not fit.
#[verifier::rlimit(40)]
pub proof fn law_insert_evicts_no_more<K: Storable, V: Storable>(
    before: Region,
    key: K,
    value: V,
    now: Timestamp,
    result: Result<Option<V>, Error>,
    after: Region,
    last: int,
)
    requires
        healthy::<K, V>(before),
        inserted::<K, V>(before, key, value, now, result, after),
        result is Ok,
        // the entry has left for want of room
        0 <= last < before.entries().len(),
        K::decoded(before.entries()[last].key) != Some(key.model()),
        !after.entries().contains(before.entries()[last]),
        // and all others that have left did so before it
        forall|i: int|
            0 <= i < before.entries().len() && i != last && K::decoded(
                before.entries()[i].key,
            ) != Some(key.model()) && !after.entries().contains(#[trigger] before.entries()[i])
                ==> {
                let a = before.entries()[i].last_accessed;
                let b = before.entries()[last].last_accessed;
                a.precedes(b) || (a == b && i < last)
            },
    ensures
        result->Ok_0 is Some,
        V::decoded(before.entries()[last].value) == Some(result->Ok_0->Some_0.model()),
        ({
            let data = K::encode(key.model()).len() + V::encode(value.model()).len();
            let gone = before.entries()[last];
            let kept = after.used - (BUCKET_SIZE + padded(data));
            CONTENTS_SIZE + kept + (BUCKET_SIZE + padded(gone.key.len() + gone.value.len())) + (
            BUCKET_SIZE + data) > before.size
        }),
{
    let e = new_entry::<K, V>(key, value, now);
    let s = before.forgotten::<K>(key.model());
    let (r, bytes) = s.shrunk::<K>(e.need(), None);
    lemma_halves::<K, V>(before, key, value, now, result, after);
    lemma_found::<K>(before.entries(), key.model());
    let p: int = match position::<K>(before.entries(), key.model()) {
        Some(p) => p,
        None => before.entries().len() as int,
    };
    if position::<K>(before.entries(), key.model()) is Some {
        lemma_without::<K, V>(before, p);
    }
    let l = shift(p, last);
    assert(s.entries()[l] == before.entries()[last]);
    if s.has_room(e.need()) || s.bucket_count == 0 {
        assert(r == s);
        assert(s.entries().contains(s.entries()[l]));
    }
    let g = lemma_last_gone::<K, V>(s, e.need(), None);
    let g2: int = if g < p {
        g
    } else {
        g + 1
    };
    assert(s.entries()[g] == before.entries()[g2]);
    if g != l {
        assert(first(s.entries(), l, g)) by {
            assert(!r.entries().contains(s.entries()[l]));
        }
        lemma_forgotten::<K, V>(before, key.model());
        lemma_found::<K>(s.entries(), key.model());
        assert(K::decoded(s.entries()[g].key) != Some(key.model()));
        assert(!after.entries().contains(before.entries()[g2]));
        assert(g2 != last);
        assert(false);
    }
}

/// While there is room, nobody leaves but an entry with the same key.
pub proof fn law_insert_where_there_is_room<K: Storable, V: Storable>(
    before: Region,
    key: K,
    value: V,
    now: Timestamp,
    result: Result<Option<V>, Error>,
    after: Region,
)
    requires
        healthy::<K, V>(before),
        inserted::<K, V>(before, key, value, now, result, after),
    ensures
        ({
            let e = Entry {
                key: K::encode(key.model()),
                value: V::encode(value.model()),
                last_accessed: now,
            };
            let need = BUCKET_SIZE + e.key.len() + e.value.len();
            let size = BUCKET_SIZE + padded(e.key.len() + e.value.len());
            &&& (forall|i: int|
                0 <= i < before.entries().len() ==> K::decoded(#[trigger] before.entries()[i].key)
                    != Some(key.model())) && CONTENTS_SIZE + before.used + need <= before.size ==> {
                &&& result == Ok::<Option<V>, Error>(None)
                &&& after.entries() == before.entries().push(e)
                &&& after.used == before.used + size
            }
            &&& forall|i: int|
                {
                    let was = #[trigger] before.entries()[i];
                    let freed = BUCKET_SIZE + padded(was.key.len() + was.value.len());
                    0 <= i < before.entries().len() && K::decoded(was.key) == Some(key.model())
                        && CONTENTS_SIZE + before.used - freed + need <= before.size ==> {
                        &&& result == Ok::<Option<V>, Error>(None)
                        &&& after.entries() == before.entries().remove(i).push(e)
                        &&& after.used == before.used - freed + size
                    }
                }
        }),
{
    let e = new_entry::<K, V>(key, value, now);
    let s = before.forgotten::<K>(key.model());
    lemma_forgotten::<K, V>(before, key.model());
    lemma_found::<K>(before.entries(), key.model());
    if let Some(p) = position::<K>(before.entries(), key.model()) {
        lemma_without::<K, V>(before, p);
        assert forall|i: int|
            0 <= i < before.entries().len() && K::decoded(#[trigger] before.entries()[i].key)
                == Some(key.model()) implies i == p by {
            lemma_first::<K>(before.entries(), key.model(), i);
            if i < p {
                assert(K::decoded(before.entries()[i].key) != K::decoded(before.entries()[p].key));
            }
            if p < i {
                assert(K::decoded(before.entries()[p].key) != K::decoded(before.entries()[i].key));
            }
        }
        assert(K::decoded(before.entries()[p].key) == Some(key.model()));
    }
    if s.has_room(e.need()) {
        assert(s.shrunk::<K>(e.need(), None) == (s, None::<Seq<u8>>));
    }
}

/// What a lookup does: it finds the value of the entry with that key, dates
/// that entry by `now`, and changes nothing else.
pub proof fn law_get_in_full<K: Storable, V: Storable>(
    before: Region,
    key: K::Model,
    now: Timestamp,
    result: Option<V>,
    after: Region,
)
    requires
        before.wf::<K, V>(),
        looked_up::<K, V>(before, key, now, result, after),
    ensures
        after.size == before.size,
        after.used == before.used,
        result is Some <==> exists|i: int|
            0 <= i < before.entries().len() && K::decoded(#[trigger] before.entries()[i].key)
                == Some(key),
        result is None ==> after == before,
        result matches Some(v) ==> exists|i: int|
            {
                let e = #[trigger] before.entries()[i];
                &&& 0 <= i < before.entries().len()
                &&& K::decoded(e.key) == Some(key)
                &&& V::decoded(e.value) == Some(v.model())
                &&& after.entries() == before.entries().update(
                    i,
                    Entry { key: e.key, value: e.value, last_accessed: now },
                )
            },
{
    lemma_found::<K>(before.entries(), key);
    if let Some(i) = position::<K>(before.entries(), key) {
        lemma_touched::<K, V>(before, i, now);
        assert(K::decoded(before.entries()[i].key) == Some(key));
    }
}

/// What taking out does: the entry with that key leaves, its value is
/// returned, its bytes are free again, and the others stay as they are, in
/// their order.
pub proof fn law_remove_in_full<K: Storable, V: Storable>(
    before: Region,
    key: K::Model,
    result: Option<V>,
    after: Region,
)
    requires
        before.wf::<K, V>(),
        taken_out::<K, V>(before, key, result, after),
    ensures
        after.size == before.size,
        result is Some <==> exists|i: int|
            0 <= i < before.entries().len() && K::decoded(#[trigger] before.entries()[i].key)
                == Some(key),
        result is None ==> after == before,
        result matches Some(v) ==> exists|i: int|
            {
                let e = #[trigger] before.entries()[i];
                &&& 0 <= i < before.entries().len()
                &&& K::decoded(e.key) == Some(key)
                &&& V::decoded(e.value) == Some(v.model())
                &&& after.entries() == before.entries().remove(i)
                &&& after.used == before.used - (BUCKET_SIZE + padded(
                    e.key.len() + e.value.len(),
                ))
            },
{
    lemma_found::<K>(before.entries(), key);
    if let Some(i) = position::<K>(before.entries(), key) {
        lemma_without::<K, V>(before, i);
        assert(K::decoded(before.entries()[i].key) == Some(key));
    }
}

/// What an eviction does: of all entries the one that was accessed the longest
/// ago leaves, the first of them if there are several, and its value is
/// returned.
pub proof fn law_evict_in_full<K: Storable, V: Storable>(
    before: Region,
    result: Option<V>,
    after: Region,
)
    requires
        healthy::<K, V>(before),
        evicted::<K, V>(before, result, after),
    ensures
        after.size == before.size,
        result is None <==> before.entries().len() == 0,
        result is None ==> after == before,
        result matches Some(v) ==> exists|i: int|
            {
                let e = #[trigger] before.entries()[i];
                &&& 0 <= i < before.entries().len()
                &&& V::decoded(e.value) == Some(v.model())
                &&& after.entries() == before.entries().remove(i)
                &&& after.used == before.used - (BUCKET_SIZE + padded(
                    e.key.len() + e.value.len(),
                ))
                &&& forall|j: int|
                    0 <= j < before.entries().len() && j != i ==> {
                        let other = #[trigger] before.entries()[j];
                        e.last_accessed.precedes(other.last_accessed) || (e.last_accessed
                            == other.last_accessed && i < j)
                    }
            },
{
    assert(before.entries().len() == before.bucket_count);
    if before.bucket_count > 0 {
        let i = before.victim::<K>();
        lemma_victim::<K, V>(before);
        lemma_without::<K, V>(before, i);
        assert forall|j: int| 0 <= j < before.entries().len() && j != i implies {
            let other = #[trigger] before.entries()[j];
            before.entries()[i].last_accessed.precedes(other.last_accessed) || (
            before.entries()[i].last_accessed == other.last_accessed && i < j)
        } by {
            lemma_victim_first::<K, V>(before, j);
        }
        assert(before.entries()[i] == before.entries()[i]);
    }
}

/// What clearing does: no entry is left, and no byte behind the header is in
/// use.
pub proof fn law_clear_in_full<K: Storable, V: Storable>(before: Region)
    requires
        before.wf::<K, V>(),
    ensures
        before.cleared().entries() == Seq::<Entry>::empty(),
        before.cleared().bucket_count == 0,
        before.cleared().used == 0,
        before.cleared().total_used() == CONTENTS_SIZE,
        before.cleared().size == before.size,
        before.cleared().area.len() == before.area.len(),
{
    lemma_cleared::<K, V>(before);
}

/// What is out of the way before an insertion makes room: the entry with the
/// same key, and nothing else.
pub proof fn law_forgotten<K: Storable, V: Storable>(before: Region, key: K::Model)
    requires
        before.wf::<K, V>(),
    ensures
        before.forgotten::<K>(key).size == before.size,
        (forall|i: int|
            0 <= i < before.entries().len() ==> K::decoded(#[trigger] before.entries()[i].key)
                != Some(key)) ==> before.forgotten::<K>(key) == before,
        (exists|i: int|
            0 <= i < before.entries().len() && K::decoded(#[trigger] before.entries()[i].key)
                == Some(key)) ==> exists|i: int|
            {
                let e = #[trigger] before.entries()[i];
                &&& 0 <= i < before.entries().len()
                &&& K::decoded(e.key) == Some(key)
                &&& before.forgotten::<K>(key).entries() == before.entries().remove(i)
                &&& before.forgotten::<K>(key).used == before.used - (BUCKET_SIZE + padded(
                    e.key.len() + e.value.len(),
                ))
            },
{
    lemma_found::<K>(before.entries(), key);
    if let Some(i) = position::<K>(before.entries(), key) {
        lemma_without::<K, V>(before, i);
        assert(K::decoded(before.entries()[i].key) == Some(key));
    }
}

/// What it is to be without an entry: the others are there, in their order, and
/// its bytes are free.
pub proof fn law_without<K: Storable, V: Storable>(r: Region, i: int)
    requires
        r.wf::<K, V>(),
        0 <= i < r.entries().len(),
    ensures
        r.without(i).wf::<K, V>(),
        r.without(i).size == r.size,
        r.without(i).entries() == r.entries().remove(i),
        r.without(i).used == r.used - (BUCKET_SIZE + padded(
            r.entries()[i].key.len() + r.entries()[i].value.len(),
        )),
{
    lemma_without::<K, V>(r, i);
}

/// Which entry leaves when room is needed, in whatever state the memory was
/// found: the first one that has the key of the entry that was accessed the
/// longest ago.
pub proof fn law_victim<K: Storable, V: Storable>(r: Region)
    requires
        r.wf::<K, V>(),
        r.entries().len() > 0,
    ensures
        0 <= r.victim::<K>() < r.entries().len(),
        exists|o: int|
            {
                let old = #[trigger] r.entries()[o];
                &&& 0 <= o < r.entries().len()
                &&& K::decoded(r.entries()[r.victim::<K>()].key) == K::decoded(old.key)
                &&& K::decoded(old.key) is Some
                &&& forall|j: int|
                    0 <= j < r.entries().len() && j != o ==> {
                        let other = #[trigger] r.entries()[j];
                        old.last_accessed.precedes(other.last_accessed) || (old.last_accessed
                            == other.last_accessed && o < j)
                    }
            },
        forall|j: int|
            0 <= j < r.victim::<K>() ==> K::decoded(#[trigger] r.entries()[j].key) != K::decoded(
                r.entries()[r.victim::<K>()].key,
            ),
{
    assert(r.entries().len() == r.bucket_count);
    lemma_victim::<K, V>(r);
    law_oldest(r.entries());
    let o = oldest(r.entries())->Some_0;
    law_position::<K>(r.entries(), K::decoded(r.entries()[o].key)->Some_0);
    assert(r.entries()[o] == r.entries()[o]);
}

/// Entries leave one at a time.
pub open spec fn evictions<K: Storable>(chain: Seq<Region>) -> bool {
    forall|k: int|
        #![trigger chain[k]]
        0 <= k < chain.len() - 1 ==> chain[k].entries().len() > 0 && chain[k + 1]
            == chain[k].without(chain[k].victim::<K>())
}

proof fn lemma_chain<K: Storable, V: Storable>(
    r: Region,
    need: int,
    removed: Option<Seq<u8>>,
) -> (chain: Seq<Region>)
    requires
        r.wf::<K, V>(),
    ensures
        chain.len() > 0,
        chain[0] == r,
        chain.last() == r.shrunk::<K>(need, removed).0,
        evictions::<K>(chain),
        forall|k: int| 0 <= k < chain.len() - 1 ==> !(#[trigger] chain[k]).has_room(need),
        chain.last().has_room(need) || chain.last().entries().len() == 0,
        chain.len() == 1 ==> r.shrunk::<K>(need, removed).1 == removed,
        chain.len() > 1 ==> {
            let last = chain[chain.len() - 2];
            r.shrunk::<K>(need, removed).1 == Some(last.entries()[last.victim::<K>()].value)
        },
    decreases r.bucket_count,
{
    assert(r.entries().len() == r.bucket_count);
    if r.has_room(need) || r.bucket_count == 0 {
        seq![r]
    } else {
        lemma_victim::<K, V>(r);
        let i = r.victim::<K>();
        lemma_without::<K, V>(r, i);
        let rest = lemma_chain::<K, V>(r.without(i), need, Some(r.entries()[i].value));
        let chain = seq![r] + rest;
        assert forall|k: int|
            #![trigger chain[k]]
            0 <= k < chain.len() - 1 implies chain[k].entries().len() > 0 && chain[k + 1]
            == chain[k].without(chain[k].victim::<K>()) by {
            if k > 0 {
                assert(chain[k] == rest[k - 1]);
                assert(chain[k + 1] == rest[k]);
            }
        }
        assert forall|k: int| 0 <= k < chain.len() - 1 implies !(#[trigger] chain[k]).has_room(
            need,
        ) by {
            if k > 0 {
                assert(chain[k] == rest[k - 1]);
            }
        }
        assert(chain.last() == rest.last());
        if rest.len() > 1 {
            assert(chain[chain.len() - 2] == rest[rest.len() - 2]);
        }
        chain
    }
}

/// How an insertion that does not need more than all of the memory makes room,
/// in whatever state the memory was found: first the entry with the same key
/// leaves, and then one after the other, as long as there is no room and an
/// entry is left. The value of the last one that leaves for want of room is
/// returned.
pub proof fn law_insert_by_evictions<K: Storable, V: Storable>(
    before: Region,
    key: K,
    value: V,
    now: Timestamp,
    result: Result<Option<V>, Error>,
    after: Region,
) -> (chain: Seq<Region>)
    requires
        before.wf::<K, V>(),
        inserted::<K, V>(before, key, value, now, result, after),
        BUCKET_SIZE + K::encode(key.model()).len() + V::encode(value.model()).len() <= before.size,
    ensures
        chain.len() > 0,
        chain[0] == before.forgotten::<K>(key.model()),
        evictions::<K>(chain),
        forall|k: int|
            0 <= k < chain.len() - 1 ==> CONTENTS_SIZE + (#[trigger] chain[k]).used + BUCKET_SIZE
                + K::encode(key.model()).len() + V::encode(value.model()).len() > before.size,
        result is Ok <==> CONTENTS_SIZE + chain.last().used + BUCKET_SIZE + K::encode(
            key.model(),
        ).len() + V::encode(value.model()).len() <= before.size,
        match result {
            Ok(removed) => {
                &&& after.entries() == chain.last().entries().push(
                    Entry {
                        key: K::encode(key.model()),
                        value: V::encode(value.model()),
                        last_accessed: now,
                    },
                )
                &&& after.used == chain.last().used + BUCKET_SIZE + padded(
                    K::encode(key.model()).len() + V::encode(value.model()).len(),
                )
                &&& after.size == before.size
                &&& removed is None <==> chain.len() == 1
                &&& removed matches Some(v) ==> {
                    let last = chain[chain.len() - 2];
                    V::decoded(last.entries()[last.victim::<K>()].value) == Some(v.model())
                }
            },
            Err(e) => {
                &&& e == Error::TooLargeError
                &&& after == chain.last()
                &&& after.entries().len() == 0
            },
        },
{
    let need = new_entry::<K, V>(key, value, now).need();
    let s = before.forgotten::<K>(key.model());
    law_forgotten::<K, V>(before, key.model());
    lemma_found::<K>(before.entries(), key.model());
    if let Some(i) = position::<K>(before.entries(), key.model()) {
        lemma_without::<K, V>(before, i);
    }
    lemma_shrunk::<K, V>(s, need, None);
    let chain = lemma_chain::<K, V>(s, need, None);
    lemma_chain_size::<K>(chain);
    assert forall|k: int| 0 <= k < chain.len() - 1 implies CONTENTS_SIZE + (
    #[trigger] chain[k]).used + BUCKET_SIZE + K::encode(key.model()).len() + V::encode(
        value.model(),
    ).len() > before.size by {
        assert(!chain[k].has_room(need));
    }
    chain
}

proof fn lemma_chain_size<K: Storable>(chain: Seq<Region>)
    requires
        chain.len() > 0,
        evictions::<K>(chain),
    ensures
        forall|k: int| 0 <= k < chain.len() ==> (#[trigger] chain[k]).size == chain[0].size,
    decreases chain.len(),
{
    if chain.len() > 1 {
        let front = chain.drop_last();
        assert forall|k: int|
            #![trigger front[k]]
            0 <= k < front.len() - 1 implies front[k].entries().len() > 0 && front[k + 1]
            == front[k].without(front[k].victim::<K>()) by {
            assert(chain[k].entries().len() > 0);
        }
        lemma_chain_size::<K>(front);
        let m: int = chain.len() - 2;
        assert(front[m].size == front[0].size);
        assert(chain[m].entries().len() > 0);
        assert(chain[m + 1] == chain[m].without(chain[m].victim::<K>()));
        assert forall|k: int| 0 <= k < chain.len() implies (#[trigger] chain[k]).size
            == chain[0].size by {
            if k < chain.len() - 1 {
                assert(front[k].size == front[0].size);
            }
        }
    }
}

} // verus!
