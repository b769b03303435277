//! What holds of a map over any sequence of calls.
use vstd::prelude::*;
use crate::bucket::{law_time_order, Entry, Timestamp};
use crate::codec::Storable;
use crate::contents::{evicted, inserted, looked_up, new_entry, taken_out};
use crate::error::Error;
use crate::laws::{
    alike, healthy, is_encoded, law_get, law_insert, law_make_room, law_new, law_remove,
    lemma_forgotten, lemma_found, lemma_healthy_without, lemma_used,
};
use crate::region::{
    lemma_cleared, lemma_oldest_exists, lemma_position_exists, lemma_shrunk, lemma_victim,
    lemma_without, oldest, position, Region,
};

verus! {

/// A call, and what it returned.
pub enum Call<K, V> {
    Insert { key: K, value: V, now: Timestamp, outcome: Result<Option<V>, Error> },
    Get { key: K, now: Timestamp, result: Option<V> },
    Remove { key: K, result: Option<V> },
    Evict { result: Option<V> },
    Clear,
    /// One that only reads: `peak`, `contains_key`, `get_lru`, `len`, `used`
    /// and the like.
    Look,
}

/// What a call does to a map.
pub open spec fn step<K: Storable, V: Storable>(
    before: Region,
    call: Call<K, V>,
    after: Region,
) -> bool {
    match call {
        Call::Insert { key, value, now, outcome } => inserted::<K, V>(
            before,
            key,
            value,
            now,
            outcome,
            after,
        ),
        Call::Get { key, now, result } => looked_up::<K, V>(
            before,
            key.model(),
            now,
            result,
            after,
        ),
        Call::Remove { key, result } => taken_out::<K, V>(before, key.model(), result, after),
        Call::Evict { result } => evicted::<K, V>(before, result, after),
        Call::Clear => after == before.cleared(),
        Call::Look => after == before,
    }
}

/// The calls lead from each of the states to the next one.
pub open spec fn happened<K: Storable, V: Storable>(
    states: Seq<Region>,
    calls: Seq<Call<K, V>>,
) -> bool {
    &&& states.len() == calls.len() + 1
    &&& forall|i: int|
        #![trigger calls[i]]
        0 <= i < calls.len() ==> step::<K, V>(states[i], calls[i], states[i + 1])
}

/// The time that the call is dated by.
pub open spec fn time_of<K, V>(call: Call<K, V>) -> Option<Timestamp> {
    match call {
        Call::Insert { now, .. } => Some(now),
        Call::Get { now, .. } => Some(now),
        _ => None,
    }
}

/// The clock moves forward from each call to the next.
pub open spec fn clock_moves_forward<K, V>(calls: Seq<Call<K, V>>) -> bool {
    forall|i: int, j: int|
        #![trigger calls[i], calls[j]]
        0 <= i < j < calls.len() && time_of(calls[i]) is Some && time_of(calls[j]) is Some
            ==> time_of(calls[i])->Some_0.precedes(time_of(calls[j])->Some_0)
}

/// The call puts the key in, or finds it.
pub open spec fn accesses<K: Storable, V: Storable>(call: Call<K, V>, key: K::Model) -> bool {
    match call {
        Call::Insert { key: k, outcome, .. } => k.model() == key && outcome is Ok,
        Call::Get { key: k, result, .. } => k.model() == key && result is Some,
        _ => false,
    }
}

/// Which call was the last to access the key; -1 if none did.
pub open spec fn last_access<K: Storable, V: Storable>(
    calls: Seq<Call<K, V>>,
    key: K::Model,
) -> int
    decreases calls.len(),
{
    if calls.len() == 0 {
        -1
    } else if accesses::<K, V>(calls.last(), key) {
        calls.len() - 1
    } else {
        last_access::<K, V>(calls.drop_last(), key)
    }
}

/// Every call keeps a map in order.
pub proof fn law_step<K: Storable, V: Storable>(before: Region, call: Call<K, V>, after: Region)
    requires
        healthy::<K, V>(before),
        step::<K, V>(before, call, after),
    ensures
        healthy::<K, V>(after),
        after.size == before.size,
{
    match call {
        Call::Insert { key, value, now, outcome } => {
            law_insert::<K, V>(before, key, value, now, outcome, after);
            lemma_forgotten::<K, V>(before, key.model());
            lemma_shrunk::<K, V>(
                before.forgotten::<K>(key.model()),
                new_entry::<K, V>(key, value, now).need(),
                None,
            );
        },
        Call::Get { key, now, result } => {
            law_get::<K, V>(before, key.model(), now, result, after, key.model());
        },
        Call::Remove { key, result } => {
            law_remove::<K, V>(before, key.model(), result, after, key.model());
        },
        Call::Evict { result } => {
            if before.bucket_count > 0 {
                lemma_victim::<K, V>(before);
                lemma_healthy_without::<K, V>(before, before.victim::<K>());
            }
        },
        Call::Clear => {
            lemma_cleared::<K, V>(before);
            law_new::<K, V>(after);
        },
        Call::Look => {},
    }
}

/// A map that is in order, such as a new one, stays so whatever is called, and
/// keeps its size.
pub proof fn law_always_healthy<K: Storable, V: Storable>(
    states: Seq<Region>,
    calls: Seq<Call<K, V>>,
    i: int,
)
    requires
        happened::<K, V>(states, calls),
        healthy::<K, V>(states[0]),
        0 <= i < states.len(),
    ensures
        healthy::<K, V>(states[i]),
        states[i].size == states[0].size,
    decreases i,
{
    if i > 0 {
        law_always_healthy::<K, V>(states, calls, i - 1);
        assert(step::<K, V>(states[i - 1], calls[i - 1], states[i - 1 + 1]));
        law_step::<K, V>(states[i - 1], calls[i - 1], states[i]);
    }
}

/// An entry that is there after a call has been dated by it, if the call
/// accessed its key, and was there before with the same date, if not.
proof fn lemma_step_entry<K: Storable, V: Storable>(
    before: Region,
    call: Call<K, V>,
    after: Region,
    i: int,
)
    requires
        healthy::<K, V>(before),
        step::<K, V>(before, call, after),
        0 <= i < after.entries().len(),
    ensures
        ({
            let e = after.entries()[i];
            if accesses::<K, V>(call, K::decoded(e.key)->Some_0) {
                time_of(call) == Some(e.last_accessed)
            } else {
                exists|j: int|
                    0 <= j < before.entries().len() && (#[trigger] before.entries()[j]).key == e.key
                        && before.entries()[j].last_accessed == e.last_accessed
            }
        }),
{
    let e = after.entries()[i];
    law_step::<K, V>(before, call, after);
    match call {
        Call::Insert { key, value, now, outcome } => {
            lemma_insert_entry::<K, V>(before, key, value, now, outcome, after, i);
        },
        Call::Get { key, now, result } => {
            lemma_found::<K>(before.entries(), key.model());
            if let Some(p) = position::<K>(before.entries(), key.model()) {
                if i == p {
                    assert(K::decoded(e.key) == Some(key.model()));
                } else {
                    assert(before.entries()[i] == e);
                    if i < p {
                        assert(K::decoded(before.entries()[i].key) != K::decoded(
                            before.entries()[p].key,
                        ));
                    } else {
                        assert(K::decoded(before.entries()[p].key) != K::decoded(
                            before.entries()[i].key,
                        ));
                    }
                    assert(is_encoded::<K, V>(after.entries()[i]));
                }
            } else {
                assert(before.entries()[i] == e);
            }
        },
        Call::Remove { key, result } => {
            lemma_found::<K>(before.entries(), key.model());
            if let Some(p) = position::<K>(before.entries(), key.model()) {
                lemma_removed_entry(before.entries(), p, i);
            } else {
                assert(before.entries()[i] == e);
            }
        },
        Call::Evict { result } => {
            if before.bucket_count > 0 {
                lemma_removed_entry(before.entries(), before.victim::<K>(), i);
            } else {
                assert(before.entries()[i] == e);
            }
        },
        Call::Clear => {
            lemma_cleared::<K, V>(before);
        },
        Call::Look => {
            assert(before.entries()[i] == e);
        },
    }
}

proof fn lemma_removed_entry(entries: Seq<Entry>, p: int, i: int)
    requires
        0 <= p < entries.len(),
        0 <= i < entries.len() - 1,
    ensures
        exists|j: int|
            0 <= j < entries.len() && #[trigger] entries[j] == entries.remove(p)[i],
{
    if i < p {
        assert(entries[i] == entries.remove(p)[i]);
    } else {
        assert(entries[i + 1] == entries.remove(p)[i]);
    }
}

proof fn lemma_insert_entry<K: Storable, V: Storable>(
    before: Region,
    key: K,
    value: V,
    now: Timestamp,
    result: Result<Option<V>, Error>,
    after: Region,
    i: int,
)
    requires
        healthy::<K, V>(before),
        inserted::<K, V>(before, key, value, now, result, after),
        0 <= i < after.entries().len(),
    ensures
        ({
            let e = after.entries()[i];
            if result is Ok && K::decoded(e.key)->Some_0 == key.model() {
                e.last_accessed == now
            } else {
                exists|j: int|
                    0 <= j < before.entries().len() && #[trigger] before.entries()[j] == e
            }
        }),
{
    let e = after.entries()[i];
    let new = new_entry::<K, V>(key, value, now);
    let s = before.forgotten::<K>(key.model());
    let r = s.shrunk::<K>(new.need(), None).0;
    law_insert::<K, V>(before, key, value, now, result, after);
    if result is Ok {
        lemma_forgotten::<K, V>(before, key.model());
        law_make_room::<K, V>(s, new.need(), None);
        assert(is_encoded::<K, V>(after.entries()[i]));
        if i < r.entries().len() {
            lemma_found::<K>(r.entries(), key.model());
            assert(r.entries()[i] == e);
            assert(r.entries().contains(e));
            assert(s.entries().contains(e));
            assert(before.entries().contains(e));
            assert(K::decoded(r.entries()[i].key) != Some(key.model()));
        } else {
            K::decoded_encode(key.model());
        }
    } else {
        assert(before.entries()[i] == e);
    }
}

/// Every entry is dated by the last call that accessed its key.
proof fn lemma_dated<K: Storable, V: Storable>(
    states: Seq<Region>,
    calls: Seq<Call<K, V>>,
    i: int,
)
    requires
        happened::<K, V>(states, calls),
        healthy::<K, V>(states[0]),
        states[0].bucket_count == 0,
        0 <= i < states.last().entries().len(),
    ensures
        ({
            let e = states.last().entries()[i];
            let n = last_access::<K, V>(calls, K::decoded(e.key)->Some_0);
            &&& 0 <= n < calls.len()
            &&& time_of(calls[n]) == Some(e.last_accessed)
        }),
    decreases calls.len(),
{
    let m: int = calls.len() as int;
    if m > 0 {
        let before = states[m - 1];
        let call = calls[m - 1];
        let after = states.last();
        let e = after.entries()[i];
        law_always_healthy::<K, V>(states, calls, m - 1);
        assert(step::<K, V>(states[m - 1], calls[m - 1], states[m - 1 + 1]));
        lemma_step_entry::<K, V>(before, call, after, i);
        if !accesses::<K, V>(call, K::decoded(e.key)->Some_0) {
            let j = choose|j: int|
                0 <= j < before.entries().len() && (#[trigger] before.entries()[j]).key == e.key
                    && before.entries()[j].last_accessed == e.last_accessed;
            let s = states.drop_last();
            let c = calls.drop_last();
            assert forall|k: int|
                #![trigger c[k]]
                0 <= k < c.len() implies step::<K, V>(s[k], c[k], s[k + 1]) by {
                assert(step::<K, V>(states[k], calls[k], states[k + 1]));
            }
            lemma_dated::<K, V>(s, c, j);
        }
    }
}

/// The entry that is the next to leave is the one whose last insertion or
/// successful lookup lies furthest back, whatever else has been called in
/// between.
pub proof fn law_lru<K: Storable, V: Storable>(
    states: Seq<Region>,
    calls: Seq<Call<K, V>>,
    other: K::Model,
)
    requires
        happened::<K, V>(states, calls),
        healthy::<K, V>(states[0]),
        states[0].bucket_count == 0,
        clock_moves_forward::<K, V>(calls),
        states.last().bucket_count > 0,
    ensures
        ({
            let r = states.last();
            let lru = K::decoded(r.entries()[oldest(r.entries())->Some_0].key)->Some_0;
            &&& oldest(r.entries()) is Some
            &&& 0 <= last_access::<K, V>(calls, lru) < calls.len()
            &&& position::<K>(r.entries(), other) is Some && other != lru ==> last_access::<K, V>(
                calls,
                lru,
            ) < last_access::<K, V>(calls, other)
        }),
{
    let r = states.last();
    law_always_healthy::<K, V>(states, calls, calls.len() as int);
    lemma_oldest_exists(r.entries());
    let i = oldest(r.entries())->Some_0;
    let lru = K::decoded(r.entries()[i].key)->Some_0;
    lemma_dated::<K, V>(states, calls, i);
    lemma_found::<K>(r.entries(), other);
    if let Some(j) = position::<K>(r.entries(), other) {
        if other != lru {
            lemma_dated::<K, V>(states, calls, j);
            let a = last_access::<K, V>(calls, lru);
            let b = last_access::<K, V>(calls, other);
            assert(!r.entries()[j].last_accessed.precedes(r.entries()[i].last_accessed));
            if a == b {
                assert(accesses::<K, V>(calls[a], lru)) by {
                    lemma_last_access::<K, V>(calls, lru);
                }
                assert(accesses::<K, V>(calls[b], other)) by {
                    lemma_last_access::<K, V>(calls, other);
                }
            } else if b < a {
                assert(time_of(calls[b])->Some_0.precedes(time_of(calls[a])->Some_0));
            }
        }
    }
}

proof fn lemma_last_access<K: Storable, V: Storable>(calls: Seq<Call<K, V>>, key: K::Model)
    ensures
        ({
            let n = last_access::<K, V>(calls, key);
            &&& -1 <= n < calls.len()
            &&& n >= 0 ==> accesses::<K, V>(calls[n], key)
        }),
    decreases calls.len(),
{
    if calls.len() > 0 && !accesses::<K, V>(calls.last(), key) {
        lemma_last_access::<K, V>(calls.drop_last(), key);
    }
}

/// The two are the same value, or there is neither.
pub open spec fn same_value<V: Storable>(a: Option<V>, b: Option<V>) -> bool {
    &&& a is Some <==> b is Some
    &&& a is Some ==> a->Some_0.model() == b->Some_0.model()
}

/// The two calls ask for the same.
pub open spec fn same_request<K: Storable, V: Storable>(a: Call<K, V>, b: Call<K, V>) -> bool {
    match (a, b) {
        (
            Call::Insert { key: k1, value: v1, now: t1, .. },
            Call::Insert { key: k2, value: v2, now: t2, .. },
        ) => k1.model() == k2.model() && v1.model() == v2.model() && t1 == t2,
        (Call::Get { key: k1, now: t1, .. }, Call::Get { key: k2, now: t2, .. }) => k1.model()
            == k2.model() && t1 == t2,
        (Call::Remove { key: k1, .. }, Call::Remove { key: k2, .. }) => k1.model() == k2.model(),
        (Call::Evict { .. }, Call::Evict { .. }) => true,
        (Call::Clear, Call::Clear) => true,
        (Call::Look, Call::Look) => true,
        _ => false,
    }
}

/// The two calls returned the same.
pub open spec fn same_reply<K: Storable, V: Storable>(a: Call<K, V>, b: Call<K, V>) -> bool {
    match (a, b) {
        (Call::Insert { outcome: r1, .. }, Call::Insert { outcome: r2, .. }) => match (r1, r2) {
            (Ok(v1), Ok(v2)) => same_value::<V>(v1, v2),
            (Err(e1), Err(e2)) => e1 == e2,
            _ => false,
        },
        (Call::Get { result: r1, .. }, Call::Get { result: r2, .. }) => same_value::<V>(r1, r2),
        (Call::Remove { result: r1, .. }, Call::Remove { result: r2, .. }) => same_value::<V>(
            r1,
            r2,
        ),
        (Call::Evict { result: r1 }, Call::Evict { result: r2 }) => same_value::<V>(r1, r2),
        _ => true,
    }
}

proof fn lemma_alike_shrunk<K: Storable, V: Storable>(
    a: Region,
    b: Region,
    need: int,
    removed: Option<Seq<u8>>,
)
    requires
        a.wf::<K, V>(),
        b.wf::<K, V>(),
        alike(a, b),
    ensures
        alike(a.shrunk::<K>(need, removed).0, b.shrunk::<K>(need, removed).0),
        a.shrunk::<K>(need, removed).1 == b.shrunk::<K>(need, removed).1,
        a.shrunk::<K>(need, removed).0.has_room(need) == b.shrunk::<K>(need, removed).0.has_room(
            need,
        ),
    decreases a.bucket_count,
{
    lemma_used::<K, V>(a);
    lemma_used::<K, V>(b);
    assert(a.bucket_count == a.entries().len());
    assert(b.bucket_count == b.entries().len());
    if !a.has_room(need) && a.bucket_count > 0 {
        lemma_victim::<K, V>(a);
        let i = a.victim::<K>();
        lemma_without::<K, V>(a, i);
        lemma_without::<K, V>(b, i);
        lemma_alike_shrunk::<K, V>(
            a.without(i),
            b.without(i),
            need,
            Some(a.entries()[i].value),
        );
    }
}

proof fn lemma_alike_forgotten<K: Storable, V: Storable>(a: Region, b: Region, key: K::Model)
    requires
        a.wf::<K, V>(),
        b.wf::<K, V>(),
        alike(a, b),
    ensures
        a.forgotten::<K>(key).wf::<K, V>(),
        b.forgotten::<K>(key).wf::<K, V>(),
        alike(a.forgotten::<K>(key), b.forgotten::<K>(key)),
{
    lemma_found::<K>(a.entries(), key);
    assert(a.bucket_count == a.entries().len());
    assert(b.bucket_count == b.entries().len());
    if let Some(i) = position::<K>(a.entries(), key) {
        lemma_without::<K, V>(a, i);
        lemma_without::<K, V>(b, i);
    }
}

proof fn lemma_alike_step<K: Storable, V: Storable>(
    a: Region,
    call_a: Call<K, V>,
    after_a: Region,
    b: Region,
    call_b: Call<K, V>,
    after_b: Region,
)
    requires
        healthy::<K, V>(a),
        healthy::<K, V>(b),
        alike(a, b),
        step::<K, V>(a, call_a, after_a),
        step::<K, V>(b, call_b, after_b),
        same_request::<K, V>(call_a, call_b),
    ensures
        alike(after_a, after_b),
        same_reply::<K, V>(call_a, call_b),
{
    law_step::<K, V>(a, call_a, after_a);
    law_step::<K, V>(b, call_b, after_b);
    assert(a.bucket_count == a.entries().len());
    assert(b.bucket_count == b.entries().len());
    match call_a {
        Call::Insert { key, value, now, outcome } => {
            let need = new_entry::<K, V>(key, value, now).need();
            lemma_alike_forgotten::<K, V>(a, b, key.model());
            lemma_alike_shrunk::<K, V>(
                a.forgotten::<K>(key.model()),
                b.forgotten::<K>(key.model()),
                need,
                None,
            );
        },
        Call::Clear => {
            lemma_cleared::<K, V>(a);
            lemma_cleared::<K, V>(b);
        },
        _ => {},
    }
}

/// Two maps of the same size that hold the same answer the same calls in the
/// same way, for as long as they go on. So a map that has been cleared cannot
/// be told from a new one.
pub proof fn law_alike<K: Storable, V: Storable>(
    states_a: Seq<Region>,
    calls_a: Seq<Call<K, V>>,
    states_b: Seq<Region>,
    calls_b: Seq<Call<K, V>>,
    i: int,
)
    requires
        happened::<K, V>(states_a, calls_a),
        happened::<K, V>(states_b, calls_b),
        healthy::<K, V>(states_a[0]),
        healthy::<K, V>(states_b[0]),
        alike(states_a[0], states_b[0]),
        calls_a.len() == calls_b.len(),
        forall|k: int|
            0 <= k < calls_a.len() ==> same_request::<K, V>(
                #[trigger] calls_a[k],
                #[trigger] calls_b[k],
            ),
        0 <= i < states_a.len(),
    ensures
        alike(states_a[i], states_b[i]),
        states_a[i].used == states_b[i].used,
        i > 0 ==> same_reply::<K, V>(calls_a[i - 1], calls_b[i - 1]),
    decreases i,
{
    law_always_healthy::<K, V>(states_a, calls_a, i);
    law_always_healthy::<K, V>(states_b, calls_b, i);
    if i > 0 {
        let p = i - 1;
        law_always_healthy::<K, V>(states_a, calls_a, p);
        law_always_healthy::<K, V>(states_b, calls_b, p);
        law_alike::<K, V>(states_a, calls_a, states_b, calls_b, p);
        assert(step::<K, V>(states_a[p], calls_a[p], states_a[p + 1]));
        assert(step::<K, V>(states_b[p], calls_b[p], states_b[p + 1]));
        assert(same_request::<K, V>(calls_a[p], calls_b[p]));
        lemma_alike_step::<K, V>(
            states_a[p],
            calls_a[p],
            states_a[i],
            states_b[p],
            calls_b[p],
            states_b[i],
        );
    }
    lemma_used::<K, V>(states_a[i]);
    lemma_used::<K, V>(states_b[i]);
}

/// Which calls count as accesses: insertions that succeed and lookups that find
/// something. The last one is the one that no other follows.
pub proof fn law_last_access<K: Storable, V: Storable>(
    calls: Seq<Call<K, V>>,
    call: Call<K, V>,
    key: K::Model,
    i: int,
)
    ensures
        call matches Call::Insert { key: k, now, outcome, .. } ==> {
            &&& accesses::<K, V>(call, key) <==> k.model() == key && outcome is Ok
            &&& time_of(call) == Some(now)
        },
        call matches Call::Get { key: k, now, result } ==> {
            &&& accesses::<K, V>(call, key) <==> k.model() == key && result is Some
            &&& time_of(call) == Some(now)
        },
        !(call is Insert) && !(call is Get) ==> !accesses::<K, V>(call, key),
        -1 <= last_access::<K, V>(calls, key) < calls.len(),
        0 <= last_access::<K, V>(calls, key) ==> accesses::<K, V>(
            calls[last_access::<K, V>(calls, key)],
            key,
        ),
        last_access::<K, V>(calls, key) < i < calls.len() ==> !accesses::<K, V>(calls[i], key),
    decreases calls.len(),
{
    if calls.len() > 0 && !accesses::<K, V>(calls.last(), key) {
        law_last_access::<K, V>(calls.drop_last(), call, key, i);
        if 0 <= last_access::<K, V>(calls, key) {
            assert(calls.drop_last()[last_access::<K, V>(calls, key)] == calls[last_access::<K, V>(
                calls,
                key,
            )]);
        }
    }
}

/// When the clock's nanoseconds go up from each access to the next, the entry
/// that is the next to leave is the one whose last access lies furthest back,
/// in the order of the calls and by the nanoseconds that have passed.
pub proof fn law_lru_in_time<K: Storable, V: Storable>(
    states: Seq<Region>,
    calls: Seq<Call<K, V>>,
    other: int,
)
    requires
        happened::<K, V>(states, calls),
        healthy::<K, V>(states[0]),
        states[0].bucket_count == 0,
        forall|i: int|
            0 <= i < calls.len() && time_of(#[trigger] calls[i]) is Some ==> time_of(
                calls[i],
            )->Some_0.nanos < 1_000_000_000,
        forall|i: int, j: int|
            #![trigger calls[i], calls[j]]
            0 <= i < j < calls.len() && time_of(calls[i]) is Some && time_of(calls[j]) is Some
                ==> time_of(calls[i])->Some_0.secs * 1_000_000_000 + time_of(
                calls[i],
            )->Some_0.nanos < time_of(calls[j])->Some_0.secs * 1_000_000_000 + time_of(
                calls[j],
            )->Some_0.nanos,
        0 <= other < states.last().entries().len(),
    ensures
        ({
            let entries = states.last().entries();
            let lru = oldest(entries)->Some_0;
            let first = last_access::<K, V>(calls, K::decoded(entries[lru].key)->Some_0);
            let later = last_access::<K, V>(calls, K::decoded(entries[other].key)->Some_0);
            &&& oldest(entries) is Some
            &&& 0 <= lru < entries.len()
            &&& 0 <= first < calls.len()
            &&& time_of(calls[first]) == Some(entries[lru].last_accessed)
            &&& other != lru ==> {
                &&& first < later
                &&& entries[lru].last_accessed.secs * 1_000_000_000
                    + entries[lru].last_accessed.nanos < entries[other].last_accessed.secs
                    * 1_000_000_000 + entries[other].last_accessed.nanos
            }
        }),
{
    assert forall|i: int, j: int|
        #![trigger calls[i], calls[j]]
        0 <= i < j < calls.len() && time_of(calls[i]) is Some && time_of(
            calls[j],
        ) is Some implies time_of(calls[i])->Some_0.precedes(time_of(calls[j])->Some_0) by {
        law_time_order(time_of(calls[i])->Some_0, time_of(calls[j])->Some_0);
    }
    let r = states.last();
    let key = K::decoded(r.entries()[other].key)->Some_0;
    assert(r.entries().len() == r.bucket_count);
    law_always_healthy::<K, V>(states, calls, calls.len() as int);
    lemma_oldest_exists(r.entries());
    let lru = oldest(r.entries())->Some_0;
    lemma_dated::<K, V>(states, calls, lru);
    lemma_dated::<K, V>(states, calls, other);
    if other != lru {
        assert(is_encoded::<K, V>(r.entries()[other]));
        assert(is_encoded::<K, V>(r.entries()[lru]));
        if other < lru {
            assert(K::decoded(r.entries()[other].key) != K::decoded(r.entries()[lru].key));
        } else {
            assert(K::decoded(r.entries()[lru].key) != K::decoded(r.entries()[other].key));
        }
        lemma_position_exists::<K>(r.entries(), key, other);
        law_lru::<K, V>(states, calls, key);
    }
}

} // verus!
