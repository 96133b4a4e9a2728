//! Properties of the table that hold across several operations, stated over
//! the same transitions that `State`'s methods are proved to follow.
use vstd::prelude::*;

use super::storage::{
    after_purge, after_set, after_shutdown, consistent, deadline, earliest_deadline,
    is_first_record, lemma_set_consistent, lookup, wakes_worker,
    CacheView,
};

verus! {

/// The table after a purge at each of `times`, in order.
pub open spec fn after_purges(v: CacheView, times: Seq<u64>) -> CacheView
    decreases times.len(),
{
    if times.len() == 0 {
        v
    } else {
        after_purges(after_purge(v, times[0]), times.drop_first())
    }
}

/// A value written without a time to live is read back, and stays readable
/// through any number of purges at any times.
pub proof fn lemma_unexpiring_write_persists(
    v: CacheView,
    key: Seq<char>,
    data: Seq<u8>,
    now: u64,
    times: Seq<u64>,
)
    requires
        consistent(v),
        v.next_id < u64::MAX,
    ensures
        lookup(after_set(v, key, data, None, now), key) == Some(data),
        lookup(after_purges(after_set(v, key, data, None, now), times), key) == Some(data),
{
    lemma_persists_through_purges(after_set(v, key, data, None, now), key, times);
}

/// An entry without a deadline survives every sequence of purges unchanged.
proof fn lemma_persists_through_purges(v: CacheView, key: Seq<char>, times: Seq<u64>)
    requires
        v.entries.contains_key(key),
        v.entries[key].expires_at is None,
    ensures
        after_purges(v, times).entries.contains_key(key),
        after_purges(v, times).entries[key] == v.entries[key],
    decreases times.len(),
{
    if times.len() > 0 {
        lemma_persists_through_purges(after_purge(v, times[0]), key, times.drop_first());
    }
}

/// A value written with a positive time to live is read back at once, and is
/// gone after a purge at any time later than the write's time plus the time
/// to live.
pub proof fn lemma_ttl_write_expires(
    v: CacheView,
    key: Seq<char>,
    data: Seq<u8>,
    ttl: u64,
    now: u64,
    later: u64,
)
    requires
        consistent(v),
        v.next_id < u64::MAX,
        !v.shutdown,
        ttl > 0,
        now + ttl < later,
    ensures
        lookup(after_set(v, key, data, Some(ttl), now), key) == Some(data),
        lookup(after_purge(after_set(v, key, data, Some(ttl), now), later), key) is None,
{
}

/// Overwriting a key that had a deadline with a value without one leaves no
/// record of that key in the index, and the new value outlives the old
/// deadline.
pub proof fn lemma_overwrite_drops_record(
    v: CacheView,
    key: Seq<char>,
    first: Seq<u8>,
    ttl: u64,
    now1: u64,
    second: Seq<u8>,
    now2: u64,
    later: u64,
)
    requires
        consistent(v),
        v.next_id < u64::MAX - 1,
    ensures
        ({
            let s = after_set(after_set(v, key, first, Some(ttl), now1), key, second, None, now2);
            &&& forall|r: (u64, u64)| #[trigger]
                s.expirations.contains_key(r) ==> s.expirations[r] != key
            &&& lookup(after_purge(s, later), key) == Some(second)
        }),
{
    let s1 = after_set(v, key, first, Some(ttl), now1);
    lemma_set_consistent(v, key, first, Some(ttl), now1);
    let s = after_set(s1, key, second, None, now2);
    lemma_set_consistent(s1, key, second, None, now2);
    assert forall|r: (u64, u64)| #[trigger] s.expirations.contains_key(r) implies s.expirations[r]
        != key by {
        assert(s.entries[s.expirations[r]].expires_at == Some(r.0));
    }
}

/// Two keys written with the same deadline leave in the order of their
/// writes: while the first key's record is in the index, the second key's
/// record is never the first one, which is the one a purge takes next.
pub proof fn lemma_equal_deadlines_leave_in_write_order(
    v: CacheView,
    k1: Seq<char>,
    d1: Seq<u8>,
    ttl1: u64,
    now1: u64,
    k2: Seq<char>,
    d2: Seq<u8>,
    ttl2: u64,
    now2: u64,
)
    requires
        consistent(v),
        v.next_id < u64::MAX - 1,
        k1 != k2,
        deadline(Some(ttl1), now1) == deadline(Some(ttl2), now2),
    ensures
        ({
            let t = deadline(Some(ttl1), now1)->0;
            let s = after_set(after_set(v, k1, d1, Some(ttl1), now1), k2, d2, Some(ttl2), now2);
            &&& s.expirations.contains_key((t, v.next_id))
            &&& s.expirations[(t, v.next_id)] == k1
            &&& s.expirations.contains_key((t, (v.next_id + 1) as u64))
            &&& s.expirations[(t, (v.next_id + 1) as u64)] == k2
            &&& forall|r: (u64, u64)| #[trigger]
                is_first_record(s.expirations, r) ==> s.expirations[r] != k2
        }),
{
    let t = deadline(Some(ttl1), now1)->0;
    let s1 = after_set(v, k1, d1, Some(ttl1), now1);
    lemma_set_consistent(v, k1, d1, Some(ttl1), now1);
    let s = after_set(s1, k2, d2, Some(ttl2), now2);
    lemma_set_consistent(s1, k2, d2, Some(ttl2), now2);
    assert(s.expirations.contains_key((t, v.next_id)));
    assert forall|r: (u64, u64)| #[trigger] is_first_record(s.expirations, r) implies s.expirations[r]
        != k2 by {
        assert(s.expirations.contains_key((t, v.next_id)));
        if s.expirations[r] == k2 {
            assert(r == (t, (v.next_id + 1) as u64));
        }
    }
}

/// A write whose deadline is earlier than every scheduled one wakes the
/// purge worker, becomes the next deadline itself, and is gone after a purge
/// at that deadline.
pub proof fn lemma_shorter_deadline_preempts(
    v: CacheView,
    key: Seq<char>,
    data: Seq<u8>,
    ttl: u64,
    now: u64,
)
    requires
        consistent(v),
        v.next_id < u64::MAX,
        !v.shutdown,
        v.expirations.dom().finite(),
        forall|r: (u64, u64)| #[trigger]
            v.expirations.contains_key(r) ==> deadline(Some(ttl), now)->0 < r.0,
    ensures
        wakes_worker(v, Some(ttl), now),
        earliest_deadline(after_set(v, key, data, Some(ttl), now).expirations) == deadline(
            Some(ttl),
            now,
        ),
        lookup(
            after_purge(after_set(v, key, data, Some(ttl), now), deadline(Some(ttl), now)->0),
            key,
        ) is None,
{
    let t = deadline(Some(ttl), now)->0;
    let s = after_set(v, key, data, Some(ttl), now);
    lemma_set_consistent(v, key, data, Some(ttl), now);
    let first = (t, v.next_id);
    assert forall|o: (u64, u64)| #[trigger] s.expirations.contains_key(o) implies first.0 < o.0 || (
    first.0 == o.0 && first.1 <= o.1) by {
        if o != first {
            assert(v.expirations.contains_key(o));
        }
    }
    assert(is_first_record(s.expirations, first));
    let c = choose|c: (u64, u64)| is_first_record(s.expirations, c);
    assert(s.expirations.contains_key(c));
}

/// Shutdown is idempotent; once it was requested purges change nothing, and
/// reads and writes go on as before.
pub proof fn lemma_shutdown_idempotent(
    v: CacheView,
    key: Seq<char>,
    data: Seq<u8>,
    ttl: Option<u64>,
    now: u64,
)
    requires
        consistent(v),
        v.next_id < u64::MAX,
    ensures
        after_shutdown(after_shutdown(v)) == after_shutdown(v),
        after_purge(after_shutdown(v), now) == after_shutdown(v),
        lookup(after_set(after_shutdown(v), key, data, ttl, now), key) == Some(data),
        after_set(after_shutdown(v), key, data, ttl, now).shutdown,
{
}

} // verus!
