use std::collections::BTreeMap;

use vstd::prelude::*;

verus! {

broadcast use vstd::std_specs::btree::group_btree_axioms, vstd::laws_cmp::group_laws_cmp;

/// What an [`Entry`] holds, as mathematical values.
pub ghost struct EntryView {
    pub id: u64,
    pub data: Seq<u8>,
    pub expires_at: Option<u64>,
}

/// One stored value together with its metadata.
///
/// Times are nanoseconds on the clock of the store that owns the entry.
pub struct Entry {
    /// Identifies the write that stored this entry; never reused.
    pub id: u64,
    /// The stored payload.
    pub data: Vec<u8>,
    /// Deadline after which the entry is purged; `None` means never.
    pub expires_at: Option<u64>,
}

impl View for Entry {
    type V = EntryView;

    open spec fn view(&self) -> EntryView {
        EntryView { id: self.id, data: self.data@, expires_at: self.expires_at }
    }
}

/// The whole table as mathematical values.
pub ghost struct CacheView {
    /// Each stored key with its entry.
    pub entries: Map<Seq<char>, EntryView>,
    /// The expiration index: `(deadline, id)` to the key that owns the record.
    pub expirations: Map<(u64, u64), Seq<char>>,
    /// The id that the next write receives.
    pub next_id: u64,
    /// Whether the purge worker has been told to stop.
    pub shutdown: bool,
}

/// The mutable table of a cache: entries, the expiration index ordered by
/// `(deadline, id)`, the id counter and the shutdown flag.
pub struct State {
    entries: Vec<(String, Entry)>,
    expirations: BTreeMap<(u64, u64), String>,
    next_id: u64,
    shutdown: bool,
    table: Ghost<Map<Seq<char>, EntryView>>,
}

/// `r` is the first record of the index in `(deadline, id)` order.
pub open spec fn is_first_record(expirations: Map<(u64, u64), Seq<char>>, r: (u64, u64)) -> bool {
    &&& expirations.contains_key(r)
    &&& forall|o: (u64, u64)|
        #[trigger] expirations.contains_key(o) ==> r.0 < o.0 || (r.0 == o.0 && r.1 <= o.1)
}

/// The earliest deadline in the index, if there is any record.
pub open spec fn earliest_deadline(expirations: Map<(u64, u64), Seq<char>>) -> Option<u64> {
    if exists|r: (u64, u64)| is_first_record(expirations, r) {
        Some((choose|r: (u64, u64)| is_first_record(expirations, r)).0)
    } else {
        None
    }
}

impl State {
    /// The table as mathematical values.
    pub closed spec fn view(&self) -> CacheView {
        CacheView {
            entries: self.table@,
            expirations: self.expirations@.map_values(|k: String| k@),
            next_id: self.next_id,
            shutdown: self.shutdown,
        }
    }

    /// The table's invariant: keys are unique, every entry with a deadline has
    /// exactly its own record in the index, and the index holds nothing else.
    pub closed spec fn wf(&self) -> bool {
        &&& self.table_wf()
        &&& consistent(self@)
    }

    /// The vector of entries and the ghost table agree, with unique keys.
    closed spec fn table_wf(&self) -> bool {
        table_agrees(self.entries@, self.table@)
    }
}

/// The keys of `entries` are unique and `table` maps each of them, and
/// nothing else, to its entry.
spec fn table_agrees(entries: Seq<(String, Entry)>, table: Map<Seq<char>, EntryView>) -> bool {
    &&& forall|i: int, j: int| 0 <= i < j < entries.len() ==> entries[i].0@ != entries[j].0@
    &&& forall|i: int|
        0 <= i < entries.len() ==> #[trigger] table.contains_key(entries[i].0@) && table[entries[i].0@]
            == entries[i].1@
    &&& forall|k: Seq<char>|
        #[trigger] table.contains_key(k) ==> exists|i: int| 0 <= i < entries.len() && entries[i].0@ == k
}

/// The invariant on the model: ids are below the counter, each entry with a
/// deadline owns the record `(deadline, id)`, and each record belongs to the
/// entry that names it.
pub open spec fn consistent(v: CacheView) -> bool {
    &&& forall|k: Seq<char>| #[trigger] v.entries.contains_key(k) ==> v.entries[k].id < v.next_id
    &&& forall|k: Seq<char>|
        #[trigger] v.entries.contains_key(k) && v.entries[k].expires_at is Some ==> {
            let r = (v.entries[k].expires_at->0, v.entries[k].id);
            v.expirations.contains_key(r) && v.expirations[r] == k
        }
    &&& forall|r: (u64, u64)|
        #[trigger] v.expirations.contains_key(r) ==> {
            let k = v.expirations[r];
            &&& v.entries.contains_key(k)
            &&& v.entries[k].id == r.1
            &&& v.entries[k].expires_at == Some(r.0)
        }
}

/// The deadline of a write made at `now` with time to live `ttl`; a deadline
/// past the clock's range is held at its largest value.
pub open spec fn deadline(ttl: Option<u64>, now: u64) -> Option<u64> {
    match ttl {
        Some(d) => Some(
            if now + d > u64::MAX {
                u64::MAX
            } else {
                (now + d) as u64
            },
        ),
        None => None,
    }
}

/// The value stored under `key`, if any.
pub open spec fn lookup(v: CacheView, key: Seq<char>) -> Option<Seq<u8>> {
    if v.entries.contains_key(key) {
        Some(v.entries[key].data)
    } else {
        None
    }
}

/// The table after writing `data` under `key` at time `now`: the entry gets
/// the next id and its deadline, its record joins the index, and the record of
/// the entry it replaces (if that one had a deadline) leaves it.
pub open spec fn after_set(
    v: CacheView,
    key: Seq<char>,
    data: Seq<u8>,
    ttl: Option<u64>,
    now: u64,
) -> CacheView {
    let id = v.next_id;
    let when = deadline(ttl, now);
    let added = match when {
        Some(t) => v.expirations.insert((t, id), key),
        None => v.expirations,
    };
    let cleaned = if v.entries.contains_key(key) && v.entries[key].expires_at is Some {
        added.remove((v.entries[key].expires_at->0, v.entries[key].id))
    } else {
        added
    };
    CacheView {
        entries: v.entries.insert(key, EntryView { id, data, expires_at: when }),
        expirations: cleaned,
        next_id: (id + 1) as u64,
        shutdown: v.shutdown,
    }
}

/// Whether a write with this time to live must wake the purge worker: it has
/// a deadline, and that deadline is earlier than every scheduled one.
pub open spec fn wakes_worker(v: CacheView, ttl: Option<u64>, now: u64) -> bool {
    match deadline(ttl, now) {
        Some(t) => forall|r: (u64, u64)| #[trigger] v.expirations.contains_key(r) ==> t < r.0,
        None => false,
    }
}

/// Whether an entry is still to be kept at time `now`.
pub open spec fn live(e: EntryView, now: u64) -> bool {
    e.expires_at is None || now < e.expires_at->0
}

/// The table after a purge at time `now`: unless shutdown was requested,
/// every entry whose deadline is not after `now` is gone, with its record.
pub open spec fn after_purge(v: CacheView, now: u64) -> CacheView {
    if v.shutdown {
        v
    } else {
        CacheView {
            entries: Map::new(
                |k: Seq<char>| v.entries.contains_key(k) && live(v.entries[k], now),
                |k: Seq<char>| v.entries[k],
            ),
            expirations: Map::new(
                |r: (u64, u64)| v.expirations.contains_key(r) && now < r.0,
                |r: (u64, u64)| v.expirations[r],
            ),
            ..v
        }
    }
}

/// The table after the record `r` and the entry that owns it are removed.
pub open spec fn after_pop(v: CacheView, r: (u64, u64)) -> CacheView {
    CacheView {
        entries: v.entries.remove(v.expirations[r]),
        expirations: v.expirations.remove(r),
        ..v
    }
}

/// The table after shutdown is requested.
pub open spec fn after_shutdown(v: CacheView) -> CacheView {
    CacheView { shutdown: true, ..v }
}

/// Relies on `BTreeMap::first_key_value`: it returns the smallest key of the
/// map in the order of `Ord` for tuples (lexicographic), or `None` when the
/// map is empty.
#[verifier::external_body]
fn smallest_key(m: &BTreeMap<(u64, u64), String>) -> (r: Option<(u64, u64)>)
    ensures
        r is None <==> m@.dom().is_empty(),
        r matches Some(k) ==> m@.contains_key(k) && forall|o: (u64, u64)| #[trigger]
            m@.contains_key(o) ==> k.0 < o.0 || (k.0 == o.0 && k.1 <= o.1),
{
    m.first_key_value().map(|(k, _)| *k)
}

impl State {
    /// An empty table with the counter at zero and no shutdown requested.
    pub fn new() -> (s: State)
        ensures
            s.wf(),
            s@.entries == Map::<Seq<char>, EntryView>::empty(),
            s@.expirations == Map::<(u64, u64), Seq<char>>::empty(),
            s@.next_id == 0,
            !s@.shutdown,
    {
        let s = State {
            entries: Vec::new(),
            expirations: BTreeMap::new(),
            next_id: 0,
            shutdown: false,
            table: Ghost(Map::empty()),
        };
        assert(s@.expirations =~= Map::<(u64, u64), Seq<char>>::empty());
        s
    }

    /// Returns the first record of the index in `(deadline, id)` order, if any.
    fn first_record(&self) -> (r: Option<(u64, u64)>)
        ensures
            r is None <==> self.expirations@.dom().is_empty(),
            r matches Some(rec) ==> is_first_record(self@.expirations, rec),
    {
        smallest_key(&self.expirations)
    }
}

impl State {
    /// The earliest deadline in the expiration index, if there is one.
    pub fn next_expiration(&self) -> (r: Option<u64>)
        ensures
            r == earliest_deadline(self@.expirations),
    {
        match self.first_record() {
            Some(rec) => {
                proof {
                    lemma_first_record_deadline(self@.expirations, rec);
                }
                Some(rec.0)
            }
            None => {
                assert(self@.expirations.dom() =~= Set::<(u64, u64)>::empty());
                None
            }
        }
    }

    /// The position of `key` in the vector of entries, if it is stored.
    fn find(&self, key: &String) -> (r: Option<usize>)
        requires
            self.table_wf(),
        ensures
            match r {
                Some(i) => i < self.entries@.len() && self.entries@[i as int].0@ == key@,
                None => !self.table@.contains_key(key@),
            },
    {
        let mut i: usize = 0;
        while i < self.entries.len()
            invariant
                self.table_wf(),
                i <= self.entries@.len(),
                forall|j: int| 0 <= j < i ==> self.entries@[j].0@ != key@,
            decreases self.entries@.len() - i,
        {
            if self.entries[i].0 == *key {
                return Some(i);
            }
            i = i + 1;
        }
        None
    }

    /// Returns a copy of the value stored under `key`, or `None` if there is
    /// none (never written, or purged after its deadline).
    pub fn get(&self, key: &str) -> (r: Option<Vec<u8>>)
        requires
            self.wf(),
        ensures
            match r {
                Some(d) => lookup(self@, key@) == Some(d@),
                None => lookup(self@, key@) is None,
            },
    {
        let owned = key.to_owned();
        match self.find(&owned) {
            Some(i) => Some(self.entries[i].1.data.clone()),
            None => None,
        }
    }

    /// Stores `e` under `key`, returning the entry it replaces.
    fn insert_entry(&mut self, key: String, e: Entry) -> (prev: Option<Entry>)
        requires
            old(self).table_wf(),
        ensures
            final(self).table_wf(),
            final(self).table@ == old(self).table@.insert(key@, e@),
            final(self).expirations == old(self).expirations,
            final(self).next_id == old(self).next_id,
            final(self).shutdown == old(self).shutdown,
            match prev {
                Some(p) => old(self).table@.contains_key(key@) && p@ == old(self).table@[key@],
                None => !old(self).table@.contains_key(key@),
            },
    {
        let ghost k = key@;
        let ghost ev = e@;
        match self.find(&key) {
            Some(i) => {
                self.entries.push((key, e));
                let pair = self.entries.swap_remove(i);
                self.table = Ghost(self.table@.insert(k, ev));
                proof {
                    assert(self.entries@.len() == old(self).entries@.len());
                    assert(self.entries@[i as int].0@ == k);
                    assert(self.entries@[i as int].1@ == ev);
                    assert(pair == old(self).entries@[i as int]);
                    assert(old(self).table@.contains_key(k));
                    assert forall|j: int| 0 <= j < self.entries@.len() implies #[trigger]
                        self.table@.contains_key(self.entries@[j].0@) && self.table@[self.entries@[j].0@]
                            == self.entries@[j].1@ by {
                        if j != i {
                            assert(old(self).entries@[j] == self.entries@[j]);
                            if j < i {
                                assert(old(self).entries@[j].0@ != old(self).entries@[i as int].0@);
                            } else {
                                assert(old(self).entries@[i as int].0@ != old(self).entries@[j].0@);
                            }
                            assert(old(self).table@.contains_key(old(self).entries@[j].0@));
                            assert(self.entries@[j].0@ != k);
                        } else {
                            assert(self.table@.contains_key(k));
                        }
                    }
                    assert forall|q: Seq<char>| #[trigger] self.table@.contains_key(q) implies exists|j: int|
                        0 <= j < self.entries@.len() && self.entries@[j].0@ == q by {
                        if q != k {
                            let j = choose|j: int| 0 <= j < old(self).entries@.len() && old(self).entries@[j].0@ == q;
                            assert(self.entries@[j].0@ == q);
                        } else {
                            assert(self.entries@[i as int].0@ == q);
                        }
                    }
                }
                Some(pair.1)
            }
            None => {
                self.entries.push((key, e));
                self.table = Ghost(self.table@.insert(k, ev));
                proof {
                    let n = self.entries@.len() - 1;
                    assert forall|j: int| 0 <= j < self.entries@.len() implies #[trigger]
                        self.table@.contains_key(self.entries@[j].0@) && self.table@[self.entries@[j].0@]
                            == self.entries@[j].1@ by {
                        if j != n {
                            assert(old(self).entries@[j] == self.entries@[j]);
                            assert(old(self).table@.contains_key(old(self).entries@[j].0@));
                        }
                    }
                    assert forall|q: Seq<char>| #[trigger] self.table@.contains_key(q) implies exists|j: int|
                        0 <= j < self.entries@.len() && self.entries@[j].0@ == q by {
                        if q != k {
                            let j = choose|j: int| 0 <= j < old(self).entries@.len() && old(self).entries@[j].0@ == q;
                            assert(self.entries@[j].0@ == q);
                        } else {
                            assert(self.entries@[n].0@ == q);
                        }
                    }
                }
                None
            }
        }
    }

    /// Removes the entry stored under `key`, if there is one.
    fn remove_entry(&mut self, key: &String)
        requires
            old(self).table_wf(),
        ensures
            final(self).table_wf(),
            final(self).table@ == old(self).table@.remove(key@),
            final(self).expirations == old(self).expirations,
            final(self).next_id == old(self).next_id,
            final(self).shutdown == old(self).shutdown,
    {
        match self.find(key) {
            Some(i) => {
                let ghost k = key@;
                self.entries.remove(i);
                self.table = Ghost(self.table@.remove(k));
                proof {
                    assert forall|j: int| 0 <= j < self.entries@.len() implies #[trigger]
                        self.table@.contains_key(self.entries@[j].0@) && self.table@[self.entries@[j].0@]
                            == self.entries@[j].1@ by {
                        if j < i {
                            assert(old(self).entries@[j] == self.entries@[j]);
                            assert(old(self).entries@[j].0@ != old(self).entries@[i as int].0@);
                            assert(old(self).table@.contains_key(old(self).entries@[j].0@));
                        } else {
                            assert(old(self).entries@[j + 1] == self.entries@[j]);
                            assert(old(self).entries@[i as int].0@ != old(self).entries@[j + 1].0@);
                            assert(old(self).table@.contains_key(old(self).entries@[j + 1].0@));
                        }
                    }
                    assert forall|q: Seq<char>| #[trigger] self.table@.contains_key(q) implies exists|j: int|
                        0 <= j < self.entries@.len() && self.entries@[j].0@ == q by {
                        let j = choose|j: int| 0 <= j < old(self).entries@.len() && old(self).entries@[j].0@ == q;
                        if j < i {
                            assert(self.entries@[j].0@ == q);
                        } else {
                            assert(j != i);
                            assert(self.entries@[j - 1].0@ == q);
                        }
                    }
                }
            }
            None => {
                assert(self.table@.remove(key@) =~= self.table@);
            }
        }
    }
}

impl State {
    /// Writes `value` under `key` at time `now`, with an optional time to
    /// live. The entry gets the next id; the record of a replaced entry leaves
    /// the index in the same step. Returns whether the purge worker must be
    /// woken: the new deadline is earlier than every scheduled one.
    pub fn set(&mut self, key: String, value: Vec<u8>, ttl: Option<u64>, now: u64) -> (wake: bool)
        requires
            old(self).wf(),
            old(self)@.next_id < u64::MAX,
        ensures
            final(self).wf(),
            final(self)@ == after_set(old(self)@, key@, value@, ttl, now),
            wake == wakes_worker(old(self)@, ttl, now),
    {
        let ghost v0 = self@;
        let ghost k = key@;
        let id = self.next_id;
        self.next_id = id + 1;
        let mut notify = false;
        let expires_at = match ttl {
            Some(d) => {
                let when = now.saturating_add(d);
                notify = match self.next_expiration() {
                    Some(e) => e > when,
                    None => {
                        assert(v0.expirations.dom() =~= old(self).expirations@.dom());
                        assert forall|r: (u64, u64)| #[trigger] v0.expirations.contains_key(r) implies when < r.0 by {
                            lemma_nonempty_has_first(v0.expirations, r);
                        }
                        true
                    },
                };
                self.expirations.insert((when, id), key.clone());
                Some(when)
            },
            None => None,
        };
        assert(self.entries@ == old(self).entries@ && self.table@ == old(self).table@);
        assert(self.table_wf());
        let prev = self.insert_entry(key, Entry { id, data: value, expires_at });
        match prev {
            Some(p) => match p.expires_at {
                Some(when) => {
                    self.expirations.remove(&(when, p.id));
                },
                None => {},
            },
            None => {},
        }
        proof {
            let v1 = self@;
            let target = after_set(v0, k, value@, ttl, now);
            assert(v1.expirations =~= target.expirations);
            assert(v1.entries =~= target.entries);
            lemma_set_consistent(v0, k, value@, ttl, now);
            assert(consistent(v1));
        }
        notify
    }
}

/// Progress of a purge at time `now` that started from `start` and has
/// reached `cur`: only due records have left, and an entry is kept exactly
/// while it has no deadline or its record is still in the index.
spec fn purge_progress(start: CacheView, cur: CacheView, now: u64) -> bool {
    &&& cur.next_id == start.next_id
    &&& cur.shutdown == start.shutdown
    &&& forall|r: (u64, u64)| #[trigger]
        cur.expirations.contains_key(r) ==> start.expirations.contains_key(r)
            && start.expirations[r] == cur.expirations[r]
    &&& forall|r: (u64, u64)| #[trigger]
        start.expirations.contains_key(r) && !cur.expirations.contains_key(r) ==> r.0 <= now
    &&& forall|k: Seq<char>| #[trigger]
        cur.entries.contains_key(k) <==> start.entries.contains_key(k) && (
        start.entries[k].expires_at is None || cur.expirations.contains_key(
            (start.entries[k].expires_at->0, start.entries[k].id),
        ))
    &&& forall|k: Seq<char>| #[trigger]
        cur.entries.contains_key(k) ==> cur.entries[k] == start.entries[k]
}

impl State {
    /// Removes the first record of the index and the entry that owns it, if
    /// that record's deadline is not after `now`. Returns the removed key.
    pub fn pop_expired(&mut self, now: u64) -> (r: Option<String>)
        requires
            old(self).wf(),
        ensures
            final(self).wf(),
            match r {
                Some(k) => exists|rec: (u64, u64)|
                    {
                        &&& is_first_record(old(self)@.expirations, rec)
                        &&& rec.0 <= now
                        &&& old(self)@.expirations[rec] == k@
                        &&& final(self)@ == after_pop(old(self)@, rec)
                    },
                None => final(self)@ == old(self)@ && forall|rec: (u64, u64)| #[trigger]
                    old(self)@.expirations.contains_key(rec) ==> now < rec.0,
            },
    {
        let ghost v0 = self@;
        match self.first_record() {
            Some(rec) => {
                if rec.0 <= now {
                    let removed = self.expirations.remove(&rec);
                    match removed {
                        Some(key) => {
                            let ghost k = key@;
                            assert(self.table_wf());
                            self.remove_entry(&key);
                            proof {
                                let v1 = self@;
                                assert(k == v0.expirations[rec]);
                                assert(v1.expirations =~= after_pop(v0, rec).expirations);
                                assert(v1.entries =~= after_pop(v0, rec).entries);
                                assert forall|q: Seq<char>| #[trigger] v1.entries.contains_key(q)
                                    && v1.entries[q].expires_at is Some implies {
                                    let r = (v1.entries[q].expires_at->0, v1.entries[q].id);
                                    v1.expirations.contains_key(r) && v1.expirations[r] == q
                                } by {
                                    let r = (v0.entries[q].expires_at->0, v0.entries[q].id);
                                    assert(v0.expirations.contains_key(r));
                                }
                                assert(consistent(v1));
                            }
                            Some(key)
                        },
                        None => None,
                    }
                } else {
                    None
                }
            },
            None => None,
        }
    }

    /// Purges at time `now` every entry whose deadline is not after `now`,
    /// with its record, in `(deadline, id)` order, and returns the deadline at
    /// which the next purge is due. Does nothing and returns `None` once
    /// shutdown was requested.
    pub fn evict_expired_keys(&mut self, now: u64) -> (r: Option<u64>)
        requires
            old(self).wf(),
        ensures
            final(self).wf(),
            final(self)@ == after_purge(old(self)@, now),
            r == if old(self)@.shutdown {
                None
            } else {
                earliest_deadline(final(self)@.expirations)
            },
    {
        if self.shutdown {
            return None;
        }
        let ghost start = self@;
        let mut more = true;
        while more
            invariant
                self.wf(),
                !start.shutdown,
                consistent(start),
                purge_progress(start, self@, now),
                !more ==> forall|rec: (u64, u64)| #[trigger]
                    self@.expirations.contains_key(rec) ==> now < rec.0,
            decreases self.expirations@.dom().len() + if more {
                1int
            } else {
                0int
            },
        {
            let ghost cur = self@;
            let ghost cur_map = self.expirations@;
            match self.pop_expired(now) {
                Some(_) => {
                    proof {
                        let rec = choose|rec: (u64, u64)|
                            {
                                &&& is_first_record(cur.expirations, rec)
                                &&& rec.0 <= now
                                &&& self@ == after_pop(cur, rec)
                            };
                        let k = cur.expirations[rec];
                        let nv = self@;
                        assert(self.expirations@.dom() =~= nv.expirations.dom());
                        assert(cur.expirations.dom() =~= cur_map.dom());
                        assert(self.expirations@.dom() =~= cur_map.dom().remove(rec));
                        assert(cur_map.dom().contains(rec));
                        assert(cur_map.dom().finite());
                        assert(self.expirations@.dom().len() == cur_map.dom().len() - 1);
                        assert(self.expirations@.len() < cur_map.len());
                        assert forall|q: Seq<char>| #[trigger] nv.entries.contains_key(q) <==> start.entries.contains_key(q) && (
                            start.entries[q].expires_at is None || nv.expirations.contains_key(
                                (start.entries[q].expires_at->0, start.entries[q].id),
                            )) by {
                            if start.entries.contains_key(q) && start.entries[q].expires_at is Some {
                                let rq = (start.entries[q].expires_at->0, start.entries[q].id);
                                assert(start.expirations.contains_key(rq));
                                if rq == rec {
                                    assert(start.expirations[rec] == q);
                                }
                            }
                            if q == k {
                                assert(cur.entries.contains_key(k));
                            }
                        }
                    }
                },
                None => {
                    assert(self.expirations@.dom() =~= self@.expirations.dom());
                    assert(cur_map.dom() =~= cur.expirations.dom());
                    more = false;
                },
            }
        }
        proof {
            let fin = self@;
            let target = after_purge(start, now);
            assert(fin.expirations =~= target.expirations) by {
                assert forall|r: (u64, u64)| #[trigger] target.expirations.contains_key(r) implies fin.expirations.contains_key(r) by {
                    if !fin.expirations.contains_key(r) {
                        assert(r.0 <= now);
                    }
                }
            }
            assert(fin.entries =~= target.entries) by {
                assert forall|q: Seq<char>| #[trigger] fin.entries.contains_key(q) <==> target.entries.contains_key(q) by {
                    if start.entries.contains_key(q) && start.entries[q].expires_at is Some {
                        let rq = (start.entries[q].expires_at->0, start.entries[q].id);
                        assert(start.expirations.contains_key(rq));
                        if !fin.expirations.contains_key(rq) {
                            assert(rq.0 <= now);
                        }
                    }
                }
            }
        }
        self.next_expiration()
    }

    /// Marks the table as shut down; the purge worker stops at its next
    /// check. Reads and writes keep working.
    pub fn shutdown(&mut self)
        requires
            old(self).wf(),
        ensures
            final(self).wf(),
            final(self)@ == after_shutdown(old(self)@),
    {
        self.shutdown = true;
        assert(self.table_wf());
    }

    /// The number of records in the expiration index.
    pub fn pending_expirations(&self) -> (r: usize)
        ensures
            r == self@.expirations.dom().len(),
    {
        assert(self@.expirations.dom() =~= self.expirations@.dom());
        self.expirations.len()
    }

    /// The id that the next write receives.
    pub fn next_id(&self) -> (r: u64)
        ensures
            r == self@.next_id,
    {
        self.next_id
    }

    /// Whether shutdown was requested.
    pub fn is_shutdown(&self) -> (r: bool)
        ensures
            r == self@.shutdown,
    {
        self.shutdown
    }
}

/// A write keeps the model's invariant.
pub proof fn lemma_set_consistent(
    v: CacheView,
    key: Seq<char>,
    data: Seq<u8>,
    ttl: Option<u64>,
    now: u64,
)
    requires
        consistent(v),
        v.next_id < u64::MAX,
    ensures
        consistent(after_set(v, key, data, ttl, now)),
{
    let v1 = after_set(v, key, data, ttl, now);
    let id = v.next_id;
    assert forall|q: Seq<char>| #[trigger] v1.entries.contains_key(q) && v1.entries[q].expires_at is Some implies {
        let r = (v1.entries[q].expires_at->0, v1.entries[q].id);
        v1.expirations.contains_key(r) && v1.expirations[r] == q
    } by {
        if q != key {
            let r = (v.entries[q].expires_at->0, v.entries[q].id);
            assert(v.expirations.contains_key(r));
        }
    }
    assert forall|r: (u64, u64)| #[trigger] v1.expirations.contains_key(r) implies {
        let q = v1.expirations[r];
        &&& v1.entries.contains_key(q)
        &&& v1.entries[q].id == r.1
        &&& v1.entries[q].expires_at == Some(r.0)
    } by {
        if r.1 != id {
            assert(v.expirations.contains_key(r));
            let q = v.expirations[r];
            if q == key {
                assert(v.entries[key].expires_at == Some(r.0));
            }
        }
    }
}

/// An index with a record has a first record, whose deadline is not later
/// than that record's.
proof fn lemma_nonempty_has_first(expirations: Map<(u64, u64), Seq<char>>, r: (u64, u64))
    requires
        expirations.contains_key(r),
        expirations.dom().finite(),
    ensures
        earliest_deadline(expirations) matches Some(t) && t <= r.0,
    decreases expirations.dom().len(),
{
    let rest = expirations.remove(r);
    if exists|o: (u64, u64)| rest.contains_key(o) {
        let o = choose|o: (u64, u64)| rest.contains_key(o);
        lemma_nonempty_has_first(rest, o);
        let c = choose|c: (u64, u64)| is_first_record(rest, c);
        if r.0 < c.0 || (r.0 == c.0 && r.1 <= c.1) {
            assert(is_first_record(expirations, r));
            lemma_first_record_deadline(expirations, r);
        } else {
            assert(is_first_record(expirations, c));
            lemma_first_record_deadline(expirations, c);
        }
    } else {
        assert forall|o: (u64, u64)| #[trigger] expirations.contains_key(o) implies r.0 < o.0 || (
        r.0 == o.0 && r.1 <= o.1) by {
            if o != r {
                assert(rest.contains_key(o));
            }
        }
        assert(is_first_record(expirations, r));
        lemma_first_record_deadline(expirations, r);
    }
}

/// Two first records of an index share their deadline.
proof fn lemma_first_record_deadline(expirations: Map<(u64, u64), Seq<char>>, r: (u64, u64))
    requires
        is_first_record(expirations, r),
    ensures
        earliest_deadline(expirations) == Some(r.0),
{
    let c = choose|c: (u64, u64)| is_first_record(expirations, c);
    assert(expirations.contains_key(c));
    assert(expirations.contains_key(r));
}

} // verus!
