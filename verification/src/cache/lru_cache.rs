//! A cache that forgets the least recently used entry when it is full, and
//! any entry once it is older than its time to live.
//!
//! The entries are kept in the order of their last use, the least recently
//! used first. No key occurs twice. Time is what the caller says it is: every
//! operation that depends on it takes the current time in seconds.

use vstd::prelude::*;
use vstd::laws_eq::obeys_concrete_eq;
use vstd::std_specs::cmp::PartialEqSpec;

verus! {

/// One entry of a cache.
pub struct CacheEntry<K, V> {
    pub key: K,
    pub value: V,
    /// The time at which the entry was put in.
    pub inserted_at: u64,
    /// How often the entry was read.
    pub access_count: u64,
}

/// The size of a cache and how often its entries were read.
#[derive(Clone, Copy, Debug)]
pub struct CacheStats {
    pub size: usize,
    pub max_size: usize,
    pub total_accesses: u64,
}

/// Whether an entry put in at `inserted_at` is too old at `now`: its age has
/// reached `ttl`.
pub open spec fn is_expired(inserted_at: u64, now: u64, ttl: u64) -> bool {
    now >= inserted_at && now - inserted_at >= ttl
}

/// The position of `key` among `entries`, if it is there.
pub open spec fn key_position<K, V>(entries: Seq<CacheEntry<K, V>>, key: K) -> Option<int> {
    if exists|i: int| 0 <= i < entries.len() && entries[i].key == key {
        Some(choose|i: int| 0 <= i < entries.len() && entries[i].key == key)
    } else {
        None
    }
}

/// Whether no key occurs twice among `entries`.
pub open spec fn distinct_keys<K, V>(entries: Seq<CacheEntry<K, V>>) -> bool {
    forall|i: int, j: int|
        0 <= i < j < entries.len() ==> (#[trigger] entries[i]).key != (#[trigger] entries[j]).key
}

/// `entries` without the entry of `key`.
pub open spec fn without_key<K, V>(entries: Seq<CacheEntry<K, V>>, key: K) -> Seq<CacheEntry<K, V>> {
    match key_position(entries, key) {
        Some(i) => entries.remove(i),
        None => entries,
    }
}

/// `entries` after making room for one more: without the least recently
/// used entry where `max_size` is reached.
pub open spec fn with_room<K, V>(entries: Seq<CacheEntry<K, V>>, max_size: usize) -> Seq<
    CacheEntry<K, V>,
> {
    if entries.len() >= max_size && entries.len() > 0 {
        entries.drop_first()
    } else {
        entries
    }
}

/// Whether reading `key` at the time `now` turns `before` into `after` and
/// gives `result`.
///
/// A key that is not there is a miss and changes nothing. A key whose entry
/// has reached its time to live is a miss too, and the entry is dropped.
/// Otherwise the result is a clone of the value, and the entry moves to the
/// end with one more read.
pub open spec fn reads<K, V: Clone>(
    before: Seq<CacheEntry<K, V>>,
    ttl: u64,
    key: K,
    now: u64,
    after: Seq<CacheEntry<K, V>>,
    result: Option<V>,
) -> bool {
    match key_position(before, key) {
        None => result is None && after == before,
        Some(i) => if is_expired(before[i].inserted_at, now, ttl) {
            result is None && after == before.remove(i)
        } else {
            &&& result is Some
            &&& cloned(before[i].value, result->0)
            &&& after.len() == before.len()
            &&& after.drop_last() == before.remove(i)
            &&& after.last().key == key
            &&& after.last().value == before[i].value
            &&& after.last().inserted_at == before[i].inserted_at
            &&& after.last().access_count == if before[i].access_count < u64::MAX {
                (before[i].access_count + 1) as u64
            } else {
                u64::MAX
            }
        },
    }
}

/// The entries after `key` is put in with `value` at the time `now`: room is
/// made where `max_size` is reached, an entry that `key` had goes, and the new
/// entry comes last, without reads.
pub open spec fn written<K, V>(
    before: Seq<CacheEntry<K, V>>,
    max_size: usize,
    key: K,
    value: V,
    now: u64,
) -> Seq<CacheEntry<K, V>> {
    without_key(with_room(before, max_size), key).push(
        CacheEntry { key, value, inserted_at: now, access_count: 0 },
    )
}

/// The sum of the read counts of `entries`.
pub open spec fn access_sum<K, V>(entries: Seq<CacheEntry<K, V>>) -> nat
    decreases entries.len(),
{
    if entries.len() == 0 {
        0
    } else {
        access_sum(entries.drop_last()) + entries.last().access_count as nat
    }
}

fn find_key<K: PartialEq, V>(entries: &Vec<CacheEntry<K, V>>, key: &K) -> (r: Option<usize>)
    requires
        obeys_concrete_eq::<K>(),
        distinct_keys(entries@),
    ensures
        r is Some == key_position(entries@, *key) is Some,
        r is Some ==> Some(r->0 as int) == key_position(entries@, *key),
        r is Some ==> r->0 < entries@.len() && entries@[r->0 as int].key == *key,
{
    reveal(obeys_concrete_eq);
    let mut i: usize = 0;
    while i < entries.len()
        invariant
            i <= entries@.len(),
            obeys_concrete_eq::<K>(),
            K::obeys_eq_spec(),
            forall|x: K, y: K| #[trigger] x.eq_spec(&y) <==> (x == y),
            distinct_keys(entries@),
            forall|j: int| 0 <= j < i ==> entries@[j].key != *key,
        decreases entries@.len() - i,
    {
        if entries[i].key == *key {
            proof {
                let c = choose|k: int| 0 <= k < entries@.len() && entries@[k].key == *key;
                if c > i {
                    assert(entries@[i as int].key != entries@[c].key);
                }
            }
            return Some(i);
        }
        i = i + 1;
    }
    None
}

proof fn lemma_remove_keeps_distinct<K, V>(entries: Seq<CacheEntry<K, V>>, at: int)
    requires
        0 <= at < entries.len(),
        distinct_keys(entries),
    ensures
        distinct_keys(entries.remove(at)),
        forall|k: int|
            0 <= k < entries.remove(at).len() ==> (#[trigger] entries.remove(at)[k]).key
                != entries[at].key,
{
    let after = entries.remove(at);
    assert forall|i: int, j: int| 0 <= i < j < after.len() implies (#[trigger] after[i]).key != (
    #[trigger] after[j]).key by {
        let from_i = if i < at {
            i
        } else {
            i + 1
        };
        let from_j = if j < at {
            j
        } else {
            j + 1
        };
        assert(after[i] == entries[from_i]);
        assert(after[j] == entries[from_j]);
    }
    assert forall|k: int| 0 <= k < after.len() implies (#[trigger] after[k]).key
        != entries[at].key by {
        let from = if k < at {
            k
        } else {
            k + 1
        };
        assert(after[k] == entries[from]);
        if from < at {
            assert(entries[from].key != entries[at].key);
        } else {
            assert(entries[at].key != entries[from].key);
        }
    }
}

proof fn lemma_push_keeps_distinct<K, V>(entries: Seq<CacheEntry<K, V>>, entry: CacheEntry<K, V>)
    requires
        distinct_keys(entries),
        forall|k: int| 0 <= k < entries.len() ==> (#[trigger] entries[k]).key != entry.key,
    ensures
        distinct_keys(entries.push(entry)),
{
    let after = entries.push(entry);
    assert forall|i: int, j: int| 0 <= i < j < after.len() implies (#[trigger] after[i]).key != (
    #[trigger] after[j]).key by {
        assert(after[i] == entries[i]);
        if j < entries.len() {
            assert(after[j] == entries[j]);
        }
    }
}

/// Reads `key` at the time `now` from `entries`, which are in the order of
/// their last use.
#[verifier::rlimit(50)]
fn read_entry<K: PartialEq, V: Clone>(
    entries: &mut Vec<CacheEntry<K, V>>,
    key: &K,
    now: u64,
    ttl: u64,
) -> (r: Option<V>)
    requires
        obeys_concrete_eq::<K>(),
        distinct_keys(old(entries)@),
    ensures
        distinct_keys(final(entries)@),
        reads(old(entries)@, ttl, *key, now, final(entries)@, r),
{
    let ghost before = entries@;
    match find_key(entries, key) {
        None => None,
        Some(i) => {
            let entry = entries.remove(i);
            proof {
                lemma_remove_keeps_distinct(before, i as int);
            }
            if now >= entry.inserted_at && now - entry.inserted_at >= ttl {
                None
            } else {
                let value = entry.value.clone();
                let read = CacheEntry {
                    key: entry.key,
                    value: entry.value,
                    inserted_at: entry.inserted_at,
                    access_count: entry.access_count.saturating_add(1),
                };
                proof {
                    lemma_push_keeps_distinct(entries@, read);
                    assert(entries@.push(read).drop_last() =~= entries@);
                }
                entries.push(read);
                Some(value)
            }
        },
    }
}

/// Puts `key` with `value` into `entries` at the time `now`.
#[verifier::rlimit(50)]
fn write_entry<K: PartialEq, V>(
    entries: &mut Vec<CacheEntry<K, V>>,
    key: K,
    value: V,
    now: u64,
    max_size: usize,
)
    requires
        obeys_concrete_eq::<K>(),
        distinct_keys(old(entries)@),
    ensures
        distinct_keys(final(entries)@),
        final(entries)@ == written(old(entries)@, max_size, key, value, now),
{
    let ghost before = entries@;
    if entries.len() >= max_size && entries.len() > 0 {
        entries.remove(0);
        proof {
            lemma_remove_keeps_distinct(before, 0);
            assert(before.remove(0) =~= before.drop_first());
        }
    }
    let ghost roomy = entries@;
    match find_key(entries, &key) {
        Some(i) => {
            entries.remove(i);
            proof {
                lemma_remove_keeps_distinct(roomy, i as int);
            }
        },
        None => {},
    }
    let entry = CacheEntry { key, value, inserted_at: now, access_count: 0 };
    proof {
        lemma_push_keeps_distinct(entries@, entry);
    }
    entries.push(entry);
}

/// Drops from `entries` what is too old at `now`.
#[verifier::rlimit(50)]
fn drop_expired<K, V>(entries: &mut Vec<CacheEntry<K, V>>, now: u64, ttl: u64)
    requires
        distinct_keys(old(entries)@),
    ensures
        distinct_keys(final(entries)@),
        final(entries)@ == old(entries)@.filter(
            |e: CacheEntry<K, V>| !is_expired(e.inserted_at, now, ttl),
        ),
{
    let ghost before = entries@;
    let ghost fresh = |e: CacheEntry<K, V>| !is_expired(e.inserted_at, now, ttl);
    let mut kept: Vec<CacheEntry<K, V>> = Vec::new();
    let mut rest: Vec<CacheEntry<K, V>> = Vec::new();
    core::mem::swap(entries, &mut rest);
    proof {
        assert(before.take(before.len() as int) =~= before);
        assert(before.skip(before.len() as int) =~= Seq::<CacheEntry<K, V>>::empty());
        reveal(Seq::filter);
    }
    // The entries are taken from the back, so `kept` is built in reverse and
    // turned round at the end.
    while rest.len() > 0
        invariant
            rest@.len() <= before.len(),
            rest@ == before.take(rest@.len() as int),
            fresh == |e: CacheEntry<K, V>| !is_expired(e.inserted_at, now, ttl),
            kept@.reverse() == before.skip(rest@.len() as int).filter(fresh),
        decreases rest@.len(),
    {
        let ghost rest_before = rest@;
        let ghost kept_before = kept@;
        let entry = rest.pop().unwrap();
        proof {
            let n = rest@.len() as int;
            assert(rest@ =~= before.take(n));
            assert(entry == before[n]);
            assert(before.skip(n) =~= seq![entry] + before.skip(n + 1));
            Seq::filter_distributes_over_add(seq![entry], before.skip(n + 1), fresh);
            assert(seq![entry].filter(fresh) =~= if fresh(entry) {
                seq![entry]
            } else {
                Seq::empty()
            }) by {
                reveal_with_fuel(Seq::filter, 2);
                assert(seq![entry].drop_last() =~= Seq::<CacheEntry<K, V>>::empty());
            }
        }
        if !(now >= entry.inserted_at && now - entry.inserted_at >= ttl) {
            kept.push(entry);
            proof {
                assert(kept@.reverse() =~= seq![entry] + kept_before.reverse());
            }
        }
    }
    proof {
        assert(before.skip(0) =~= before);
    }
    let ghost kept_all = kept@;
    while kept.len() > 0
        invariant
            entries@ + kept@.reverse() == kept_all.reverse(),
        decreases kept@.len(),
    {
        let ghost kept_before = kept@;
        let ghost entries_before = entries@;
        let entry = kept.pop().unwrap();
        entries.push(entry);
        proof {
            assert(kept_before.reverse() =~= seq![entry] + kept@.reverse());
            assert(entries@ + kept@.reverse() =~= entries_before + kept_before.reverse());
        }
    }
    proof {
        assert(entries@ =~= entries@ + kept@.reverse());
        lemma_filter_keeps_distinct(before, fresh);
    }
}

proof fn lemma_filter_keeps_distinct<K, V>(
    entries: Seq<CacheEntry<K, V>>,
    keep: spec_fn(CacheEntry<K, V>) -> bool,
)
    requires
        distinct_keys(entries),
    ensures
        distinct_keys(entries.filter(keep)),
    decreases entries.len(),
{
    reveal(Seq::filter);
    if entries.len() > 0 {
        let shorter = entries.drop_last();
        assert forall|i: int, j: int| 0 <= i < j < shorter.len() implies (
        #[trigger] shorter[i]).key != (#[trigger] shorter[j]).key by {
            assert(shorter[i] == entries[i]);
            assert(shorter[j] == entries[j]);
        }
        lemma_filter_keeps_distinct(shorter, keep);
        if keep(entries.last()) {
            let kept = shorter.filter(keep);
            assert forall|k: int| 0 <= k < kept.len() implies (#[trigger] kept[k]).key
                != entries.last().key by {
                assert(kept.contains(kept[k]));
                shorter.lemma_filter_contains_rev(keep, kept[k]);
                let at = choose|at: int| 0 <= at < shorter.len() && shorter[at] == kept[k];
                assert(entries[at] == shorter[at]);
                assert(entries[at].key != entries[entries.len() - 1].key);
            }
            lemma_push_keeps_distinct(kept, entries.last());
        }
    }
}

/// The number of reads of `entries`, at most the greatest `u64`.
pub open spec fn total_reads<K, V>(entries: Seq<CacheEntry<K, V>>) -> nat {
    if access_sum(entries) > u64::MAX {
        u64::MAX as nat
    } else {
        access_sum(entries)
    }
}

/// A cache of at most `max_size` entries that live for `ttl` seconds.
pub struct LruCache<K, V> {
    entries: Vec<CacheEntry<K, V>>,
    max_size: usize,
    ttl: u64,
}

impl<K, V> LruCache<K, V> {
    #[verifier::type_invariant]
    spec fn well_formed(self) -> bool {
        distinct_keys(self.entries@)
    }

    /// The entries of the cache in the order of their last use, the least
    /// recently used first.
    pub closed spec fn entries(&self) -> Seq<CacheEntry<K, V>> {
        self.entries@
    }

    /// The number of entries from which on the cache makes room before it
    /// takes another.
    pub closed spec fn max_size(&self) -> usize {
        self.max_size
    }

    /// The seconds after which an entry is too old.
    pub closed spec fn ttl(&self) -> u64 {
        self.ttl
    }

}

impl<K: PartialEq, V: Clone> LruCache<K, V> {
    /// An empty cache of at most `max_size` entries that live for
    /// `ttl_seconds` seconds.
    pub fn new(max_size: usize, ttl_seconds: u64) -> (c: Self)
        ensures
            c.entries().len() == 0,
            c.max_size() == max_size,
            c.ttl() == ttl_seconds,
    {
        LruCache { entries: Vec::new(), max_size, ttl: ttl_seconds }
    }

    /// The seconds after which an entry is too old.
    pub fn ttl_seconds(&self) -> (ttl: u64)
        ensures
            ttl == self.ttl(),
    {
        self.ttl
    }

    /// No key occurs twice in the cache.
    pub fn distinct(&self)
        ensures
            distinct_keys(self.entries()),
    {
        proof {
            use_type_invariant(self);
        }
    }

    /// Reads the value of `key` at the time `now`.
    ///
    /// A key that is not in the cache is a miss and changes nothing. A key
    /// whose entry has reached its time to live is a miss too, and the entry is
    /// dropped. Otherwise the result is a clone of the value, the entry counts
    /// one more read and becomes the most recently used.
    pub fn get(&mut self, key: &K, now: u64) -> (r: Option<V>)
        requires
            obeys_concrete_eq::<K>(),
        ensures
            final(self).max_size() == old(self).max_size(),
            final(self).ttl() == old(self).ttl(),
            reads(
                old(self).entries(),
                old(self).ttl(),
                *key,
                now,
                final(self).entries(),
                r,
            ),
    {
        proof {
            use_type_invariant(&*self);
        }
        let mut entries: Vec<CacheEntry<K, V>> = Vec::new();
        core::mem::swap(&mut self.entries, &mut entries);
        let found = read_entry(&mut entries, key, now, self.ttl);
        core::mem::swap(&mut self.entries, &mut entries);
        found
    }

    /// Puts `value` under `key` at the time `now`.
    ///
    /// Where the cache holds `max_size` entries or more, the least recently
    /// used one is dropped first. An entry that `key` had is replaced. The new
    /// entry has no reads and is the most recently used.
    pub fn insert(&mut self, key: K, value: V, now: u64)
        requires
            obeys_concrete_eq::<K>(),
        ensures
            final(self).max_size() == old(self).max_size(),
            final(self).ttl() == old(self).ttl(),
            final(self).entries() == written(
                old(self).entries(),
                old(self).max_size(),
                key,
                value,
                now,
            ),
    {
        proof {
            use_type_invariant(&*self);
        }
        let mut entries: Vec<CacheEntry<K, V>> = Vec::new();
        core::mem::swap(&mut self.entries, &mut entries);
        write_entry(&mut entries, key, value, now, self.max_size);
        core::mem::swap(&mut self.entries, &mut entries);
    }

    /// Drops every entry that has reached its time to live at `now`.
    pub fn clear_expired(&mut self, now: u64)
        ensures
            final(self).max_size() == old(self).max_size(),
            final(self).ttl() == old(self).ttl(),
            final(self).entries() == old(self).entries().filter(
                |e: CacheEntry<K, V>| !is_expired(e.inserted_at, now, old(self).ttl()),
            ),
    {
        proof {
            use_type_invariant(&*self);
        }
        let mut entries: Vec<CacheEntry<K, V>> = Vec::new();
        core::mem::swap(&mut self.entries, &mut entries);
        drop_expired(&mut entries, now, self.ttl);
        core::mem::swap(&mut self.entries, &mut entries);
    }

    /// The number of entries, the size at which the cache makes room, and the
    /// number of reads of the entries it holds, at most the greatest `u64`.
    pub fn stats(&self) -> (s: CacheStats)
        ensures
            s.size == self.entries().len(),
            s.max_size == self.max_size(),
            s.total_accesses == total_reads(self.entries()),
    {
        let mut total: u64 = 0;
        let mut i: usize = 0;
        proof {
            assert(self.entries@.take(0) =~= Seq::<CacheEntry<K, V>>::empty());
        }
        while i < self.entries.len()
            invariant
                i <= self.entries@.len(),
                total == total_reads(self.entries@.take(i as int)),
            decreases self.entries@.len() - i,
        {
            proof {
                let upto = self.entries@.take(i + 1);
                assert(upto.drop_last() =~= self.entries@.take(i as int));
                assert(upto.last() == self.entries@[i as int]);
            }
            total = total.saturating_add(self.entries[i].access_count);
            i = i + 1;
        }
        proof {
            assert(self.entries@.take(i as int) =~= self.entries@);
        }
        CacheStats { size: self.entries.len(), max_size: self.max_size, total_accesses: total }
    }

    /// Drops every entry.
    pub fn clear(&mut self)
        ensures
            final(self).max_size() == old(self).max_size(),
            final(self).ttl() == old(self).ttl(),
            final(self).entries().len() == 0,
    {
        let mut entries: Vec<CacheEntry<K, V>> = Vec::new();
        core::mem::swap(&mut self.entries, &mut entries);
    }
}

/// After a read every value of the cache was a value of the cache before.
#[verifier::rlimit(50)]
pub proof fn lemma_reads_keeps_values<K, V: Clone>(
    before: Seq<CacheEntry<K, V>>,
    ttl: u64,
    key: K,
    now: u64,
    after: Seq<CacheEntry<K, V>>,
    result: Option<V>,
)
    requires
        reads(before, ttl, key, now, after, result),
    ensures
        forall|k: int|
            0 <= k < after.len() ==> exists|j: int|
                0 <= j < before.len() && (#[trigger] before[j]).value == (#[trigger] after[k]).value,
{
    assert forall|k: int| 0 <= k < after.len() implies exists|j: int|
        0 <= j < before.len() && (#[trigger] before[j]).value == (#[trigger] after[k]).value by {
        match key_position(before, key) {
            None => {
                assert(before[k].value == after[k].value);
            },
            Some(i) => {
                let removed = before.remove(i);
                if is_expired(before[i].inserted_at, now, ttl) {
                    let from = if k < i {
                        k
                    } else {
                        k + 1
                    };
                    assert(after[k] == before[from]);
                    assert(before[from].value == after[k].value);
                } else if k < after.len() - 1 {
                    assert(after.drop_last()[k] == after[k]);
                    let from = if k < i {
                        k
                    } else {
                        k + 1
                    };
                    assert(removed[k] == before[from]);
                    assert(before[from].value == after[k].value);
                } else {
                    assert(before[i].value == after[k].value);
                }
            },
        }
    }
}

/// After a write every entry of the cache is the new entry or was an entry
/// of the cache before.
#[verifier::rlimit(50)]
pub proof fn lemma_written_members<K, V>(
    before: Seq<CacheEntry<K, V>>,
    max_size: usize,
    key: K,
    value: V,
    now: u64,
)
    ensures
        forall|k: int|
            0 <= k < written(before, max_size, key, value, now).len() - 1 ==> before.contains(
                #[trigger] written(before, max_size, key, value, now)[k],
            ),
        written(before, max_size, key, value, now).last() == (CacheEntry {
            key,
            value,
            inserted_at: now,
            access_count: 0,
        }),
{
    let roomy = with_room(before, max_size);
    let rest = without_key(roomy, key);
    let after = written(before, max_size, key, value, now);
    assert forall|k: int| 0 <= k < after.len() - 1 implies before.contains(#[trigger] after[k]) by {
        assert(after[k] == rest[k]);
        let in_roomy = match key_position(roomy, key) {
            Some(i) => if k < i {
                k
            } else {
                k + 1
            },
            None => k,
        };
        assert(rest[k] == roomy[in_roomy]);
        let in_before = if before.len() >= max_size && before.len() > 0 {
            in_roomy + 1
        } else {
            in_roomy
        };
        assert(roomy[in_roomy] == before[in_before]);
    }
}

/// The least recently used key is the one that goes when a full cache takes
/// another key: after the insertion the cache holds what it held before
/// without its first entry, and the new entry last.
pub proof fn lemma_full_cache_evicts_oldest<K, V>(
    entries: Seq<CacheEntry<K, V>>,
    max_size: usize,
    entry: CacheEntry<K, V>,
)
    requires
        distinct_keys(entries),
        entries.len() >= max_size,
        entries.len() > 0,
        key_position(entries, entry.key) is None,
    ensures
        without_key(with_room(entries, max_size), entry.key).push(entry)
            == entries.drop_first().push(entry),
        key_position(entries.drop_first().push(entry), entries[0].key) is None,
{
    let roomy = entries.drop_first();
    assert forall|i: int| 0 <= i < roomy.len() implies roomy[i].key != entry.key by {
        assert(roomy[i] == entries[i + 1]);
    }
    let after = roomy.push(entry);
    assert forall|i: int| 0 <= i < after.len() implies after[i].key != entries[0].key by {
        if i < roomy.len() {
            assert(after[i] == entries[i + 1]);
            assert(entries[0].key != entries[i + 1].key);
        } else {
            assert(entries[0].key != entry.key);
        }
    }
}

} // verus!
