//! A cache of quotes by a text key, without a bound on its size.

use vstd::prelude::*;
use crate::cache::lru_cache::is_expired;
use crate::routing::quote::Quote;
use crate::routing::route::SplitRoute;

verus! {

/// One cached quote.
pub struct CachedQuote {
    pub key: String,
    pub quote: Quote,
    /// The time at which the quote was put in.
    pub inserted_at: u64,
}

/// The position of the key with the text `key` among `entries`, if it is
/// there.
pub open spec fn text_position(entries: Seq<CachedQuote>, key: Seq<char>) -> Option<int> {
    if exists|i: int| 0 <= i < entries.len() && entries[i].key@ == key {
        Some(choose|i: int| 0 <= i < entries.len() && entries[i].key@ == key)
    } else {
        None
    }
}

/// Whether no key text occurs twice among `entries`.
pub open spec fn distinct_texts(entries: Seq<CachedQuote>) -> bool {
    forall|i: int, j: int|
        0 <= i < j < entries.len() ==> (#[trigger] entries[i]).key@ != (#[trigger] entries[j]).key@
}

/// Whether `copy` holds what `split` holds: the same totals, and route by
/// route the same hops, figures and share.
pub open spec fn same_split(copy: SplitRoute, split: SplitRoute) -> bool {
    &&& copy.routes@.len() == split.routes@.len()
    &&& forall|i: int|
        0 <= i < split.routes@.len() ==> (#[trigger] copy.routes@[i]).0.hops@
            == split.routes@[i].0.hops@ && copy.routes@[i].0.total_amount_in
            == split.routes@[i].0.total_amount_in && copy.routes@[i].0.total_amount_out
            == split.routes@[i].0.total_amount_out && copy.routes@[i].0.price_impact
            == split.routes@[i].0.price_impact && copy.routes@[i].0.gas_estimate
            == split.routes@[i].0.gas_estimate && copy.routes@[i].1 == split.routes@[i].1
    &&& copy.total_amount_in == split.total_amount_in
    &&& copy.total_amount_out == split.total_amount_out
    &&& copy.combined_price_impact == split.combined_price_impact
    &&& copy.total_gas_estimate == split.total_gas_estimate
}

/// Whether `copy` holds the figures of `quote`, and what its split holds.
pub open spec fn same_quote(copy: Quote, quote: Quote) -> bool {
    &&& same_split(copy.route, quote.route)
    &&& copy.amount_in@ == quote.amount_in@
    &&& copy.amount_out@ == quote.amount_out@
    &&& copy.amount_out_min@ == quote.amount_out_min@
    &&& copy.price_impact == quote.price_impact
    &&& copy.gas_estimate == quote.gas_estimate
    &&& copy.gas_estimate_usd == quote.gas_estimate_usd
    &&& copy.route_string@ == quote.route_string@
    &&& copy.route.total_amount_in == quote.route.total_amount_in
    &&& copy.route.total_amount_out == quote.route.total_amount_out
    &&& copy.route.routes@.len() == quote.route.routes@.len()
}

/// A cache of quotes that live for a fixed number of seconds.
pub struct RouteCache {
    entries: Vec<CachedQuote>,
    ttl: u64,
}

fn find_text(entries: &Vec<CachedQuote>, key: &str) -> (r: Option<usize>)
    requires
        distinct_texts(entries@),
    ensures
        r is Some == text_position(entries@, key@) is Some,
        r is Some ==> Some(r->0 as int) == text_position(entries@, key@),
        r is Some ==> r->0 < entries@.len() && entries@[r->0 as int].key@ == key@,
{
    let mut i: usize = 0;
    while i < entries.len()
        invariant
            i <= entries@.len(),
            distinct_texts(entries@),
            forall|j: int| 0 <= j < i ==> entries@[j].key@ != key@,
        decreases entries@.len() - i,
    {
        if crate::utils::text::text_eq(entries[i].key.as_str(), key) {
            proof {
                let c = choose|k: int| 0 <= k < entries@.len() && entries@[k].key@ == key@;
                if c > i {
                    assert(entries@[i as int].key@ != entries@[c].key@);
                }
            }
            return Some(i);
        }
        i = i + 1;
    }
    None
}

proof fn lemma_remove_keeps_texts(entries: Seq<CachedQuote>, at: int)
    requires
        0 <= at < entries.len(),
        distinct_texts(entries),
    ensures
        distinct_texts(entries.remove(at)),
        forall|k: int|
            0 <= k < entries.remove(at).len() ==> (#[trigger] entries.remove(at)[k]).key@
                != entries[at].key@,
{
    let after = entries.remove(at);
    assert forall|i: int, j: int| 0 <= i < j < after.len() implies (#[trigger] after[i]).key@ != (
    #[trigger] after[j]).key@ by {
        let from_i = if i < at {
            i
        } else {
            i + 1
        };
        let from_j = if j < at {
            j
        } else {
            j + 1
        };
        assert(after[i] == entries[from_i]);
        assert(after[j] == entries[from_j]);
    }
    assert forall|k: int| 0 <= k < after.len() implies (#[trigger] after[k]).key@
        != entries[at].key@ by {
        let from = if k < at {
            k
        } else {
            k + 1
        };
        assert(after[k] == entries[from]);
        if from < at {
            assert(entries[from].key@ != entries[at].key@);
        } else {
            assert(entries[at].key@ != entries[from].key@);
        }
    }
}

#[verifier::rlimit(50)]
fn read_quote(entries: &mut Vec<CachedQuote>, key: &str, now: u64, ttl: u64) -> (r: Option<Quote>)
    requires
        distinct_texts(old(entries)@),
    ensures
        distinct_texts(final(entries)@),
        match text_position(old(entries)@, key@) {
            None => r is None && final(entries)@ == old(entries)@,
            Some(i) => if is_expired(old(entries)@[i].inserted_at, now, ttl) {
                r is None && final(entries)@ == old(entries)@.remove(i)
            } else {
                r is Some && same_quote(r->0, old(entries)@[i].quote) && final(entries)@ == old(entries)@
            },
        },
{
    let ghost before = entries@;
    match find_text(entries, key) {
        None => None,
        Some(i) => {
            let inserted_at = entries[i].inserted_at;
            if now >= inserted_at && now - inserted_at >= ttl {
                entries.remove(i);
                proof {
                    lemma_remove_keeps_texts(before, i as int);
                }
                None
            } else {
                Some(entries[i].quote.clone())
            }
        },
    }
}

#[verifier::rlimit(50)]
fn write_quote(entries: &mut Vec<CachedQuote>, key: &str, quote: &Quote, now: u64)
    requires
        distinct_texts(old(entries)@),
    ensures
        distinct_texts(final(entries)@),
        final(entries)@.len() >= 1,
        final(entries)@.last().key@ == key@,
        same_quote(final(entries)@.last().quote, *quote),
        final(entries)@.last().inserted_at == now,
        final(entries)@.drop_last() == match text_position(old(entries)@, key@) {
            Some(i) => old(entries)@.remove(i),
            None => old(entries)@,
        },
{
    let ghost before = entries@;
    match find_text(entries, key) {
        Some(i) => {
            entries.remove(i);
            proof {
                lemma_remove_keeps_texts(before, i as int);
            }
        },
        None => {},
    }
    let ghost rest = entries@;
    let entry = CachedQuote { key: key.to_owned(), quote: quote.clone(), inserted_at: now };
    entries.push(entry);
    proof {
        assert(entries@.drop_last() =~= rest);
        assert forall|i: int, j: int| 0 <= i < j < entries@.len() implies (
        #[trigger] entries@[i]).key@ != (#[trigger] entries@[j]).key@ by {
            assert(entries@[i] == rest[i]);
            if j < rest.len() {
                assert(entries@[j] == rest[j]);
            }
        }
    }
}

impl RouteCache {
    #[verifier::type_invariant]
    spec fn well_formed(self) -> bool {
        distinct_texts(self.entries@)
    }

    /// The cached quotes in the order in which they were put in.
    pub closed spec fn entries(&self) -> Seq<CachedQuote> {
        self.entries@
    }

    /// The seconds for which a quote lives.
    pub closed spec fn ttl(&self) -> u64 {
        self.ttl
    }

    /// An empty cache whose quotes live for `ttl_seconds` seconds.
    pub fn new(ttl_seconds: u64) -> (c: RouteCache)
        ensures
            c.entries().len() == 0,
            c.ttl() == ttl_seconds,
    {
        RouteCache { entries: Vec::new(), ttl: ttl_seconds }
    }

    /// Reads the quote of `key` at the time `now`.
    ///
    /// A key that is not in the cache is a miss. A key whose quote has reached
    /// its time to live is a miss too, and the quote is dropped. Otherwise the
    /// result is a copy of the quote.
    pub fn get(&mut self, key: &str, now: u64) -> (r: Option<Quote>)
        ensures
            final(self).ttl() == old(self).ttl(),
            match text_position(old(self).entries(), key@) {
                None => r is None && final(self).entries() == old(self).entries(),
                Some(i) => if is_expired(old(self).entries()[i].inserted_at, now, old(self).ttl()) {
                    r is None && final(self).entries() == old(self).entries().remove(i)
                } else {
                    r is Some && same_quote(r->0, old(self).entries()[i].quote) && final(self).entries() == old(self).entries()
                },
            },
    {
        proof {
            use_type_invariant(&*self);
        }
        let mut entries: Vec<CachedQuote> = Vec::new();
        core::mem::swap(&mut self.entries, &mut entries);
        let found = read_quote(&mut entries, key, now, self.ttl);
        core::mem::swap(&mut self.entries, &mut entries);
        found
    }

    /// Puts a copy of `quote` under `key` at the time `now`, in the place of
    /// any quote that `key` had.
    pub fn set(&mut self, key: &str, quote: &Quote, now: u64)
        ensures
            final(self).ttl() == old(self).ttl(),
            final(self).entries().len() >= 1,
            final(self).entries().last().key@ == key@,
            same_quote(final(self).entries().last().quote, *quote),
            final(self).entries().last().inserted_at == now,
            final(self).entries().drop_last() == match text_position(old(self).entries(), key@) {
                Some(i) => old(self).entries().remove(i),
                None => old(self).entries(),
            },
    {
        proof {
            use_type_invariant(&*self);
        }
        let mut entries: Vec<CachedQuote> = Vec::new();
        core::mem::swap(&mut self.entries, &mut entries);
        write_quote(&mut entries, key, quote, now);
        core::mem::swap(&mut self.entries, &mut entries);
    }

    /// Drops every quote.
    pub fn clear(&mut self)
        ensures
            final(self).ttl() == old(self).ttl(),
            final(self).entries().len() == 0,
    {
        let mut entries: Vec<CachedQuote> = Vec::new();
        core::mem::swap(&mut self.entries, &mut entries);
    }
}

impl Default for RouteCache {
    /// A cache whose quotes live for fifteen seconds.
    fn default() -> (c: RouteCache)
        ensures
            c.entries().len() == 0,
            c.ttl() == 15,
    {
        RouteCache::new(15)
    }
}

} // verus!
