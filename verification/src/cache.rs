//! The cache store as the gateway relies on it: a key-value store with a
//! per-entry time-to-live, holding previously fetched successful response
//! bodies under `"cache:" + url`. A lookup hit short-circuits the whole
//! pipeline; an expired or absent entry is a miss.

use vstd::pervasive::VecAdditionalExecFns;
use vstd::prelude::*;
use vstd::string::StringExecFns;

use crate::outcome::cached_envelope;
use crate::outcome::executor_body_holds;
use crate::outcome::json_canon;
use crate::outcome::json_has_key;
use crate::outcome::json_parses;
use crate::outcome::ExecutorResult;
use crate::request::QueuedRequest;

verus! {

/// A store entry: the body kept for a key, and the instant (in seconds)
/// at which it lapses.
pub struct CacheStore {
    entries: Vec<(String, String, u64)>,
}

/// The map an entry list denotes: key to (body, expiry instant), later
/// entries winning.
pub open spec fn cache_map(s: Seq<(String, String, u64)>) -> Map<Seq<char>, (Seq<char>, u64)>
    decreases s.len(),
{
    if s.len() == 0 {
        Map::<Seq<char>, (Seq<char>, u64)>::empty()
    } else {
        cache_map(s.drop_last()).insert(s.last().0@, (s.last().1@, s.last().2))
    }
}

/// The expiry instant of an entry stored at `now_s` for `ttl_seconds`,
/// saturating at the largest representable instant.
pub open spec fn spec_expiry(now_s: u64, ttl_seconds: u64) -> u64 {
    if now_s + ttl_seconds <= u64::MAX {
        (now_s + ttl_seconds) as u64
    } else {
        u64::MAX
    }
}

/// What a lookup at `now_s` returns: the stored body when the key is
/// present and not yet lapsed, otherwise a miss.
pub open spec fn spec_lookup(
    m: Map<Seq<char>, (Seq<char>, u64)>,
    key: Seq<char>,
    now_s: u64,
) -> Option<Seq<char>> {
    if m.dom().contains(key) && now_s < m[key].1 {
        Option::Some(m[key].0)
    } else {
        Option::None
    }
}

spec fn cache_keys_unique(s: Seq<(String, String, u64)>) -> bool {
    forall|p: int, q: int| 0 <= p < q < s.len() ==> s[p].0@ != s[q].0@
}

proof fn lemma_cache_map_dom(s: Seq<(String, String, u64)>)
    ensures
        forall|k: Seq<char>| #[trigger]
            cache_map(s).dom().contains(k) <==> (exists|j: int| 0 <= j < s.len() && s[j].0@ == k),
    decreases s.len(),
{
    if s.len() > 0 {
        let d = s.drop_last();
        lemma_cache_map_dom(d);
        assert forall|k: Seq<char>| #[trigger] cache_map(s).dom().contains(k) <==> (exists|j: int|
            0 <= j < s.len() && s[j].0@ == k) by {
            if cache_map(s).dom().contains(k) {
                if k == s.last().0@ {
                    assert(s[s.len() - 1].0@ == k);
                } else {
                    assert(cache_map(d).dom().contains(k));
                    let j = choose|j: int| 0 <= j < d.len() && d[j].0@ == k;
                    assert(s[j].0@ == k);
                }
            }
            if exists|j: int| 0 <= j < s.len() && s[j].0@ == k {
                let j = choose|j: int| 0 <= j < s.len() && s[j].0@ == k;
                if j == s.len() - 1 {
                    assert(k == s.last().0@);
                } else {
                    assert(d[j].0@ == k);
                    assert(cache_map(d).dom().contains(k));
                }
            }
        }
    }
}

proof fn lemma_cache_map_at(s: Seq<(String, String, u64)>, i: int)
    requires
        cache_keys_unique(s),
        0 <= i < s.len(),
    ensures
        cache_map(s).dom().contains(s[i].0@),
        cache_map(s)[s[i].0@] == (s[i].1@, s[i].2),
    decreases s.len(),
{
    let d = s.drop_last();
    if i == s.len() - 1 {
    } else {
        assert(d[i] == s[i]);
        lemma_cache_map_at(d, i);
        assert(s.last().0@ != s[i].0@);
    }
}

proof fn lemma_cache_map_update(s: Seq<(String, String, u64)>, i: int, e: (String, String, u64))
    requires
        cache_keys_unique(s),
        0 <= i < s.len(),
        e.0@ == s[i].0@,
    ensures
        cache_map(s.update(i, e)) == cache_map(s).insert(e.0@, (e.1@, e.2)),
    decreases s.len(),
{
    let s2 = s.update(i, e);
    if i == s.len() - 1 {
        assert(s2.drop_last() =~= s.drop_last());
        assert(s2.last() == e);
        assert(cache_map(s2) =~= cache_map(s).insert(e.0@, (e.1@, e.2)));
    } else {
        let d = s.drop_last();
        assert(s2.drop_last() =~= d.update(i, e));
        assert(d[i] == s[i]);
        lemma_cache_map_update(d, i, e);
        assert(s2.last() == s.last());
        assert(s.last().0@ != e.0@);
        assert(cache_map(s2) =~= cache_map(s).insert(e.0@, (e.1@, e.2)));
    }
}

impl View for CacheStore {
    type V = Map<Seq<char>, (Seq<char>, u64)>;

    closed spec fn view(&self) -> Map<Seq<char>, (Seq<char>, u64)> {
        cache_map(self.entries@)
    }
}

impl CacheStore {
    /// Internal well-formedness: at most one entry per key.
    pub closed spec fn wf(&self) -> bool {
        cache_keys_unique(self.entries@)
    }

    /// An empty store: every lookup misses.
    pub fn new() -> (r: CacheStore)
        ensures
            r@ == Map::<Seq<char>, (Seq<char>, u64)>::empty(),
            r.wf(),
    {
        CacheStore { entries: Vec::new() }
    }

    /// Store `body` under `key` at instant `now_s`, to live for
    /// `ttl_seconds`; an earlier entry for the key is superseded.
    pub fn store(&mut self, key: String, body: String, ttl_seconds: u64, now_s: u64)
        requires
            old(self).wf(),
        ensures
            final(self).wf(),
            final(self)@ == old(self)@.insert(key@, (body@, spec_expiry(now_s, ttl_seconds))),
    {
        let expires_at: u64 = if now_s <= u64::MAX - ttl_seconds {
            now_s + ttl_seconds
        } else {
            u64::MAX
        };
        proof {
            assert(expires_at == spec_expiry(now_s, ttl_seconds));
        }
        let ghost s0 = self.entries@;
        let mut i: usize = 0;
        while i < self.entries.len()
            invariant
                i <= self.entries@.len(),
                self.entries@ == s0,
                old(self).entries@ == s0,
                cache_keys_unique(s0),
                expires_at == spec_expiry(now_s, ttl_seconds),
                forall|j: int| 0 <= j < i ==> self.entries@[j].0@ != key@,
            decreases self.entries@.len() - i,
        {
            let matches_here = key.eq(&self.entries[i].0);
            if matches_here {
                proof {
                    lemma_cache_map_update(s0, i as int, (key, body, expires_at));
                }
                self.entries.set(i, (key, body, expires_at));
                proof {
                    assert forall|p: int, q: int| 0 <= p < q < self.entries@.len() implies self
                        .entries@[p].0@ != self.entries@[q].0@ by {
                        assert(s0[p].0@ == self.entries@[p].0@);
                        assert(s0[q].0@ == self.entries@[q].0@);
                    }
                    assert(self@ == old(self)@.insert(
                        key@,
                        (body@, spec_expiry(now_s, ttl_seconds)),
                    ));
                }
                return ;
            }
            i += 1;
        }
        self.entries.push((key, body, expires_at));
        proof {
            assert(self.entries@.drop_last() =~= s0);
            lemma_cache_map_dom(s0);
            assert forall|p: int, q: int| 0 <= p < q < self.entries@.len() implies self
                .entries@[p].0@ != self.entries@[q].0@ by {
                if q == s0.len() {
                    assert(s0[p].0@ != key@);
                }
            }
        }
    }

    /// Look `key` up at instant `now_s`: the stored body on a hit, a miss
    /// when the key is absent or its entry has lapsed.
    pub fn lookup(&self, key: &String, now_s: u64) -> (r: Option<String>)
        requires
            self.wf(),
        ensures
            match r {
                Option::Some(body) => spec_lookup(self@, key@, now_s) == Option::Some(body@),
                Option::None => spec_lookup(self@, key@, now_s) is None,
            },
    {
        proof {
            lemma_cache_map_dom(self.entries@);
        }
        let mut i: usize = 0;
        while i < self.entries.len()
            invariant
                i <= self.entries@.len(),
                self.wf(),
                forall|j: int| 0 <= j < i ==> self.entries@[j].0@ != key@,
            decreases self.entries@.len() - i,
        {
            let e = &self.entries[i];
            if key.eq(&e.0) {
                proof {
                    lemma_cache_map_at(self.entries@, i as int);
                }
                if now_s < e.2 {
                    return Option::Some(e.1.clone());
                } else {
                    return Option::None;
                }
            }
            i += 1;
        }
        proof {
            lemma_cache_map_dom(self.entries@);
            if self@.dom().contains(key@) {
                let j = choose|j: int| 0 <= j < self.entries@.len() && self.entries@[j].0@
                    == key@;
                assert(false);
            }
        }
        Option::None
    }

    /// Forget every entry.
    pub fn clear(&mut self)
        ensures
            final(self).wf(),
            final(self)@ == Map::<Seq<char>, (Seq<char>, u64)>::empty(),
    {
        self.entries.clear();
    }
}

/// The key under which a resource's body is cached.
pub fn cache_key_for(url: &String) -> (r: String)
    ensures
        r@ == "cache:"@ + url@,
{
    let mut r = ("cache:").to_owned();
    r.append(url.as_str());
    r
}

/// Cache round-trip law: after storing body `B` under key `K` at `now_s`
/// with time-to-live `T`, a lookup of `K` strictly before the expiry
/// instant returns exactly `B`, a lookup at or after it misses, and a
/// cleared store misses.
pub proof fn lemma_cache_round_trip(
    m: Map<Seq<char>, (Seq<char>, u64)>,
    key: Seq<char>,
    body: Seq<char>,
    ttl_seconds: u64,
    now_s: u64,
    probe_s: u64,
)
    ensures
        ({
            let m2 = m.insert(key, (body, spec_expiry(now_s, ttl_seconds)));
            &&& (probe_s < spec_expiry(now_s, ttl_seconds) ==> spec_lookup(m2, key, probe_s)
                == Option::Some(body))
            &&& (probe_s >= spec_expiry(now_s, ttl_seconds) ==> spec_lookup(m2, key, probe_s)
                is None)
        }),
        spec_lookup(Map::<Seq<char>, (Seq<char>, u64)>::empty(), key, probe_s) is None,
{
}

/// Cache round-trip law for an executor's own write: when a parsed body
/// without an error member completes and its cache write is stored, a
/// lookup before expiry returns the canonical body wrapped in the
/// timestamped cache envelope — and nothing else.
pub proof fn lemma_cache_round_trip_envelope(
    m: Map<Seq<char>, (Seq<char>, u64)>,
    request: QueuedRequest,
    body_text: Seq<char>,
    time_text: Seq<char>,
    r: ExecutorResult,
    now_s: u64,
    probe_s: u64,
)
    requires
        executor_body_holds(body_text, request, time_text, r),
        json_parses(body_text),
        !json_has_key(body_text, "error"@),
    ensures
        ({
            let w = r.cache_write->Some_0;
            let m2 = m.insert(w.cache_key@, (w.body@, spec_expiry(now_s, w.ttl_seconds)));
            &&& r.cache_write is Some
            &&& (probe_s < spec_expiry(now_s, w.ttl_seconds) ==> spec_lookup(
                m2,
                "cache:"@ + request.url@,
                probe_s,
            ) == Option::Some(cached_envelope(json_canon(body_text), time_text)))
            &&& (probe_s >= spec_expiry(now_s, w.ttl_seconds) ==> spec_lookup(
                m2,
                "cache:"@ + request.url@,
                probe_s,
            ) is None)
        }),
{
    let w = r.cache_write->Some_0;
    lemma_cache_round_trip(m, w.cache_key@, w.body@, w.ttl_seconds, now_s, probe_s);
}

} // verus!
