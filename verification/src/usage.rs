//! Per-key usage tracking: the record of each API key's last-use timestamp
//! that the scheduler consults before dispatching, and the eligibility rule
//! enforcing the minimum interval between two uses of one key.

use vstd::pervasive::VecAdditionalExecFns;
use vstd::prelude::*;

verus! {

/// Minimum interval, in milliseconds, between the recorded use of an API key
/// and its next dispatch.
pub const MIN_KEY_INTERVAL_MS: u64 = 500;

/// Record of each API key's last-use timestamp, in milliseconds on a
/// monotonic clock supplied by the caller. A key with no record has never
/// been used and is always eligible.
pub struct ApiKeyUsage {
    entries: Vec<(String, u64)>,
}

/// The map an entry list denotes, later entries winning.
pub open spec fn entries_map(s: Seq<(String, u64)>) -> Map<Seq<char>, u64>
    decreases s.len(),
{
    if s.len() == 0 {
        Map::<Seq<char>, u64>::empty()
    } else {
        entries_map(s.drop_last()).insert(s.last().0@, s.last().1)
    }
}

impl View for ApiKeyUsage {
    type V = Map<Seq<char>, u64>;

    closed spec fn view(&self) -> Map<Seq<char>, u64> {
        entries_map(self.entries@)
    }
}

/// A key is eligible at `now_ms` when it was never used, or when its last
/// recorded use lies at least the minimum interval in the past.
pub open spec fn spec_can_execute(m: Map<Seq<char>, u64>, key: Seq<char>, now_ms: u64) -> bool {
    !m.dom().contains(key) || m[key] + MIN_KEY_INTERVAL_MS <= now_ms
}

spec fn entry_keys_unique(s: Seq<(String, u64)>) -> bool {
    forall|p: int, q: int| 0 <= p < q < s.len() ==> s[p].0@ != s[q].0@
}

proof fn lemma_entries_map_dom(s: Seq<(String, u64)>)
    ensures
        forall|k: Seq<char>| #[trigger]
            entries_map(s).dom().contains(k) <==> (exists|j: int|
                0 <= j < s.len() && s[j].0@ == k),
    decreases s.len(),
{
    if s.len() > 0 {
        let d = s.drop_last();
        lemma_entries_map_dom(d);
        assert forall|k: Seq<char>| #[trigger] entries_map(s).dom().contains(k) <==> (exists|j: int|
            0 <= j < s.len() && s[j].0@ == k) by {
            if entries_map(s).dom().contains(k) {
                if k == s.last().0@ {
                    assert(s[s.len() - 1].0@ == k);
                } else {
                    assert(entries_map(d).dom().contains(k));
                    let j = choose|j: int| 0 <= j < d.len() && d[j].0@ == k;
                    assert(s[j].0@ == k);
                }
            }
            if exists|j: int| 0 <= j < s.len() && s[j].0@ == k {
                let j = choose|j: int| 0 <= j < s.len() && s[j].0@ == k;
                if j == s.len() - 1 {
                    assert(k == s.last().0@);
                } else {
                    assert(d[j].0@ == k);
                    assert(entries_map(d).dom().contains(k));
                }
            }
        }
    }
}

proof fn lemma_entries_map_at(s: Seq<(String, u64)>, i: int)
    requires
        entry_keys_unique(s),
        0 <= i < s.len(),
    ensures
        entries_map(s).dom().contains(s[i].0@),
        entries_map(s)[s[i].0@] == s[i].1,
    decreases s.len(),
{
    let d = s.drop_last();
    if i == s.len() - 1 {
    } else {
        assert(d[i] == s[i]);
        lemma_entries_map_at(d, i);
        assert(s.last().0@ != s[i].0@);
    }
}

proof fn lemma_entries_map_update(s: Seq<(String, u64)>, i: int, e: (String, u64))
    requires
        entry_keys_unique(s),
        0 <= i < s.len(),
        e.0@ == s[i].0@,
    ensures
        entries_map(s.update(i, e)) == entries_map(s).insert(e.0@, e.1),
    decreases s.len(),
{
    let s2 = s.update(i, e);
    if i == s.len() - 1 {
        assert(s2.drop_last() =~= s.drop_last());
        assert(s2.last() == e);
        assert(entries_map(s2) =~= entries_map(s).insert(e.0@, e.1));
    } else {
        let d = s.drop_last();
        assert(s2.drop_last() =~= d.update(i, e));
        assert(d[i] == s[i]);
        lemma_entries_map_update(d, i, e);
        assert(s2.last() == s.last());
        assert(s.last().0@ != e.0@);
        assert(entries_map(s2) =~= entries_map(s).insert(e.0@, e.1));
    }
}

impl ApiKeyUsage {
    /// Internal well-formedness: at most one entry per key.
    pub closed spec fn wf(&self) -> bool {
        entry_keys_unique(self.entries@)
    }

    /// A fresh tracker: no key has ever been used.
    pub fn new() -> (r: ApiKeyUsage)
        ensures
            r@ == Map::<Seq<char>, u64>::empty(),
            r.wf(),
    {
        ApiKeyUsage { entries: Vec::new() }
    }

    /// Whether `api_key` may be dispatched at `now_ms`: true when the key
    /// has never been used or its last use lies at least
    /// `MIN_KEY_INTERVAL_MS` in the past.
    pub fn can_execute(&self, api_key: &String, now_ms: u64) -> (r: bool)
        requires
            self.wf(),
        ensures
            r == spec_can_execute(self@, api_key@, now_ms),
    {
        proof {
            lemma_entries_map_dom(self.entries@);
        }
        let mut i: usize = 0;
        while i < self.entries.len()
            invariant
                i <= self.entries@.len(),
                self.wf(),
                forall|j: int| 0 <= j < i ==> self.entries@[j].0@ != api_key@,
            decreases self.entries@.len() - i,
        {
            let e = &self.entries[i];
            if api_key.eq(&e.0) {
                let last_used = e.1;
                proof {
                    lemma_entries_map_at(self.entries@, i as int);
                }
                return now_ms >= MIN_KEY_INTERVAL_MS && last_used <= now_ms
                    - MIN_KEY_INTERVAL_MS;
            }
            i += 1;
        }
        proof {
            lemma_entries_map_dom(self.entries@);
            if self@.dom().contains(api_key@) {
                let j = choose|j: int| 0 <= j < self.entries@.len() && self.entries@[j].0@
                    == api_key@;
                assert(false);
            }
        }
        true
    }

    /// Record that `api_key` was used at `now_ms`, superseding any earlier
    /// record for the key.
    pub fn update_usage(&mut self, api_key: String, now_ms: u64)
        requires
            old(self).wf(),
        ensures
            final(self).wf(),
            final(self)@ == old(self)@.insert(api_key@, now_ms),
    {
        let ghost s0 = self.entries@;
        let mut i: usize = 0;
        while i < self.entries.len()
            invariant
                i <= self.entries@.len(),
                self.entries@ == s0,
                old(self).entries@ == s0,
                entry_keys_unique(s0),
                forall|j: int| 0 <= j < i ==> self.entries@[j].0@ != api_key@,
            decreases self.entries@.len() - i,
        {
            let matches_here = api_key.eq(&self.entries[i].0);
            if matches_here {
                proof {
                    lemma_entries_map_update(s0, i as int, (api_key, now_ms));
                }
                self.entries.set(i, (api_key, now_ms));
                proof {
                    assert(self.entries@ =~= s0.update(i as int, (api_key, now_ms)));
                    assert(entries_map(self.entries@) == entries_map(s0).insert(
                        api_key@,
                        now_ms,
                    ));
                    assert forall|p: int, q: int| 0 <= p < q < self.entries@.len() implies self
                        .entries@[p].0@ != self.entries@[q].0@ by {
                        assert(s0[p].0@ == self.entries@[p].0@);
                        assert(s0[q].0@ == self.entries@[q].0@);
                    }
                }
                return ;
            }
            i += 1;
        }
        self.entries.push((api_key, now_ms));
        proof {
            assert(self.entries@.drop_last() =~= s0);
            assert(self.entries@.last() == (api_key, now_ms));
            lemma_entries_map_dom(s0);
            assert forall|p: int, q: int| 0 <= p < q < self.entries@.len() implies self
                .entries@[p].0@ != self.entries@[q].0@ by {
                if q == s0.len() {
                    assert(s0[p].0@ != api_key@);
                }
            }
        }
    }
}

/// Rate-limit law: once a key's use is recorded at `t_used`, the key is
/// eligible at a later instant `t_next` if and only if at least
/// `MIN_KEY_INTERVAL_MS` has passed since `t_used`.
pub proof fn lemma_rate_limit_interval(
    m: Map<Seq<char>, u64>,
    key: Seq<char>,
    t_used: u64,
    t_next: u64,
)
    ensures
        spec_can_execute(m.insert(key, t_used), key, t_next) <==> t_used + MIN_KEY_INTERVAL_MS
            <= t_next,
{
}

} // verus!
