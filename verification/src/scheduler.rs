//! The scheduler pass: drain newly arrived submissions into the pending
//! table (merging duplicates), then walk the table in order and dispatch
//! every entry that has a key which is neither reserved by a running
//! executor nor inside its minimum-interval window. Entries with no such
//! key stay in the table for the next pass.

use vstd::prelude::*;

use crate::inflight::InFlightKeys;
use crate::request::table_model;
use crate::request::submit_all;
use crate::request::QueuedRequest;
use crate::request::ReqModel;
use crate::usage::spec_can_execute;
use crate::usage::ApiKeyUsage;
use crate::usage::MIN_KEY_INTERVAL_MS;

verus! {

/// One dispatched entry: the request taken out of the pending table and the
/// single API key reserved for its upstream call.
pub struct Dispatch {
    pub request: QueuedRequest,
    pub api_key: String,
}

/// The mathematical content of a `Dispatch`.
#[verifier::ext_equal]
pub struct DispatchModel {
    pub request: ReqModel,
    pub api_key: Seq<char>,
}

impl View for Dispatch {
    type V = DispatchModel;

    open spec fn view(&self) -> DispatchModel {
        DispatchModel { request: self.request@, api_key: self.api_key@ }
    }
}

/// The models of a list of dispatches.
pub open spec fn dispatch_models(s: Seq<Dispatch>) -> Seq<DispatchModel> {
    s.map_values(|d: Dispatch| d@)
}

/// A key may carry a dispatch when it is not reserved by a running executor
/// and is eligible under the rate limit.
pub open spec fn spec_dispatchable(
    key: Seq<char>,
    m: Map<Seq<char>, u64>,
    reserved: Set<Seq<char>>,
    now_ms: u64,
) -> bool {
    !reserved.contains(key) && spec_can_execute(m, key, now_ms)
}

/// Index of the first dispatchable key of `keys`, or -1 when none is.
pub open spec fn first_dispatchable(
    keys: Seq<Seq<char>>,
    m: Map<Seq<char>, u64>,
    reserved: Set<Seq<char>>,
    now_ms: u64,
) -> int
    decreases keys.len(),
{
    if keys.len() == 0 {
        -1
    } else if spec_dispatchable(keys[0], m, reserved, now_ms) {
        0
    } else {
        let r = first_dispatchable(keys.drop_first(), m, reserved, now_ms);
        if r < 0 {
            -1
        } else {
            r + 1
        }
    }
}

/// `first_dispatchable` returns the position of the first dispatchable key,
/// and -1 exactly when no key is dispatchable.
pub proof fn lemma_first_dispatchable(
    keys: Seq<Seq<char>>,
    m: Map<Seq<char>, u64>,
    reserved: Set<Seq<char>>,
    now_ms: u64,
)
    ensures
        ({
            let r = first_dispatchable(keys, m, reserved, now_ms);
            &&& (r == -1 <==> forall|j: int|
                0 <= j < keys.len() ==> !spec_dispatchable(keys[j], m, reserved, now_ms))
            &&& (r != -1 ==> 0 <= r < keys.len() && spec_dispatchable(keys[r], m, reserved, now_ms)
                && (forall|j: int| 0 <= j < r ==> !spec_dispatchable(keys[j], m, reserved, now_ms)))
        }),
    decreases keys.len(),
{
    if keys.len() == 0 {
    } else if spec_dispatchable(keys[0], m, reserved, now_ms) {
    } else {
        let rest = keys.drop_first();
        lemma_first_dispatchable(rest, m, reserved, now_ms);
        let r0 = first_dispatchable(rest, m, reserved, now_ms);
        if r0 == -1 {
            assert forall|j: int| 0 <= j < keys.len() implies !spec_dispatchable(
                keys[j],
                m,
                reserved,
                now_ms,
            ) by {
                if j > 0 {
                    assert(rest[j - 1] == keys[j]);
                }
            }
        } else {
            assert(keys[r0 + 1] == rest[r0]);
            assert forall|j: int| 0 <= j < r0 + 1 implies !spec_dispatchable(
                keys[j],
                m,
                reserved,
                now_ms,
            ) by {
                if j > 0 {
                    assert(rest[j - 1] == keys[j]);
                }
            }
        }
    }
}

/// What one whole dispatch pass does, entry by entry from the front of the
/// table: a dispatched entry leaves the table and its chosen key joins the
/// reserved set (so later entries of the same pass cannot take it); an
/// entry with no dispatchable key is kept, in order.
#[verifier::ext_equal]
pub struct PassOutcome {
    pub remaining: Seq<ReqModel>,
    pub reserved: Set<Seq<char>>,
    pub dispatches: Seq<DispatchModel>,
}

/// The outcome of a dispatch pass over table `t` with usage map `m`,
/// reserved set `reserved` and current instant `now_ms`.
pub open spec fn pass_spec(
    t: Seq<ReqModel>,
    m: Map<Seq<char>, u64>,
    reserved: Set<Seq<char>>,
    now_ms: u64,
) -> PassOutcome
    decreases t.len(),
{
    if t.len() == 0 {
        PassOutcome { remaining: Seq::empty(), reserved, dispatches: Seq::empty() }
    } else {
        let sel = first_dispatchable(t[0].keys, m, reserved, now_ms);
        if sel >= 0 {
            let k = t[0].keys[sel];
            let rest = pass_spec(t.drop_first(), m, reserved.insert(k), now_ms);
            PassOutcome {
                remaining: rest.remaining,
                reserved: rest.reserved,
                dispatches: seq![DispatchModel { request: t[0], api_key: k }] + rest.dispatches,
            }
        } else {
            let rest = pass_spec(t.drop_first(), m, reserved, now_ms);
            PassOutcome {
                remaining: seq![t[0]] + rest.remaining,
                reserved: rest.reserved,
                dispatches: rest.dispatches,
            }
        }
    }
}

/// Drain a batch of arrived submissions into the pending table, in arrival
/// order, merging each into an existing entry for the same resource where
/// one is pending.
pub fn received_queue(arrivals: Vec<QueuedRequest>, waiting_requests: &mut Vec<QueuedRequest>)
    ensures
        table_model(final(waiting_requests)@) == submit_all(
            table_model(old(waiting_requests)@),
            table_model(arrivals@),
        ),
{
    let ghost t0 = table_model(old(waiting_requests)@);
    let ghost a0 = table_model(arrivals@);
    let mut arrivals = arrivals;
    while arrivals.len() > 0
        invariant
            submit_all(t0, a0) == submit_all(
                table_model(waiting_requests@),
                table_model(arrivals@),
            ),
        decreases arrivals@.len(),
    {
        let ghost araw = arrivals@;
        let ghost cura = table_model(arrivals@);
        let next = arrivals.remove(0);
        proof {
            araw.remove_ensures(0);
            assert(cura[0] == next@);
            assert(table_model(arrivals@) =~= cura.drop_first());
        }
        QueuedRequest::insert_request_to_queue(waiting_requests, next);
    }
    proof {
        assert(table_model(arrivals@).len() == 0);
    }
}

/// One dispatch attempt for a single pending entry: the position of the
/// first of its candidate keys that is neither reserved nor rate-limited
/// at `now_ms`, if any.
pub fn select_key(
    request: &QueuedRequest,
    usage: &ApiKeyUsage,
    inflight: &InFlightKeys,
    now_ms: u64,
) -> (r: Option<usize>)
    requires
        usage.wf(),
    ensures
        ({
            let f = first_dispatchable(request@.keys, usage@, inflight@, now_ms);
            match r {
                Option::Some(i) => f == i as int && i < request.api_keys@.len(),
                Option::None => f == -1,
            }
        }),
{
    let ghost ks = request@.keys;
    let mut i: usize = 0;
    while i < request.api_keys.len()
        invariant
            usage.wf(),
            i <= request.api_keys@.len(),
            ks == request@.keys,
            forall|j: int| 0 <= j < i ==> !spec_dispatchable(ks[j], usage@, inflight@, now_ms),
        decreases request.api_keys@.len() - i,
    {
        let k = &request.api_keys[i];
        if !inflight.contains_key(k) && usage.can_execute(k, now_ms) {
            proof {
                assert(ks[i as int] == k@);
                lemma_first_dispatchable(ks, usage@, inflight@, now_ms);
            }
            return Option::Some(i);
        }
        proof {
            assert(ks[i as int] == k@);
        }
        i += 1;
    }
    proof {
        lemma_first_dispatchable(ks, usage@, inflight@, now_ms);
    }
    Option::None
}

/// One full dispatch pass over the pending table: every entry with a
/// dispatchable key is removed and paired with the first such key, which is
/// reserved at once; every other entry stays, in order. Returns the
/// dispatches to hand to executors.
pub fn dispatch_pass(
    waiting_requests: &mut Vec<QueuedRequest>,
    usage: &ApiKeyUsage,
    inflight: &mut InFlightKeys,
    now_ms: u64,
) -> (dispatches: Vec<Dispatch>)
    requires
        usage.wf(),
        old(inflight).wf(),
    ensures
        final(inflight).wf(),
        ({
            let out = pass_spec(
                table_model(old(waiting_requests)@),
                usage@,
                old(inflight)@,
                now_ms,
            );
            &&& table_model(final(waiting_requests)@) == out.remaining
            &&& final(inflight)@ == out.reserved
            &&& dispatch_models(dispatches@) == out.dispatches
        }),
{
    let ghost t0 = table_model(old(waiting_requests)@);
    let ghost infl0 = old(inflight)@;
    let mut kept: Vec<QueuedRequest> = Vec::new();
    let mut dispatches: Vec<Dispatch> = Vec::new();
    while waiting_requests.len() > 0
        invariant
            usage.wf(),
            inflight.wf(),
            ({
                let full = pass_spec(t0, usage@, infl0, now_ms);
                let sub = pass_spec(table_model(waiting_requests@), usage@, inflight@, now_ms);
                &&& full.remaining == table_model(kept@) + sub.remaining
                &&& full.reserved == sub.reserved
                &&& full.dispatches == dispatch_models(dispatches@) + sub.dispatches
            }),
        decreases waiting_requests@.len(),
    {
        let ghost wraw = waiting_requests@;
        let ghost cur = table_model(waiting_requests@);
        let ghost infl_cur = inflight@;
        let ghost sub = pass_spec(cur, usage@, inflight@, now_ms);
        let request = waiting_requests.remove(0);
        proof {
            wraw.remove_ensures(0);
            assert(cur[0] == request@);
            assert(table_model(waiting_requests@) =~= cur.drop_first());
        }
        match select_key(&request, usage, inflight, now_ms) {
            Option::Some(i) => {
                let ghost sel = first_dispatchable(request@.keys, usage@, inflight@, now_ms);
                proof {
                    lemma_first_dispatchable(request@.keys, usage@, inflight@, now_ms);
                    assert(spec_dispatchable(request@.keys[sel], usage@, inflight@, now_ms));
                }
                let api_key = request.api_keys[i].clone();
                proof {
                    assert(api_key@ == request@.keys[sel]);
                }
                inflight.insert(&api_key);
                let ghost dm = DispatchModel { request: request@, api_key: api_key@ };
                let ghost d_before = dispatch_models(dispatches@);
                dispatches.push(Dispatch { request, api_key });
                proof {
                    assert(dispatch_models(dispatches@) =~= d_before.push(dm));
                    let rest = pass_spec(cur.drop_first(), usage@, infl_cur.insert(dm.api_key), now_ms);
                    assert(sub.dispatches =~= seq![dm] + rest.dispatches);
                    assert(d_before.push(dm) =~= d_before + seq![dm]);
                    assert((d_before + seq![dm]) + rest.dispatches =~= d_before + (seq![dm]
                        + rest.dispatches));
                }
            },
            Option::None => {
                proof {
                    let rest = pass_spec(cur.drop_first(), usage@, infl_cur, now_ms);
                    assert(sub.remaining =~= seq![cur[0]] + rest.remaining);
                }
                let ghost k_before = table_model(kept@);
                kept.push(request);
                proof {
                    assert(table_model(kept@) =~= k_before.push(cur[0]));
                    assert(k_before.push(cur[0]) =~= k_before + seq![cur[0]]);
                    let rest = pass_spec(cur.drop_first(), usage@, infl_cur, now_ms);
                    assert((k_before + seq![cur[0]]) + rest.remaining =~= k_before + (seq![
                        cur[0],
                    ] + rest.remaining));
                }
            },
        }
    }
    proof {
        assert(table_model(waiting_requests@).len() == 0);
        let sub = pass_spec(table_model(waiting_requests@), usage@, inflight@, now_ms);
        assert(sub.remaining =~= Seq::<ReqModel>::empty());
        assert(sub.dispatches =~= Seq::<DispatchModel>::empty());
        assert(table_model(kept@) + sub.remaining =~= table_model(kept@));
        assert(dispatch_models(dispatches@) + sub.dispatches =~= dispatch_models(dispatches@));
    }
    let ghost keptm = table_model(kept@);
    waiting_requests.append(&mut kept);
    proof {
        assert(table_model(waiting_requests@) =~= keptm);
    }
    dispatches
}

/// One whole scheduler tick: drain the arrived submissions into the
/// pending table (merging duplicates), then dispatch every entry that has
/// an eligible, unreserved key. What the worker loop does between two
/// sleeps, with the upstream calls themselves left to the executors.
pub fn scheduler_tick(
    waiting_requests: &mut Vec<QueuedRequest>,
    arrivals: Vec<QueuedRequest>,
    usage: &ApiKeyUsage,
    inflight: &mut InFlightKeys,
    now_ms: u64,
) -> (dispatches: Vec<Dispatch>)
    requires
        usage.wf(),
        old(inflight).wf(),
    ensures
        final(inflight).wf(),
        ({
            let merged = submit_all(
                table_model(old(waiting_requests)@),
                table_model(arrivals@),
            );
            let out = pass_spec(merged, usage@, old(inflight)@, now_ms);
            &&& table_model(final(waiting_requests)@) == out.remaining
            &&& final(inflight)@ == out.reserved
            &&& dispatch_models(dispatches@) == out.dispatches
        }),
{
    received_queue(arrivals, waiting_requests);
    dispatch_pass(waiting_requests, usage, inflight, now_ms)
}

/// After the upstream call returns, and before its outcome is published:
/// record the key's use at `now_ms` and release its reservation, so the key
/// becomes schedulable again without waiting for the outcome delivery.
pub fn executor_complete(
    usage: &mut ApiKeyUsage,
    inflight: &mut InFlightKeys,
    api_key: &String,
    now_ms: u64,
)
    requires
        old(usage).wf(),
        old(inflight).wf(),
    ensures
        final(usage).wf(),
        final(inflight).wf(),
        final(usage)@ == old(usage)@.insert(api_key@, now_ms),
        final(inflight)@ == old(inflight)@.remove(api_key@),
{
    usage.update_usage(api_key.clone(), now_ms);
    inflight.remove_key(api_key);
}

/// The set of keys a sequence of dispatches reserved.
pub open spec fn dispatched_keys(s: Seq<DispatchModel>) -> Set<Seq<char>>
    decreases s.len(),
{
    if s.len() == 0 {
        Set::<Seq<char>>::empty()
    } else {
        dispatched_keys(s.drop_first()).insert(s[0].api_key)
    }
}

/// Mutual-exclusion and rate-limit law for one pass. Every dispatched key
/// (a) was eligible under the rate limit at `now_ms`, (b) was not reserved
/// when the pass began, and (c) differs from every other key dispatched in
/// the same pass; the reserved set after the pass is exactly the reserved
/// set before plus the dispatched keys.
pub proof fn lemma_pass_mutual_exclusion(
    t: Seq<ReqModel>,
    m: Map<Seq<char>, u64>,
    reserved: Set<Seq<char>>,
    now_ms: u64,
)
    ensures
        ({
            let out = pass_spec(t, m, reserved, now_ms);
            &&& (forall|d: int|
                0 <= d < out.dispatches.len() ==> spec_can_execute(
                    m,
                    #[trigger] out.dispatches[d].api_key,
                    now_ms,
                ) && !reserved.contains(out.dispatches[d].api_key))
            &&& (forall|d1: int, d2: int|
                0 <= d1 < d2 < out.dispatches.len() ==> out.dispatches[d1].api_key
                    != out.dispatches[d2].api_key)
            &&& out.reserved == reserved + dispatched_keys(out.dispatches)
        }),
    decreases t.len(),
{
    let out = pass_spec(t, m, reserved, now_ms);
    if t.len() == 0 {
        assert(out.reserved =~= reserved + dispatched_keys(out.dispatches));
    } else {
        let sel = first_dispatchable(t[0].keys, m, reserved, now_ms);
        lemma_first_dispatchable(t[0].keys, m, reserved, now_ms);
        if sel >= 0 {
            let k = t[0].keys[sel];
            let rest = pass_spec(t.drop_first(), m, reserved.insert(k), now_ms);
            lemma_pass_mutual_exclusion(t.drop_first(), m, reserved.insert(k), now_ms);
            assert(out.dispatches[0].api_key == k);
            assert forall|d: int| 0 <= d < out.dispatches.len() implies spec_can_execute(
                m,
                #[trigger] out.dispatches[d].api_key,
                now_ms,
            ) && !reserved.contains(out.dispatches[d].api_key) by {
                if d > 0 {
                    assert(out.dispatches[d] == rest.dispatches[d - 1]);
                }
            }
            assert forall|d1: int, d2: int|
                0 <= d1 < d2 < out.dispatches.len() implies out.dispatches[d1].api_key
                != out.dispatches[d2].api_key by {
                if d1 == 0 {
                    assert(out.dispatches[d2] == rest.dispatches[d2 - 1]);
                    assert(!reserved.insert(k).contains(rest.dispatches[d2 - 1].api_key));
                } else {
                    assert(out.dispatches[d1] == rest.dispatches[d1 - 1]);
                    assert(out.dispatches[d2] == rest.dispatches[d2 - 1]);
                }
            }
            assert(dispatched_keys(out.dispatches).insert(k) =~= dispatched_keys(
                out.dispatches,
            ));
            assert(out.dispatches.drop_first() =~= rest.dispatches);
            assert(out.reserved =~= reserved + dispatched_keys(out.dispatches));
        } else {
            lemma_pass_mutual_exclusion(t.drop_first(), m, reserved, now_ms);
            assert(out.reserved =~= reserved + dispatched_keys(out.dispatches));
        }
    }
}

/// Rate-limit law at the scheduler: a pass at instant `now_ms` dispatches a
/// key whose last use is recorded at `t_used` only when at least
/// `MIN_KEY_INTERVAL_MS` has passed since `t_used`.
pub proof fn lemma_pass_respects_rate_limit(
    t: Seq<ReqModel>,
    m: Map<Seq<char>, u64>,
    reserved: Set<Seq<char>>,
    now_ms: u64,
    d: int,
)
    requires
        0 <= d < pass_spec(t, m, reserved, now_ms).dispatches.len(),
        m.dom().contains(pass_spec(t, m, reserved, now_ms).dispatches[d].api_key),
    ensures
        m[pass_spec(t, m, reserved, now_ms).dispatches[d].api_key] + MIN_KEY_INTERVAL_MS
            <= now_ms,
{
    lemma_pass_mutual_exclusion(t, m, reserved, now_ms);
}

/// The keys reserved when entry `j` of the table is scanned: the reserved
/// set at the start of the pass, plus the key of every dispatch the pass
/// made among the first `j` entries.
pub open spec fn reserved_before(
    t: Seq<ReqModel>,
    m: Map<Seq<char>, u64>,
    reserved: Set<Seq<char>>,
    now_ms: u64,
    j: int,
) -> Set<Seq<char>>
    decreases j,
{
    if j <= 0 {
        reserved
    } else {
        let prev = reserved_before(t, m, reserved, now_ms, j - 1);
        let sel = first_dispatchable(t[j - 1].keys, m, prev, now_ms);
        if sel >= 0 {
            prev.insert(t[j - 1].keys[sel])
        } else {
            prev
        }
    }
}

/// How many of the first `j` table entries the pass dispatches.
pub open spec fn dispatched_before(
    t: Seq<ReqModel>,
    m: Map<Seq<char>, u64>,
    reserved: Set<Seq<char>>,
    now_ms: u64,
    j: int,
) -> int
    decreases j,
{
    if j <= 0 {
        0
    } else {
        let prev = reserved_before(t, m, reserved, now_ms, j - 1);
        let sel = first_dispatchable(t[j - 1].keys, m, prev, now_ms);
        dispatched_before(t, m, reserved, now_ms, j - 1) + (if sel >= 0 {
            1int
        } else {
            0int
        })
    }
}

/// Entry `j`'s fate in one pass: dispatched — as dispatch number
/// `dispatched_before(.., j)`, paired with the first of its keys that is
/// unreserved and eligible at its scan point — or, when it has no such
/// key, kept verbatim as remaining entry number `j - dispatched_before`.
pub open spec fn per_entry_decided(
    t: Seq<ReqModel>,
    m: Map<Seq<char>, u64>,
    reserved: Set<Seq<char>>,
    now_ms: u64,
    j: int,
) -> bool {
    let out = pass_spec(t, m, reserved, now_ms);
    let res_j = reserved_before(t, m, reserved, now_ms, j);
    let sel = first_dispatchable(t[j].keys, m, res_j, now_ms);
    let d = dispatched_before(t, m, reserved, now_ms, j);
    if sel >= 0 {
        &&& 0 <= d < out.dispatches.len()
        &&& out.dispatches[d] == DispatchModel { request: t[j], api_key: t[j].keys[sel] }
    } else {
        &&& 0 <= j - d < out.remaining.len()
        &&& out.remaining[j - d] == t[j]
    }
}

proof fn lemma_scan_state_shift(
    t: Seq<ReqModel>,
    m: Map<Seq<char>, u64>,
    reserved: Set<Seq<char>>,
    now_ms: u64,
    j: int,
)
    requires
        t.len() > 0,
        1 <= j <= t.len(),
    ensures
        reserved_before(t, m, reserved, now_ms, j) == reserved_before(
            t.drop_first(),
            m,
            reserved_before(t, m, reserved, now_ms, 1),
            now_ms,
            j - 1,
        ),
        dispatched_before(t, m, reserved, now_ms, j) == dispatched_before(
            t,
            m,
            reserved,
            now_ms,
            1,
        ) + dispatched_before(
            t.drop_first(),
            m,
            reserved_before(t, m, reserved, now_ms, 1),
            now_ms,
            j - 1,
        ),
    decreases j,
{
    let rest = t.drop_first();
    let res1 = reserved_before(t, m, reserved, now_ms, 1);
    if j == 1 {
    } else {
        lemma_scan_state_shift(t, m, reserved, now_ms, j - 1);
        assert(rest[j - 2] == t[j - 1]);
    }
}

/// Per-entry dispatch law: one pass decides every table entry exactly
/// once. Entry `j`, scanned against the keys reserved before it, is either
/// dispatched — once, with the first of its keys that is neither reserved
/// nor rate-limited there — or kept verbatim; dispatched and kept entries,
/// each in table order, make up the whole outcome, so one pass starts at
/// most one upstream call per entry.
pub proof fn lemma_pass_per_entry(
    t: Seq<ReqModel>,
    m: Map<Seq<char>, u64>,
    reserved: Set<Seq<char>>,
    now_ms: u64,
)
    ensures
        ({
            let out = pass_spec(t, m, reserved, now_ms);
            &&& out.dispatches.len() == dispatched_before(t, m, reserved, now_ms, t.len() as int)
            &&& out.dispatches.len() + out.remaining.len() == t.len()
            &&& forall|j: int| 0 <= j < t.len() ==> per_entry_decided(t, m, reserved, now_ms, j)
        }),
    decreases t.len(),
{
    let out = pass_spec(t, m, reserved, now_ms);
    if t.len() == 0 {
    } else {
        let rest = t.drop_first();
        let sel0 = first_dispatchable(t[0].keys, m, reserved, now_ms);
        lemma_first_dispatchable(t[0].keys, m, reserved, now_ms);
        let res1 = reserved_before(t, m, reserved, now_ms, 1);
        let rest_out = pass_spec(rest, m, res1, now_ms);
        assert(reserved_before(t, m, reserved, now_ms, 0) == reserved);
        assert(dispatched_before(t, m, reserved, now_ms, 0) == 0);
        assert(res1 == (if sel0 >= 0 {
            reserved.insert(t[0].keys[sel0])
        } else {
            reserved
        }));
        assert(dispatched_before(t, m, reserved, now_ms, 1) == (if sel0 >= 0 {
            1int
        } else {
            0int
        }));
        assert(out.dispatches == (if sel0 >= 0 {
            seq![
                DispatchModel { request: t[0], api_key: t[0].keys[sel0] },
            ] + rest_out.dispatches
        } else {
            rest_out.dispatches
        }));
        assert(out.remaining == (if sel0 >= 0 {
            rest_out.remaining
        } else {
            seq![t[0]] + rest_out.remaining
        }));
        lemma_pass_per_entry(rest, m, res1, now_ms);
        assert(dispatched_before(t, m, reserved, now_ms, t.len() as int) == dispatched_before(
            t,
            m,
            reserved,
            now_ms,
            1,
        ) + dispatched_before(rest, m, res1, now_ms, rest.len() as int)) by {
            lemma_scan_state_shift(t, m, reserved, now_ms, t.len() as int);
        }
        assert forall|j: int| 0 <= j < t.len() implies per_entry_decided(
            t,
            m,
            reserved,
            now_ms,
            j,
        ) by {
            if j == 0 {
                if sel0 >= 0 {
                    assert(out.dispatches[0] == DispatchModel {
                        request: t[0],
                        api_key: t[0].keys[sel0],
                    });
                } else {
                    assert(out.remaining[0] == t[0]);
                }
            } else {
                lemma_scan_state_shift(t, m, reserved, now_ms, j);
                assert(rest[j - 1] == t[j]);
                assert(per_entry_decided(rest, m, res1, now_ms, j - 1));
                let d_rest = dispatched_before(rest, m, res1, now_ms, j - 1);
                let res_j = reserved_before(rest, m, res1, now_ms, j - 1);
                assert(reserved_before(t, m, reserved, now_ms, j) == res_j);
                let sel_j = first_dispatchable(t[j].keys, m, res_j, now_ms);
                let d_t = dispatched_before(t, m, reserved, now_ms, j);
                if sel0 >= 0 {
                    assert(d_t == 1 + d_rest);
                    if sel_j >= 0 {
                        assert(out.dispatches[1 + d_rest] == rest_out.dispatches[d_rest]);
                    } else {
                        assert(out.remaining[j - (1 + d_rest)] == rest_out.remaining[(j - 1)
                            - d_rest]);
                    }
                } else {
                    assert(d_t == d_rest);
                    if sel_j >= 0 {
                        assert(out.dispatches[d_rest] == rest_out.dispatches[d_rest]);
                    } else {
                        assert(out.remaining[j - d_rest] == (seq![t[0]]
                            + rest_out.remaining)[(j - 1) - d_rest + 1]);
                        assert(out.remaining[j - d_rest] == rest_out.remaining[(j - 1)
                            - d_rest]);
                    }
                }
            }
        }
    }
}

/// Rate-limit law across executor completions: once a key's use is
/// recorded at `t_used` (as `executor_complete` records it), no pass
/// dispatches that key again before `t_used + MIN_KEY_INTERVAL_MS`.
pub proof fn lemma_no_redispatch_within_interval(
    t: Seq<ReqModel>,
    m: Map<Seq<char>, u64>,
    key: Seq<char>,
    t_used: u64,
    reserved: Set<Seq<char>>,
    now_ms: u64,
    d: int,
)
    requires
        0 <= d < pass_spec(t, m.insert(key, t_used), reserved, now_ms).dispatches.len(),
        pass_spec(t, m.insert(key, t_used), reserved, now_ms).dispatches[d].api_key == key,
    ensures
        t_used + MIN_KEY_INTERVAL_MS <= now_ms,
{
    lemma_pass_mutual_exclusion(t, m.insert(key, t_used), reserved, now_ms);
}

} // verus!
