//! The pending resource table: one entry per distinct (URL, method) resource,
//! each carrying the union of the API keys offered by every caller that asked
//! for it. New arrivals for an already-pending resource merge their keys into
//! the existing entry instead of creating a duplicate.

use vstd::prelude::*;

verus! {

/// One distinct upstream call waiting to be dispatched: the resource it
/// targets, the candidate API keys offered for it, and an optional override
/// for the cache time-to-live of a successful response.
#[derive(Debug, Clone)]
pub struct QueuedRequest {
    pub url: String,
    pub method: String,
    pub api_keys: Vec<String>,
    pub cache_time: Option<u64>,
}

/// The API keys one caller offered for its request, as the HTTP layer
/// extracted them from the inbound credentials.
pub struct ApiKeys(pub Vec<String>);

/// The mathematical content of a `QueuedRequest`.
#[verifier::ext_equal]
pub struct ReqModel {
    pub url: Seq<char>,
    pub method: Seq<char>,
    pub keys: Seq<Seq<char>>,
    pub cache_time: Option<u64>,
}

/// The views of a sequence of key strings.
pub open spec fn keys_model(v: Seq<String>) -> Seq<Seq<char>> {
    v.map_values(|s: String| s@)
}

impl View for QueuedRequest {
    type V = ReqModel;

    open spec fn view(&self) -> ReqModel {
        ReqModel {
            url: self.url@,
            method: self.method@,
            keys: keys_model(self.api_keys@),
            cache_time: self.cache_time,
        }
    }
}

/// The models of every entry of a table of queued requests.
pub open spec fn table_model(t: Seq<QueuedRequest>) -> Seq<ReqModel> {
    t.map_values(|r: QueuedRequest| r@)
}

/// Two entries target the same resource when URL and method agree.
pub open spec fn same_resource(a: ReqModel, b: ReqModel) -> bool {
    a.url == b.url && a.method == b.method
}

/// Index of the first entry for the given resource, or -1 when none exists.
pub open spec fn find_existing(t: Seq<ReqModel>, url: Seq<char>, method: Seq<char>) -> int
    decreases t.len(),
{
    if t.len() == 0 {
        -1
    } else if t[0].url == url && t[0].method == method {
        0
    } else {
        let r = find_existing(t.drop_first(), url, method);
        if r < 0 {
            -1
        } else {
            r + 1
        }
    }
}

/// Keys of `incoming` appended to `existing`, in order, skipping those
/// already present.
pub open spec fn merge_keys(existing: Seq<Seq<char>>, incoming: Seq<Seq<char>>) -> Seq<Seq<char>>
    decreases incoming.len(),
{
    if incoming.len() == 0 {
        existing
    } else {
        let with_first = if existing.contains(incoming[0]) {
            existing
        } else {
            existing.push(incoming[0])
        };
        merge_keys(with_first, incoming.drop_first())
    }
}

/// The entry that results from merging a new arrival for the same resource
/// into an existing entry: the key sets are united, every other field of the
/// existing entry (including its cache-time hint) is kept.
pub open spec fn merged_into(e: ReqModel, nr: ReqModel) -> ReqModel {
    ReqModel { keys: merge_keys(e.keys, nr.keys), ..e }
}

/// The entry as appended for a resource not yet pending: the request's
/// fields, with its candidate keys deduplicated — first occurrences kept
/// in order — since candidate keys form a set.
pub open spec fn dedup_entry(nr: ReqModel) -> ReqModel {
    ReqModel { keys: merge_keys(Seq::<Seq<char>>::empty(), nr.keys), ..nr }
}

/// What submitting one request does to the table: merge into the first entry
/// for the same resource if one exists, else append a new entry whose keys
/// are deduplicated.
pub open spec fn spec_submit(t: Seq<ReqModel>, nr: ReqModel) -> Seq<ReqModel> {
    let i = find_existing(t, nr.url, nr.method);
    if i < 0 {
        t.push(dedup_entry(nr))
    } else {
        t.update(i, merged_into(t[i], nr))
    }
}

/// No two table entries target the same resource.
pub open spec fn resources_unique(t: Seq<ReqModel>) -> bool {
    forall|i: int, j: int|
        0 <= i < j < t.len() ==> !(t[i].url == t[j].url && t[i].method == t[j].method)
}

/// The set of keys a key sequence holds.
pub open spec fn key_set(keys: Seq<Seq<char>>) -> Set<Seq<char>> {
    keys.to_set()
}

/// `find_existing` returns the position of the first entry for the resource,
/// and -1 exactly when there is none.
pub proof fn lemma_find_existing(t: Seq<ReqModel>, url: Seq<char>, method: Seq<char>)
    ensures
        ({
            let r = find_existing(t, url, method);
            &&& (r == -1 <==> forall|j: int|
                0 <= j < t.len() ==> !(t[j].url == url && t[j].method == method))
            &&& (r != -1 ==> 0 <= r < t.len() && t[r].url == url && t[r].method == method
                && (forall|j: int| 0 <= j < r ==> !(t[j].url == url && t[j].method == method)))
        }),
    decreases t.len(),
{
    if t.len() == 0 {
    } else if t[0].url == url && t[0].method == method {
    } else {
        let rest = t.drop_first();
        lemma_find_existing(rest, url, method);
        let r0 = find_existing(rest, url, method);
        if r0 == -1 {
            assert forall|j: int| 0 <= j < t.len() implies !(t[j].url == url && t[j].method
                == method) by {
                if j > 0 {
                    assert(rest[j - 1] == t[j]);
                }
            }
        } else {
            assert(t[r0 + 1] == rest[r0]);
            assert forall|j: int| 0 <= j < r0 + 1 implies !(t[j].url == url && t[j].method
                == method) by {
                if j > 0 {
                    assert(rest[j - 1] == t[j]);
                }
            }
        }
    }
}

pub(crate) proof fn lemma_contains_push(s: Seq<Seq<char>>, x: Seq<char>, y: Seq<char>)
    ensures
        s.push(x).contains(y) <==> s.contains(y) || y == x,
{
    if s.contains(y) {
        let i = choose|i: int| 0 <= i < s.len() && s[i] == y;
        assert(s.push(x)[i] == y);
    }
    if y == x {
        assert(s.push(x)[s.len() as int] == y);
    }
    if s.push(x).contains(y) {
        let i = choose|i: int| 0 <= i < s.push(x).len() && s.push(x)[i] == y;
        if i < s.len() {
            assert(s[i] == y);
        }
    }
}

/// Merging unites the key sets: the merged sequence holds exactly the keys
/// of `existing` together with those of `incoming`.
pub proof fn lemma_merge_keys_union(existing: Seq<Seq<char>>, incoming: Seq<Seq<char>>)
    ensures
        key_set(merge_keys(existing, incoming)) == key_set(existing) + key_set(incoming),
    decreases incoming.len(),
{
    if incoming.len() == 0 {
        assert(key_set(merge_keys(existing, incoming)) =~= key_set(existing) + key_set(
            incoming,
        ));
    } else {
        let x = incoming[0];
        let with_first = if existing.contains(x) {
            existing
        } else {
            existing.push(x)
        };
        lemma_merge_keys_union(with_first, incoming.drop_first());
        assert forall|y: Seq<char>| #[trigger] key_set(with_first).contains(y)
            <==> key_set(existing).contains(y) || y == x by {
            lemma_contains_push(existing, x, y);
        }
        assert forall|y: Seq<char>| #[trigger] key_set(incoming).contains(y)
            <==> y == x || key_set(incoming.drop_first()).contains(y) by {
            lemma_contains_push_front(incoming, y);
        }
        assert(key_set(merge_keys(existing, incoming)) =~= key_set(existing) + key_set(
            incoming,
        ));
    }
}

proof fn lemma_contains_push_front(s: Seq<Seq<char>>, y: Seq<char>)
    requires
        s.len() > 0,
    ensures
        s.contains(y) <==> y == s[0] || s.drop_first().contains(y),
{
    if s.contains(y) {
        let i = choose|i: int| 0 <= i < s.len() && s[i] == y;
        if i > 0 {
            assert(s.drop_first()[i - 1] == y);
        }
    }
    if y == s[0] {
        assert(s[0] == y);
    }
    if s.drop_first().contains(y) {
        let i = choose|i: int| 0 <= i < s.drop_first().len() && s.drop_first()[i] == y;
        assert(s[i + 1] == y);
    }
}

/// Appending one key to the incoming side extends the merge on the right,
/// unless the key is already present in the merged result.
pub proof fn lemma_merge_keys_snoc(existing: Seq<Seq<char>>, incoming: Seq<Seq<char>>, k: Seq<char>)
    ensures
        merge_keys(existing, incoming.push(k)) == (if merge_keys(existing, incoming).contains(k) {
            merge_keys(existing, incoming)
        } else {
            merge_keys(existing, incoming).push(k)
        }),
    decreases incoming.len(),
{
    if incoming.len() == 0 {
        assert(incoming.push(k)[0] == k);
        let with_k = if existing.contains(k) {
            existing
        } else {
            existing.push(k)
        };
        assert(incoming.push(k).drop_first() =~= Seq::<Seq<char>>::empty());
        assert(merge_keys(with_k, Seq::<Seq<char>>::empty()) == with_k);
        assert(merge_keys(existing, incoming.push(k)) == with_k);
        assert(merge_keys(existing, incoming) == existing);
    } else {
        let x = incoming[0];
        assert(incoming.push(k)[0] == x);
        let with_first = if existing.contains(x) {
            existing
        } else {
            existing.push(x)
        };
        assert(incoming.push(k).drop_first() =~= incoming.drop_first().push(k));
        assert(merge_keys(existing, incoming.push(k)) == merge_keys(
            with_first,
            incoming.drop_first().push(k),
        ));
        assert(merge_keys(existing, incoming) == merge_keys(with_first, incoming.drop_first()));
        lemma_merge_keys_snoc(with_first, incoming.drop_first(), k);
    }
}

/// The table after a whole batch of submissions, first to last.
pub open spec fn submit_all(t: Seq<ReqModel>, subs: Seq<ReqModel>) -> Seq<ReqModel>
    decreases subs.len(),
{
    if subs.len() == 0 {
        t
    } else {
        submit_all(spec_submit(t, subs[0]), subs.drop_first())
    }
}

/// The union of the key sets of a batch of submissions.
pub open spec fn all_keys(subs: Seq<ReqModel>) -> Set<Seq<char>>
    decreases subs.len(),
{
    if subs.len() == 0 {
        Set::<Seq<char>>::empty()
    } else {
        key_set(subs[0].keys) + all_keys(subs.drop_first())
    }
}

/// Submitting never creates a second entry for a resource that already has
/// one: uniqueness of resources is preserved.
pub proof fn lemma_submit_preserves_unique(t: Seq<ReqModel>, nr: ReqModel)
    requires
        resources_unique(t),
    ensures
        resources_unique(spec_submit(t, nr)),
{
    lemma_find_existing(t, nr.url, nr.method);
    let f = find_existing(t, nr.url, nr.method);
    let t2 = spec_submit(t, nr);
    if f < 0 {
        assert forall|p: int, q: int| 0 <= p < q < t2.len() implies !(t2[p].url == t2[q].url
            && t2[p].method == t2[q].method) by {
            if q == t.len() {
                assert(t2[q] == dedup_entry(nr));
                assert(t2[q].url == nr.url && t2[q].method == nr.method);
                assert(t2[p] == t[p]);
            }
        }
    } else {
        assert forall|p: int, q: int| 0 <= p < q < t2.len() implies !(t2[p].url == t2[q].url
            && t2[p].method == t2[q].method) by {
            assert(t2[f].url == t[f].url && t2[f].method == t[f].method);
        }
    }
}

/// A batch of submissions that all target the resource of entry `i` only
/// grows that entry's key set, by exactly the union of the batch's keys;
/// every other entry, and every other field of entry `i`, stays unchanged.
pub proof fn lemma_submit_all_merges(t: Seq<ReqModel>, subs: Seq<ReqModel>, i: int)
    requires
        resources_unique(t),
        0 <= i < t.len(),
        forall|p: int|
            0 <= p < subs.len() ==> subs[p].url == t[i].url && subs[p].method == t[i].method,
    ensures
        ({
            let t2 = submit_all(t, subs);
            &&& t2.len() == t.len()
            &&& (forall|j: int| 0 <= j < t.len() && j != i ==> t2[j] == t[j])
            &&& t2[i].url == t[i].url
            &&& t2[i].method == t[i].method
            &&& t2[i].cache_time == t[i].cache_time
            &&& key_set(t2[i].keys) == key_set(t[i].keys) + all_keys(subs)
            &&& resources_unique(t2)
        }),
    decreases subs.len(),
{
    if subs.len() == 0 {
        assert(key_set(t[i].keys) + all_keys(subs) =~= key_set(t[i].keys));
    } else {
        let nr = subs[0];
        lemma_find_existing(t, nr.url, nr.method);
        let f = find_existing(t, nr.url, nr.method);
        assert(t[i].url == nr.url && t[i].method == nr.method);
        assert(f != -1);
        if f != i {
            assert(t[f].url == t[i].url && t[f].method == t[i].method);
            assert(false);
        }
        let t1 = t.update(i, merged_into(t[i], nr));
        assert(spec_submit(t, nr) == t1);
        lemma_submit_preserves_unique(t, nr);
        lemma_merge_keys_union(t[i].keys, nr.keys);
        assert forall|p: int| 0 <= p < subs.drop_first().len() implies subs.drop_first()[p].url
            == t1[i].url && subs.drop_first()[p].method == t1[i].method by {
            assert(subs.drop_first()[p] == subs[p + 1]);
        }
        lemma_submit_all_merges(t1, subs.drop_first(), i);
        let t2 = submit_all(t, subs);
        assert(key_set(t2[i].keys) =~= key_set(t[i].keys) + all_keys(subs));
    }
}

/// Dedup law: when a batch of submissions for one and the same resource
/// arrives at a table that has no entry for it yet, the resulting table has
/// exactly one entry for that resource; its candidate keys are exactly the
/// union of all the batch's key sets, and every other entry is untouched.
pub proof fn lemma_dedup_invariant(
    t: Seq<ReqModel>,
    subs: Seq<ReqModel>,
    url: Seq<char>,
    method: Seq<char>,
)
    requires
        resources_unique(t),
        forall|j: int| 0 <= j < t.len() ==> !(t[j].url == url && t[j].method == method),
        subs.len() > 0,
        forall|p: int| 0 <= p < subs.len() ==> subs[p].url == url && subs[p].method == method,
    ensures
        ({
            let t2 = submit_all(t, subs);
            &&& t2.len() == t.len() + 1
            &&& (forall|j: int| 0 <= j < t.len() ==> t2[j] == t[j])
            &&& t2[t.len() as int].url == url
            &&& t2[t.len() as int].method == method
            &&& key_set(t2[t.len() as int].keys) == all_keys(subs)
            &&& resources_unique(t2)
        }),
{
    let nr = subs[0];
    lemma_find_existing(t, nr.url, nr.method);
    assert(find_existing(t, nr.url, nr.method) == -1);
    let t1 = t.push(dedup_entry(nr));
    assert(spec_submit(t, nr) == t1);
    lemma_submit_preserves_unique(t, nr);
    lemma_merge_keys_union(Seq::<Seq<char>>::empty(), nr.keys);
    assert(key_set(t1[t.len() as int].keys) =~= key_set(nr.keys));
    assert forall|p: int| 0 <= p < subs.drop_first().len() implies subs.drop_first()[p].url
        == t1[t.len() as int].url && subs.drop_first()[p].method
        == t1[t.len() as int].method by {
        assert(subs.drop_first()[p] == subs[p + 1]);
    }
    lemma_submit_all_merges(t1, subs.drop_first(), t.len() as int);
    let t2 = submit_all(t, subs);
    assert(key_set(t2[t.len() as int].keys) =~= all_keys(subs));
}

/// True exactly when `v` holds a string equal to `s`.
pub fn vec_contains_string(v: &Vec<String>, s: &String) -> (r: bool)
    ensures
        r == keys_model(v@).contains(s@),
{
    let mut i: usize = 0;
    while i < v.len()
        invariant
            i <= v@.len(),
            forall|j: int| 0 <= j < i ==> keys_model(v@)[j] != s@,
        decreases v@.len() - i,
    {
        if v[i] == *s {
            proof {
                assert(keys_model(v@)[i as int] == s@);
            }
            return true;
        }
        i += 1;
    }
    proof {
        if keys_model(v@).contains(s@) {
            let j = choose|j: int| 0 <= j < keys_model(v@).len() && keys_model(v@)[j] == s@;
            assert(false);
        }
    }
    false
}

/// Position of the first table entry for the given resource, if any.
fn find_resource_index(list: &Vec<QueuedRequest>, url: &String, method: &String) -> (r: Option<
    usize,
>)
    ensures
        ({
            let f = find_existing(table_model(list@), url@, method@);
            match r {
                Option::Some(i) => f == i as int && i < list@.len(),
                Option::None => f == -1,
            }
        }),
{
    let ghost tm = table_model(list@);
    let mut i: usize = 0;
    while i < list.len()
        invariant
            tm == table_model(list@),
            i <= list@.len(),
            forall|j: int| 0 <= j < i ==> !(tm[j].url == url@ && tm[j].method == method@),
        decreases list@.len() - i,
    {
        let e = &list[i];
        if e.url == *url && e.method == *method {
            proof {
                lemma_find_existing(tm, url@, method@);
                let f = find_existing(tm, url@, method@);
                assert(tm[i as int].url == url@ && tm[i as int].method == method@);
            }
            return Option::Some(i);
        }
        i += 1;
    }
    proof {
        lemma_find_existing(tm, url@, method@);
    }
    Option::None
}

impl QueuedRequest {
    /// Submit one request to the pending table. If an entry for the same
    /// resource is already pending, its candidate keys become the union of
    /// the old and the new keys (the existing entry's other fields, its
    /// cache-time hint included, stay as they were); otherwise the request
    /// is appended as a new entry, its candidate keys deduplicated with
    /// first occurrences kept in order, since candidate keys form a set.
    pub fn insert_request_to_queue(list: &mut Vec<QueuedRequest>, new_request: QueuedRequest)
        ensures
            table_model(final(list)@) == spec_submit(table_model(old(list)@), new_request@),
    {
        let ghost t0 = table_model(old(list)@);
        let ghost nrm = new_request@;
        let found = find_resource_index(list, &new_request.url, &new_request.method);
        match found {
            Option::Some(i) => {
                let mut existing = list.remove(i);
                let ghost e0 = existing@;
                proof {
                    assert(e0 == t0[i as int]);
                }
                let mut j: usize = 0;
                while j < new_request.api_keys.len()
                    invariant
                        j <= new_request.api_keys@.len(),
                        nrm == new_request@,
                        existing.url@ == e0.url,
                        existing.method@ == e0.method,
                        existing.cache_time == e0.cache_time,
                        keys_model(existing.api_keys@) == merge_keys(
                            e0.keys,
                            nrm.keys.take(j as int),
                        ),
                    decreases new_request.api_keys@.len() - j,
                {
                    let k = &new_request.api_keys[j];
                    proof {
                        assert(nrm.keys[j as int] == k@);
                        assert(nrm.keys.take(j as int + 1) =~= nrm.keys.take(j as int).push(k@));
                        lemma_merge_keys_snoc(e0.keys, nrm.keys.take(j as int), k@);
                    }
                    if !vec_contains_string(&existing.api_keys, k) {
                        let ghost before = existing.api_keys@;
                        existing.api_keys.push(k.clone());
                        proof {
                            assert(keys_model(existing.api_keys@) =~= keys_model(before).push(k@));
                        }
                    }
                    j += 1;
                }
                proof {
                    assert(nrm.keys.take(new_request.api_keys@.len() as int) =~= nrm.keys);
                    assert(existing@ =~~= merged_into(e0, nrm));
                }
                list.insert(i, existing);
                proof {
                    old(list)@.remove_ensures(i as int);
                    old(list)@.remove(i as int).insert_ensures(i as int, existing);
                    let goal = spec_submit(t0, nrm);
                    assert(goal =~= t0.update(i as int, merged_into(t0[i as int], nrm)));
                    assert forall|p: int| 0 <= p < list@.len() implies table_model(list@)[p]
                        =~~= goal[p] by {
                        if p < i {
                            assert(list@[p] == old(list)@[p]);
                        } else if p == i {
                            assert(list@[p] == existing);
                        } else {
                            assert(list@[p] == old(list)@[p]);
                        }
                    }
                    assert(table_model(list@) =~~= goal);
                }
            },
            Option::None => {
                let QueuedRequest { url, method, api_keys, cache_time } = new_request;
                let mut unique_keys: Vec<String> = Vec::new();
                let mut j: usize = 0;
                while j < api_keys.len()
                    invariant
                        j <= api_keys@.len(),
                        keys_model(api_keys@) == nrm.keys,
                        keys_model(unique_keys@) == merge_keys(
                            Seq::<Seq<char>>::empty(),
                            nrm.keys.take(j as int),
                        ),
                    decreases api_keys@.len() - j,
                {
                    let k = &api_keys[j];
                    proof {
                        assert(nrm.keys[j as int] == k@);
                        assert(nrm.keys.take(j as int + 1) =~= nrm.keys.take(j as int).push(k@));
                        lemma_merge_keys_snoc(
                            Seq::<Seq<char>>::empty(),
                            nrm.keys.take(j as int),
                            k@,
                        );
                    }
                    if !vec_contains_string(&unique_keys, k) {
                        let ghost before = unique_keys@;
                        unique_keys.push(k.clone());
                        proof {
                            assert(keys_model(unique_keys@) =~= keys_model(before).push(k@));
                        }
                    }
                    j += 1;
                }
                proof {
                    assert(nrm.keys.take(api_keys@.len() as int) =~= nrm.keys);
                }
                let appended = QueuedRequest { url, method, api_keys: unique_keys, cache_time };
                proof {
                    assert(appended@ =~~= dedup_entry(nrm));
                }
                list.push(appended);
                proof {
                    assert(table_model(list@) =~~= spec_submit(t0, nrm));
                }
            },
        }
    }
}

} // verus!
