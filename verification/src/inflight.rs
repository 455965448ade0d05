//! The in-flight key set: API keys currently reserved by a running executor.
//! A key enters the set at dispatch time and leaves it the moment the
//! upstream call returns, so that no two executors ever hold the same key.

use vstd::prelude::*;

use crate::request::keys_model;
use crate::request::lemma_contains_push;
use crate::request::vec_contains_string;

verus! {

/// The set of API keys currently reserved for an in-flight upstream call.
pub struct InFlightKeys {
    keys: Vec<String>,
}

impl View for InFlightKeys {
    type V = Set<Seq<char>>;

    closed spec fn view(&self) -> Set<Seq<char>> {
        keys_model(self.keys@).to_set()
    }
}

impl InFlightKeys {
    /// Internal well-formedness: no key is recorded twice.
    pub closed spec fn wf(&self) -> bool {
        forall|p: int, q: int|
            0 <= p < q < self.keys@.len() ==> keys_model(self.keys@)[p] != keys_model(
                self.keys@,
            )[q]
    }

    /// An empty set: no key is reserved.
    pub fn new() -> (r: InFlightKeys)
        ensures
            r@ == Set::<Seq<char>>::empty(),
            r.wf(),
    {
        let r = InFlightKeys { keys: Vec::new() };
        proof {
            assert(r@ =~= Set::<Seq<char>>::empty());
        }
        r
    }

    /// Whether `api_key` is currently reserved.
    pub fn contains_key(&self, api_key: &String) -> (r: bool)
        ensures
            r == self@.contains(api_key@),
    {
        vec_contains_string(&self.keys, api_key)
    }

    /// Reserve `api_key` for a dispatched executor.
    pub fn insert(&mut self, api_key: &String)
        requires
            old(self).wf(),
            !old(self)@.contains(api_key@),
        ensures
            final(self).wf(),
            final(self)@ == old(self)@.insert(api_key@),
    {
        let ghost s0 = self.keys@;
        self.keys.push(api_key.clone());
        proof {
            assert(keys_model(self.keys@) =~= keys_model(s0).push(api_key@));
            assert forall|p: int, q: int| 0 <= p < q < self.keys@.len() implies keys_model(
                self.keys@,
            )[p] != keys_model(self.keys@)[q] by {
                if q == s0.len() {
                    assert(keys_model(s0).contains(keys_model(s0)[p]));
                }
            }
            assert forall|y: Seq<char>| #[trigger] keys_model(self.keys@).contains(y)
                <==> (keys_model(s0).contains(y) || y == api_key@) by {
                lemma_contains_push(keys_model(s0), api_key@, y);
            }
            assert(self@ =~= old(self)@.insert(api_key@));
        }
    }

    /// Release `api_key` once its upstream call has returned.
    pub fn remove_key(&mut self, api_key: &String)
        requires
            old(self).wf(),
        ensures
            final(self).wf(),
            final(self)@ == old(self)@.remove(api_key@),
    {
        let ghost s0 = self.keys@;
        let mut i: usize = 0;
        while i < self.keys.len()
            invariant
                i <= self.keys@.len(),
                self.keys@ == s0,
                old(self).keys@ == s0,
                forall|p: int, q: int|
                    0 <= p < q < s0.len() ==> keys_model(s0)[p] != keys_model(s0)[q],
                forall|j: int| 0 <= j < i ==> keys_model(s0)[j] != api_key@,
            decreases self.keys@.len() - i,
        {
            if api_key.eq(&self.keys[i]) {
                self.keys.remove(i);
                proof {
                    s0.remove_ensures(i as int);
                    assert(keys_model(self.keys@) =~= keys_model(s0).remove(i as int));
                    let m0 = keys_model(s0);
                    let m1 = keys_model(self.keys@);
                    assert forall|j: int| 0 <= j < m1.len() implies m1[j] == (if j < i {
                        m0[j]
                    } else {
                        m0[j + 1]
                    }) by {
                        m0.remove_ensures(i as int);
                    }
                    assert forall|p: int, q: int| 0 <= p < q < m1.len() implies m1[p]
                        != m1[q] by {}
                    assert(m0[i as int] == api_key@);
                    assert forall|y: Seq<char>| #[trigger] m1.contains(y) <==> (m0.contains(y)
                        && y != api_key@) by {
                        if m1.contains(y) {
                            let j = choose|j: int| 0 <= j < m1.len() && m1[j] == y;
                            if j < i {
                                assert(m0[j] == y);
                                assert(m0[j] != m0[i as int]);
                            } else {
                                assert(m0[j + 1] == y);
                                assert(m0[i as int] != m0[j + 1]);
                            }
                        }
                        if m0.contains(y) && y != api_key@ {
                            let j = choose|j: int| 0 <= j < m0.len() && m0[j] == y;
                            if j < i {
                                assert(m1[j] == y);
                            } else {
                                assert(j != i);
                                assert(m1[j - 1] == y);
                            }
                        }
                    }
                    assert(self@ =~= old(self)@.remove(api_key@));
                }
                return ;
            }
            i += 1;
        }
        proof {
            if keys_model(s0).contains(api_key@) {
                let j = choose|j: int| 0 <= j < keys_model(s0).len() && keys_model(s0)[j]
                    == api_key@;
                assert(false);
            }
            assert(self@ =~= old(self)@.remove(api_key@));
        }
    }
}

} // verus!
