use vstd::prelude::*;
use crate::json::{Json, JsonV, copy_json};
use crate::table::Table;
use crate::types::{OperationType, RequestPolicy};

verus! {

/// The document cache exchange: whole results by operation key, dropped when a mutation
/// touches one of the types they involve.
pub struct CacheExchange;

/// Operations other than queries and mutations pass the cache by.
pub fn should_skip(operation_type: OperationType) -> (b: bool)
    ensures
        b == (operation_type != OperationType::Query && operation_type != OperationType::Mutation),
{
    operation_type != OperationType::Query && operation_type != OperationType::Mutation
}

/// What the document cache does with an operation before it goes on down the chain.
#[derive(Debug, PartialEq)]
pub enum CacheDecision {
    /// Answer from the cache with this data; `None` is the answer to a cache-only query
    /// whose result is not cached.
    Answer(Option<Json>),
    /// Answer from the cache with this data now, then fetch the operation again and record
    /// and hand on the new result too (a cache-and-network query that was cached).
    AnswerThenFetch(Json),
    /// Pass the operation on and leave its result alone.
    PassOn,
    /// Pass the operation on and record its result when it comes back.
    FetchAndRecord,
}

/// The cached results, and for each typename the operations whose results involve it.
pub struct DocumentCache {
    pub result_cache: Table<u64, Json>,
    pub operation_cache: Table<String, Vec<u64>>,
}

impl DocumentCache {
    pub open spec fn wf(&self) -> bool {
        &&& self.result_cache.wf()
        &&& self.operation_cache.wf()
    }

    /// The cached results.
    pub open spec fn results(&self) -> Map<u64, JsonV> {
        self.result_cache@.map_values(|j: Json| j.deep())
    }

    /// The operations whose results involve the typename `t`.
    pub open spec fn operations(&self, t: Seq<char>) -> Set<u64> {
        if self.operation_cache@.contains_key(t) {
            self.operation_cache@[t]@.to_set()
        } else {
            Set::empty()
        }
    }

    pub fn new() -> (c: DocumentCache)
        ensures
            c.wf(),
            c.results() == Map::<u64, JsonV>::empty(),
            forall|t: Seq<char>| c.operations(t) == Set::<u64>::empty(),
    {
        let c = DocumentCache { result_cache: Table::new(), operation_cache: Table::new() };
        assert(c.results() =~= Map::<u64, JsonV>::empty());
        c
    }

    /// A query's result is taken from the cache unless its policy asks for the network
    /// only; a cache-only query takes it even when there is none.
    pub fn is_operation_cached(&self, key: u64, operation_type: OperationType, request_policy: RequestPolicy) -> (b: bool)
        requires
            self.wf(),
        ensures
            b == (operation_type == OperationType::Query && request_policy != RequestPolicy::NetworkOnly
                && (request_policy == RequestPolicy::CacheOnly || self.results().contains_key(key))),
    {
        operation_type == OperationType::Query && request_policy != RequestPolicy::NetworkOnly
            && (request_policy == RequestPolicy::CacheOnly || self.result_cache.contains_key(&key))
    }

    /// What to do with an operation: subscriptions pass by; a query whose policy allows the
    /// cache is answered with its cached result (a cache-and-network query is then fetched
    /// again as well), and a cache-only query with no data when there is none; everything
    /// else goes to the network and its result is recorded.
    pub fn decide(&self, key: u64, operation_type: OperationType, request_policy: RequestPolicy) -> (d: CacheDecision)
        requires
            self.wf(),
        ensures
            operation_type != OperationType::Query && operation_type != OperationType::Mutation ==> d == CacheDecision::PassOn,
            operation_type == OperationType::Mutation ==> d == CacheDecision::FetchAndRecord,
            operation_type == OperationType::Query ==> {
                if request_policy == RequestPolicy::CacheAndNetwork && self.results().contains_key(key) {
                    d matches CacheDecision::AnswerThenFetch(j) && j.deep() == self.results()[key]
                } else if request_policy != RequestPolicy::NetworkOnly && self.results().contains_key(key) {
                    d matches CacheDecision::Answer(Some(j)) && j.deep() == self.results()[key]
                } else if request_policy == RequestPolicy::CacheOnly {
                    d == CacheDecision::Answer(None)
                } else {
                    d == CacheDecision::FetchAndRecord
                }
            },
    {
        if should_skip(operation_type) {
            return CacheDecision::PassOn;
        }
        if self.is_operation_cached(key, operation_type, request_policy) {
            match self.cached(key) {
                Some(j) => if request_policy == RequestPolicy::CacheAndNetwork {
                    CacheDecision::AnswerThenFetch(j)
                } else {
                    CacheDecision::Answer(Some(j))
                },
                None => CacheDecision::Answer(None),
            }
        } else {
            CacheDecision::FetchAndRecord
        }
    }

    /// A copy of the cached result of an operation.
    pub fn cached(&self, key: u64) -> (r: Option<Json>)
        requires
            self.wf(),
        ensures
            match r {
                Some(j) => self.results().contains_key(key) && j.deep() == self.results()[key],
                None => !self.results().contains_key(key),
            },
    {
        match self.result_cache.get(&key) {
            Some(j) => Some(copy_json(j)),
            None => None,
        }
    }

    /// Record the result of a query: the data under its key, and the key under each of its
    /// involved types. A result without data changes nothing.
    pub fn after_query(&mut self, key: u64, involved_types: &Vec<String>, data: &Option<Json>)
        requires
            old(self).wf(),
        ensures
            final(self).wf(),
            match data {
                Some(d) => {
                    &&& final(self).results() == old(self).results().insert(key, d.deep())
                    &&& forall|t: Seq<char>| #[trigger] final(self).operations(t) == if crate::data::keys_v(involved_types@).contains(t) {
                        old(self).operations(t).insert(key)
                    } else {
                        old(self).operations(t)
                    }
                },
                None => *final(self) == *old(self),
            },
    {
        let d = match data {
            Some(d) => d,
            None => {
                return;
            },
        };
        self.result_cache.insert(key, copy_json(d));
        assert(self.results() =~= old(self).results().insert(key, d.deep()));
        let ghost tv = crate::data::keys_v(involved_types@);
        let mut i: usize = 0;
        while i < involved_types.len()
            invariant
                i <= involved_types@.len(),
                tv == crate::data::keys_v(involved_types@),
                self.wf(),
                self.results() == old(self).results().insert(key, d.deep()),
                forall|t: Seq<char>| #[trigger] self.operations(t) == if tv.take(i as int).contains(t) {
                    old(self).operations(t).insert(key)
                } else {
                    old(self).operations(t)
                },
            decreases involved_types@.len() - i,
        {
            let t = &involved_types[i];
            let ghost before = *self;
            let ops = match self.operation_cache.remove(t) {
                Some(v) => {
                    let mut v = v;
                    if !vec_has(&v, key) {
                        v.push(key);
                    }
                    v
                },
                None => {
                    let mut v: Vec<u64> = Vec::new();
                    v.push(key);
                    v
                },
            };
            proof {
                if before.operation_cache@.contains_key(t@) {
                    let v0 = before.operation_cache@[t@]@;
                    if v0.contains(key) {
                        assert(ops@.to_set() =~= v0.to_set().insert(key));
                    } else {
                        crate::data::lemma_push_to_set(v0, key);
                    }
                } else {
                    crate::data::lemma_push_to_set(Seq::<u64>::empty(), key);
                    assert(Seq::<u64>::empty().push(key) =~= ops@);
                }
                assert(ops@.to_set() == before.operations(t@).insert(key));
            }
            self.operation_cache.insert(t.clone(), ops);
            proof {
                let t0 = tv.take(i as int);
                let t1 = tv.take(i + 1);
                assert(t1 =~= t0.push(t@));
                assert forall|x: Seq<char>| #[trigger] self.operations(x) == if t1.contains(x) {
                    old(self).operations(x).insert(key)
                } else {
                    old(self).operations(x)
                } by {
                    assert(before.operations(x) == if t0.contains(x) {
                        old(self).operations(x).insert(key)
                    } else {
                        old(self).operations(x)
                    });
                    if x != t@ {
                        assert(self.operation_cache@.contains_key(x) == before.operation_cache@.contains_key(x));
                        assert(self.operations(x) == before.operations(x));
                        if t1.contains(x) {
                            let k = choose|k: int| 0 <= k < t1.len() && #[trigger] t1[k] == x;
                            assert(t0[k] == x);
                        }
                        if t0.contains(x) {
                            let k = choose|k: int| 0 <= k < t0.len() && #[trigger] t0[k] == x;
                            assert(t1[k] == x);
                        }
                    } else {
                        assert(t1[i as int] == x);
                        assert(self.operations(x) == before.operations(x).insert(key));
                        assert(old(self).operations(x).insert(key).insert(key) =~= old(self).operations(x).insert(key));
                    }
                }
            }
            i = i + 1;
        }
        assert(tv.take(tv.len() as int) =~= tv);
    }

    /// Take in a mutation's result: the cached results of every operation that involves one
    /// of its types, and of the mutation itself, are dropped, and those operations are
    /// returned, in ascending order, to be run again. A result without data changes nothing.
    pub fn after_mutation(&mut self, key: u64, involved_types: &Vec<String>, has_data: bool) -> (r: Vec<u64>)
        requires
            old(self).wf(),
        ensures
            final(self).wf(),
            !has_data ==> r@.len() == 0 && *final(self) == *old(self),
            has_data ==> {
                &&& crate::store_spec::ascending(r@)
                &&& forall|q: u64| r@.contains(q) <==> (q == key || exists|k: int| 0 <= k < involved_types@.len()
                    && #[trigger] old(self).operations(involved_types@[k]@).contains(q))
                &&& final(self).results() == old(self).results().remove_keys(r@.to_set())
                &&& forall|t: Seq<char>| #[trigger] final(self).operations(t) == old(self).operations(t)
            },
    {
        let mut r: Vec<u64> = Vec::new();
        if !has_data {
            return r;
        }
        let mut i: usize = 0;
        while i < involved_types.len()
            invariant
                i <= involved_types@.len(),
                self.wf(),
                *self == *old(self),
                crate::store_spec::ascending(r@),
                forall|q: u64| r@.contains(q) <==> exists|k: int| 0 <= k < i
                    && #[trigger] old(self).operations(involved_types@[k]@).contains(q),
            decreases involved_types@.len() - i,
        {
            match self.operation_cache.get(&involved_types[i]) {
                Some(ops) => {
                    let ghost before = r@;
                    let mut j: usize = 0;
                    while j < ops.len()
                        invariant
                            j <= ops@.len(),
                            crate::store_spec::ascending(r@),
                            forall|q: u64| r@.contains(q) <==> before.contains(q) || ops@.take(j as int).contains(q),
                        decreases ops@.len() - j,
                    {
                        let ghost r0 = r@;
                        r = crate::store::insert_ascending(r, ops[j]);
                        proof {
                            let t0 = ops@.take(j as int);
                            let t1 = ops@.take(j + 1);
                            assert(t1 =~= t0.push(ops@[j as int]));
                            assert forall|x: u64| r@.contains(x) <==> before.contains(x) || t1.contains(x) by {
                                assert(r0.contains(x) <==> before.contains(x) || t0.contains(x));
                                if t1.contains(x) && x != ops@[j as int] {
                                    let k = choose|k: int| 0 <= k < t1.len() && #[trigger] t1[k] == x;
                                    assert(t0[k] == x);
                                }
                                if t0.contains(x) {
                                    let k = choose|k: int| 0 <= k < t0.len() && #[trigger] t0[k] == x;
                                    assert(t1[k] == x);
                                }
                                if x == ops@[j as int] {
                                    assert(t1[j as int] == x);
                                }
                            }
                        }
                        j = j + 1;
                    }
                    proof {
                        assert(ops@.take(ops@.len() as int) =~= ops@);
                        assert forall|q: u64| r@.contains(q) <==> exists|k: int| 0 <= k < i + 1
                            && #[trigger] old(self).operations(involved_types@[k]@).contains(q) by {
                            assert(old(self).operations(involved_types@[i as int]@) == ops@.to_set());
                            if before.contains(q) {
                                let k = choose|k: int| 0 <= k < i && #[trigger] old(self).operations(involved_types@[k]@).contains(q);
                            }
                            if ops@.contains(q) {
                                assert(old(self).operations(involved_types@[i as int]@).contains(q));
                            }
                            if exists|k: int| 0 <= k < i + 1 && #[trigger] old(self).operations(involved_types@[k]@).contains(q) {
                                let k = choose|k: int| 0 <= k < i + 1 && #[trigger] old(self).operations(involved_types@[k]@).contains(q);
                                if k == i {
                                    assert(ops@.to_set().contains(q));
                                }
                            }
                        }
                    }
                },
                None => {
                    proof {
                        assert forall|q: u64| r@.contains(q) <==> exists|k: int| 0 <= k < i + 1
                            && #[trigger] old(self).operations(involved_types@[k]@).contains(q) by {
                            if exists|k: int| 0 <= k < i + 1 && #[trigger] old(self).operations(involved_types@[k]@).contains(q) {
                                let k = choose|k: int| 0 <= k < i + 1 && #[trigger] old(self).operations(involved_types@[k]@).contains(q);
                                if k == i {
                                    assert(old(self).operations(involved_types@[i as int]@) == Set::<u64>::empty());
                                }
                            }
                        }
                    }
                },
            }
            i = i + 1;
        }
        let ghost r1 = r@;
        r = crate::store::insert_ascending(r, key);
        let mut j: usize = 0;
        while j < r.len()
            invariant
                j <= r@.len(),
                self.wf(),
                self.operation_cache == old(self).operation_cache,
                self.results() == old(self).results().remove_keys(r@.take(j as int).to_set()),
            decreases r@.len() - j,
        {
            let ghost prev = self.result_cache@;
            let ghost prev_results = self.results();
            self.result_cache.remove(&r[j]);
            proof {
                assert(self.results() =~= prev_results.remove(r@[j as int]));
                let t0 = r@.take(j as int);
                let t1 = r@.take(j + 1);
                assert(t1 =~= t0.push(r@[j as int]));
                crate::data::lemma_push_to_set(t0, r@[j as int]);
                assert(self.results() =~= old(self).results().remove_keys(t1.to_set()));
            }
            j = j + 1;
        }
        assert(r@.take(r@.len() as int) =~= r@);
        r
    }
}

fn vec_has(v: &Vec<u64>, x: u64) -> (b: bool)
    ensures
        b == v@.contains(x),
{
    let mut i: usize = 0;
    while i < v.len()
        invariant
            i <= v@.len(),
            forall|j: int| 0 <= j < i ==> v@[j] != x,
        decreases v@.len() - i,
    {
        if v[i] == x {
            return true;
        }
        i = i + 1;
    }
    false
}

} // verus!
