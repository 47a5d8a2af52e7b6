use vstd::prelude::*;
use crate::json::Json;
use crate::selection::FieldSelector;
use crate::store::{ReadError, Store, StoreError, WriteFault};
use crate::store_spec;
use crate::types::{OperationType, RequestPolicy};

verus! {

/// A query is answered from the normalized cache unless its policy asks for the network only.
pub fn should_cache(operation_type: OperationType, request_policy: RequestPolicy) -> (b: bool)
    ensures
        b == (operation_type == OperationType::Query && request_policy != RequestPolicy::NetworkOnly),
{
    operation_type == OperationType::Query && request_policy != RequestPolicy::NetworkOnly
}

/// A query answered from the cache under the cache-and-network policy is fetched again as
/// well, and its new result handed on once it comes.
pub fn refetches(operation_type: OperationType, request_policy: RequestPolicy) -> (b: bool)
    ensures
        b == (operation_type == OperationType::Query && request_policy == RequestPolicy::CacheAndNetwork),
{
    operation_type == OperationType::Query && request_policy == RequestPolicy::CacheAndNetwork
}

/// A mutation is applied optimistically unless its policy asks for the network only.
pub fn is_optimistic_mutation(operation_type: OperationType, request_policy: RequestPolicy) -> (b: bool)
    ensures
        b == (operation_type == OperationType::Mutation && request_policy != RequestPolicy::NetworkOnly),
{
    operation_type == OperationType::Mutation && request_policy != RequestPolicy::NetworkOnly
}

/// The queries to run again, in ascending order, are those that `rerun_v` names.
pub open spec fn reruns_are(r: Seq<u64>, m: crate::data::DataModel, entities: Seq<Seq<char>>, originating: u64) -> bool {
    &&& store_spec::ascending(r)
    &&& forall|q: u64| r.contains(q) <==> store_spec::rerun_v(m, entities, originating, q)
}

/// What an update function handed to the cache may be given, and what it must leave: any
/// well-formed store may be handed to it, and it hands back a well-formed store with the
/// same custom keys.
pub open spec fn update_keeps_store<F: FnOnce(Option<Json>, Store, Vec<String>) -> (Store, Vec<String>)>(update: F) -> bool {
    &&& forall|d: Option<Json>, st: Store, deps: Vec<String>| st.wf() ==> #[trigger] call_requires(update, (d, st, deps))
    &&& forall|d: Option<Json>, st: Store, deps: Vec<String>, out: (Store, Vec<String>)|
        #[trigger] call_ensures(update, (d, st, deps), out) && st.wf() ==> out.0.wf() && out.0.custom_keys == st.custom_keys
}

/// The update function ran once, on the data `data`, a store whose model is `m` (with the
/// custom keys `keys`) and the entities `deps`; `fin` is the store it handed back, and `r`
/// the queries to run again, in ascending order, after the entities it handed back changed.
pub open spec fn updated_then_rerun<F: FnOnce(Option<Json>, Store, Vec<String>) -> (Store, Vec<String>)>(
    update: F,
    data: Option<Json>,
    m: crate::data::DataModel,
    keys: crate::table::Table<String, String>,
    deps: Seq<Seq<char>>,
    key: u64,
    fin: Store,
    r: Seq<u64>,
) -> bool {
    exists|st: Store, d: Vec<String>, out: (Store, Vec<String>)| {
        &&& st.wf()
        &&& st.data.model() == m
        &&& st.custom_keys == keys
        &&& crate::data::keys_v(d@) == deps
        &&& #[trigger] call_ensures(update, (data, st, d), out)
        &&& fin == out.0
        &&& reruns_are(r, out.0.data.model(), crate::data::keys_v(out.1@), key)
    }
}

/// The normalized cache of the client: the store that all operations share.
pub struct NormalizedCache {
    pub store: Store,
}

impl NormalizedCache {
    pub fn new(store: Store) -> (c: NormalizedCache)
        ensures
            c.store == store,
    {
        NormalizedCache { store }
    }

    /// The data that the cache holds for a query, when the query is one to answer from the
    /// cache and the cache holds all that it selects; an error when what the cache holds
    /// cannot be read.
    pub fn cached_result(&self, operation_type: OperationType, request_policy: RequestPolicy, selection: &Vec<FieldSelector>) -> (r: Result<Option<Json>, ReadError>)
        requires
            self.store.wf(),
        ensures
            !(operation_type == OperationType::Query && request_policy != RequestPolicy::NetworkOnly) ==> r == Ok::<Option<Json>, ReadError>(None),
            (operation_type == OperationType::Query && request_policy != RequestPolicy::NetworkOnly) ==> match store_spec::read_entity(
                self.store.data.model(), Seq::empty(), operation_type.name_v(), selection@, 0, Seq::empty()).out {
                Ok(fields) => (r matches Ok(Some(j)) && j.deep() == crate::json::JsonV::Object(fields)),
                Err(store_spec::ReadFault::Missing) => r == Ok::<Option<Json>, ReadError>(None),
                Err(store_spec::ReadFault::Invalid(m)) => (r matches Err(ReadError::Invalid(x)) && x@ == m),
            },
    {
        if !should_cache(operation_type, request_policy) {
            return Ok(None);
        }
        let mut deps: Vec<String> = Vec::new();
        proof {
            assert(crate::data::keys_v(deps@) =~= Seq::<Seq<char>>::empty());
        }
        match self.store.try_read_query(operation_type, selection, &mut deps) {
            Ok(j) => Ok(Some(j)),
            Err(ReadError::Missing) => Ok(None),
            Err(x) => Err(x),
        }
    }

    /// Take in the result of an operation from the network. A result with errors only drops
    /// the operation's optimistic layer; else its data is written, the layer is dropped, and
    /// the queries that depend on what was written (but this one) are returned to be run
    /// again. A write that does not go through keeps the layer.
    pub fn write_result(
        &mut self,
        key: u64,
        operation_type: OperationType,
        data: &Option<Json>,
        has_errors: bool,
        selection: &Vec<FieldSelector>,
    ) -> (res: Result<Vec<u64>, WriteFault>)
        requires
            old(self).store.wf(),
        ensures
            final(self).store.wf(),
            final(self).store.custom_keys == old(self).store.custom_keys,
            has_errors ==> (res matches Ok(r) && r@.len() == 0),
            has_errors ==> final(self).store.data.model() == old(self).store.data.model().clear_optimistic_layer(key),
            !has_errors ==> ({
                let w = store_spec::write_query_v(old(self).store.custom(), old(self).store.data.model(), Seq::empty(),
                    operation_type.name_v(), crate::data::opt_json_v(*data), selection@, key, false);
                match w.out {
                    store_spec::Outcome::Done => (res matches Ok(r) && reruns_are(r@, w.m, w.deps, key))
                        && final(self).store.data.model() == w.m.clear_optimistic_layer(key),
                    store_spec::Outcome::Failed(m) => (res matches Err(WriteFault::Refused(StoreError::InvalidMetadata(x))) && x@ == m)
                        && final(self).store.data.model() == w.m,
                    store_spec::Outcome::Stuck => res == Err::<Vec<u64>, WriteFault>(WriteFault::Stopped)
                        && final(self).store.data.model() == w.m,
                }
            }),
    {
        if has_errors {
            self.store.clear_optimistic_layer(key);
            return Ok(Vec::new());
        }
        let mut deps: Vec<String> = Vec::new();
        proof {
            assert(crate::data::keys_v(deps@) =~= Seq::<Seq<char>>::empty());
        }
        match self.store.try_write_query(key, operation_type, data, selection, false, &mut deps) {
            Err(x) => Err(x),
            Ok(()) => {
                let r = self.store.rerun_queries(&deps, key);
                self.store.clear_optimistic_layer(key);
                Ok(r)
            },
        }
    }

    /// After a mutation comes back: invalidate what its selection reaches (nothing for a
    /// result without data), hand the result's data, the store and the invalidated entities
    /// to the operation's `update` function, and return the queries that depend on the
    /// entities it hands back (but this one) to be run again; `None` when the invalidation
    /// stopped where the store does not fit the selection, and then `update` does not run.
    pub fn invalidate_result<F: FnOnce(Option<Json>, Store, Vec<String>) -> (Store, Vec<String>)>(
        &mut self,
        key: u64,
        operation_type: OperationType,
        data: Option<Json>,
        selection: &Vec<FieldSelector>,
        update: F,
    ) -> (r: Option<Vec<u64>>)
        requires
            old(self).store.wf(),
            update_keeps_store(update),
        ensures
            final(self).store.wf(),
            final(self).store.custom_keys == old(self).store.custom_keys,
            ({
                let v = store_spec::invalidate_query_v(old(self).store.data.model(), Seq::empty(), operation_type.name_v(),
                    data is Some, selection@, key, false);
                match r {
                    Some(qs) => !v.stuck && updated_then_rerun(update, data, v.m, old(self).store.custom_keys, v.inv, key,
                        final(self).store, qs@),
                    None => v.stuck && final(self).store.data.model() == v.m,
                }
            }),
    {
        let mut invalidated: Vec<String> = Vec::new();
        proof {
            assert(crate::data::keys_v(invalidated@) =~= Seq::<Seq<char>>::empty());
        }
        if !self.store.try_invalidate_query(key, operation_type, data.is_some(), selection, false, &mut invalidated) {
            return None;
        }
        Some(self.run_update(key, data, invalidated, update))
    }

    /// Hand the data, the store and the entities to `update`, keep the store it hands back,
    /// and return the queries to run again after the entities it hands back changed.
    fn run_update<F: FnOnce(Option<Json>, Store, Vec<String>) -> (Store, Vec<String>)>(
        &mut self,
        key: u64,
        data: Option<Json>,
        deps: Vec<String>,
        update: F,
    ) -> (r: Vec<u64>)
        requires
            old(self).store.wf(),
            update_keeps_store(update),
        ensures
            final(self).store.wf(),
            final(self).store.custom_keys == old(self).store.custom_keys,
            updated_then_rerun(update, data, old(self).store.data.model(), old(self).store.custom_keys,
                crate::data::keys_v(deps@), key, final(self).store, r@),
    {
        let mut st = Store::new(crate::table::Table::new());
        std::mem::swap(&mut st, &mut self.store);
        let ghost st_g = st;
        let ghost deps_g = deps;
        let ghost data_g = data;
        let out = update(data, st, deps);
        assert(call_ensures(update, (data_g, st_g, deps_g), out));
        self.store = out.0;
        let qs = self.store.rerun_queries(&out.1, key);
        qs
    }

    /// Before a query that the cache cannot answer goes out: when the policy allows and an
    /// optimistic result is given, write it into the query's optimistic layer and return the
    /// queries to run again; else change nothing.
    pub fn optimistic_query(
        &mut self,
        key: u64,
        operation_type: OperationType,
        request_policy: RequestPolicy,
        data: Option<Json>,
        selection: &Vec<FieldSelector>,
    ) -> (r: Result<Option<Vec<u64>>, WriteFault>)
        requires
            old(self).store.wf(),
        ensures
            final(self).store.wf(),
            final(self).store.custom_keys == old(self).store.custom_keys,
            !(request_policy != RequestPolicy::NetworkOnly && data is Some) ==> (r == Ok::<Option<Vec<u64>>, WriteFault>(None)
                && final(self).store == old(self).store),
            (request_policy != RequestPolicy::NetworkOnly && data is Some) ==> ({
                let w = store_spec::write_query_v(old(self).store.custom(), old(self).store.data.model(), Seq::empty(),
                    operation_type.name_v(), crate::data::opt_json_v(data), selection@, key, true);
                &&& final(self).store.data.model() == w.m
                &&& match r {
                    Ok(Some(qs)) => w.out is Done && reruns_are(qs@, w.m, w.deps, key),
                    Ok(None) => false,
                    Err(x) => crate::store::result_matches(Err(x), w.out),
                }
            }),
    {
        if request_policy == RequestPolicy::NetworkOnly || data.is_none() {
            return Ok(None);
        }
        let mut deps: Vec<String> = Vec::new();
        proof {
            assert(crate::data::keys_v(deps@) =~= Seq::<Seq<char>>::empty());
        }
        match self.store.try_write_query(key, operation_type, &data, selection, true, &mut deps) {
            Err(x) => Err(x),
            Ok(()) => Ok(Some(self.store.rerun_queries(&deps, key))),
        }
    }

    /// Before a mutation goes out: when it is optimistic and an optimistic result is given,
    /// invalidate what its selection reaches and write the result, both in the mutation's
    /// optimistic layer, hand the result, the store and the entities touched to the
    /// operation's `update` function, and return the queries to run again; else change
    /// nothing. A write that does not go through stops before `update`.
    pub fn optimistic_mutation<F: FnOnce(Option<Json>, Store, Vec<String>) -> (Store, Vec<String>)>(
        &mut self,
        key: u64,
        operation_type: OperationType,
        request_policy: RequestPolicy,
        data: Option<Json>,
        selection: &Vec<FieldSelector>,
        update: F,
    ) -> (r: Result<Option<Vec<u64>>, WriteFault>)
        requires
            old(self).store.wf(),
            update_keeps_store(update),
        ensures
            final(self).store.wf(),
            final(self).store.custom_keys == old(self).store.custom_keys,
            !(operation_type == OperationType::Mutation && request_policy != RequestPolicy::NetworkOnly && data is Some) ==> (r
                == Ok::<Option<Vec<u64>>, WriteFault>(None) && final(self).store == old(self).store),
            (operation_type == OperationType::Mutation && request_policy != RequestPolicy::NetworkOnly && data is Some) ==> ({
                let v = store_spec::invalidate_query_v(old(self).store.data.model(), Seq::empty(), operation_type.name_v(), true, selection@, key, true);
                let w = store_spec::write_query_v(old(self).store.custom(), v.m, v.inv, operation_type.name_v(),
                    crate::data::opt_json_v(data), selection@, key, true);
                if v.stuck {
                    r == Err::<Option<Vec<u64>>, WriteFault>(WriteFault::Stopped) && final(self).store.data.model() == v.m
                } else {
                    match r {
                        Ok(Some(qs)) => w.out is Done && updated_then_rerun(update, data, w.m, old(self).store.custom_keys,
                            w.deps, key, final(self).store, qs@),
                        Ok(None) => false,
                        Err(x) => crate::store::result_matches(Err(x), w.out) && final(self).store.data.model() == w.m,
                    }
                }
            }),
    {
        if !is_optimistic_mutation(operation_type, request_policy) || data.is_none() {
            return Ok(None);
        }
        let mut deps: Vec<String> = Vec::new();
        proof {
            assert(crate::data::keys_v(deps@) =~= Seq::<Seq<char>>::empty());
        }
        if !self.store.try_invalidate_query(key, operation_type, true, selection, true, &mut deps) {
            return Err(WriteFault::Stopped);
        }
        match self.store.try_write_query(key, operation_type, &data, selection, true, &mut deps) {
            Err(x) => Err(x),
            Ok(()) => Ok(Some(self.run_update(key, data, deps, update))),
        }
    }
}

} // verus!
