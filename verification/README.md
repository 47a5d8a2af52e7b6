# artemis

A GraphQL client core with a normalized cache, written in Verus. The library in `src/`
holds the logic of the client and of its caches, each function with a contract that Verus
proves; `app/` holds the asynchronous client around it (exchanges, fetching, subscriptions).

## Layout of `src/`

- `table.rs`: a keyed table over a vector, viewed as a map; the store's maps are tables.
- `json.rs`: JSON values and their mathematical view.
- `data.rs`, `data_model.rs`: the normalized store (records, links, optimistic layers,
  dependencies, reference counts, garbage collection) and its model as plain maps.
- `selection.rs`: field selectors of a query and their keys.
- `store_spec.rs`: what writing, reading and invalidating a query result does, as spec
  functions over the model.
- `store.rs`: the store operations, each proved against `store_spec.rs`.
- `normalized.rs`: the normalized cache exchange's decisions.
- `doc_cache.rs`, `dedup.rs`: the document cache and the deduplication of operations.
- `types.rs`, `client.rs`, `response.rs`, `utils.rs`: operation types, request policies,
  options, error texts and the progressive hash.
- `store_laws.rs`, `round_trip.rs`, `optimistic_laws.rs`: properties that span operations:
  reading back what a write stored (for selections without unions, whose members the
  store files under the typename of the entity that holds the field), invalidation making
  reads miss, and rolling back optimistic writes and invalidations by dropping their layer.
