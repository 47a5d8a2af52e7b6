use artemis::json::Json;
use std::cell::Cell;
use artemis::normalized::{is_optimistic_mutation, refetches, should_cache, NormalizedCache};
use artemis::selection::FieldSelector;
use artemis::store::{Store, StoreError, WriteFault};
use artemis::table::Table;
use artemis::types::{OperationType, RequestPolicy};

fn text(x: &str) -> Json {
    Json::Str(x.to_string())
}

fn object(fields: Vec<(&str, Json)>) -> Json {
    Json::Object(fields.into_iter().map(|(k, v)| (k.to_string(), v)).collect())
}

fn scalar(name: &str) -> FieldSelector {
    FieldSelector::Scalar(name.to_string(), String::new())
}

fn conference_selection(id: &str) -> Vec<FieldSelector> {
    vec![FieldSelector::Object(
        "conference".to_string(),
        format!("(id:{:?})", id),
        "Conference".to_string(),
        vec![
            scalar("id"),
            scalar("name"),
            scalar("city"),
            FieldSelector::Object(
                "talks".to_string(),
                String::new(),
                "Talk".to_string(),
                vec![
                    scalar("id"),
                    scalar("title"),
                    FieldSelector::Object("speakers".to_string(), String::new(), "Person".to_string(), vec![scalar("name")]),
                ],
            ),
        ],
    )]
}

fn conference_data(id: &str, name: &str) -> Json {
    object(vec![(
        "conference",
        object(vec![("id", text(id)), ("name", text(name)), ("city", Json::Null), ("talks", Json::Null)]),
    )])
}

fn conferences_selection() -> Vec<FieldSelector> {
    vec![FieldSelector::Object(
        "conferences".to_string(),
        String::new(),
        "Conference".to_string(),
        vec![scalar("id"), scalar("name")],
    )]
}

fn conferences_data(entries: Vec<(&str, &str)>) -> Json {
    object(vec![(
        "conferences",
        Json::Array(entries.into_iter().map(|(id, name)| object(vec![("id", text(id)), ("name", text(name))])).collect()),
    )])
}

fn add_conference_selection() -> Vec<FieldSelector> {
    vec![FieldSelector::Object(
        "addConference".to_string(),
        "(name:\"test\")".to_string(),
        "Conference".to_string(),
        vec![scalar("id"), scalar("name")],
    )]
}

fn add_conference_data(id: &str, name: &str) -> Json {
    object(vec![("addConference", object(vec![("id", text(id)), ("name", text(name))]))])
}

fn keep(_data: Option<Json>, store: Store, deps: Vec<String>) -> (Store, Vec<String>) {
    (store, deps)
}

fn new_cache() -> NormalizedCache {
    NormalizedCache::new(Store::new(Table::new()))
}

fn conference_name(cache: &NormalizedCache, id: &str) -> Option<Json> {
    match cache.cached_result(OperationType::Query, RequestPolicy::CacheFirst, &conference_selection(id)).unwrap() {
        Some(Json::Object(fields)) => match &fields[0].1 {
            Json::Object(conf) => Some(match &conf[1].1 {
                Json::Str(s) => Json::Str(s.clone()),
                _ => Json::Null,
            }),
            _ => None,
        },
        _ => None,
    }
}

#[test]
fn normalized_writes_queries_to_cache() {
    let mut cache = new_cache();
    let selection = conference_selection("1");
    assert_eq!(cache.cached_result(OperationType::Query, RequestPolicy::CacheFirst, &selection), Ok(None));
    let reruns = cache.write_result(1, OperationType::Query, &Some(conference_data("1", "test")), false, &selection);
    assert_eq!(reruns, Ok(vec![]));
    let cached = cache.cached_result(OperationType::Query, RequestPolicy::CacheFirst, &selection);
    assert_eq!(cached, Ok(Some(conference_data("1", "test"))), "Result didn't come from the cache");
}

#[test]
fn normalized_network_only_skips_cache() {
    let mut cache = new_cache();
    let selection = conference_selection("1");
    cache.write_result(1, OperationType::Query, &Some(conference_data("1", "test")), false, &selection).unwrap();
    assert_eq!(cache.cached_result(OperationType::Query, RequestPolicy::NetworkOnly, &selection), Ok(None));
    assert!(cache.cached_result(OperationType::Query, RequestPolicy::CacheOnly, &selection).unwrap().is_some());
}

#[test]
fn normalized_updates_related_queries() {
    let mut cache = new_cache();
    let single = conference_selection("1");
    let multiple = conferences_selection();
    let first = cache.write_result(1, OperationType::Query, &Some(conference_data("1", "test")), false, &single);
    assert_eq!(first, Ok(vec![]));
    let second = cache.write_result(2, OperationType::Query, &Some(conferences_data(vec![("1", "test")])), false, &multiple);
    assert_eq!(second, Ok(vec![1u64]));
}

#[test]
fn normalized_does_nothing_when_no_related_queries_have_changed() {
    let mut cache = new_cache();
    let one = cache.write_result(1, OperationType::Query, &Some(conference_data("1", "test")), false, &conference_selection("1"));
    assert_eq!(one, Ok(vec![]));
    let unrelated = cache.write_result(2, OperationType::Query, &Some(conference_data("2", "test")), false, &conference_selection("2"));
    assert_eq!(unrelated, Ok(vec![]));
}

#[test]
fn normalized_writes_optimistic_mutations_to_the_cache() {
    let mut cache = new_cache();
    cache.write_result(1, OperationType::Query, &Some(conference_data("1", "test")), false, &conference_selection("1")).unwrap();
    let optimistic = cache.optimistic_mutation(
        2,
        OperationType::Mutation,
        RequestPolicy::CacheFirst,
        Some(add_conference_data("1", "test3")),
        &add_conference_selection(),
        keep,
    );
    assert_eq!(optimistic, Ok(Some(vec![1u64])));
    assert_eq!(conference_name(&cache, "1"), Some(text("test3")));
    let real = cache.invalidate_result(2, OperationType::Mutation, Some(add_conference_data("1", "test3")), &add_conference_selection(), keep);
    assert_eq!(real, Some(vec![1u64]));
    assert_eq!(cache.cached_result(OperationType::Query, RequestPolicy::CacheFirst, &conference_selection("1")), Ok(None));
}

#[test]
fn normalized_correctly_clears_on_error() {
    let mut cache = new_cache();
    let first = cache.write_result(1, OperationType::Query, &Some(conferences_data(vec![("1", "test")])), false, &conferences_selection());
    assert_eq!(first, Ok(vec![]));
    let updates = Cell::new(0);
    let update = |data: Option<Json>, mut store: Store, mut deps: Vec<String>| -> (Store, Vec<String>) {
        updates.set(updates.get() + 1);
        let added = match data {
            Some(Json::Object(mut fields)) => match fields.pop() {
                Some((_, Json::Object(conference))) => Some(Json::Object(conference)),
                _ => None,
            },
            _ => None,
        };
        match added {
            Some(conference) => {
                let appended = store.update_query(1, OperationType::Query, &conferences_selection(), |current: Option<Json>| {
                    match current {
                        Some(Json::Object(mut fields)) => {
                            if let Some((_, Json::Array(items))) = fields.last_mut() {
                                items.push(conference);
                            }
                            Some(Json::Object(fields))
                        }
                        _ => None,
                    }
                }, &mut deps);
                assert_eq!(appended, Ok(()));
            }
            None => {
                let emptied = store.update_query(1, OperationType::Query, &conferences_selection(), |current: Option<Json>| {
                    if current.is_some() {
                        Some(object(vec![("conferences", Json::Array(vec![]))]))
                    } else {
                        None
                    }
                }, &mut deps);
                assert_eq!(emptied, Ok(()));
            }
        }
        (store, deps)
    };
    let optimistic = cache.optimistic_mutation(
        2,
        OperationType::Mutation,
        RequestPolicy::CacheFirst,
        Some(add_conference_data("asd", "test3")),
        &add_conference_selection(),
        update,
    );
    assert_eq!(optimistic, Ok(Some(vec![1u64])));
    assert_eq!(
        cache.cached_result(OperationType::Query, RequestPolicy::CacheFirst, &conferences_selection()),
        Ok(Some(conferences_data(vec![("1", "test"), ("asd", "test3")])))
    );
    let after_error = cache.invalidate_result(2, OperationType::Mutation, None, &add_conference_selection(), update);
    assert_eq!(after_error, Some(vec![1u64]));
    assert_eq!(updates.get(), 2);
    assert_eq!(
        cache.cached_result(OperationType::Query, RequestPolicy::CacheFirst, &conferences_selection()),
        Ok(Some(conferences_data(vec![])))
    );
}

#[test]
fn normalized_query_error_drops_optimistic_layer() {
    let mut cache = new_cache();
    cache.write_result(1, OperationType::Query, &Some(conference_data("1", "test")), false, &conference_selection("1")).unwrap();
    cache.optimistic_mutation(
        3,
        OperationType::Mutation,
        RequestPolicy::CacheFirst,
        Some(add_conference_data("1", "optimistic")),
        &add_conference_selection(),
        keep,
    )
    .unwrap();
    assert_eq!(conference_name(&cache, "1"), Some(text("optimistic")));
    let after_error = cache.write_result(3, OperationType::Mutation, &None, true, &add_conference_selection());
    assert_eq!(after_error, Ok(vec![]));
    assert_eq!(conference_name(&cache, "1"), Some(text("test")));
}

#[test]
fn normalized_follows_optimistic_on_initial_write() {
    let mut cache = new_cache();
    let selection = conference_selection("1");
    let reruns = cache.optimistic_query(1, OperationType::Query, RequestPolicy::CacheFirst, Some(conference_data("1", "other_test_name")), &selection);
    assert_eq!(reruns, Ok(Some(vec![])));
    assert_eq!(conference_name(&cache, "1"), Some(text("other_test_name")));
    cache.write_result(1, OperationType::Query, &Some(conference_data("1", "test")), false, &selection).unwrap();
    assert_eq!(conference_name(&cache, "1"), Some(text("test")));
}

#[test]
fn normalized_optimistic_query_needs_data_and_policy() {
    let mut cache = new_cache();
    let selection = conference_selection("1");
    assert_eq!(cache.optimistic_query(1, OperationType::Query, RequestPolicy::NetworkOnly, Some(conference_data("1", "x")), &selection), Ok(None));
    assert_eq!(cache.optimistic_query(1, OperationType::Query, RequestPolicy::CacheFirst, None, &selection), Ok(None));
    assert_eq!(cache.cached_result(OperationType::Query, RequestPolicy::CacheFirst, &selection), Ok(None));
}

#[test]
fn normalized_invalidation_reruns_dependents() {
    let mut cache = new_cache();
    cache.write_result(1, OperationType::Query, &Some(conference_data("1", "test")), false, &conference_selection("1")).unwrap();
    cache.write_result(5, OperationType::Mutation, &Some(add_conference_data("1", "test")), false, &add_conference_selection()).unwrap();
    let reruns = cache.invalidate_result(5, OperationType::Mutation, Some(add_conference_data("1", "test")), &add_conference_selection(), keep);
    assert_eq!(reruns, Some(vec![1u64]));
    assert_eq!(cache.cached_result(OperationType::Query, RequestPolicy::CacheFirst, &conference_selection("1")), Ok(None));
}

#[test]
fn normalized_policies() {
    assert!(should_cache(OperationType::Query, RequestPolicy::CacheFirst));
    assert!(should_cache(OperationType::Query, RequestPolicy::CacheAndNetwork));
    assert!(!should_cache(OperationType::Query, RequestPolicy::NetworkOnly));
    assert!(!should_cache(OperationType::Mutation, RequestPolicy::CacheFirst));
    assert!(is_optimistic_mutation(OperationType::Mutation, RequestPolicy::CacheOnly));
    assert!(!is_optimistic_mutation(OperationType::Mutation, RequestPolicy::NetworkOnly));
    assert!(!is_optimistic_mutation(OperationType::Subscription, RequestPolicy::CacheFirst));
    assert!(refetches(OperationType::Query, RequestPolicy::CacheAndNetwork));
    assert!(!refetches(OperationType::Query, RequestPolicy::CacheFirst));
    assert!(!refetches(OperationType::Mutation, RequestPolicy::CacheAndNetwork));
}

#[test]
fn normalized_reports_a_write_that_does_not_fit() {
    let mut cache = new_cache();
    let selection = conference_selection("1");
    let missing_field = object(vec![("conference", object(vec![("id", text("1"))]))]);
    assert_eq!(cache.write_result(1, OperationType::Query, &Some(missing_field), false, &selection), Err(WriteFault::Stopped));
    let no_id = object(vec![("conference", object(vec![("name", text("x"))]))]);
    assert_eq!(
        cache.write_result(2, OperationType::Query, &Some(no_id), false, &selection),
        Err(WriteFault::Refused(StoreError::InvalidMetadata("Cache error: couldn't find index for Query:conference".to_string())))
    );
}
