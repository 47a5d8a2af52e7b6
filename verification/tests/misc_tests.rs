use artemis::client::{create_request_operation, prefer, ClientSettings, QueryOptions};
use artemis::dedup::{make_deduped_result, InFlight};
use artemis::doc_cache::{should_skip, CacheDecision, DocumentCache};
use artemis::json::Json;
use artemis::response::{int_to_text, Error, Location, PathFragment};
use artemis::types::{DebugInfo, OperationMeta, OperationType, RequestPolicy, ResultSource};
use artemis::utils::progressive_hash;

fn error(path: Option<Vec<PathFragment>>, locations: Option<Vec<Location>>, message: &str) -> Error {
    Error { message: message.to_string(), locations, path, extensions: None }
}

#[test]
fn operation_type_names() {
    assert_eq!(OperationType::Query.to_str(), "Query");
    assert_eq!(OperationType::Mutation.to_str(), "Mutation");
    assert_eq!(OperationType::Subscription.to_string(), "Subscription");
    assert_eq!(OperationType::from(1u8), OperationType::Mutation);
    assert_eq!(OperationType::from(2u8), OperationType::Subscription);
    assert_eq!(OperationType::from(0u8), OperationType::Query);
    assert_eq!(OperationType::from(200u8), OperationType::Query);
}

#[test]
fn request_policy_numbers() {
    assert_eq!(RequestPolicy::from_u8(1), RequestPolicy::CacheFirst);
    assert_eq!(RequestPolicy::from_u8(2), RequestPolicy::CacheOnly);
    assert_eq!(RequestPolicy::from_u8(3), RequestPolicy::NetworkOnly);
    assert_eq!(RequestPolicy::from_u8(4), RequestPolicy::CacheAndNetwork);
    assert_eq!(RequestPolicy::CacheAndNetwork.to_u8(), 4);
    for p in [RequestPolicy::CacheFirst, RequestPolicy::CacheOnly, RequestPolicy::NetworkOnly, RequestPolicy::CacheAndNetwork] {
        assert_eq!(RequestPolicy::from_u8(p.to_u8()), p);
    }
}

#[test]
fn hashes_progressively() {
    assert_eq!(progressive_hash(0, &[1, 2]), 35);
    assert_eq!(progressive_hash(5381, b"abc"), 193485963);
    assert_eq!(progressive_hash(1354603040, &[]), 1354603040);
    let bytes: Vec<u8> = (0..=255u8).chain(0..=255u8).collect();
    assert_eq!(progressive_hash(u32::MAX, &bytes), 6488149809193385727);
}

#[test]
fn integer_text() {
    assert_eq!(int_to_text(0), "0");
    assert_eq!(int_to_text(42), "42");
    assert_eq!(int_to_text(-7), "-7");
    assert_eq!(int_to_text(i32::MIN), "-2147483648");
    assert_eq!(int_to_text(i32::MAX), "2147483647");
}

#[test]
fn error_display() {
    let e = error(
        Some(vec![PathFragment::Key("users".to_string()), PathFragment::Index(0), PathFragment::Key("email".to_string())]),
        Some(vec![Location { line: 3, column: 14 }, Location { line: 9, column: 1 }]),
        "Test error",
    );
    assert_eq!(e.to_string(), "users/0/email:3:14: Test error");
    assert_eq!(error(None, None, "boom").to_string(), "<query>:0:0: boom");
    assert_eq!(error(Some(vec![]), Some(vec![]), "empty").to_string(), ":0:0: empty");
    assert_eq!(error(Some(vec![PathFragment::Key("a//".to_string())]), None, "m").to_string(), "a:0:0: m");
    assert_eq!(PathFragment::Index(-2).to_string(), "-2");
    assert_eq!(Location::default(), Location { line: 0, column: 0 });
}

#[test]
fn document_cache_round() {
    let mut cache = DocumentCache::new();
    assert!(should_skip(OperationType::Subscription));
    assert!(!should_skip(OperationType::Mutation));
    assert!(!cache.is_operation_cached(1, OperationType::Query, RequestPolicy::CacheFirst));
    assert!(cache.is_operation_cached(1, OperationType::Query, RequestPolicy::CacheOnly));
    let types = vec!["Conference".to_string(), "Talk".to_string()];
    cache.after_query(1, &types, &Some(Json::Str("data".to_string())));
    cache.after_query(2, &vec!["Person".to_string()], &Some(Json::Null));
    cache.after_query(4, &types, &None);
    assert!(cache.is_operation_cached(1, OperationType::Query, RequestPolicy::CacheFirst));
    assert!(!cache.is_operation_cached(1, OperationType::Query, RequestPolicy::NetworkOnly));
    assert!(!cache.is_operation_cached(4, OperationType::Query, RequestPolicy::CacheFirst));
    assert_eq!(cache.cached(1), Some(Json::Str("data".to_string())));
    let rerun = cache.after_mutation(3, &vec!["Talk".to_string()], true);
    assert_eq!(rerun, vec![1u64, 3]);
    assert!(!cache.is_operation_cached(1, OperationType::Query, RequestPolicy::CacheFirst));
    assert!(cache.is_operation_cached(2, OperationType::Query, RequestPolicy::CacheFirst));
    assert_eq!(cache.after_mutation(5, &types, false), Vec::<u64>::new());
}

#[test]
fn dedup_waits_for_in_flight() {
    let mut in_flight = InFlight::new();
    assert!(in_flight.begin(10, 0));
    assert!(!in_flight.begin(10, 1));
    assert!(!in_flight.begin(10, 2));
    assert!(in_flight.begin(11, 3));
    assert_eq!(in_flight.finish(10), vec![1u64, 2]);
    assert!(in_flight.begin(10, 4));
    assert_eq!(in_flight.finish(11), Vec::<u64>::new());
}

#[test]
fn dedup_marks_results() {
    let info = DebugInfo { source: ResultSource::Network, did_dedup: false };
    assert_eq!(make_deduped_result(Some(info)), Some(DebugInfo { source: ResultSource::Network, did_dedup: true }));
    assert_eq!(make_deduped_result(None), None);
}

#[test]
fn query_options_take_precedence() {
    let meta = |key: u32| OperationMeta { query_key: key, operation_type: OperationType::Query, involved_types: vec!["Conference".to_string()] };
    let settings: ClientSettings<String> = ClientSettings::new("http://localhost:8080/graphql".to_string());
    let op = create_request_operation(&settings, meta(0), "query A", &[1, 2], QueryOptions::<String, u8>::new());
    assert_eq!(op.key, 35);
    assert_eq!(op.meta.query_key, 0);
    assert_eq!(op.query, "query A");
    assert_eq!(op.options.url, "http://localhost:8080/graphql");
    assert_eq!(op.options.request_policy, RequestPolicy::CacheFirst);
    assert_eq!(op.options.extra_headers, None);
    assert_eq!(op.options.extensions, None);
    let settings = settings.with_request_policy(RequestPolicy::CacheOnly).with_extra_headers("client".to_string());
    let op = create_request_operation(&settings, meta(7), "query B", &[], QueryOptions::<String, u8>::new());
    assert_eq!(op.options.extra_headers, Some("client".to_string()));
    assert_eq!(op.options.request_policy, RequestPolicy::CacheOnly);
    let options = QueryOptions {
        url: Some("http://other".to_string()),
        request_policy: Some(RequestPolicy::NetworkOnly),
        extra_headers: Some("query".to_string()),
        extensions: Some(3u8),
    };
    let op = create_request_operation(&settings, meta(5381), "query C", b"abc", options);
    assert_eq!(op.key, 193485963);
    assert_eq!(op.options.url, "http://other");
    assert_eq!(op.options.request_policy, RequestPolicy::NetworkOnly);
    assert_eq!(op.options.extra_headers, Some("query".to_string()));
    assert_eq!(op.options.extensions, Some(3u8));
    assert_eq!(prefer(None, Some(2)), Some(2));
    assert_eq!(prefer(Some(1), Some(2)), Some(1));
}

#[test]
fn document_cache_decides() {
    let mut cache = DocumentCache::new();
    assert_eq!(cache.decide(1, OperationType::Subscription, RequestPolicy::CacheFirst), CacheDecision::PassOn);
    assert_eq!(cache.decide(1, OperationType::Mutation, RequestPolicy::CacheOnly), CacheDecision::FetchAndRecord);
    assert_eq!(cache.decide(1, OperationType::Query, RequestPolicy::CacheFirst), CacheDecision::FetchAndRecord);
    assert_eq!(cache.decide(1, OperationType::Query, RequestPolicy::CacheOnly), CacheDecision::Answer(None));
    cache.after_query(1, &vec!["Conference".to_string()], &Some(Json::Str("data".to_string())));
    assert_eq!(cache.decide(1, OperationType::Query, RequestPolicy::CacheFirst), CacheDecision::Answer(Some(Json::Str("data".to_string()))));
    assert_eq!(cache.decide(1, OperationType::Query, RequestPolicy::CacheOnly), CacheDecision::Answer(Some(Json::Str("data".to_string()))));
    assert_eq!(cache.decide(1, OperationType::Query, RequestPolicy::NetworkOnly), CacheDecision::FetchAndRecord);
    assert_eq!(cache.decide(1, OperationType::Query, RequestPolicy::CacheAndNetwork), CacheDecision::AnswerThenFetch(Json::Str("data".to_string())));
    assert_eq!(cache.decide(2, OperationType::Query, RequestPolicy::CacheAndNetwork), CacheDecision::FetchAndRecord);
}
