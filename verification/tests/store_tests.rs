use artemis::data::{FieldKey, InMemoryData, Link};
use artemis::json::Json;
use artemis::selection::{field_key, selector_field_name, FieldSelector};
use artemis::store::{entity_key, is_root, ReadError, Store, StoreError};
use artemis::table::Table;
use artemis::types::OperationType;

fn text(x: &str) -> Json {
    Json::Str(x.to_string())
}

fn object(fields: Vec<(&str, Json)>) -> Json {
    Json::Object(fields.into_iter().map(|(k, v)| (k.to_string(), v)).collect())
}

fn fields(fields: Vec<(&str, Json)>) -> Vec<(String, Json)> {
    fields.into_iter().map(|(k, v)| (k.to_string(), v)).collect()
}

fn scalar(name: &str) -> FieldSelector {
    FieldSelector::Scalar(name.to_string(), String::new())
}

fn empty_store() -> Store {
    Store::new(Table::new())
}

fn key(name: &str) -> FieldKey {
    FieldKey::new(name.to_string(), String::new())
}

fn key_with(name: &str, args: &str) -> FieldKey {
    FieldKey::new(name.to_string(), args.to_string())
}

#[test]
fn store_is_root() {
    assert!(is_root("Query"));
    assert!(is_root("Mutation"));
    assert!(is_root("Subscription"));
    assert!(!is_root("Conference"));
    assert!(!is_root("query"));
}

#[test]
fn store_entity_key() {
    assert_eq!(entity_key("Conference", "1"), "Conference:1");
    assert_eq!(entity_key("", ""), ":");
}

#[test]
fn store_key_of_entity() {
    let store = empty_store();
    let typename = "Conference".to_string();
    assert_eq!(store.key_of_entity(&typename, &fields(vec![("id", text("1"))])), Some("Conference:1".to_string()));
    assert_eq!(store.key_of_entity(&typename, &fields(vec![("_id", text("7"))])), Some("Conference:7".to_string()));
    assert_eq!(store.key_of_entity(&typename, &fields(vec![("id", text("1")), ("_id", text("7"))])), Some("Conference:1".to_string()));
    assert_eq!(store.key_of_entity(&typename, &fields(vec![("id", Json::Number("1".to_string())), ("_id", text("7"))])), None);
    assert_eq!(store.key_of_entity(&typename, &fields(vec![("name", text("x"))])), None);
    assert_eq!(store.key_of_entity(&"Query".to_string(), &fields(vec![])), Some("Query".to_string()));
}

#[test]
fn store_custom_keys() {
    let mut custom = Table::new();
    custom.insert("Person".to_string(), "name".to_string());
    let store = Store::new(custom);
    let person = "Person".to_string();
    assert_eq!(store.key_of_entity(&person, &fields(vec![("id", text("1")), ("name", text("Simon"))])), Some("Person:Simon".to_string()));
    assert_eq!(store.key_of_entity(&person, &fields(vec![("id", text("1"))])), None);
}

#[test]
fn store_writes_and_reads_nested_lists() {
    let mut store = empty_store();
    let selection = vec![FieldSelector::Object(
        "conferences".to_string(),
        String::new(),
        "Conference".to_string(),
        vec![
            scalar("id"),
            FieldSelector::Object("talks".to_string(), String::new(), "Talk".to_string(), vec![scalar("id"), scalar("title")]),
        ],
    )];
    let data = object(vec![(
        "conferences",
        Json::Array(vec![
            object(vec![
                ("id", text("1")),
                ("talks", Json::Array(vec![object(vec![("id", text("t1")), ("title", text("Software Architecture"))])])),
            ]),
            object(vec![("id", text("2")), ("talks", Json::Null)]),
        ]),
    )]);
    let mut deps = Vec::new();
    let written = store.write_query(9, OperationType::Query, &Some(data), &selection, false, &mut deps);
    assert_eq!(written, Ok(()));
    assert_eq!(deps, vec!["Conference:1".to_string(), "Talk:t1".to_string(), "Conference:2".to_string()]);
    let mut read_deps = Vec::new();
    let read = store.read_query(OperationType::Query, &selection, &mut read_deps);
    let expected = object(vec![(
        "conferences",
        Json::Array(vec![
            object(vec![
                ("id", text("1")),
                ("talks", Json::Array(vec![object(vec![("id", text("t1")), ("title", text("Software Architecture"))])])),
            ]),
            object(vec![("id", text("2")), ("talks", Json::Null)]),
        ]),
    )]);
    assert_eq!(read, Some(expected));
    assert_eq!(read_deps, vec!["Conference:1".to_string(), "Talk:t1".to_string(), "Conference:2".to_string()]);
    assert_eq!(store.data.get_dependencies(&"Talk:t1".to_string()), vec![9u64]);
    assert_eq!(store.data.get_dependencies(&"Query".to_string()), Vec::<u64>::new());
}

#[test]
fn store_reports_missing_ids() {
    let mut store = empty_store();
    let object_selection = vec![FieldSelector::Object("conference".to_string(), "(id:\"1\")".to_string(), "Conference".to_string(), vec![scalar("name")])];
    let mut deps = Vec::new();
    let res = store.write_query(1, OperationType::Query, &Some(object(vec![("conference", object(vec![("name", text("x"))]))])), &object_selection, false, &mut deps);
    assert_eq!(res, Err(StoreError::InvalidMetadata("Cache error: couldn't find index for Query:conference".to_string())));
    let list_selection = vec![FieldSelector::Object("conferences".to_string(), "(first:2)".to_string(), "Conference".to_string(), vec![scalar("name")])];
    let res = store.write_query(2, OperationType::Query, &Some(object(vec![("conferences", Json::Array(vec![object(vec![("name", text("x"))])]))])), &list_selection, false, &mut deps);
    let err = res.unwrap_err();
    assert_eq!(err, StoreError::InvalidMetadata("Cache error: couldn't find index for Query:conferences(first:2)".to_string()));
    assert_eq!(err.message(), "Invalid metadata: Cache error: couldn't find index for Query:conferences(first:2)");
}

#[test]
fn store_reads_missing_fields_as_none() {
    let store = empty_store();
    let mut deps = Vec::new();
    assert_eq!(store.read_query(OperationType::Query, &vec![scalar("version")], &mut deps), None);
    assert_eq!(store.read_field(&"Query".to_string(), &scalar("version"), &mut deps), Err(ReadError::Missing));
    assert!(ReadError::Missing.is_missing());
    assert!(!ReadError::Invalid("typename isn't a string".to_string()).is_missing());
}

#[test]
fn store_reads_empty_selection_as_empty_object() {
    let store = empty_store();
    let mut deps = Vec::new();
    assert_eq!(store.read_query(OperationType::Mutation, &vec![], &mut deps), Some(Json::Object(vec![])));
}

#[test]
fn store_unions_follow_typename() {
    let mut store = empty_store();
    let union = FieldSelector::Union(
        "search".to_string(),
        String::new(),
        vec![
            ("Person".to_string(), vec![scalar("id"), scalar("name")]),
            ("Talk".to_string(), vec![scalar("id"), scalar("title")]),
        ],
    );
    let selection = vec![scalar("__typename"), union];
    let data = object(vec![("__typename", text("Talk")), ("search", object(vec![("id", text("t1")), ("title", text("Intro"))]))]);
    let mut deps = Vec::new();
    assert_eq!(store.write_query(4, OperationType::Query, &Some(data), &selection, false, &mut deps), Ok(()));
    assert_eq!(deps, vec!["Talk:t1".to_string()]);
    let mut read_deps = Vec::new();
    let union_read = vec![FieldSelector::Union(
        "search".to_string(),
        String::new(),
        vec![
            ("Person".to_string(), vec![scalar("id"), scalar("name")]),
            ("Talk".to_string(), vec![scalar("id"), scalar("title")]),
        ],
    )];
    // The member has no `__typename` record of its own, so the read finds it missing.
    assert_eq!(store.read_query(OperationType::Query, &union_read, &mut read_deps), None);
}

#[test]
fn store_invalidates_a_mutation_selection() {
    let mut store = empty_store();
    let query_selection = vec![FieldSelector::Object("conference".to_string(), "(id:\"1\")".to_string(), "Conference".to_string(), vec![scalar("id"), scalar("name")])];
    let mut deps = Vec::new();
    store.write_query(1, OperationType::Query, &Some(object(vec![("conference", object(vec![("id", text("1")), ("name", text("a"))]))])), &query_selection, false, &mut deps).unwrap();
    let mutation_selection = vec![FieldSelector::Object("rename".to_string(), String::new(), "Conference".to_string(), vec![scalar("name")])];
    let mut mdeps = Vec::new();
    store.write_query(2, OperationType::Mutation, &Some(object(vec![("rename", object(vec![("id", text("1")), ("name", text("b"))]))])), &mutation_selection, false, &mut mdeps).unwrap();
    let mut invalidated = Vec::new();
    store.invalidate_query(2, OperationType::Mutation, true, &mutation_selection, false, &mut invalidated);
    assert_eq!(invalidated, vec!["Conference:1".to_string()]);
    let mut read_deps = Vec::new();
    assert_eq!(store.read_query(OperationType::Query, &query_selection, &mut read_deps), None);
    assert_eq!(store.rerun_queries(&invalidated, 2), vec![1u64]);
    let mut untouched = Vec::new();
    store.invalidate_query(3, OperationType::Mutation, false, &mutation_selection, false, &mut untouched);
    assert!(untouched.is_empty());
}

#[test]
fn store_rerun_skips_root_and_originating() {
    let mut store = empty_store();
    store.data.set_dependencies(1, vec!["A:1".to_string(), "Query".to_string()]);
    store.data.set_dependencies(3, vec!["A:1".to_string(), "B:1".to_string()]);
    store.data.set_dependencies(2, vec!["B:1".to_string()]);
    assert_eq!(store.rerun_queries(&vec!["B:1".to_string(), "A:1".to_string(), "A:1".to_string()], 2), vec![1u64, 3]);
    assert_eq!(store.rerun_queries(&vec!["Query".to_string()], 0), Vec::<u64>::new());
}

#[test]
fn store_selector_helpers() {
    let s = FieldSelector::Object("talks".to_string(), "(first:1)".to_string(), "Talk".to_string(), vec![]);
    assert_eq!(selector_field_name(&s), "talks");
    assert_eq!(field_key(&s), FieldKey::new("talks".to_string(), "(first:1)".to_string()));
}

#[test]
fn data_layers_and_counts() {
    let mut data = InMemoryData::new();
    data.write_record("A:1".to_string(), key("name"), Some(text("a")));
    assert_eq!(data.read_record(&"A:1".to_string(), &key("name")), Some(&text("a")));
    data.write_record_optimistic(7, "A:1".to_string(), key("name"), Some(text("b")));
    assert_eq!(data.read_record(&"A:1".to_string(), &key("name")), Some(&text("b")));
    data.write_record_optimistic(8, "A:1".to_string(), key("name"), None);
    assert_eq!(data.read_record(&"A:1".to_string(), &key("name")), Some(&text("b")));
    data.clear_optimistic_layer(7);
    assert_eq!(data.read_record(&"A:1".to_string(), &key("name")), None);
    data.clear_optimistic_layer(8);
    assert_eq!(data.read_record(&"A:1".to_string(), &key("name")), Some(&text("a")));

    data.write_link("Query".to_string(), key("a"), Link::Single("A:1".to_string()));
    assert_eq!(data.ref_counts.get(&"A:1".to_string()), Some(&1isize));
    data.write_link("Query".to_string(), key("a"), Link::List(vec!["B:1".to_string()]));
    assert_eq!(data.ref_counts.get(&"A:1".to_string()), Some(&0isize));
    assert!(data.gc_queue.contains_key(&"A:1".to_string()));
    data.collect_garbage();
    assert_eq!(data.read_record(&"A:1".to_string(), &key("name")), None);
    assert!(!data.gc_queue.contains_key(&"A:1".to_string()));
    assert_eq!(data.read_link(&"Query".to_string(), &key("a")), Some(&Link::List(vec!["B:1".to_string()])));
}

#[test]
fn data_removing_a_record_drops_its_link() {
    let mut data = InMemoryData::new();
    data.update_ref_count(&"A:1".to_string(), 2);
    data.write_record("A:1".to_string(), key("friend"), Some(Json::Null));
    data.write_link("A:1".to_string(), key("friend"), Link::Single("B:1".to_string()));
    data.write_record("A:1".to_string(), key("friend"), None);
    assert_eq!(data.read_link(&"A:1".to_string(), &key("friend")), None);
    assert_eq!(data.ref_counts.get(&"A:1".to_string()), Some(&1isize));
}

#[test]
fn store_optimistic_write_is_undone_by_clearing_its_layer() {
    let mut store = empty_store();
    let selection = vec![FieldSelector::Object(
        "conference".to_string(),
        "(id:\"1\")".to_string(),
        "Conference".to_string(),
        vec![scalar("id"), scalar("name")],
    )];
    let conference_named = |name: &str| object(vec![("conference", object(vec![("id", text("1")), ("name", text(name))]))]);
    let mut deps = Vec::new();
    assert_eq!(store.write_query(1, OperationType::Query, &Some(conference_named("test")), &selection, false, &mut deps), Ok(()));
    let mut opt_deps = Vec::new();
    assert_eq!(store.write_query(7, OperationType::Query, &Some(conference_named("optimistic")), &selection, true, &mut opt_deps), Ok(()));
    let conference = "Conference:1".to_string();
    assert_eq!(store.data.read_record(&conference, &key("name")), Some(&text("optimistic")));
    let mut read_deps = Vec::new();
    assert_eq!(store.read_query(OperationType::Query, &selection, &mut read_deps), Some(conference_named("optimistic")));
    assert_eq!(store.data.get_dependencies(&conference), vec![1u64]);
    store.clear_optimistic_layer(7);
    assert_eq!(store.data.read_record(&conference, &key("name")), Some(&text("test")));
    let mut read_deps = Vec::new();
    assert_eq!(store.read_query(OperationType::Query, &selection, &mut read_deps), Some(conference_named("test")));
}

#[test]
fn selector_descriptions() {
    assert_eq!(scalar("id").describe(), "Scalar(field name: id, args: )");
    let object = FieldSelector::Object("conference".to_string(), "(id:\"1\")".to_string(), "Conference".to_string(), vec![scalar("id")]);
    assert_eq!(object.describe(), "Object(field name: conference, args: (id:\"1\"), typename: Conference)");
    let union = FieldSelector::Union("node".to_string(), String::new(), vec![("Talk".to_string(), vec![scalar("title")])]);
    assert_eq!(union.describe(), "Union(field name: node, args: )");
}

#[test]
fn store_update_query_by_hand() {
    let mut store = empty_store();
    let selection = vec![FieldSelector::Object(
        "conference".to_string(),
        "(id:\"1\")".to_string(),
        "Conference".to_string(),
        vec![scalar("id"), scalar("name")],
    )];
    let conference_named = |name: &str| object(vec![("conference", object(vec![("id", text("1")), ("name", text(name))]))]);
    let mut deps = Vec::new();
    let missing = store.update_query(3, OperationType::Query, &selection, |d: Option<Json>| {
        assert_eq!(d, None);
        None
    }, &mut deps);
    assert_eq!(missing, Ok(()));
    assert_eq!(deps, Vec::<String>::new());
    assert_eq!(store.data.read_record(&"Conference:1".to_string(), &key("name")), None);
    let created = store.update_query(3, OperationType::Query, &selection, |d: Option<Json>| {
        assert_eq!(d, None);
        Some(conference_named("created"))
    }, &mut deps);
    assert_eq!(created, Ok(()));
    assert_eq!(deps, vec!["Conference:1".to_string()]);
    let mut deps = Vec::new();
    let renamed = store.update_query(3, OperationType::Query, &selection, |d: Option<Json>| {
        assert_eq!(d, Some(conference_named("created")));
        Some(conference_named("renamed"))
    }, &mut deps);
    assert_eq!(renamed, Ok(()));
    assert_eq!(deps, vec!["Conference:1".to_string(), "Conference:1".to_string()]);
    assert_eq!(store.data.read_record(&"Conference:1".to_string(), &key("name")), Some(&text("renamed")));
    assert_eq!(store.data.get_dependencies(&"Conference:1".to_string()), vec![3u64]);
    let mut deleted_deps = Vec::new();
    let deleted = store.update_query(3, OperationType::Query, &selection, |d: Option<Json>| {
        assert_eq!(d, Some(conference_named("renamed")));
        None
    }, &mut deleted_deps);
    assert_eq!(deleted, Ok(()));
    assert_eq!(deleted_deps, vec!["Conference:1".to_string()]);
    let mut read_deps = Vec::new();
    assert_eq!(store.read_query(OperationType::Query, &selection, &mut read_deps), None);
    assert_eq!(store.data.read_link(&"Query".to_string(), &key_with("conference", "(id:\"1\")")), None);
    assert_eq!(store.data.read_record(&"Conference:1".to_string(), &key("name")), Some(&text("renamed")));
    let recreated = store.update_query(3, OperationType::Query, &selection, |d: Option<Json>| {
        assert_eq!(d, None);
        Some(conference_named("renamed"))
    }, &mut Vec::new());
    assert_eq!(recreated, Ok(()));
    let refused = store.update_query(4, OperationType::Query, &selection, |_d: Option<Json>| {
        Some(object(vec![("conference", object(vec![("name", text("no id"))]))]))
    }, &mut Vec::new());
    assert_eq!(
        refused,
        Err(artemis::store::WriteFault::Refused(StoreError::InvalidMetadata(
            "Cache error: couldn't find index for Query:conference".to_string()
        )))
    );
}

#[test]
fn store_reports_a_typename_that_is_not_a_string() {
    let mut store = empty_store();
    let variants = || {
        vec![
            ("Person".to_string(), vec![scalar("__typename"), scalar("id"), scalar("name")]),
            ("Talk".to_string(), vec![scalar("__typename"), scalar("id"), scalar("title")]),
        ]
    };
    let selection = vec![scalar("__typename"), FieldSelector::Union("search".to_string(), String::new(), variants())];
    let data = object(vec![
        ("__typename", text("Talk")),
        ("search", object(vec![("__typename", Json::Number("7".to_string())), ("id", text("t1")), ("title", text("Intro"))])),
    ]);
    let mut deps = Vec::new();
    assert_eq!(store.write_query(4, OperationType::Query, &Some(data), &selection, false, &mut deps), Ok(()));
    let union_read = vec![FieldSelector::Union("search".to_string(), String::new(), variants())];
    let mut read_deps = Vec::new();
    assert_eq!(
        store.try_read_query(OperationType::Query, &union_read, &mut read_deps),
        Err(ReadError::Invalid("typename isn't a string".to_string()))
    );
}

#[test]
fn data_optimistic_writes_undone_by_clearing() {
    let mut data = InMemoryData::new();
    let a = "A:1".to_string();
    let root = "Query".to_string();
    data.write_record(a.clone(), key("name"), Some(text("a")));
    data.write_link(root.clone(), key("a"), Link::Single(a.clone()));
    data.write_record_optimistic(9, a.clone(), key("name"), Some(text("b")));
    data.write_record_optimistic(9, a.clone(), key("city"), Some(text("c")));
    data.write_link_optimistic(9, root.clone(), key("a"), None);
    data.write_link_optimistic(9, root.clone(), key("b"), Some(Link::List(vec![a.clone()])));
    data.write_record_optimistic(9, a.clone(), key("name"), None);
    assert_eq!(data.read_record(&a, &key("name")), None);
    assert_eq!(data.read_record(&a, &key("city")), Some(&text("c")));
    assert_eq!(data.read_link(&root, &key("a")), None);
    assert_eq!(data.read_link(&root, &key("b")), Some(&Link::List(vec![a.clone()])));
    data.clear_optimistic_layer(9);
    assert_eq!(data.read_record(&a, &key("name")), Some(&text("a")));
    assert_eq!(data.read_record(&a, &key("city")), None);
    assert_eq!(data.read_link(&root, &key("a")), Some(&Link::Single(a.clone())));
    assert_eq!(data.read_link(&root, &key("b")), None);
}

#[test]
fn store_reads_a_union_as_a_variant() {
    let mut store = empty_store();
    let variants = || {
        vec![
            ("Person".to_string(), vec![scalar("__typename"), scalar("name")]),
            ("Talk".to_string(), vec![scalar("__typename"), scalar("title")]),
        ]
    };
    let search = FieldSelector::Union("search".to_string(), String::new(), variants());
    let selection = vec![scalar("__typename"), scalar("status"), FieldSelector::Union("search".to_string(), String::new(), variants())];
    let data = object(vec![
        ("__typename", text("Talk")),
        ("status", text("OPEN")),
        ("search", object(vec![("__typename", text("Talk")), ("id", text("t1")), ("title", text("Intro"))])),
    ]);
    let mut deps = Vec::new();
    assert_eq!(store.write_query(4, OperationType::Query, &Some(data), &selection, false, &mut deps), Ok(()));
    let root = "Query".to_string();
    let mut read_deps = Vec::new();
    assert_eq!(
        store.read_variant(&root, &search, &mut read_deps),
        Ok((Some("Talk".to_string()), object(vec![("__typename", text("Talk")), ("title", text("Intro"))])))
    );
    assert_eq!(read_deps, Vec::<String>::new());
    assert_eq!(store.read_variant(&root, &scalar("status"), &mut read_deps), Ok((None, text("OPEN"))));
    assert_eq!(store.read_variant(&root, &scalar("missing"), &mut read_deps), Err(ReadError::Missing));
    let other = FieldSelector::Union("other".to_string(), String::new(), variants());
    assert_eq!(store.read_variant(&root, &other, &mut read_deps), Err(ReadError::Missing));
}

#[test]
fn store_reads_optional_fields() {
    let mut store = empty_store();
    let conference = FieldSelector::Object("conference".to_string(), String::new(), "Conference".to_string(), vec![scalar("id"), scalar("city")]);
    let selection = vec![
        FieldSelector::Object("conference".to_string(), String::new(), "Conference".to_string(), vec![scalar("id"), scalar("city")]),
        FieldSelector::Object("venue".to_string(), String::new(), "Venue".to_string(), vec![scalar("id")]),
        FieldSelector::Object("talks".to_string(), String::new(), "Talk".to_string(), vec![scalar("id")]),
    ];
    let data = object(vec![
        ("conference", object(vec![("id", text("1")), ("city", Json::Null)])),
        ("venue", Json::Null),
        ("talks", Json::Array(vec![object(vec![("id", text("t1"))])])),
    ]);
    let mut deps = Vec::new();
    assert_eq!(store.write_query(4, OperationType::Query, &Some(data), &selection, false, &mut deps), Ok(()));
    let root = "Query".to_string();
    let mut read_deps = Vec::new();
    assert_eq!(
        store.read_optional(&root, &conference, &mut read_deps),
        Ok(Some(object(vec![("id", text("1")), ("city", Json::Null)])))
    );
    assert_eq!(read_deps, Vec::<String>::new());
    assert_eq!(store.read_optional(&root, &selection[1], &mut read_deps), Ok(None));
    assert_eq!(store.read_optional(&"Conference:1".to_string(), &scalar("city"), &mut read_deps), Ok(None));
    assert_eq!(
        store.read_optional(&root, &selection[2], &mut read_deps),
        Ok(Some(Json::Array(vec![object(vec![("id", text("t1"))])])))
    );
    assert_eq!(read_deps, vec!["Talk:t1".to_string()]);
    let mut field_deps = Vec::new();
    assert!(store.read_field(&root, &conference, &mut field_deps).is_ok());
    assert_eq!(field_deps, vec!["Conference:1".to_string()]);
    assert_eq!(store.read_optional(&root, &scalar("missing"), &mut read_deps), Err(ReadError::Missing));
}

#[test]
fn store_update_query_deletes_a_null_entry() {
    let mut store = empty_store();
    let selection = vec![FieldSelector::Object("conference".to_string(), String::new(), "Conference".to_string(), vec![scalar("id")])];
    let mut deps = Vec::new();
    assert_eq!(store.write_query(1, OperationType::Query, &Some(object(vec![("conference", Json::Null)])), &selection, false, &mut deps), Ok(()));
    let mut read_deps = Vec::new();
    assert_eq!(store.read_query(OperationType::Query, &selection, &mut read_deps), Some(object(vec![("conference", Json::Null)])));
    let deleted = store.update_query(1, OperationType::Query, &selection, |d: Option<Json>| {
        assert_eq!(d, Some(object(vec![("conference", Json::Null)])));
        None
    }, &mut Vec::new());
    assert_eq!(deleted, Ok(()));
    assert_eq!(store.read_query(OperationType::Query, &selection, &mut read_deps), None);
}

#[test]
fn data_delete_field_clears_every_layer() {
    let mut data = InMemoryData::new();
    let root = "Query".to_string();
    data.write_record(root.clone(), key("count"), Some(text("1")));
    data.write_link(root.clone(), key("a"), Link::Single("A:1".to_string()));
    data.write_record_optimistic(5, root.clone(), key("count"), Some(text("2")));
    data.write_link_optimistic(5, root.clone(), key("a"), Some(Link::Null));
    assert_eq!(data.ref_counts.get(&"A:1".to_string()), Some(&1isize));
    data.delete_field(&root, &key("count"));
    data.delete_field(&root, &key("a"));
    assert_eq!(data.read_record(&root, &key("count")), None);
    assert_eq!(data.read_link(&root, &key("a")), None);
    assert_eq!(data.ref_counts.get(&"A:1".to_string()), Some(&0isize));
    assert!(data.gc_queue.contains_key(&"A:1".to_string()));
}

#[test]
fn data_hydrate_counts_new_entities() {
    let mut data = InMemoryData::new();
    data.write_link("Query".to_string(), key("a"), Link::Single("A:1".to_string()));
    data.write_record_optimistic(3, "A:1".to_string(), key("name"), Some(text("x")));
    let mut records: Table<String, Table<FieldKey, Json>> = Table::new();
    let mut a_fields = Table::new();
    a_fields.insert(key("name"), text("a"));
    records.insert("A:1".to_string(), a_fields);
    let mut links: Table<String, Table<FieldKey, Link>> = Table::new();
    let mut root_links = Table::new();
    root_links.insert(key("a"), Link::Single("A:1".to_string()));
    root_links.insert(key("b"), Link::List(vec!["B:1".to_string(), "B:2".to_string(), "B:1".to_string()]));
    links.insert("Query".to_string(), root_links);
    data.hydrate_data(records, links);
    assert_eq!(data.read_record(&"A:1".to_string(), &key("name")), Some(&text("a")));
    assert_eq!(data.ref_counts.get(&"A:1".to_string()), Some(&1isize));
    assert_eq!(data.ref_counts.get(&"B:1".to_string()), Some(&1isize));
    assert_eq!(data.ref_counts.get(&"B:2".to_string()), Some(&1isize));
    data.write_link("Query".to_string(), key("b"), Link::Null);
    assert_eq!(data.ref_counts.get(&"B:1".to_string()), Some(&-1isize));
    assert_eq!(data.ref_counts.get(&"B:2".to_string()), Some(&0isize));
}
