use movie_search::json::{JsonNumber, JsonValue};
use movie_search::legacy::{SearchEngine, SearchRequest};

fn num(n: i64) -> JsonValue {
    JsonValue::Number(JsonNumber { text: n.to_string(), integer: true })
}

fn text(s: &str) -> JsonValue {
    JsonValue::String(s.to_string())
}

fn obj(members: Vec<(&str, JsonValue)>) -> JsonValue {
    JsonValue::Object(members.into_iter().map(|(k, v)| (k.to_string(), v)).collect())
}

fn id_of(doc: &JsonValue) -> String {
    match doc {
        JsonValue::Object(members) => match members.iter().find(|(k, _)| k == "id") {
            Some((_, JsonValue::Number(n))) => n.text.clone(),
            Some((_, JsonValue::String(s))) => s.clone(),
            _ => panic!("no id"),
        },
        _ => panic!("not an object"),
    }
}

#[test]
fn indexes_and_searches_documents() {
    let mut engine = SearchEngine::new();
    engine
        .add_documents(
            "movies",
            vec![
                obj(vec![("id", num(1)), ("overview", text("A quiet space drama")), ("title", text("Moon Run"))]),
                obj(vec![("id", num(2)), ("overview", text("A street thriller")), ("title", text("City Heat"))]),
            ],
        )
        .unwrap();

    let response = engine
        .search(
            "movies",
            SearchRequest {
                q: Some("space".to_string()),
                offset: None,
                limit: None,
            },
        )
        .unwrap();

    assert_eq!(response.estimated_total_hits, 1);
    assert_eq!(id_of(&response.hits[0]), "1");
}

#[test]
fn placeholder_search_is_paginated() {
    let mut engine = SearchEngine::new();
    engine
        .add_documents(
            "movies",
            vec![
                obj(vec![("id", num(1)), ("title", text("A"))]),
                obj(vec![("id", num(2)), ("title", text("B"))]),
                obj(vec![("id", num(3)), ("title", text("C"))]),
            ],
        )
        .unwrap();

    let response = engine
        .search(
            "movies",
            SearchRequest {
                q: Some(String::new()),
                offset: Some(1),
                limit: Some(1),
            },
        )
        .unwrap();

    assert_eq!(response.estimated_total_hits, 3);
    assert_eq!(response.hits.len(), 1);
    assert_eq!(id_of(&response.hits[0]), "2");
}

#[test]
fn rejects_documents_without_primary_key() {
    let mut engine = SearchEngine::new();
    let error = engine
        .add_documents("movies", vec![obj(vec![("title", text("No ID"))])])
        .unwrap_err();

    assert_eq!(error.status, 400);
    assert_eq!(error.code, "bad_request");
    assert_eq!(error.message, "document is missing primary key 'id'");
}

#[test]
fn blank_index_uid_is_refused_and_changes_nothing() {
    let mut engine = SearchEngine::new();
    let error = engine.add_documents("  ", vec![obj(vec![("id", num(1))])]).unwrap_err();
    assert_eq!(error.status, 400);
    assert_eq!(error.message, "index uid must not be empty");
    assert_eq!(engine.list_indexes().total, 0);
    assert_eq!(engine.tasks().results.len(), 0);
}

#[test]
fn non_object_and_bad_key_documents_are_refused() {
    let mut engine = SearchEngine::new();
    let error = engine.add_documents("movies", vec![text("plain")]).unwrap_err();
    assert_eq!(error.message, "each document must be a JSON object");
    let error = engine
        .add_documents("movies", vec![obj(vec![("id", JsonValue::Bool(true))])])
        .unwrap_err();
    assert_eq!(error.message, "primary key 'id' must be a string or number");
}

#[test]
fn a_failed_addition_keeps_earlier_documents_but_records_no_task() {
    let mut engine = SearchEngine::new();
    let error = engine
        .add_documents("movies", vec![obj(vec![("id", num(5))]), obj(vec![("title", text("x"))])])
        .unwrap_err();
    assert_eq!(error.code, "bad_request");
    let indexes = engine.list_indexes();
    assert_eq!(indexes.total, 1);
    assert_eq!(indexes.results[0].uid, "movies");
    assert_eq!(indexes.results[0].primary_key, "id");
    assert_eq!(indexes.results[0].number_of_documents, 1);
    assert!(engine.tasks().results.is_empty());
}

#[test]
fn tasks_count_up_and_later_documents_replace_earlier_ones() {
    let mut engine = SearchEngine::new();
    let first = engine
        .add_documents("movies", vec![obj(vec![("id", num(1)), ("title", text("Old"))])])
        .unwrap();
    let second = engine
        .add_documents(
            "movies",
            vec![obj(vec![("id", num(1)), ("title", text("New"))]), obj(vec![("id", text("b"))])],
        )
        .unwrap();
    assert_eq!(first.task_uid, 0);
    assert_eq!(second.task_uid, 1);
    assert_eq!(second.status, "succeeded");
    assert_eq!(second.task_type, "documentAdditionOrUpdate");
    assert_eq!(second.details.received_documents, 2);
    assert_eq!(second.details.indexed_documents, 2);
    let tasks = engine.tasks();
    assert_eq!(tasks.limit, 2);
    assert_eq!(tasks.from, Some(0));
    assert_eq!(tasks.next, None);
    let stats = engine.stats();
    assert_eq!(stats.database_size, 2);
    assert_eq!(stats.used_database_size, 2);
    assert_eq!(stats.indexes[0].0, "movies");
    assert_eq!(stats.indexes[0].1.number_of_documents, 2);
    let hits = engine
        .search("movies", SearchRequest { q: Some("new".to_string()), offset: None, limit: None })
        .unwrap();
    assert_eq!(hits.estimated_total_hits, 1);
}

#[test]
fn search_ranks_by_matched_tokens_then_key() {
    let mut engine = SearchEngine::new();
    engine
        .add_documents(
            "m",
            vec![
                obj(vec![("id", text("c")), ("t", text("red"))]),
                obj(vec![("id", text("a")), ("t", text("red blue"))]),
                obj(vec![("id", text("b")), ("t", text("blue"))]),
            ],
        )
        .unwrap();
    let response = engine
        .search("m", SearchRequest { q: Some("Blue RED".to_string()), offset: None, limit: None })
        .unwrap();
    let ids: Vec<String> = response.hits.iter().map(id_of).collect();
    assert_eq!(ids, vec!["a", "b", "c"]);
    assert_eq!(response.query, "Blue RED");
    assert_eq!(response.limit, 20);
}

#[test]
fn searching_a_missing_index_is_not_found() {
    let engine = SearchEngine::new();
    let error = engine
        .search("nope", SearchRequest { q: None, offset: None, limit: None })
        .unwrap_err();
    assert_eq!(error.status, 404);
    assert_eq!(error.code, "not_found");
    assert_eq!(error.message, "index 'nope' was not found");
}

#[test]
fn indexes_named_by_any_addition_exist_and_tasks_count_successes() {
    let mut engine = SearchEngine::new();
    let request = || SearchRequest { q: None, offset: None, limit: None };
    assert!(engine.add_documents("  ", vec![obj(vec![("id", num(1))])]).is_err());
    assert!(engine.search("  ", request()).is_err());
    let t0 = engine.add_documents("a", vec![obj(vec![("id", num(1))])]).unwrap();
    assert!(engine.add_documents("b", vec![obj(vec![("id", num(1))]), num(7)]).is_err());
    let t1 = engine.add_documents("a", vec![obj(vec![("id", text("x"))])]).unwrap();
    assert_eq!((t0.task_uid, t1.task_uid), (0, 1));
    assert_eq!(engine.tasks().results.len(), 2);
    let b = engine.search("b", request()).unwrap();
    assert_eq!(b.estimated_total_hits, 1);
    let err = engine.search("c", request()).unwrap_err();
    assert_eq!((err.status, err.code.as_str()), (404, "not_found"));
}

#[test]
fn stats_agree_with_the_index_list() {
    let mut engine = SearchEngine::new();
    engine.add_documents("b", vec![obj(vec![("id", num(1))]), obj(vec![("id", num(2))])]).unwrap();
    engine.add_documents("a", vec![obj(vec![("id", num(3))])]).unwrap();
    let stats = engine.stats();
    let list = engine.list_indexes();
    let names: Vec<&str> = stats.indexes.iter().map(|(k, _)| k.as_str()).collect();
    let listed: Vec<&str> = list.results.iter().map(|i| i.uid.as_str()).collect();
    assert_eq!(names, listed);
    for ((_, s), info) in stats.indexes.iter().zip(list.results.iter()) {
        assert_eq!(s.number_of_documents, info.number_of_documents);
        assert!(!s.is_indexing);
    }
    assert_eq!(stats.database_size, 3);
    assert_eq!(stats.used_database_size, 3);
}
