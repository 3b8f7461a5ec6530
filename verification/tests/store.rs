use local_vectored_llm::chroma::document::{Document, Metadata};
use local_vectored_llm::chroma::store::{
    get_collection_documents, merge_passages, read_collection_documents, search, sort_collections,
    CollectionAnswer, CollectionInfo,
};
use local_vectored_llm::AppError;
use serde_json::Value;

fn answer(collection: &str, passages: Option<Vec<&str>>) -> CollectionAnswer {
    CollectionAnswer {
        collection: collection.to_string(),
        passages: passages.map(|all| all.into_iter().map(String::from).collect()),
    }
}

#[test]
fn a_passage_found_in_two_collections_is_kept_once() {
    let answers = vec![answer("a", Some(vec!["X"])), answer("b", Some(vec!["X"]))];
    assert_eq!(search(&answers, 5).unwrap(), vec!["X"]);
}

#[test]
fn three_collections_of_four_passages_are_cut_to_the_limit() {
    let answers = vec![
        answer("a", Some(vec!["a1", "a2", "a3", "a4"])),
        answer("b", Some(vec!["b1", "b2", "b3", "b4"])),
        answer("c", Some(vec!["c1", "c2", "c3", "c4"])),
    ];
    let merged = search(&answers, 5).unwrap();
    assert_eq!(merged.len(), 5);
    assert_eq!(merged, vec!["a1", "a2", "a3", "a4", "b1"]);
}

#[test]
fn a_collection_that_failed_adds_nothing() {
    let answers = vec![
        answer("gone", None),
        answer("b", Some(vec!["beta", "alpha"])),
        answer("down", None),
    ];
    assert_eq!(search(&answers, 5).unwrap(), vec!["alpha", "beta"]);
}

#[test]
fn the_result_is_empty_only_where_every_collection_gave_nothing() {
    let nothing = vec![answer("a", None), answer("b", Some(vec![]))];
    assert!(search(&nothing, 5).unwrap().is_empty());
    let something = vec![answer("a", None), answer("b", Some(vec![""]))];
    assert_eq!(search(&something, 5).unwrap(), vec![""]);
}

#[test]
fn a_search_without_collections_is_refused() {
    let none: Vec<CollectionAnswer> = Vec::new();
    assert_eq!(
        search(&none, 5).unwrap_err(),
        AppError::InvalidConfiguration("no collection selected".to_string())
    );
    assert!(matches!(search(&none, 0), Err(AppError::InvalidConfiguration(_))));
}

#[test]
fn a_limit_of_zero_gives_nothing() {
    let answers = vec![answer("a", Some(vec!["x", "y"]))];
    assert!(search(&answers, 0).unwrap().is_empty());
}

#[test]
fn passages_come_in_dictionary_order_by_code_point() {
    let pool: Vec<String> =
        ["b", "ab", "a", "", "B", "あ", "ä", "abc", "a\u{10000}", "a\u{ffff}", "😀"]
            .iter()
            .map(|s| s.to_string())
            .collect();
    let mut expected = pool.clone();
    expected.sort();
    assert_eq!(merge_passages(&pool, 100), expected);
    assert_eq!(
        expected,
        vec!["", "B", "a", "ab", "abc", "a\u{ffff}", "a\u{10000}", "b", "ä", "あ", "😀"]
    );
}

#[test]
fn merging_matches_sort_dedup_truncate() {
    let pool: Vec<String> = ["pear", "apple", "fig", "apple", "Pear", "pear", "fig ", "", "apple"]
        .iter()
        .map(|s| s.to_string())
        .collect();
    for limit in 0..8 {
        let mut expected = pool.clone();
        expected.sort();
        expected.dedup();
        expected.truncate(limit);
        assert_eq!(merge_passages(&pool, limit), expected);
    }
}

#[test]
fn passages_that_differ_in_wording_are_both_kept() {
    let pool = vec!["The sky is blue.".to_string(), "the sky is blue.".to_string()];
    assert_eq!(merge_passages(&pool, 5).len(), 2);
}

fn info(name: &str, count: usize) -> CollectionInfo {
    CollectionInfo { name: name.to_string(), count }
}

#[test]
fn collections_are_listed_by_name() {
    let listed = vec![info("pj2", 4), info("root", 1), info("pj1-dir1", 7), info("pj1", 2)];
    let sorted = sort_collections(&listed);
    let seen: Vec<(&str, usize)> = sorted.iter().map(|c| (c.name.as_str(), c.count)).collect();
    assert_eq!(seen, vec![("pj1", 2), ("pj1-dir1", 7), ("pj2", 4), ("root", 1)]);
}

#[test]
fn collections_of_one_name_keep_their_order() {
    let listed = vec![info("b", 1), info("a", 2), info("b", 3), info("a", 4), info("b", 5)];
    let sorted = sort_collections(&listed);
    let seen: Vec<(&str, usize)> = sorted.iter().map(|c| (c.name.as_str(), c.count)).collect();
    assert_eq!(seen, vec![("a", 2), ("a", 4), ("b", 1), ("b", 3), ("b", 5)]);
    assert!(sort_collections(&Vec::new()).is_empty());
}

fn stored(path: &str, created: i64, updated: i64, index: u64) -> serde_json::Map<String, Value> {
    let mut map = serde_json::Map::new();
    map.insert("file_path".to_string(), Value::from(path));
    map.insert("file_created_at".to_string(), Value::from(created));
    map.insert("file_updated_at".to_string(), Value::from(updated));
    map.insert("chunk_index".to_string(), Value::from(index));
    map
}

fn check(document: &Document, id: &str, content: &str, path: &str, index: usize) {
    assert_eq!(document.id, id);
    assert_eq!(document.content, content);
    assert_eq!(document.metadata.file.path, path);
    assert_eq!(document.metadata.chunk.index, index);
}

#[test]
fn stored_documents_are_put_together_place_by_place() {
    let ids = vec!["a.txt-0".to_string(), "a.txt-1".to_string(), "b/c.md-0".to_string()];
    let documents = vec![Some("first".to_string()), None];
    let metadatas = vec![
        Some(stored("a.txt", 10, 20, 0)),
        Some(stored("a.txt", 10, 20, 1)),
        Some(stored("b/c.md", 30, 40, 0)),
        None,
    ];
    let found = get_collection_documents(&ids, &documents, &metadatas);
    assert_eq!(found.len(), 3);
    check(&found[0], "a.txt-0", "first", "a.txt", 0);
    check(&found[1], "a.txt-1", "", "a.txt", 1);
    check(&found[2], "b/c.md-0", "", "b/c.md", 0);
    assert_eq!(found[2].metadata.file.created_at, 30);
    assert_eq!(found[2].metadata.file.updated_at, 40);

    let same = read_collection_documents(&ids, &documents, &metadatas).unwrap();
    assert_eq!(same.len(), 3);
    check(&same[1], "a.txt-1", "", "a.txt", 1);
}

#[test]
fn documents_without_metadata_are_told() {
    let ids = vec!["a.txt-0".to_string(), "a.txt-1".to_string()];
    let documents = vec![Some("first".to_string()), Some("second".to_string())];
    let short = vec![Some(stored("a.txt", 10, 20, 0))];
    assert!(read_collection_documents(&ids, &documents, &short).is_none());
    let missing = vec![Some(stored("a.txt", 10, 20, 0)), None];
    assert!(read_collection_documents(&ids, &documents, &missing).is_none());
    let mut broken = stored("a.txt", 10, 20, 1);
    broken.remove("file_path");
    let wrong = vec![Some(stored("a.txt", 10, 20, 0)), Some(broken)];
    assert!(read_collection_documents(&ids, &documents, &wrong).is_none());
    let none: Vec<String> = Vec::new();
    assert!(read_collection_documents(&none, &documents, &Vec::new()).unwrap().is_empty());
}

#[test]
fn metadata_is_stored_under_four_keys() {
    let document = Document::for_chunk("pj1/a.txt", 3, "text".to_string(), 1_700_000_000, -5);
    let map = document.metadata.to_map();
    assert_eq!(map.len(), 4);
    assert_eq!(map.get("file_path"), Some(&Value::from("pj1/a.txt")));
    assert_eq!(map.get("file_created_at"), Some(&Value::from(1_700_000_000i64)));
    assert_eq!(map.get("file_updated_at"), Some(&Value::from(-5i64)));
    assert_eq!(map.get("chunk_index"), Some(&Value::from(3u64)));
    let written: Value = serde_json::from_str(
        "{\"chunk_index\":3,\"file_created_at\":1700000000,\"file_path\":\"pj1/a.txt\",\"file_updated_at\":-5}",
    )
    .unwrap();
    assert_eq!(Value::Object(map), written);
}

#[test]
fn stored_metadata_is_read_back() {
    for (path, created, updated, index) in [
        ("a.txt", 0i64, 0i64, 0usize),
        ("pj1/dir1/あ.md", i64::MAX, i64::MIN, usize::MAX),
        ("", -1, 1, 12),
    ] {
        let document = Document::for_chunk(path, index, String::new(), created, updated);
        let map = document.metadata.to_map();
        assert!(Metadata::is_stored_in(&map));
        let read = Metadata::read(&map);
        let back = Metadata::from_map(map);
        for metadata in [&read, &back] {
            assert_eq!(metadata.file.path, path);
            assert_eq!(metadata.file.created_at, created);
            assert_eq!(metadata.file.updated_at, updated);
            assert_eq!(metadata.chunk.index, index);
        }
    }
}

#[test]
fn objects_that_hold_no_metadata_are_told() {
    assert!(Metadata::try_from_map(stored("a", 1, 2, 3)).is_some());
    assert!(Metadata::try_from_map(serde_json::Map::new()).is_none());
    for key in ["file_path", "file_created_at", "file_updated_at", "chunk_index"] {
        let mut map = stored("a", 1, 2, 3);
        map.remove(key);
        assert!(Metadata::try_from_map(map).is_none(), "without {}", key);
        let mut map = stored("a", 1, 2, 3);
        map.insert(key.to_string(), Value::Null);
        assert!(!Metadata::is_stored_in(&map), "with null under {}", key);
    }
    let mut text_for_number = stored("a", 1, 2, 3);
    text_for_number.insert("chunk_index".to_string(), Value::from("3"));
    assert!(Metadata::try_from_map(text_for_number).is_none());
    let mut number_for_text = stored("a", 1, 2, 3);
    number_for_text.insert("file_path".to_string(), Value::from(7));
    assert!(Metadata::try_from_map(number_for_text).is_none());
    let mut negative = stored("a", 1, 2, 3);
    negative.insert("chunk_index".to_string(), Value::from(-1));
    assert!(Metadata::try_from_map(negative).is_none());
    let mut fraction = stored("a", 1, 2, 3);
    fraction.insert("file_created_at".to_string(), Value::from(1.5));
    assert!(Metadata::try_from_map(fraction).is_none());
    let mut large = stored("a", 1, 2, 3);
    large.insert("file_updated_at".to_string(), Value::from(u64::MAX));
    assert!(Metadata::try_from_map(large).is_none());
}

#[test]
fn keys_beside_the_four_do_not_matter() {
    let mut map = stored("a/b.txt", 1, 2, 3);
    map.insert("source".to_string(), Value::from("elsewhere"));
    let metadata = Metadata::try_from_map(map).unwrap();
    assert_eq!(metadata.file.path, "a/b.txt");
    assert_eq!(metadata.chunk.index, 3);
}
