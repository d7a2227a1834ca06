use search_engine::storage::{Storage, StoreConfig};
use search_engine::tokenizer::Tokenizer;

fn kv_store() -> Storage {
    Storage::open(StoreConfig::KeyValue).unwrap()
}

#[test]
fn scenario_cats_and_dogs() {
    let mut s = kv_store();
    s.insert(
        "a".to_string(),
        "Cats".to_string(),
        "".to_string(),
        vec!["cats are great pets".to_string()],
    )
    .unwrap();
    s.insert(
        "b".to_string(),
        "Dogs".to_string(),
        "".to_string(),
        vec!["dogs are great pets too".to_string()],
    )
    .unwrap();

    let r = s.search("cats".to_string(), 10).unwrap();
    assert_eq!(r.len(), 1);
    assert_eq!(r[0].url, "a");

    let r = s.search("great pets".to_string(), 10).unwrap();
    assert_eq!(r.len(), 2);
    assert_eq!(r[0].url, "a");
    assert_eq!(r[1].url, "b");
}

#[test]
fn empty_query_returns_nothing() {
    let mut s = kv_store();
    s.insert(
        "a".to_string(),
        "Cats".to_string(),
        "".to_string(),
        vec!["cats are great pets".to_string()],
    )
    .unwrap();
    assert_eq!(s.search("".to_string(), 10).unwrap().len(), 0);
    assert_eq!(s.search("   \t ".to_string(), 10).unwrap().len(), 0);
}

#[test]
fn key_value_backend_allows_duplicates() {
    let mut s = kv_store();
    s.insert(
        "same".to_string(),
        "Twice".to_string(),
        "d".to_string(),
        vec!["alpha beta".to_string()],
    )
    .unwrap();
    s.insert(
        "same".to_string(),
        "Twice".to_string(),
        "d".to_string(),
        vec!["alpha beta".to_string()],
    )
    .unwrap();
    let docs = s.scan_all().unwrap();
    assert_eq!(docs.len(), 2);
    assert_eq!(docs[0].url, "same");
    assert_eq!(docs[1].url, "same");
}

#[test]
fn tokens_roundtrip_through_store() {
    let mut s = kv_store();
    let segments = vec!["Cats are GREAT".to_string(), "dogs-too".to_string()];
    s.insert(
        "a".to_string(),
        "T".to_string(),
        "D".to_string(),
        segments.clone(),
    )
    .unwrap();
    let docs = s.scan_all().unwrap();
    assert_eq!(docs.len(), 1);

    let tok = Tokenizer {
        split_tokens: vec!['-', '(', ')', '_', '.', ',', '/', '\\', '[', ']', '{', '}'],
    };
    let expected: Vec<Vec<String>> = segments.iter().map(|t| tok.encode(t)).collect();
    assert_eq!(docs[0].segments(), &expected);
    assert_eq!(
        docs[0].segments(),
        &vec![
            vec!["cats".to_string(), "are".to_string(), "great".to_string()],
            vec!["dogs".to_string(), "too".to_string()],
        ]
    );
}

#[test]
fn limit_truncates_to_best_matches() {
    let mut s = kv_store();
    s.insert(
        "a".to_string(),
        "A".to_string(),
        "".to_string(),
        vec!["pets".to_string()],
    )
    .unwrap();
    s.insert(
        "b".to_string(),
        "B".to_string(),
        "".to_string(),
        vec!["pets pets other words here".to_string()],
    )
    .unwrap();
    s.insert(
        "c".to_string(),
        "C".to_string(),
        "".to_string(),
        vec!["pets and more".to_string()],
    )
    .unwrap();
    let r = s.search("pets".to_string(), 2).unwrap();
    assert_eq!(r.len(), 2);
    // the exact match scores highest and is never truncated away
    assert_eq!(r[0].url, "a");
}

#[test]
fn document_without_shared_token_is_excluded() {
    let mut s = kv_store();
    s.insert(
        "a".to_string(),
        "A".to_string(),
        "".to_string(),
        vec!["cats".to_string(), "totally unrelated block".to_string()],
    )
    .unwrap();
    s.insert(
        "b".to_string(),
        "B".to_string(),
        "".to_string(),
        vec!["dogs only".to_string()],
    )
    .unwrap();
    let r = s.search("cats".to_string(), 10).unwrap();
    assert_eq!(r.len(), 1);
    assert_eq!(r[0].url, "a");
}

#[test]
fn every_candidate_appears_when_limit_is_large() {
    let mut s = kv_store();
    for i in 0..5 {
        s.insert(
            format!("u{}", i),
            format!("T{}", i),
            "".to_string(),
            vec![format!("shared word plus number{}", i)],
        )
        .unwrap();
    }
    let r = s.search("shared".to_string(), 100).unwrap();
    assert_eq!(r.len(), 5);
}
