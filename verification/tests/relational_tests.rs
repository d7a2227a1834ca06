use search_engine::storage::{Storage, StoreConfig, StoreError};

fn mem_store(name: &str) -> Storage {
    Storage::open(StoreConfig::Relational {
        path: format!("file:{}?mode=memory&cache=shared", name),
    })
    .unwrap()
}

#[test]
fn duplicate_identifier_fails_with_duplicate_key_error() {
    let mut s = mem_store("dup_test");
    s.insert(
        "https://example.com/x".to_string(),
        "T".to_string(),
        "D".to_string(),
        vec!["alpha beta".to_string()],
    )
    .unwrap();
    let e = s
        .insert(
            "https://example.com/x".to_string(),
            "Other".to_string(),
            "Other".to_string(),
            vec!["gamma".to_string()],
        )
        .unwrap_err();
    assert_eq!(e, StoreError::DuplicateKeyError);
    assert_eq!(s.scan_all().unwrap().len(), 1);
}

#[test]
fn relational_insert_scan_and_search() {
    let mut s = mem_store("search_test");
    s.insert(
        "a".to_string(),
        "Cats".to_string(),
        "".to_string(),
        vec!["cats are great pets".to_string()],
    )
    .unwrap();
    s.insert(
        "b".to_string(),
        "Dogs".to_string(),
        "".to_string(),
        vec!["dogs are great pets too".to_string()],
    )
    .unwrap();

    let docs = s.scan_all().unwrap();
    assert_eq!(docs.len(), 2);

    let r = s.search("cats".to_string(), 10).unwrap();
    assert_eq!(r.len(), 1);
    assert_eq!(r[0].url, "a");
    assert_eq!(r[0].title, "Cats");

    let r = s.search("great pets".to_string(), 10).unwrap();
    assert_eq!(r.len(), 2);
    assert_eq!(r[0].url, "a");
    assert_eq!(r[1].url, "b");
}

#[test]
fn relational_roundtrip_preserves_tokens() {
    let mut s = mem_store("roundtrip_test");
    s.insert(
        "a".to_string(),
        "T".to_string(),
        "D".to_string(),
        vec!["Cats are GREAT".to_string(), "dogs-too".to_string()],
    )
    .unwrap();
    let docs = s.scan_all().unwrap();
    assert_eq!(docs.len(), 1);
    assert_eq!(docs[0].description, "D");
    assert_eq!(
        docs[0].segments(),
        &vec![
            vec!["cats".to_string(), "are".to_string(), "great".to_string()],
            vec!["dogs".to_string(), "too".to_string()],
        ]
    );
}
