use search_engine::ranking::{rank_documents, score_document, segment_score};
use search_engine::storage::Document;

fn words(s: &str) -> Vec<String> {
    s.split_whitespace().map(|w| w.to_string()).collect()
}

fn doc(url: &str, segments: Vec<Vec<String>>) -> Document {
    Document::new(
        url.to_string(),
        url.to_string(),
        "".to_string(),
        segments,
    )
}

#[test]
fn segment_score_exact_value() {
    // query [great, pets] against [cats, are, great, pets]:
    // frequency vectors [1,1,0,0] and [1,1,1,1] give 2/(sqrt(2)*2) scaled
    let q = words("great pets");
    let seg = words("cats are great pets");
    assert_eq!(segment_score(&q, &seg), 707_106);
}

#[test]
fn segment_score_zero_without_overlap() {
    let q = words("query tokens");
    let seg = words("nothing shared here");
    assert_eq!(segment_score(&q, &seg), 0);
}

#[test]
fn document_score_is_mean_of_segments() {
    let q = words("great pets");
    let d = doc(
        "a",
        vec![words("cats are great pets"), words("unrelated things")],
    );
    assert_eq!(score_document(&q, &d), (707_106 + 0) / 2);
}

#[test]
fn document_without_segments_scores_zero() {
    let q = words("anything");
    let d = doc("empty", vec![]);
    assert_eq!(score_document(&q, &d), 0);
}

#[test]
fn rank_orders_by_score_and_truncates() {
    let q = words("great pets");
    let docs = vec![
        doc("weak", vec![words("dogs are great pets too")]),
        doc("strong", vec![words("cats are great pets")]),
        doc("none", vec![words("completely different text")]),
    ];
    let r = rank_documents(&q, docs, 10);
    assert_eq!(r.len(), 2);
    assert_eq!(r[0].url, "strong");
    assert_eq!(r[1].url, "weak");

    let q = words("great pets");
    let docs = vec![
        doc("weak", vec![words("dogs are great pets too")]),
        doc("strong", vec![words("cats are great pets")]),
    ];
    let r = rank_documents(&q, docs, 1);
    assert_eq!(r.len(), 1);
    assert_eq!(r[0].url, "strong");
}

#[test]
fn equal_scores_keep_scan_order() {
    let q = words("pets");
    let docs = vec![
        doc("first", vec![words("pets pets pets")]),
        doc("second", vec![words("pets pets pets")]),
        doc("third", vec![words("pets pets pets")]),
    ];
    let r = rank_documents(&q, docs, 10);
    assert_eq!(r.len(), 3);
    assert_eq!(r[0].url, "first");
    assert_eq!(r[1].url, "second");
    assert_eq!(r[2].url, "third");
}

#[test]
fn zero_limit_returns_nothing() {
    let q = words("pets");
    let docs = vec![doc("a", vec![words("pets")])];
    let r = rank_documents(&q, docs, 0);
    assert_eq!(r.len(), 0);
}
