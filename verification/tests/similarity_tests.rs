use search_engine::cosine_similarity;

#[test]
fn self_similarity_is_exactly_one() {
    let v: Vec<i64> = vec![1, 2, 3];
    assert_eq!(cosine_similarity(&v, &v), 1_000_000);
    let w: Vec<i64> = vec![7];
    assert_eq!(cosine_similarity(&w, &w), 1_000_000);
    let x: Vec<i64> = vec![0, 0, 5, 0];
    assert_eq!(cosine_similarity(&x, &x), 1_000_000);
}

#[test]
fn similarity_is_symmetric() {
    let a: Vec<i64> = vec![3, 4];
    let b: Vec<i64> = vec![4, 3];
    assert_eq!(cosine_similarity(&a, &b), cosine_similarity(&b, &a));
    assert_eq!(cosine_similarity(&a, &b), 960_000);
    let c: Vec<i64> = vec![1, 0, 2];
    let d: Vec<i64> = vec![0, 5, 1];
    assert_eq!(cosine_similarity(&c, &d), cosine_similarity(&d, &c));
}

#[test]
fn zero_dot_product_gives_exact_zero() {
    let a: Vec<i64> = vec![1, 0];
    let b: Vec<i64> = vec![0, 1];
    assert_eq!(cosine_similarity(&a, &b), 0);
    let c: Vec<i64> = vec![1, -1];
    let d: Vec<i64> = vec![1, 1];
    assert_eq!(cosine_similarity(&c, &d), 0);
    let z: Vec<i64> = vec![0, 0];
    assert_eq!(cosine_similarity(&z, &z), 0);
}

#[test]
fn known_quotients() {
    let a: Vec<i64> = vec![1, 0];
    let b: Vec<i64> = vec![1, 1];
    assert_eq!(cosine_similarity(&a, &b), 707_107);
    let c: Vec<i64> = vec![1, 1];
    let d: Vec<i64> = vec![2, 2];
    assert_eq!(cosine_similarity(&c, &d), 1_000_000);
}

#[test]
fn opposite_vectors_score_negative_one() {
    let a: Vec<i64> = vec![-1, -2];
    let b: Vec<i64> = vec![1, 2];
    assert_eq!(cosine_similarity(&a, &b), -1_000_000);
}
