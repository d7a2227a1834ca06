use search_engine::tokenizer::Tokenizer;

fn tok() -> Tokenizer {
    Tokenizer {
        split_tokens: vec!['-', '(', ')', '_', '.', ',', '/', '\\', '[', ']', '{', '}'],
    }
}

#[test]
fn splits_on_whitespace_and_lowercases() {
    assert_eq!(tok().encode("Cats are Great"), vec!["cats", "are", "great"]);
}

#[test]
fn splits_on_the_punctuation_set() {
    assert_eq!(
        tok().encode("a-b(c)d_e.f,g/h\\i[j]k{l}m"),
        vec!["a", "b", "c", "d", "e", "f", "g", "h", "i", "j", "k", "l", "m"]
    );
}

#[test]
fn drops_fragments_that_normalize_to_empty() {
    assert_eq!(tok().encode("  hello   world  "), vec!["hello", "world"]);
    assert_eq!(tok().encode("a--b"), vec!["a", "b"]);
    assert_eq!(tok().encode(""), Vec::<String>::new());
    assert_eq!(tok().encode("   \t\n"), Vec::<String>::new());
    assert_eq!(tok().encode("-()._,"), Vec::<String>::new());
}

#[test]
fn transliterates_to_ascii() {
    assert_eq!(tok().encode("Café étude"), vec!["cafe", "etude"]);
    assert_eq!(tok().encode("Æneid"), vec!["aeneid"]);
}

#[test]
fn keeps_duplicates_and_order() {
    assert_eq!(tok().encode("b a b b"), vec!["b", "a", "b", "b"]);
}
