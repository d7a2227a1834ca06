//! Text normalization into ordered token sequences.
//!
//! A text is split on Unicode whitespace and on a fixed set of punctuation
//! characters; every fragment is transliterated to ASCII and lowercased.
//! Fragments that normalize to the empty string (for instance between two
//! consecutive delimiters) are dropped, so every emitted token is a
//! non-empty, lowercased, ASCII string.  The same policy applies to
//! document ingestion and to query tokenization.

use vstd::prelude::*;

verus! {

/// The character is in the ASCII range.
pub open spec fn is_ascii_char(c: char) -> bool {
    c as u32 <= 127
}

/// The character has the Unicode `White_Space` property.
pub open spec fn spec_is_space(c: char) -> bool {
    let u = c as u32;
    u == 0x09 || u == 0x0A || u == 0x0B || u == 0x0C || u == 0x0D || u == 0x20 || u == 0x85 || u
        == 0xA0 || u == 0x1680 || (0x2000 <= u && u <= 0x200A) || u == 0x2028 || u == 0x2029 || u
        == 0x202F || u == 0x205F || u == 0x3000
}

/// The character ends a fragment: whitespace or one of the split set.
pub open spec fn is_split_char(seps: Seq<char>, c: char) -> bool {
    spec_is_space(c) || seps.contains(c)
}

/// The fragments of `s` between split characters, in order.  Splitting the
/// empty text yields one empty fragment, and every split character closes
/// the current fragment and opens a new one, as `str::split` does.
pub open spec fn spec_split(seps: Seq<char>, s: Seq<char>) -> Seq<Seq<char>>
    decreases s.len(),
{
    if s.len() == 0 {
        seq![Seq::<char>::empty()]
    } else {
        let r = spec_split(seps, s.drop_last());
        if is_split_char(seps, s.last()) {
            r.push(Seq::<char>::empty())
        } else {
            r.update(r.len() - 1, r.last().push(s.last()))
        }
    }
}

/// The ASCII transliteration of a character sequence, as computed by the
/// `unidecode` crate; named here, not restated.
pub uninterp spec fn ascii_of(s: Seq<char>) -> Seq<char>;

/// The ASCII lowercase mapping of one character.
pub open spec fn spec_lower_char(c: char) -> char {
    let u = c as u32;
    if 65 <= u && u <= 90 {
        ((u + 32) as char)
    } else {
        c
    }
}

/// The ASCII lowercase mapping of a character sequence.
pub open spec fn spec_lower(s: Seq<char>) -> Seq<char> {
    s.map_values(|c: char| spec_lower_char(c))
}

/// The character is an ASCII upper-case letter.
pub open spec fn is_upper_char(c: char) -> bool {
    65 <= c as u32 && c as u32 <= 90
}

/// Every character of the token is ASCII and not an upper-case letter.
pub open spec fn token_chars_ok(t: Seq<char>) -> bool {
    forall|i: int| 0 <= i < t.len() ==> is_ascii_char(#[trigger] t[i]) && !is_upper_char(t[i])
}

/// A fragment after normalization: transliterated to ASCII, then lowercased.
pub open spec fn spec_normalize(f: Seq<char>) -> Seq<char> {
    spec_lower(ascii_of(f))
}

/// The tokens obtained from a fragment sequence: each fragment normalized,
/// empty results dropped.
pub open spec fn spec_tokens_from(frags: Seq<Seq<char>>) -> Seq<Seq<char>> {
    frags.map_values(|f: Seq<char>| spec_normalize(f)).filter(|t: Seq<char>| t.len() != 0)
}

/// The ordered tokens of a text: split, normalize, drop empty fragments.
pub open spec fn spec_tokenize(seps: Seq<char>, s: Seq<char>) -> Seq<Seq<char>> {
    spec_tokens_from(spec_split(seps, s))
}

/// The tokens of an all-ASCII text.  Transliteration maps ASCII to itself,
/// so no transliteration step appears: split, lowercase, drop empties.
pub open spec fn spec_tokenize_ascii(seps: Seq<char>, s: Seq<char>) -> Seq<Seq<char>> {
    spec_split(seps, s).map_values(|f: Seq<char>| spec_lower(f)).filter(
        |t: Seq<char>| t.len() != 0,
    )
}

/// Relies on `unidecode::unidecode`: the result is an ASCII transliteration
/// of the input.  Its documentation guarantees that the returned string is
/// pure ASCII, that it depends on the input characters alone, and that every
/// ASCII character is mapped to itself.
#[verifier::external_body]
fn transliterate(s: &str) -> (r: String)
    ensures
        r@ == ascii_of(s@),
        forall|i: int| 0 <= i < r@.len() ==> is_ascii_char(#[trigger] r@[i]),
        (forall|i: int| 0 <= i < s@.len() ==> is_ascii_char(#[trigger] s@[i])) ==> r@ == s@,
{
    unidecode::unidecode(s)
}

/// Relies on `str::to_ascii_lowercase`: ASCII upper-case letters are mapped
/// to their lower-case counterpart and every other character is unchanged.
#[verifier::external_body]
fn ascii_lowercase(s: &str) -> (r: String)
    ensures
        r@ == spec_lower(s@),
{
    s.to_ascii_lowercase()
}

fn is_space_char(c: char) -> (r: bool)
    ensures
        r == spec_is_space(c),
{
    let u = c as u32;
    u == 0x09 || u == 0x0A || u == 0x0B || u == 0x0C || u == 0x0D || u == 0x20 || u == 0x85 || u
        == 0xA0 || u == 0x1680 || (0x2000 <= u && u <= 0x200A) || u == 0x2028 || u == 0x2029 || u
        == 0x202F || u == 0x205F || u == 0x3000
}

/// Every split yields at least one fragment.
proof fn lemma_split_len(seps: Seq<char>, s: Seq<char>)
    ensures
        spec_split(seps, s).len() >= 1,
    decreases s.len(),
{
    if s.len() > 0 {
        lemma_split_len(seps, s.drop_last());
    }
}

proof fn lemma_tokens_from_empty()
    ensures
        spec_tokens_from(Seq::<Seq<char>>::empty()) == Seq::<Seq<char>>::empty(),
{
    reveal(Seq::filter);
    assert(Seq::<Seq<char>>::empty().map_values(|f: Seq<char>| spec_normalize(f))
        =~= Seq::<Seq<char>>::empty());
}

proof fn lemma_tokens_from_push(frags: Seq<Seq<char>>, f: Seq<char>)
    ensures
        spec_tokens_from(frags.push(f)) == if spec_normalize(f).len() != 0 {
            spec_tokens_from(frags).push(spec_normalize(f))
        } else {
            spec_tokens_from(frags)
        },
{
    reveal(Seq::filter);
    let norm = |x: Seq<char>| spec_normalize(x);
    let m = frags.push(f).map_values(norm);
    assert(m.drop_last() =~= frags.map_values(norm));
    assert(m.last() == spec_normalize(f));
    assert(m.len() > 0);
}

/// The fixed punctuation set on which every store splits its texts.
pub open spec fn standard_split_tokens() -> Seq<char> {
    seq!['-', '(', ')', '_', '.', ',', '/', '\\', '[', ']', '{', '}']
}

/// Splits raw text on whitespace and a fixed punctuation set, and
/// normalizes each fragment to a lowercased ASCII token.
pub struct Tokenizer {
    pub split_tokens: Vec<char>,
}

impl Tokenizer {
    fn is_split(&self, c: char) -> (r: bool)
        ensures
            r == is_split_char(self.split_tokens@, c),
    {
        if is_space_char(c) {
            return true;
        }
        let n = self.split_tokens.len();
        let mut i: usize = 0;
        while i < n
            invariant
                i <= n,
                n == self.split_tokens@.len(),
                forall|j: int| 0 <= j < i ==> self.split_tokens@[j] != c,
            decreases n - i,
        {
            if self.split_tokens[i] == c {
                return true;
            }
            i = i + 1;
        }
        false
    }

    /// The ordered normalized tokens of `text`: total, never failing, and
    /// independent of any stored state.  Every token is non-empty, ASCII
    /// and free of upper-case letters, and on an all-ASCII text the result
    /// is the split itself, lowercased, with empty fragments dropped.
    pub fn encode(&self, text: &str) -> (r: Vec<String>)
        ensures
            r.deep_view() == spec_tokenize(self.split_tokens@, text@),
            forall|k: int|
                0 <= k < r.deep_view().len() ==> (#[trigger] r.deep_view()[k]).len() != 0
                    && token_chars_ok(r.deep_view()[k]),
            (forall|i: int| 0 <= i < text@.len() ==> is_ascii_char(#[trigger] text@[i]))
                ==> r.deep_view() == spec_tokenize_ascii(self.split_tokens@, text@),
    {
        let ghost seps = self.split_tokens@;
        let ghost ascii_text = forall|j: int| 0 <= j < text@.len() ==> is_ascii_char(#[trigger] text@[j]);
        let n = text.unicode_len();
        let mut tokens: Vec<String> = Vec::new();
        let ghost mut closed = Seq::<Seq<char>>::empty();
        let mut start: usize = 0;
        let mut i: usize = 0;
        proof {
            assert(text@.take(0) =~= Seq::<char>::empty());
            assert(text@.subrange(0, 0) =~= Seq::<char>::empty());
            assert(spec_split(seps, text@.take(0)) =~= closed.push(text@.subrange(0, 0)));
            lemma_tokens_from_empty();
            assert(tokens.deep_view() =~= spec_tokens_from(closed));
        }
        while i < n
            invariant
                i <= n,
                start <= i,
                n == text@.len(),
                seps == self.split_tokens@,
                ascii_text == (forall|j: int|
                    0 <= j < text@.len() ==> is_ascii_char(#[trigger] text@[j])),
                spec_split(seps, text@.take(i as int)) == closed.push(
                    text@.subrange(start as int, i as int),
                ),
                tokens.deep_view() == spec_tokens_from(closed),
                forall|k: int|
                    0 <= k < tokens.deep_view().len() ==> (#[trigger] tokens.deep_view()[k]).len()
                        != 0 && token_chars_ok(tokens.deep_view()[k]),
                ascii_text ==> forall|j: int|
                    0 <= j < closed.len() ==> spec_normalize(#[trigger] closed[j]) == spec_lower(
                        closed[j],
                    ),
            decreases n - i,
        {
            let c = text.get_char(i);
            let ghost prefix = text@.take(i as int);
            let ghost cur = text@.subrange(start as int, i as int);
            proof {
                assert(text@.take(i as int + 1).drop_last() =~= prefix);
                assert(text@.take(i as int + 1).last() == c);
                lemma_split_len(seps, prefix);
            }
            if self.is_split(c) {
                let frag = text.substring_char(start, i);
                proof {
                    if ascii_text {
                        assert forall|m: int| 0 <= m < frag@.len() implies is_ascii_char(
                            #[trigger] frag@[m],
                        ) by {
                            assert(frag@[m] == text@[start as int + m]);
                        }
                    }
                }
                push_token(&mut tokens, frag);
                proof {
                    assert(spec_split(seps, text@.take(i as int + 1)) =~= closed.push(cur).push(
                        Seq::<char>::empty(),
                    ));
                    lemma_tokens_from_push(closed, cur);
                    closed = closed.push(cur);
                    assert(text@.subrange(i as int + 1, i as int + 1) =~= Seq::<char>::empty());
                }
                start = i + 1;
            } else {
                proof {
                    let r = spec_split(seps, prefix);
                    assert(r.last() == cur);
                    assert(r.update(r.len() - 1, cur.push(c)) =~= closed.push(cur.push(c)));
                    assert(cur.push(c) =~= text@.subrange(start as int, i as int + 1));
                }
            }
            i = i + 1;
        }
        proof {
            assert(text@.take(n as int) =~= text@);
        }
        let frag = text.substring_char(start, n);
        proof {
            if ascii_text {
                assert forall|m: int| 0 <= m < frag@.len() implies is_ascii_char(
                    #[trigger] frag@[m],
                ) by {
                    assert(frag@[m] == text@[start as int + m]);
                }
            }
        }
        push_token(&mut tokens, frag);
        proof {
            lemma_tokens_from_push(closed, text@.subrange(start as int, n as int));
            if ascii_text {
                let split = spec_split(seps, text@);
                assert(split == closed.push(frag@));
                assert forall|j: int| 0 <= j < split.len() implies spec_normalize(
                    #[trigger] split[j],
                ) == spec_lower(split[j]) by {
                    if j < closed.len() {
                        assert(split[j] == closed[j]);
                    } else {
                        assert(split[j] == frag@);
                    }
                }
                assert(split.map_values(|f: Seq<char>| spec_normalize(f)) =~= split.map_values(
                    |f: Seq<char>| spec_lower(f),
                ));
            }
        }
        tokens
    }
}

fn push_token(tokens: &mut Vec<String>, frag: &str)
    ensures
        final (tokens).deep_view() == if spec_normalize(frag@).len() != 0 {
            old(tokens).deep_view().push(spec_normalize(frag@))
        } else {
            old(tokens).deep_view()
        },
        (forall|i: int| 0 <= i < frag@.len() ==> is_ascii_char(#[trigger] frag@[i]))
            ==> spec_normalize(frag@) == spec_lower(frag@),
        token_chars_ok(spec_normalize(frag@)),
{
    let t = transliterate(frag);
    let low = ascii_lowercase(t.as_str());
    proof {
        let norm = spec_normalize(frag@);
        assert forall|i: int| 0 <= i < norm.len() implies is_ascii_char(#[trigger] norm[i])
            && !is_upper_char(norm[i]) by {
            assert(norm[i] == spec_lower_char(ascii_of(frag@)[i]));
            assert(is_ascii_char(ascii_of(frag@)[i]));
        }
    }
    if !low.as_str().is_empty() {
        tokens.push(low);
        proof {
            assert(tokens.deep_view() =~~= old(tokens).deep_view().push(spec_normalize(frag@)));
        }
    }
}

} // verus!
