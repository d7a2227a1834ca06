//! The query engine: candidate filtering, per-segment scoring, ranking.
//!
//! A document qualifies as a candidate when any query token occurs in any
//! of its segments (an OR over all tokens and segments).  Each candidate is
//! scored per segment: the joint vocabulary of the query and the segment is
//! enumerated in order of first occurrence, two integer term-frequency
//! vectors are built over it, and their fixed-point cosine similarity is
//! taken; the document's score is the arithmetic mean of its segment
//! similarities (0 for a document without segments).  Candidates are
//! returned in non-increasing score order, truncated to the requested
//! limit, with ties broken by scan order.

use crate::similarity::{
    cosine_similarity, dot, int_view, lemma_dot_nonneg, lemma_dot_self_nonneg, lemma_dot_self_zero,
    spec_cosine, MAX_DIMENSIONS, MAX_MAGNITUDE, SCALE,
};
use crate::storage::Document;
use vstd::arithmetic::div_mod::{lemma_div_is_ordered, lemma_div_pos_is_pos};
use vstd::prelude::*;

verus! {

/// Most tokens of the query and of one segment that take part in one
/// similarity computation; later tokens do not contribute to the score.
pub const TOKEN_CAP: usize = 5_000;

/// The token sequence, shortened to the scoring cap.
pub open spec fn capped(s: Seq<Seq<char>>) -> Seq<Seq<char>> {
    if s.len() <= TOKEN_CAP as int {
        s
    } else {
        s.take(TOKEN_CAP as int)
    }
}

/// Occurrences of token `t` in `s`.
pub open spec fn count_tok(t: Seq<char>, s: Seq<Seq<char>>) -> int
    decreases s.len(),
{
    if s.len() == 0 {
        0
    } else {
        count_tok(t, s.drop_last()) + if s.last() == t {
            1int
        } else {
            0int
        }
    }
}

/// The distinct elements of `s`, in order of first occurrence.
pub open spec fn distinct_in_order(s: Seq<Seq<char>>) -> Seq<Seq<char>>
    decreases s.len(),
{
    if s.len() == 0 {
        Seq::<Seq<char>>::empty()
    } else {
        let r = distinct_in_order(s.drop_last());
        if r.contains(s.last()) {
            r
        } else {
            r.push(s.last())
        }
    }
}

/// The joint vocabulary of the query and one segment, both capped.
pub open spec fn joint_vocab(q: Seq<Seq<char>>, s: Seq<Seq<char>>) -> Seq<Seq<char>> {
    distinct_in_order(capped(q) + capped(s))
}

/// The integer term-frequency vector of `s` over vocabulary `v`.
pub open spec fn freq_vector(v: Seq<Seq<char>>, s: Seq<Seq<char>>) -> Seq<int> {
    v.map_values(|t: Seq<char>| count_tok(t, s))
}

/// The similarity of one segment to the query: the fixed-point cosine
/// similarity of the two term-frequency vectors over the joint vocabulary.
pub open spec fn spec_segment_score(q: Seq<Seq<char>>, s: Seq<Seq<char>>) -> int {
    let v = joint_vocab(q, s);
    spec_cosine(freq_vector(v, capped(q)), freq_vector(v, capped(s)))
}

/// The sum of the segment similarities of a document.
pub open spec fn sum_scores(q: Seq<Seq<char>>, segs: Seq<Seq<Seq<char>>>) -> int
    decreases segs.len(),
{
    if segs.len() == 0 {
        0
    } else {
        sum_scores(q, segs.drop_last()) + spec_segment_score(q, segs.last())
    }
}

/// The score of a document: the arithmetic mean of its segment
/// similarities, 0 for a document without segments.
pub open spec fn spec_doc_score(q: Seq<Seq<char>>, segs: Seq<Seq<Seq<char>>>) -> int {
    if segs.len() == 0 {
        0
    } else {
        sum_scores(q, segs) / (segs.len() as int)
    }
}

/// The document shares at least one token with the query, in any segment.
pub open spec fn is_candidate(q: Seq<Seq<char>>, segs: Seq<Seq<Seq<char>>>) -> bool {
    exists|i: int, j: int| 0 <= i < q.len() && 0 <= j < segs.len() && segs[j].contains(q[i])
}

/// The candidate test, on a stored document.
pub open spec fn doc_is_candidate(q: Seq<Seq<char>>, d: Document) -> bool {
    is_candidate(q, d.tokens())
}

/// The score, on a stored document.
pub open spec fn doc_score(q: Seq<Seq<char>>, d: Document) -> int {
    spec_doc_score(q, d.tokens())
}

/// The candidates among `docs`, in scan order.
pub open spec fn candidates(q: Seq<Seq<char>>, docs: Seq<Document>) -> Seq<Document> {
    docs.filter(|d: Document| doc_is_candidate(q, d))
}

/// A query with no token has no candidate.
pub proof fn lemma_empty_query_no_candidates(q: Seq<Seq<char>>, docs: Seq<Document>)
    requires
        q.len() == 0,
    ensures
        candidates(q, docs).len() == 0,
    decreases docs.len(),
{
    reveal(Seq::filter);
    if docs.len() > 0 {
        lemma_empty_query_no_candidates(q, docs.drop_last());
    }
}

proof fn lemma_candidates_push(q: Seq<Seq<char>>, s: Seq<Document>, d: Document)
    ensures
        candidates(q, s.push(d)) == if doc_is_candidate(q, d) {
            candidates(q, s).push(d)
        } else {
            candidates(q, s)
        },
{
    reveal(Seq::filter);
    assert(s.push(d).drop_last() =~= s);
    assert(s.push(d).last() == d);
}

proof fn lemma_candidates_empty(q: Seq<Seq<char>>)
    ensures
        candidates(q, Seq::<Document>::empty()).len() == 0,
{
    reveal(Seq::filter);
}

/// Every member of the candidate list passes the candidate test.
pub proof fn lemma_candidates_are_candidates(q: Seq<Seq<char>>, docs: Seq<Document>, d: Document)
    requires
        candidates(q, docs).contains(d),
    ensures
        doc_is_candidate(q, d),
    decreases docs.len(),
{
    reveal(Seq::filter);
    if docs.len() == 0 {
    } else {
        let prev = candidates(q, docs.drop_last());
        if doc_is_candidate(q, docs.last()) {
            assert(candidates(q, docs) == prev.push(docs.last()));
            if d != docs.last() {
                let k = choose|k: int|
                    0 <= k < candidates(q, docs).len() && candidates(q, docs)[k] == d;
                assert(prev[k] == d);
                lemma_candidates_are_candidates(q, docs.drop_last(), d);
            }
        } else {
            lemma_candidates_are_candidates(q, docs.drop_last(), d);
        }
    }
}

/// Every member of the candidate list is one of the scanned documents.
pub proof fn lemma_candidates_subset(q: Seq<Seq<char>>, docs: Seq<Document>, d: Document)
    requires
        candidates(q, docs).contains(d),
    ensures
        exists|i: int| 0 <= i < docs.len() && docs[i] == d,
    decreases docs.len(),
{
    reveal(Seq::filter);
    if docs.len() == 0 {
    } else {
        let prev = candidates(q, docs.drop_last());
        if d == docs.last() {
            assert(docs[docs.len() - 1] == d);
        } else {
            if doc_is_candidate(q, docs.last()) {
                assert(candidates(q, docs) == prev.push(docs.last()));
                let k = choose|k: int|
                    0 <= k < candidates(q, docs).len() && candidates(q, docs)[k] == d;
                assert(prev[k] == d);
            }
            lemma_candidates_subset(q, docs.drop_last(), d);
            let i = choose|i: int| 0 <= i < docs.drop_last().len() && docs.drop_last()[i] == d;
            assert(docs[i] == d);
        }
    }
}

proof fn lemma_distinct_len(s: Seq<Seq<char>>)
    ensures
        distinct_in_order(s).len() <= s.len(),
    decreases s.len(),
{
    if s.len() > 0 {
        lemma_distinct_len(s.drop_last());
    }
}

proof fn lemma_count_tok_bound(t: Seq<char>, s: Seq<Seq<char>>)
    ensures
        0 <= count_tok(t, s) <= s.len(),
    decreases s.len(),
{
    if s.len() > 0 {
        lemma_count_tok_bound(t, s.drop_last());
    }
}

fn segment_contains(seg: &Vec<String>, tok: &String) -> (r: bool)
    ensures
        r == seg.deep_view().contains(tok@),
{
    let n = seg.len();
    let mut j: usize = 0;
    while j < n
        invariant
            j <= n,
            n == seg@.len(),
            forall|k: int| 0 <= k < j ==> seg.deep_view()[k] != tok@,
        decreases n - j,
    {
        if seg[j] == *tok {
            assert(seg.deep_view()[j as int] == tok@);
            return true;
        }
        j = j + 1;
    }
    false
}

fn push_if_absent(v: &mut Vec<String>, tok: &String)
    ensures
        final (v).deep_view() == if old(v).deep_view().contains(tok@) {
            old(v).deep_view()
        } else {
            old(v).deep_view().push(tok@)
        },
{
    let n = v.len();
    let mut j: usize = 0;
    while j < n
        invariant
            j <= n,
            n == v@.len(),
            forall|k: int| 0 <= k < j ==> v.deep_view()[k] != tok@,
        decreases n - j,
    {
        if v[j] == *tok {
            assert(v.deep_view()[j as int] == tok@);
            return ;
        }
        j = j + 1;
    }
    let t = tok.clone();
    v.push(t);
    proof {
        assert(v.deep_view() =~~= old(v).deep_view().push(tok@));
    }
}

fn build_vocab(q: &Vec<String>, qcap: usize, seg: &Vec<String>, scap: usize) -> (v: Vec<String>)
    requires
        qcap <= q@.len(),
        scap <= seg@.len(),
    ensures
        v.deep_view() == distinct_in_order(
            q.deep_view().take(qcap as int) + seg.deep_view().take(scap as int),
        ),
        v@.len() <= qcap + scap,
{
    let ghost qd = q.deep_view().take(qcap as int);
    let ghost sd = seg.deep_view().take(scap as int);
    let mut v: Vec<String> = Vec::new();
    let mut i: usize = 0;
    proof {
        assert((qd + sd).take(0) =~= Seq::<Seq<char>>::empty());
        assert(v.deep_view() =~= distinct_in_order(Seq::<Seq<char>>::empty()));
    }
    while i < qcap
        invariant
            i <= qcap,
            qcap <= q@.len(),
            scap <= seg@.len(),
            qd == q.deep_view().take(qcap as int),
            sd == seg.deep_view().take(scap as int),
            v.deep_view() == distinct_in_order((qd + sd).take(i as int)),
        decreases qcap - i,
    {
        proof {
            assert((qd + sd).take(i as int + 1).drop_last() =~= (qd + sd).take(i as int));
            assert((qd + sd).take(i as int + 1).last() == q.deep_view()[i as int]);
        }
        push_if_absent(&mut v, &q[i]);
        i = i + 1;
    }
    let mut j: usize = 0;
    while j < scap
        invariant
            j <= scap,
            qcap <= q@.len(),
            scap <= seg@.len(),
            qd == q.deep_view().take(qcap as int),
            sd == seg.deep_view().take(scap as int),
            v.deep_view() == distinct_in_order((qd + sd).take(qcap as int + j as int)),
        decreases scap - j,
    {
        proof {
            assert((qd + sd).take(qcap as int + j as int + 1).drop_last() =~= (qd + sd).take(
                qcap as int + j as int,
            ));
            assert((qd + sd).take(qcap as int + j as int + 1).last() == seg.deep_view()[j as int]);
        }
        push_if_absent(&mut v, &seg[j]);
        j = j + 1;
    }
    proof {
        assert((qd + sd).take(qcap as int + scap as int) =~= qd + sd);
        lemma_distinct_len(qd + sd);
    }
    v
}

fn count_in_prefix(s: &Vec<String>, cap: usize, tok: &String) -> (c: usize)
    requires
        cap <= s@.len(),
    ensures
        c as int == count_tok(tok@, s.deep_view().take(cap as int)),
        c <= cap,
{
    let mut c: usize = 0;
    let mut j: usize = 0;
    proof {
        assert(s.deep_view().take(0) =~= Seq::<Seq<char>>::empty());
    }
    while j < cap
        invariant
            j <= cap,
            cap <= s@.len(),
            c as int == count_tok(tok@, s.deep_view().take(j as int)),
            c <= j,
        decreases cap - j,
    {
        proof {
            assert(s.deep_view().take(j as int + 1).drop_last() =~= s.deep_view().take(j as int));
            assert(s.deep_view().take(j as int + 1).last() == s.deep_view()[j as int]);
        }
        if s[j] == *tok {
            c = c + 1;
        }
        j = j + 1;
    }
    c
}

fn freq_vec(vocab: &Vec<String>, s: &Vec<String>, cap: usize) -> (r: Vec<i64>)
    requires
        cap <= s@.len(),
        cap <= TOKEN_CAP,
    ensures
        int_view(r@) == freq_vector(vocab.deep_view(), s.deep_view().take(cap as int)),
        r@.len() == vocab@.len(),
        forall|k: int| 0 <= k < r@.len() ==> 0 <= #[trigger] r@[k] <= cap as int,
{
    let ghost sv = s.deep_view().take(cap as int);
    let n = vocab.len();
    let mut r: Vec<i64> = Vec::new();
    let mut i: usize = 0;
    while i < n
        invariant
            i <= n,
            n == vocab@.len(),
            cap <= s@.len(),
            cap <= TOKEN_CAP,
            sv == s.deep_view().take(cap as int),
            r@.len() == i,
            int_view(r@) =~= freq_vector(vocab.deep_view().take(i as int), sv),
            forall|k: int| 0 <= k < r@.len() ==> 0 <= #[trigger] r@[k] <= cap as int,
        decreases n - i,
    {
        let c = count_in_prefix(s, cap, &vocab[i]);
        let ghost prev = r@;
        r.push(c as i64);
        proof {
            let vd = vocab.deep_view();
            assert forall|k: int| 0 <= k < i as int + 1 implies int_view(r@)[k] == freq_vector(
                vd.take(i as int + 1),
                sv,
            )[k] by {
                if k < i as int {
                    assert(int_view(r@)[k] == int_view(prev)[k]);
                    assert(int_view(prev)[k] == freq_vector(vd.take(i as int), sv)[k]);
                } else {
                    assert(int_view(r@)[k] == c as int);
                    assert(vd.take(i as int + 1)[k] == vd[i as int]);
                }
            }
            assert(int_view(r@) =~= freq_vector(vd.take(i as int + 1), sv));
        }
        i = i + 1;
    }
    proof {
        assert(vocab.deep_view().take(n as int) =~= vocab.deep_view());
        assert(int_view(r@) =~= freq_vector(vocab.deep_view(), sv));
    }
    r
}

/// The similarity of one segment to the query, in parts per million.
pub fn segment_score(q: &Vec<String>, seg: &Vec<String>) -> (r: i64)
    ensures
        r as int == spec_segment_score(q.deep_view(), seg.deep_view()),
        0 <= r as int <= SCALE as int,
{
    let qcap = if q.len() > TOKEN_CAP {
        TOKEN_CAP
    } else {
        q.len()
    };
    let scap = if seg.len() > TOKEN_CAP {
        TOKEN_CAP
    } else {
        seg.len()
    };
    proof {
        assert(q.deep_view().take(qcap as int) =~= capped(q.deep_view()));
        assert(seg.deep_view().take(scap as int) =~= capped(seg.deep_view()));
    }
    let vocab = build_vocab(q, qcap, seg, scap);
    let qf = freq_vec(&vocab, q, qcap);
    let sf = freq_vec(&vocab, seg, scap);
    let r = cosine_similarity(&qf, &sf);
    proof {
        let a = int_view(qf@);
        let b = int_view(sf@);
        assert(forall|k: int| 0 <= k < a.len() ==> #[trigger] a[k] >= 0);
        assert(forall|k: int| 0 <= k < b.len() ==> #[trigger] b[k] >= 0);
        lemma_dot_nonneg(a, b);
        if dot(a, b) != 0 {
            lemma_dot_self_nonneg(a);
            lemma_dot_self_nonneg(b);
            if dot(a, a) == 0 {
                lemma_dot_self_zero(a, b);
            }
            if dot(b, b) == 0 {
                crate::similarity::lemma_dot_symmetric(a, b);
                lemma_dot_self_zero(b, a);
            }
            let na = dot(a, a);
            let nb = dot(b, b);
            let s = SCALE as int;
            let prod = na * nb * s * s;
            assert(na * nb * s * s >= s * s) by (nonlinear_arith)
                requires
                    na >= 1 && nb >= 1 && s >= 1,
            ;
            crate::similarity::lemma_sqrt_floor_exists(prod);
            let den = crate::similarity::sqrt_floor(prod);
            assert(den >= 1) by (nonlinear_arith)
                requires
                    0 <= den && prod < (den + 1) * (den + 1) && prod >= 1,
            ;
            lemma_div_pos_is_pos((vstd::math::abs(dot(a, b)) as int) * s * s, den);
        }
    }
    r
}

/// The score of a document against the query: the mean of its segment
/// similarities, in parts per million.  Each segment similarity reads at
/// most the first `TOKEN_CAP` tokens of the query and of the segment.
pub fn score_document(q: &Vec<String>, d: &Document) -> (r: i64)
    ensures
        r as int == doc_score(q.deep_view(), *d),
        0 <= r as int <= SCALE as int,
{
    let segs = d.segments();
    let m = segs.len();
    if m == 0 {
        return 0;
    }
    let ghost qd = q.deep_view();
    let ghost sd = segs.deep_view();
    let mut sum: u128 = 0;
    let mut i: usize = 0;
    proof {
        assert(sd.take(0) =~= Seq::<Seq<Seq<char>>>::empty());
    }
    while i < m
        invariant
            i <= m,
            m == segs@.len(),
            qd == q.deep_view(),
            sd == segs.deep_view(),
            sd == d.tokens(),
            sum as int == sum_scores(qd, sd.take(i as int)),
            sum <= (i as u128) * (SCALE as u128),
        decreases m - i,
    {
        proof {
            assert(sd.take(i as int + 1).drop_last() =~= sd.take(i as int));
            assert(sd.take(i as int + 1).last() == sd[i as int]);
        }
        let s = segment_score(q, &segs[i]);
        proof {
            assert((i as int) * (SCALE as int) + SCALE as int == (i as int + 1) * (SCALE as int))
                by (nonlinear_arith);
            assert((i as int + 1) * (SCALE as int) <= (m as int) * (SCALE as int))
                by (nonlinear_arith)
                requires
                    i as int + 1 <= m as int && 0 < SCALE as int,
            ;
            assert((m as int) * (SCALE as int) <= u128::MAX) by (nonlinear_arith)
                requires
                    m as int <= usize::MAX as int,
            ;
        }
        sum = sum + (s as u128);
        i = i + 1;
    }
    proof {
        assert(sd.take(m as int) =~= sd);
    }
    let avg: u128 = sum / (m as u128);
    proof {
        lemma_div_pos_is_pos(sum as int, m as int);
        assert(sum as int <= (m as int) * (SCALE as int)) by (nonlinear_arith)
            requires
                sum as int <= (m as int) * (SCALE as int),
        ;
        lemma_div_is_ordered(sum as int, (m as int) * (SCALE as int), m as int);
        assert((m as int) * (SCALE as int) / (m as int) == SCALE as int) by (nonlinear_arith)
            requires
                0 < m as int,
        ;
    }
    avg as i64
}

/// A scored candidate, used only to order documents before truncation.
struct SearchResult {
    document: Document,
    similarity: i64,
}

spec fn docs_of(s: Seq<SearchResult>) -> Seq<Document> {
    s.map_values(|c: SearchResult| c.document)
}

spec fn holds_doc(s: Seq<SearchResult>, d: Document) -> bool {
    exists|j: int| 0 <= j < s.len() && s[j].document == d
}

/// Whether the document shares a token with the query: the disjunctive
/// candidate filter, an OR over all query tokens and all segments.
pub fn is_candidate_doc(q: &Vec<String>, d: &Document) -> (r: bool)
    ensures
        r == doc_is_candidate(q.deep_view(), *d),
{
    let segs = d.segments();
    let qn = q.len();
    let sn = segs.len();
    let ghost qd = q.deep_view();
    let ghost sd = d.tokens();
    let mut i: usize = 0;
    while i < qn
        invariant
            i <= qn,
            qn == q@.len(),
            sn == segs@.len(),
            qd == q.deep_view(),
            sd == d.tokens(),
            segs.deep_view() == sd,
            forall|ii: int, jj: int|
                0 <= ii < i && 0 <= jj < sd.len() ==> !(#[trigger] sd[jj].contains(qd[ii])),
        decreases qn - i,
    {
        let mut j: usize = 0;
        while j < sn
            invariant
                j <= sn,
                i < qn,
                qn == q@.len(),
                sn == segs@.len(),
                qd == q.deep_view(),
                sd == d.tokens(),
                segs.deep_view() == sd,
                forall|jj: int| 0 <= jj < j ==> !(#[trigger] sd[jj].contains(qd[i as int])),
            decreases sn - j,
        {
            if segment_contains(&segs[j], &q[i]) {
                assert(sd[j as int].contains(qd[i as int]));
                return true;
            }
            j = j + 1;
        }
        i = i + 1;
    }
    false
}

/// Ranks the candidate documents by non-increasing score and truncates to
/// `limit`.  The result holds exactly `min(limit, number of candidates)`
/// documents, each one a candidate; every candidate is either in the
/// result or scored no higher than everything in it, and when all
/// candidates fit within `limit`, every candidate appears.
pub fn rank_documents(query: &Vec<String>, docs: Vec<Document>, limit: usize) -> (r: Vec<Document>)
    ensures
        r@.len() == vstd::math::min(
            limit as int,
            candidates(query.deep_view(), docs@).len() as int,
        ),
        forall|k: int|
            0 <= k < r@.len() ==> candidates(query.deep_view(), docs@).contains(#[trigger] r@[k]),
        forall|k1: int, k2: int|
            0 <= k1 < k2 < r@.len() ==> doc_score(query.deep_view(), #[trigger] r@[k1]) >= doc_score(
                query.deep_view(),
                #[trigger] r@[k2],
            ),
        forall|i: int|
            0 <= i < docs@.len() && doc_is_candidate(query.deep_view(), #[trigger] docs@[i])
                ==> r@.contains(docs@[i]) || (forall|k: int|
                0 <= k < r@.len() ==> doc_score(query.deep_view(), #[trigger] r@[k]) >= doc_score(
                    query.deep_view(),
                    docs@[i],
                )),
        candidates(query.deep_view(), docs@).len() <= limit as int ==> (forall|i: int|
            0 <= i < docs@.len() && doc_is_candidate(query.deep_view(), #[trigger] docs@[i])
                ==> r@.contains(docs@[i])),
{
    let ghost qd = query.deep_view();
    let ghost orig = docs@;
    let mut docs = docs;
    let mut cands: Vec<SearchResult> = Vec::new();
    let ghost mut done = Seq::<Document>::empty();
    proof {
        lemma_candidates_empty(qd);
        assert(docs_of(cands@) =~= candidates(qd, done));
        assert(orig =~= done + docs@);
    }
    while docs.len() > 0
        invariant
            qd == query.deep_view(),
            orig == done + docs@,
            docs_of(cands@) == candidates(qd, done),
            forall|j: int|
                0 <= j < cands@.len() ==> (#[trigger] cands@[j]).similarity as int == doc_score(
                    qd,
                    cands@[j].document,
                ),
        decreases docs@.len(),
    {
        let ghost pre = docs@;
        let d = docs.remove(0);
        proof {
            assert(done.push(d) + docs@ =~= done + pre);
            lemma_candidates_push(qd, done, d);
        }
        if is_candidate_doc(query, &d) {
            let s = score_document(query, &d);
            let ghost prev = cands@;
            cands.push(SearchResult { document: d, similarity: s });
            proof {
                assert(docs_of(cands@) =~= docs_of(prev).push(d));
            }
        }
        proof {
            done = done.push(d);
        }
    }
    proof {
        assert(orig =~= done);
    }
    let ghost cset = candidates(qd, orig);
    proof {
        assert forall|j: int| 0 <= j < cands@.len() implies cset.contains(
            (#[trigger] cands@[j]).document,
        ) by {
            assert(docs_of(cands@)[j] == cands@[j].document);
            assert(cset[j] == cands@[j].document);
        }
        assert forall|i: int|
            0 <= i < orig.len() && doc_is_candidate(qd, #[trigger] orig[i]) implies holds_doc(
            cands@,
            orig[i],
        ) by {
            orig.lemma_filter_contains(|dd: Document| doc_is_candidate(qd, dd), i);
            let j = choose|j: int| 0 <= j < cset.len() && cset[j] == orig[i];
            assert(docs_of(cands@)[j] == orig[i]);
            assert(cands@[j].document == orig[i]);
        }
    }
    let mut out: Vec<SearchResult> = Vec::new();
    while cands.len() > 0 && out.len() < limit
        invariant
            qd == query.deep_view(),
            cset == candidates(qd, orig),
            out@.len() + cands@.len() == cset.len(),
            out@.len() <= limit,
            forall|j: int|
                0 <= j < cands@.len() ==> (#[trigger] cands@[j]).similarity as int == doc_score(
                    qd,
                    cands@[j].document,
                ) && cset.contains(cands@[j].document),
            forall|k: int|
                0 <= k < out@.len() ==> (#[trigger] out@[k]).similarity as int == doc_score(
                    qd,
                    out@[k].document,
                ) && cset.contains(out@[k].document),
            forall|k1: int, k2: int|
                0 <= k1 < k2 < out@.len() ==> (#[trigger] out@[k1]).similarity >= (
                #[trigger] out@[k2]).similarity,
            forall|k: int, j: int|
                0 <= k < out@.len() && 0 <= j < cands@.len() ==> (#[trigger] out@[k]).similarity
                    >= (#[trigger] cands@[j]).similarity,
            forall|i: int|
                0 <= i < orig.len() && doc_is_candidate(qd, #[trigger] orig[i]) ==> docs_of(
                    out@,
                ).contains(orig[i]) || holds_doc(cands@, orig[i]),
        decreases cands@.len(),
    {
        let n = cands.len();
        let mut m: usize = 0;
        let mut j: usize = 1;
        while j < n
            invariant
                m < j <= n,
                n == cands@.len(),
                forall|jj: int|
                    0 <= jj < j ==> (#[trigger] cands@[jj]).similarity <= cands@[m as int].similarity,
            decreases n - j,
        {
            if cands[j].similarity > cands[m].similarity {
                m = j;
            }
            j = j + 1;
        }
        let ghost pre = cands@;
        let ghost preout = out@;
        let best = cands.remove(m);
        out.push(best);
        proof {
            assert(docs_of(out@) =~= docs_of(preout).push(best.document));
            assert forall|jj: int| 0 <= jj < cands@.len() implies #[trigger] cands@[jj] == (if jj
                < m as int {
                pre[jj]
            } else {
                pre[jj + 1]
            }) by {}
            assert forall|i: int|
                0 <= i < orig.len() && doc_is_candidate(qd, #[trigger] orig[i]) implies docs_of(
                out@,
            ).contains(orig[i]) || holds_doc(cands@, orig[i]) by {
                if docs_of(preout).contains(orig[i]) {
                    let k = choose|k: int|
                        0 <= k < docs_of(preout).len() && docs_of(preout)[k] == orig[i];
                    assert(docs_of(out@)[k] == orig[i]);
                } else if holds_doc(pre, orig[i]) {
                    let jj = choose|jj: int| 0 <= jj < pre.len() && pre[jj].document == orig[i];
                    if jj == m as int {
                        assert(docs_of(out@)[out@.len() - 1] == orig[i]);
                    } else if jj < m as int {
                        assert(cands@[jj].document == orig[i]);
                    } else {
                        assert(cands@[jj - 1].document == orig[i]);
                    }
                }
            }
        }
    }
    let ghost outseq = out@;
    let mut r: Vec<Document> = Vec::new();
    while out.len() > 0
        invariant
            r@.len() + out@.len() == outseq.len(),
            r@ == docs_of(outseq).take(r@.len() as int),
            out@ == outseq.skip(r@.len() as int),
        decreases out@.len(),
    {
        let ghost pre = out@;
        let ghost rpre = r@;
        let first = out.remove(0);
        r.push(first.document);
        proof {
            assert(first == outseq[rpre.len() as int]);
            assert(r@ =~= docs_of(outseq).take(r@.len() as int));
            assert(out@ =~= outseq.skip(r@.len() as int));
        }
    }
    proof {
        assert(r@ =~= docs_of(outseq));
        assert(forall|k: int| 0 <= k < r@.len() ==> #[trigger] r@[k] == outseq[k].document);
        assert forall|i: int|
            0 <= i < orig.len() && doc_is_candidate(qd, #[trigger] orig[i]) && docs_of(
                outseq,
            ).contains(orig[i]) implies r@.contains(orig[i]) by {
            let k = choose|k: int| 0 <= k < docs_of(outseq).len() && docs_of(outseq)[k] == orig[i];
            assert(r@[k] == orig[i]);
        }
    }
    r
}

} // verus!
