//! The document store: one contract, two interchangeable backends.
//!
//! The relational backend keeps documents in one SQLite table keyed by the
//! natural identifier (the URL) with a uniqueness constraint, so inserting
//! a duplicate identifier fails with `DuplicateKeyError`.  The key-value
//! backend keeps records in process memory under a freshly generated unique
//! id per insert, so duplicates by natural identifier are silently allowed
//! and create independent records.  Both serialize the tokenized segments
//! with the same compact binary codec before the write.  A stored payload
//! that does not decode during a scan surfaces as a skipped record rather
//! than aborting the scan or the process.

use crate::ranking::{
    candidates, doc_is_candidate, doc_score, is_candidate, lemma_candidates_are_candidates,
    lemma_candidates_subset, lemma_empty_query_no_candidates, rank_documents,
};
use crate::tokenizer::{spec_tokenize, standard_split_tokens, Tokenizer};
use vstd::prelude::*;
use vstd::string::StringExecFns;

verus! {

/// A stored document: natural identifier, display fields, and the
/// tokenized text segments.
#[derive(Clone, Debug)]
pub struct Document {
    pub url: String,
    pub title: String,
    pub description: String,
    pub texts_tokenized: Vec<Vec<String>>,
}

impl Document {
    /// The token sequences of the document, one per ingested segment.
    pub open spec fn tokens(&self) -> Seq<Seq<Seq<char>>> {
        self.texts_tokenized.deep_view()
    }

    pub fn new(url: String, title: String, description: String, texts_tokenized: Vec<Vec<String>>) -> (d:
        Document)
        ensures
            d.url == url,
            d.title == title,
            d.description == description,
            d.tokens() == texts_tokenized.deep_view(),
    {
        Document { url, title, description, texts_tokenized }
    }

    /// The stored token sequences, one per ingested text segment.
    pub fn segments(&self) -> (r: &Vec<Vec<String>>)
        ensures
            r.deep_view() == self.tokens(),
    {
        &self.texts_tokenized
    }
}

/// The failures a store operation can surface.
#[derive(Clone, Copy, Debug, PartialEq, Eq, Structural)]
pub enum StoreError {
    /// The storage location or parameters are unusable.
    ConfigurationError,
    /// The backing table could not be created.
    SchemaInitError,
    /// The relational backend refused a duplicate natural key.
    DuplicateKeyError,
    /// A record could not be serialized before the write.
    SerializationError,
    /// A stored payload is malformed or version-incompatible.
    DeserializationError,
    /// The underlying storage failed.
    IoError,
    /// No pooled handle could be obtained.
    PoolExhaustionError,
}

/// The byte encoding that postcard gives to a value of `Vec<Vec<String>>`:
/// an ordered sequence of ordered sequences of length-prefixed UTF-8
/// strings.  Named here, not restated.
pub uninterp spec fn texts_encoding(t: Seq<Seq<Seq<char>>>) -> Seq<u8>;

/// Relies on `postcard::to_allocvec`: the encoding of a value is a function
/// of the value alone.
#[verifier::external_body]
fn encode_texts(texts: &Vec<Vec<String>>) -> (r: Option<Vec<u8>>)
    ensures
        r is Some ==> (r->Some_0)@ == texts_encoding(texts.deep_view()),
{
    postcard::to_allocvec(texts).ok()
}

/// Relies on `postcard::from_bytes`: deserialization is the exact inverse
/// of `to_allocvec`, so a payload that is the encoding of some value
/// decodes to exactly that value.
#[verifier::external_body]
fn decode_texts(bytes: &Vec<u8>) -> (r: Option<Vec<Vec<String>>>)
    ensures
        forall|t: Seq<Seq<Seq<char>>>|
            bytes@ == #[trigger] texts_encoding(t) ==> r is Some && (r->Some_0).deep_view() == t,
{
    postcard::from_bytes::<Vec<Vec<String>>>(bytes.as_slice()).ok()
}

/// Holds the pooled SQLite handle of the relational backend.  The pool is
/// a value of the outside crates and opaque to verification; every use of
/// it goes through the trusted functions below.
#[verifier::external_body]
struct RelPool {
    pool: r2d2::Pool<r2d2_sqlite::SqliteConnectionManager>,
}

/// One raw row read back from the relational table.
struct ScanRow {
    url: String,
    title: String,
    description: String,
    payload: Vec<u8>,
}

/// Relies on `SqliteConnectionManager::file`, `r2d2::Pool::new`,
/// `Pool::get` and `Connection::execute`: opens (or creates) the database
/// at `path` and creates the documents table if it is missing.  The
/// outcome depends on the state of the disk; nothing is assumed of it.
#[verifier::external_body]
fn rel_open(path: &String) -> Result<RelPool, StoreError> {
    let manager = r2d2_sqlite::SqliteConnectionManager::file(path.as_str());
    let pool = r2d2::Pool::new(manager).map_err(|_| StoreError::ConfigurationError)?;
    let conn = pool.get().map_err(|_| StoreError::PoolExhaustionError)?;
    conn.execute(
        "CREATE TABLE IF NOT EXISTS documents (url TEXT PRIMARY KEY, title TEXT NOT NULL, description TEXT, texts BLOB)",
        (),
    ).map_err(|_| StoreError::SchemaInitError)?;
    Ok(RelPool { pool })
}

/// Relies on `Pool::get` and `Connection::execute`: inserts one row; the
/// uniqueness constraint on the url column reports a duplicate natural key
/// as a constraint violation, mapped to `DuplicateKeyError`.  The outcome
/// depends on the state of the disk; nothing is assumed of it.
#[verifier::external_body]
fn rel_insert(
    pool: &RelPool,
    url: &String,
    title: &String,
    description: &String,
    payload: &Vec<u8>,
) -> Result<(), StoreError> {
    let conn = pool.pool.get().map_err(|_| StoreError::PoolExhaustionError)?;
    let res = conn.execute(
        "INSERT INTO documents (url, title, description, texts) VALUES (?1, ?2, ?3, ?4)",
        (url, title, description, payload),
    );
    match res {
        Ok(_) => Ok(()),
        Err(rusqlite::Error::SqliteFailure(f, _)) => match f.code {
            rusqlite::ErrorCode::ConstraintViolation => Err(StoreError::DuplicateKeyError),
            _ => Err(StoreError::IoError),
        },
        Err(_) => Err(StoreError::IoError),
    }
}

/// Relies on `Pool::get`, `Connection::prepare` and `Statement::query_map`:
/// reads every row of the documents table.  The rows and their order
/// depend on the state of the disk; nothing is assumed of them.
#[verifier::external_body]
fn rel_scan(pool: &RelPool) -> Result<Vec<ScanRow>, StoreError> {
    let conn = pool.pool.get().map_err(|_| StoreError::PoolExhaustionError)?;
    let mut stmt = conn.prepare("SELECT url, title, description, texts FROM documents").map_err(
        |_| StoreError::IoError,
    )?;
    let rows = stmt.query_map([], |r| {
        Ok(ScanRow { url: r.get(0)?, title: r.get(1)?, description: r.get(2)?, payload: r.get(3)? })
    }).map_err(|_| StoreError::IoError)?;
    let mut out = Vec::new();
    for row in rows {
        out.push(row.map_err(|_| StoreError::IoError)?);
    }
    Ok(out)
}

/// The document carries exactly the row's display fields.
spec fn row_matches(row: ScanRow, d: Document) -> bool {
    d.url@ == row.url@ && d.title@ == row.title@ && d.description@ == row.description@
}

/// The indices `sel` pick rows in strictly increasing order, one per
/// returned document, and each picked row's fields stand in its document.
spec fn sel_ok(rows: Seq<ScanRow>, docs: Seq<Document>, sel: Seq<int>) -> bool {
    &&& sel.len() == docs.len()
    &&& forall|k: int| 0 <= k < sel.len() ==> 0 <= #[trigger] sel[k] < rows.len()
    &&& forall|k1: int, k2: int| 0 <= k1 < k2 < sel.len() ==> sel[k1] < sel[k2]
    &&& forall|k: int| 0 <= k < sel.len() ==> row_matches(rows[#[trigger] sel[k]], docs[k])
}

/// Turns scanned rows into documents, keeping their relative order: every
/// row whose payload is the encoding of some token sequences yields a
/// document with that row's fields and exactly those tokens, and every
/// document comes from one row.  A row whose payload does not decode is
/// the skipped corrupt record.
fn decode_rows(rows: Vec<ScanRow>) -> (r: Vec<Document>)
    ensures
        exists|sel: Seq<int>| sel_ok(rows@, r@, sel),
        forall|i: int, t: Seq<Seq<Seq<char>>>|
            #![trigger texts_encoding(t), rows@[i]]
            0 <= i < rows@.len() && rows@[i].payload@ == texts_encoding(t) ==> exists|k: int|
                0 <= k < r@.len() && row_matches(rows@[i], #[trigger] r@[k]) && r@[k].tokens() == t,
{
    let ghost rows0 = rows@;
    let mut rows = rows;
    let mut docs: Vec<Document> = Vec::new();
    let ghost mut sel = Seq::<int>::empty();
    let ghost mut processed: int = 0;
    proof {
        assert(rows@ =~= rows0.skip(0));
    }
    while rows.len() > 0
        invariant
            0 <= processed,
            processed + rows@.len() == rows0.len(),
            rows@ == rows0.skip(processed),
            sel_ok(rows0, docs@, sel),
            forall|k: int| 0 <= k < sel.len() ==> #[trigger] sel[k] < processed,
            forall|i2: int, t: Seq<Seq<Seq<char>>>|
                #![trigger texts_encoding(t), rows0[i2]]
                0 <= i2 < processed && rows0[i2].payload@ == texts_encoding(t)
                    ==> exists|k: int|
                    0 <= k < docs@.len() && row_matches(rows0[i2], #[trigger] docs@[k])
                        && docs@[k].tokens() == t,
        decreases rows@.len(),
    {
        let row = rows.remove(0);
        let ghost rowg = row;
        let ghost prevdocs = docs@;
        proof {
            assert(rowg == rows0[processed]);
            assert(rows@ =~= rows0.skip(processed + 1));
            assert(processed + 1 <= rows0.len());
        }
        match decode_texts(&row.payload) {
            Some(texts) => {
                let ghost texts_g = texts.deep_view();
                docs.push(Document::new(row.url, row.title, row.description, texts));
                proof {
                    sel = sel.push(processed);
                    assert(row_matches(rows0[processed], docs@.last()));
                    assert(docs@.last().tokens() == texts_g);
                    assert forall|i2: int, t: Seq<Seq<Seq<char>>>|
                        #![trigger texts_encoding(t), rows0[i2]]
                        0 <= i2 < processed + 1 && rows0[i2].payload@ == texts_encoding(t)
                            implies exists|k: int|
                            0 <= k < docs@.len() && row_matches(rows0[i2], #[trigger] docs@[k])
                                && docs@[k].tokens() == t by {
                        if i2 == processed {
                            assert(texts_g == t);
                            assert(docs@[docs@.len() - 1].tokens() == t);
                            assert(row_matches(rows0[i2], docs@[docs@.len() - 1]));
                        } else {
                            let k = choose|k: int|
                                0 <= k < prevdocs.len() && row_matches(rows0[i2], prevdocs[k])
                                    && prevdocs[k].tokens() == t;
                            assert(docs@[k] == prevdocs[k]);
                            assert(row_matches(rows0[i2], docs@[k]) && docs@[k].tokens() == t);
                        }
                    }
                }
            },
            None => {
                proof {
                    assert forall|i2: int, t: Seq<Seq<Seq<char>>>|
                        #![trigger texts_encoding(t), rows0[i2]]
                        0 <= i2 < processed + 1 && rows0[i2].payload@ == texts_encoding(t)
                            implies exists|k: int|
                            0 <= k < docs@.len() && row_matches(rows0[i2], #[trigger] docs@[k])
                                && docs@[k].tokens() == t by {
                        if i2 == processed {
                            assert(rowg.payload@ == texts_encoding(t));
                            assert(false);
                        } else {
                            let k = choose|k: int|
                                0 <= k < prevdocs.len() && row_matches(rows0[i2], prevdocs[k])
                                    && prevdocs[k].tokens() == t;
                            assert(row_matches(rows0[i2], docs@[k]) && docs@[k].tokens() == t);
                        }
                    }
                }
            },
        }
        proof {
            processed = processed + 1;
        }
    }
    proof {
        assert(sel_ok(rows0, docs@, sel));
    }
    docs
}

/// One record of the in-memory key-value backend: a generated unique key,
/// the natural identifier and display fields, the serialized payload, and
/// the tokens the payload encodes.
pub struct KvRecord {
    pub key: u128,
    pub url: String,
    pub title: String,
    pub description: String,
    pub payload: Vec<u8>,
    pub tokens: Ghost<Seq<Seq<Seq<char>>>>,
}

/// The key-value backend: a flat in-memory keyspace keyed by a freshly
/// generated unique id per insert.
struct KvStore {
    records: Vec<KvRecord>,
}

impl KvStore {
    /// Every payload is the encoding of the tokens recorded beside it, and
    /// keys are generation order, hence unique.
    spec fn wf(&self) -> bool {
        forall|i: int|
            0 <= i < self.records@.len() ==> (#[trigger] self.records@[i]).payload@
                == texts_encoding(self.records@[i].tokens@) && self.records@[i].key == i as u128
    }
}

/// Where a store keeps its documents.
pub enum StoreConfig {
    /// The SQLite table in the database file at this path.
    Relational { path: String },
    /// The in-memory key-value store.
    KeyValue,
}

enum Backend {
    Relational(RelPool),
    KeyValue(KvStore),
}

/// The tokens of each text under the standard tokenizer, one token
/// sequence per text.
pub open spec fn tokenized(texts: Seq<Seq<char>>) -> Seq<Seq<Seq<char>>> {
    texts.map_values(|t: Seq<char>| spec_tokenize(standard_split_tokens(), t))
}

/// The tokens of a query string under the standard tokenizer.
pub open spec fn query_tokens(q: Seq<char>) -> Seq<Seq<char>> {
    spec_tokenize(standard_split_tokens(), q)
}

/// The stored records whose tokens share a token with the query.
pub open spec fn kv_candidates(q: Seq<Seq<char>>, recs: Seq<KvRecord>) -> Seq<KvRecord> {
    recs.filter(|rec: KvRecord| is_candidate(q, rec.tokens@))
}

/// The document carries exactly the record's fields and tokens.
pub open spec fn doc_matches_record(d: Document, rec: KvRecord) -> bool {
    d.url@ == rec.url@ && d.title@ == rec.title@ && d.description@ == rec.description@
        && d.tokens() == rec.tokens@
}

/// The document stands for one of the stored records, and that record
/// shares a token with the query.
pub open spec fn doc_has_record(q: Seq<Seq<char>>, recs: Seq<KvRecord>, d: Document) -> bool {
    exists|i: int|
        #![trigger recs[i]]
        0 <= i < recs.len() && doc_matches_record(d, recs[i]) && is_candidate(q, recs[i].tokens@)
}

/// Every document in `docs` stands for one of the stored records, and
/// that record shares a token with the query.
pub open spec fn docs_from_records(
    q: Seq<Seq<char>>,
    recs: Seq<KvRecord>,
    docs: Seq<Document>,
) -> bool {
    forall|k: int| 0 <= k < docs.len() ==> doc_has_record(q, recs, #[trigger] docs[k])
}

/// Documents aligned token-for-token with stored records have as many
/// candidates as the records do.
proof fn lemma_candidate_count_aligned(
    q: Seq<Seq<char>>,
    docs: Seq<Document>,
    recs: Seq<KvRecord>,
)
    requires
        docs.len() == recs.len(),
        forall|i: int| 0 <= i < docs.len() ==> (#[trigger] docs[i]).tokens() == recs[i].tokens@,
    ensures
        candidates(q, docs).len() == kv_candidates(q, recs).len(),
    decreases docs.len(),
{
    reveal(Seq::filter);
    if docs.len() > 0 {
        assert forall|i: int| 0 <= i < docs.drop_last().len() implies (#[trigger] docs.drop_last()[i]).tokens()
            == recs.drop_last()[i].tokens@ by {
            assert(docs.drop_last()[i] == docs[i]);
            assert(recs.drop_last()[i] == recs[i]);
        }
        lemma_candidate_count_aligned(q, docs.drop_last(), recs.drop_last());
        assert(docs[docs.len() - 1].tokens() == recs[docs.len() - 1].tokens@);
    }
}

/// A persistent document store with a swappable backend, shared by
/// ingestion and query callers.
pub struct Storage {
    tokenizer: Tokenizer,
    backend: Backend,
}

impl Storage {
    /// The store is well formed: its tokenizer splits on the standard set,
    /// and a key-value backend keeps payloads in step with their tokens.
    pub closed spec fn wf(&self) -> bool {
        &&& self.tokenizer.split_tokens@ == standard_split_tokens()
        &&& match self.backend {
            Backend::KeyValue(kv) => kv.wf(),
            Backend::Relational(_) => true,
        }
    }

    /// The store uses the key-value backend.
    pub closed spec fn is_key_value(&self) -> bool {
        self.backend is KeyValue
    }

    /// The records of the key-value backend, in insertion order.
    pub closed spec fn kv_records(&self) -> Seq<KvRecord> {
        match self.backend {
            Backend::KeyValue(kv) => kv.records@,
            Backend::Relational(_) => Seq::empty(),
        }
    }

    /// Opens a store over the configured backend; fails with a
    /// configuration, pool or schema error when the relational backing
    /// table cannot be reached or created.
    pub fn open(config: StoreConfig) -> (r: Result<Storage, StoreError>)
        ensures
            r is Ok ==> (r->Ok_0).wf(),
            r is Ok ==> ((r->Ok_0).is_key_value() <==> config is KeyValue),
            config is KeyValue ==> r is Ok && (r->Ok_0).kv_records().len() == 0,
    {
        let tokenizer = Tokenizer {
            split_tokens: vec!['-', '(', ')', '_', '.', ',', '/', '\\', '[', ']', '{', '}'],
        };
        proof {
            assert(tokenizer.split_tokens@ =~= standard_split_tokens());
        }
        match config {
            StoreConfig::Relational { path } => {
                let pool = match rel_open(&path) {
                    Ok(pool) => pool,
                    Err(e) => {
                        return Err(e);
                    },
                };
                Ok(Storage { tokenizer, backend: Backend::Relational(pool) })
            },
            StoreConfig::KeyValue => {
                Ok(Storage { tokenizer, backend: Backend::KeyValue(KvStore { records: Vec::new() }) })
            },
        }
    }

    /// Opens the default relational store in the `storage.db` file.
    pub fn new() -> (r: Result<Storage, StoreError>)
        ensures
            r is Ok ==> (r->Ok_0).wf(),
            r is Ok ==> !(r->Ok_0).is_key_value(),
    {
        Storage::open(StoreConfig::Relational { path: String::from_str("storage.db") })
    }

    /// Tokenizes each text independently and persists one document.  On
    /// the key-value backend a fresh unique key is generated, so the same
    /// content can be inserted twice and yields two records; the
    /// relational backend rejects a duplicate url with `DuplicateKeyError`.
    pub fn insert(&mut self, url: String, title: String, description: String, texts: Vec<String>) -> (r:
        Result<(), StoreError>)
        requires
            old(self).wf(),
        ensures
            final (self).wf(),
            final (self).is_key_value() == old(self).is_key_value(),
            old(self).is_key_value() && r is Ok ==> {
                &&& final (self).kv_records() == old(self).kv_records().push(
                    final (self).kv_records().last(),
                )
                &&& final (self).kv_records().last().url@ == url@
                &&& final (self).kv_records().last().title@ == title@
                &&& final (self).kv_records().last().description@ == description@
                &&& final (self).kv_records().last().tokens@ == tokenized(texts.deep_view())
            },
            old(self).is_key_value() && r is Err ==> r == Err::<(), StoreError>(
                StoreError::SerializationError,
            ) && final (self).kv_records() == old(self).kv_records(),
    {
        let ghost seps = standard_split_tokens();
        let n = texts.len();
        let mut texts_tokenized: Vec<Vec<String>> = Vec::new();
        let mut i: usize = 0;
        proof {
            assert(texts_tokenized.deep_view() =~= tokenized(texts.deep_view().take(0)));
        }
        while i < n
            invariant
                i <= n,
                n == texts@.len(),
                self == old(self),
                old(self).wf(),
                seps == standard_split_tokens(),
                texts_tokenized.deep_view() == tokenized(texts.deep_view().take(i as int)),
            decreases n - i,
        {
            let text = &texts[i];
            let toks = self.tokenizer.encode(text.as_str());
            proof {
                assert(self.tokenizer.split_tokens@ == seps);
                assert(text@ == texts.deep_view()[i as int]);
                assert(toks.deep_view() == spec_tokenize(seps, texts.deep_view()[i as int]));
            }
            let ghost prev = texts_tokenized.deep_view();
            texts_tokenized.push(toks);
            proof {
                assert(texts_tokenized.deep_view() =~~= prev.push(
                    spec_tokenize(seps, texts.deep_view()[i as int]),
                ));
                assert(texts_tokenized.deep_view() =~~= tokenized(
                    texts.deep_view().take(i as int + 1),
                ));
            }
            i = i + 1;
        }
        proof {
            assert(texts.deep_view().take(n as int) =~= texts.deep_view());
        }
        let payload = match encode_texts(&texts_tokenized) {
            Some(p) => p,
            None => {
                return Err(StoreError::SerializationError);
            },
        };
        match &mut self.backend {
            Backend::Relational(pool) => rel_insert(pool, &url, &title, &description, &payload),
            Backend::KeyValue(kv) => {
                let key = kv.records.len() as u128;
                let rec = KvRecord {
                    key,
                    url,
                    title,
                    description,
                    payload,
                    tokens: Ghost(texts_tokenized.deep_view()),
                };
                kv.records.push(rec);
                Ok(())
            },
        }
    }

    /// Reads every stored document; order is backend-defined.  On the
    /// key-value backend the scan is exact: one document per record, with
    /// the very token sequences that were serialized at insertion.  A
    /// relational record whose payload does not decode is skipped.
    pub fn scan_all(&self) -> (r: Result<Vec<Document>, StoreError>)
        requires
            self.wf(),
        ensures
            self.is_key_value() ==> r is Ok && (r->Ok_0)@.len() == self.kv_records().len() && (
            forall|i: int|
                0 <= i < self.kv_records().len() ==> ((#[trigger] (r->Ok_0)@[i]).url@
                    == self.kv_records()[i].url@ && (r->Ok_0)@[i].title@
                    == self.kv_records()[i].title@ && (r->Ok_0)@[i].description@
                    == self.kv_records()[i].description@ && (r->Ok_0)@[i].tokens()
                    == self.kv_records()[i].tokens@)),
    {
        match &self.backend {
            Backend::Relational(pool) => {
                let rows = match rel_scan(pool) {
                    Ok(rows) => rows,
                    Err(e) => {
                        return Err(e);
                    },
                };
                Ok(decode_rows(rows))
            },
            Backend::KeyValue(kv) => {
                let n = kv.records.len();
                let mut docs: Vec<Document> = Vec::new();
                let mut i: usize = 0;
                while i < n
                    invariant
                        i <= n,
                        n == kv.records@.len(),
                        kv.wf(),
                        docs@.len() == i,
                        forall|j: int|
                            0 <= j < i ==> ((#[trigger] docs@[j]).url@ == kv.records@[j].url@
                                && docs@[j].title@ == kv.records@[j].title@
                                && docs@[j].description@ == kv.records@[j].description@
                                && docs@[j].tokens() == kv.records@[j].tokens@),
                    decreases n - i,
                {
                    let rec = &kv.records[i];
                    if let Some(texts) = decode_texts(&rec.payload) {
                        let url = rec.url.clone();
                        let title = rec.title.clone();
                        let description = rec.description.clone();
                        docs.push(Document::new(url, title, description, texts));
                    } else {
                        proof {
                            assert(false);
                        }
                    }
                    i = i + 1;
                }
                Ok(docs)
            },
        }
    }

    /// Answers a keyword query: tokenizes it, scans the store, filters the
    /// candidates that share a token with the query, and returns them
    /// ranked by non-increasing similarity, at most `limit` of them.  A
    /// query without tokens matches nothing and returns the empty list.
    /// The candidate filter reads every token; scoring reads the first
    /// `TOKEN_CAP` tokens of the query and of each segment, a bound the
    /// exact fixed-point arithmetic needs, stated in the score's own
    /// specification.  On the key-value backend the result is pinned
    /// completely: exactly the `limit` best-scoring stored candidates.
    pub fn search(&self, query: String, limit: usize) -> (r: Result<Vec<Document>, StoreError>)
        requires
            self.wf(),
        ensures
            r is Ok ==> (r->Ok_0)@.len() <= limit,
            r is Ok ==> forall|k: int|
                0 <= k < (r->Ok_0)@.len() ==> doc_is_candidate(
                    query_tokens(query@),
                    #[trigger] (r->Ok_0)@[k],
                ),
            r is Ok ==> forall|k1: int, k2: int|
                0 <= k1 < k2 < (r->Ok_0)@.len() ==> doc_score(
                    query_tokens(query@),
                    #[trigger] (r->Ok_0)@[k1],
                ) >= doc_score(query_tokens(query@), #[trigger] (r->Ok_0)@[k2]),
            r is Ok && query_tokens(query@).len() == 0 ==> (r->Ok_0)@.len() == 0,
            self.is_key_value() ==> r is Ok,
            self.is_key_value() && r is Ok ==> (r->Ok_0)@.len() == vstd::math::min(
                limit as int,
                kv_candidates(query_tokens(query@), self.kv_records()).len() as int,
            ) && docs_from_records(query_tokens(query@), self.kv_records(), (r->Ok_0)@),
    {
        let qtokens = self.tokenizer.encode(query.as_str());
        let docs = match self.scan_all() {
            Ok(docs) => docs,
            Err(e) => {
                return Err(e);
            },
        };
        let ghost qd = qtokens.deep_view();
        let ghost dseq = docs@;
        let ranked = rank_documents(&qtokens, docs, limit);
        proof {
            assert forall|k: int| 0 <= k < ranked@.len() implies doc_is_candidate(
                qd,
                #[trigger] ranked@[k],
            ) by {
                lemma_candidates_are_candidates(qd, dseq, ranked@[k]);
            }
            if query_tokens(query@).len() == 0 {
                lemma_empty_query_no_candidates(qd, dseq);
            }
            if self.is_key_value() {
                let qt = query_tokens(query@);
                assert(qd == qt);
                assert(dseq.len() == self.kv_records().len());
                assert forall|i: int| 0 <= i < dseq.len() implies (#[trigger] dseq[i]).tokens()
                    == self.kv_records()[i].tokens@ by {}
                lemma_candidate_count_aligned(qt, dseq, self.kv_records());
                assert(ranked@.len() == vstd::math::min(
                    limit as int,
                    kv_candidates(qt, self.kv_records()).len() as int,
                ));
                assert forall|k: int| 0 <= k < ranked@.len() implies doc_has_record(
                    qt,
                    self.kv_records(),
                    #[trigger] ranked@[k],
                ) by {
                    lemma_candidates_subset(qt, dseq, ranked@[k]);
                    let i = choose|i: int| 0 <= i < dseq.len() && dseq[i] == ranked@[k];
                    lemma_candidates_are_candidates(qt, dseq, ranked@[k]);
                    assert(doc_matches_record(ranked@[k], self.kv_records()[i]));
                    assert(is_candidate(qt, self.kv_records()[i].tokens@));
                }
                assert(docs_from_records(qt, self.kv_records(), ranked@));
            }
        }
        Ok(ranked)
    }
}

} // verus!
