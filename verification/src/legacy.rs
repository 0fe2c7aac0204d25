//! A small Meilisearch-compatible engine: named indexes of JSON documents
//! keyed by a primary key, document additions recorded as tasks, and token
//! search over the documents' text.

use vstd::prelude::*;
use crate::catalog::{page, PKG_VERSION};
use crate::json::{get_member, jv, jv_list, jv_members, lemma_jv_list, lemma_jv_members, member, searchable_text, searchable_text_of, Json, JsonValue};
use crate::keyed::{has_key, key_pos, key_pos_exec, keys_sorted, lemma_key_pos, lemma_upsert, upsert};
use crate::matching::{contains, contains_chars};
use crate::text::{chars_of, query_tokens, tokenize, trim, trim_chars, views};

verus! {

/// The primary key of every index.
pub const DEFAULT_PRIMARY_KEY: &'static str = "id";

/// The page size when a search names none.
pub const DEFAULT_LIMIT: usize = 20;

/// The engine's name, reported by `version`.
pub const LEGACY_ENGINE_NAME: &'static str = "meili-spin-legacy-subset";

/// An error answer: an HTTP status, a machine-readable code and a message.
#[derive(Debug)]
pub struct ApiError {
    pub status: u16,
    pub code: String,
    pub message: String,
}

impl ApiError {
    /// An error with the given status, code and message.
    pub fn new(status: u16, code: &str, message: &str) -> (r: ApiError)
        ensures
            r.status == status,
            r.code@ == code@,
            r.message@ == message@,
    {
        ApiError { status, code: code.to_owned(), message: message.to_owned() }
    }

    /// A `400 bad_request` error.
    pub fn bad_request(message: &str) -> (r: ApiError)
        ensures
            r.status == 400,
            r.code@ == "bad_request"@,
            r.message@ == message@,
    {
        Self::new(400, "bad_request", message)
    }

    /// A `404 not_found` error.
    pub fn not_found(message: &str) -> (r: ApiError)
        ensures
            r.status == 404,
            r.code@ == "not_found"@,
            r.message@ == message@,
    {
        Self::new(404, "not_found", message)
    }

    /// A `405 method_not_allowed` error.
    pub fn method_not_allowed(message: &str) -> (r: ApiError)
        ensures
            r.status == 405,
            r.code@ == "method_not_allowed"@,
            r.message@ == message@,
    {
        Self::new(405, "method_not_allowed", message)
    }

    /// A `500 internal` error.
    pub fn internal(message: &str) -> (r: ApiError)
        ensures
            r.status == 500,
            r.code@ == "internal"@,
            r.message@ == message@,
    {
        Self::new(500, "internal", message)
    }
}

/// Service readiness.
#[derive(Debug)]
pub struct HealthResponse {
    pub status: &'static str,
}

/// Engine identity and build.
#[derive(Debug)]
pub struct VersionResponse {
    pub pkg_version: &'static str,
    pub commit_sha: Option<&'static str>,
    pub build_date: Option<&'static str>,
    pub engine: &'static str,
}

/// The list of indexes.
#[derive(Debug)]
pub struct IndexesResponse {
    pub results: Vec<IndexInfo>,
    pub offset: usize,
    pub limit: usize,
    pub total: usize,
}

/// One index: its uid, primary key and size.
#[derive(Debug)]
pub struct IndexInfo {
    pub uid: String,
    pub primary_key: String,
    pub number_of_documents: usize,
}

/// A search request: query text and pagination.
#[derive(Debug)]
pub struct SearchRequest {
    pub q: Option<String>,
    pub offset: Option<usize>,
    pub limit: Option<usize>,
}

/// The answer to a search.
#[derive(Debug)]
pub struct SearchResponse {
    pub hits: Vec<JsonValue>,
    pub query: String,
    pub processing_time_ms: u64,
    pub limit: usize,
    pub offset: usize,
    pub estimated_total_hits: usize,
}

/// A finished document addition.
#[derive(Debug)]
pub struct Task {
    pub task_uid: u64,
    pub index_uid: String,
    pub status: String,
    pub task_type: String,
    pub details: TaskDetails,
}

impl Clone for Task {
    fn clone(&self) -> (r: Self)
        ensures
            r == *self,
    {
        Task {
            task_uid: self.task_uid,
            index_uid: self.index_uid.clone(),
            status: self.status.clone(),
            task_type: self.task_type.clone(),
            details: self.details,
        }
    }
}

/// How many documents a task received and indexed.
#[derive(Clone, Copy, Debug, PartialEq, Eq, Structural)]
pub struct TaskDetails {
    pub received_documents: usize,
    pub indexed_documents: usize,
}

/// The list of tasks.
#[derive(Debug)]
pub struct TasksResponse {
    pub results: Vec<Task>,
    pub limit: usize,
    pub from: Option<u64>,
    pub next: Option<u64>,
}

/// Sizes of the database and of each index.
#[derive(Debug)]
pub struct StatsResponse {
    pub database_size: usize,
    pub used_database_size: usize,
    pub last_update: Option<String>,
    pub indexes: Vec<(String, IndexStats)>,
}

/// The size of one index.
#[derive(Clone, Copy, Debug, PartialEq, Eq, Structural)]
pub struct IndexStats {
    pub number_of_documents: usize,
    pub is_indexing: bool,
}

// ---------------------------------------------------------------------------
// Document keys.
// ---------------------------------------------------------------------------

/// The key of a document under the primary key `pk`, or the message of the
/// error that refuses it: a document must be an object whose `pk` member is
/// a string (the key) or a number (its text).
pub open spec fn doc_key(d: Json, pk: Seq<char>) -> Result<Seq<char>, Seq<char>> {
    match d {
        Json::Object(m) => match member(m, pk) {
            Some(Json::Str(s)) => Ok(s),
            Some(Json::Number(t, _)) => Ok(t),
            Some(_) => Err("primary key '"@ + pk + "' must be a string or number"@),
            None => Err("document is missing primary key '"@ + pk + "'"@),
        },
        _ => Err("each document must be a JSON object"@),
    }
}

/// The key of a document, or the error that refuses it.
fn document_id(doc: &JsonValue, primary_key: &str) -> (r: Result<String, ApiError>)
    ensures
        r matches Ok(k) ==> doc_key(jv(*doc), primary_key@) == Ok::<Seq<char>, Seq<char>>(k@),
        r matches Err(e) ==> e.status == 400 && e.code@ == "bad_request"@ && doc_key(jv(*doc), primary_key@)
            == Err::<Seq<char>, Seq<char>>(e.message@),
{
    match doc {
        JsonValue::Object(m) => match get_member(m, primary_key) {
            Some(JsonValue::String(s)) => Ok(s.clone()),
            Some(JsonValue::Number(n)) => Ok(n.text.clone()),
            Some(_) => {
                let mut msg = String::from_str("primary key '");
                msg.append(primary_key);
                msg.append("' must be a string or number");
                Err(ApiError::bad_request(msg.as_str()))
            },
            None => {
                let mut msg = String::from_str("document is missing primary key '");
                msg.append(primary_key);
                msg.append("'");
                Err(ApiError::bad_request(msg.as_str()))
            },
        },
        _ => Err(ApiError::bad_request("each document must be a JSON object")),
    }
}

// ---------------------------------------------------------------------------
// Indexes and the engine.
// ---------------------------------------------------------------------------

/// An index: its primary key and its documents in key order.
#[derive(Debug)]
struct Index {
    primary_key: String,
    documents: Vec<(String, JsonValue)>,
}

/// An index as data: its primary key and its documents by key, in key order.
pub struct IndexView {
    pub primary_key: Seq<char>,
    pub docs: Seq<(Seq<char>, Json)>,
}

/// The engine as data: its indexes by uid in uid order, its tasks, and the
/// uid the next task gets.
pub struct EngineView {
    pub indexes: Seq<(Seq<char>, IndexView)>,
    pub tasks: Seq<Task>,
    pub next_task_uid: u64,
}

/// The search engine: indexes of documents and the tasks that filled them.
#[derive(Debug)]
pub struct SearchEngine {
    indexes: Vec<(String, Index)>,
    tasks: Vec<Task>,
    next_task_uid: u64,
}

/// An index as data.
spec fn index_view(ix: Index) -> IndexView {
    IndexView { primary_key: ix.primary_key@, docs: jv_members(ix.documents@) }
}

impl View for SearchEngine {
    type V = EngineView;

    closed spec fn view(&self) -> EngineView {
        EngineView {
            indexes: self.indexes@.map_values(|e: (String, Index)| (e.0@, index_view(e.1))),
            tasks: self.tasks@,
            next_task_uid: self.next_task_uid,
        }
    }
}

/// The engine's invariant: indexes in strictly increasing uid order, each
/// keyed by `id`, with documents in strictly increasing key order.
pub open spec fn engine_wf(e: EngineView) -> bool {
    &&& keys_sorted(e.indexes)
    &&& forall|i: int|
        0 <= i < e.indexes.len() ==> (#[trigger] e.indexes[i]).1.primary_key == DEFAULT_PRIMARY_KEY@
            && keys_sorted(e.indexes[i].1.docs)
}

/// The documents `docs` added in order to `base` under the primary key `pk`:
/// each replaces the document with its key or is inserted in key order; the
/// first document without a valid key stops the addition. Gives the
/// documents after it, the error message if one stopped it, and how many
/// were added.
pub open spec fn add_all(base: Seq<(Seq<char>, Json)>, docs: Seq<Json>, pk: Seq<char>) -> (
    Seq<(Seq<char>, Json)>,
    Option<Seq<char>>,
    nat,
)
    decreases docs.len(),
{
    if docs.len() == 0 {
        (base, None, 0)
    } else {
        let (s, err, n) = add_all(base, docs.drop_last(), pk);
        if err is Some {
            (s, err, n)
        } else {
            match doc_key(docs.last(), pk) {
                Ok(k) => (upsert(s, k, docs.last()), None, n + 1),
                Err(e) => (s, Some(e), n),
            }
        }
    }
}

proof fn lemma_add_all_sorted(base: Seq<(Seq<char>, Json)>, docs: Seq<Json>, pk: Seq<char>)
    requires
        keys_sorted(base),
    ensures
        keys_sorted(add_all(base, docs, pk).0),
        add_all(base, docs, pk).2 <= docs.len(),
    decreases docs.len(),
{
    if docs.len() > 0 {
        lemma_add_all_sorted(base, docs.drop_last(), pk);
        let (s, err, n) = add_all(base, docs.drop_last(), pk);
        if err is None {
            if let Ok(k) = doc_key(docs.last(), pk) {
                lemma_upsert(s, k, docs.last());
            }
        }
    }
}

/// Sets the document with key `k` to `d`, keeping key order.
fn upsert_doc(docs: &mut Vec<(String, JsonValue)>, k: String, d: JsonValue)
    requires
        keys_sorted(jv_members(old(docs)@)),
    ensures
        jv_members(final(docs)@) == upsert(jv_members(old(docs)@), k@, jv(d)),
{
    let ghost s = jv_members(docs@);
    let ghost dv = jv(d);
    proof {
        lemma_jv_members(docs@);
        lemma_key_pos(s, k@);
    }
    let kc = chars_of(k.as_str());
    let p = key_pos_exec::<JsonValue, Json>(docs, kc.as_slice(), Ghost(s));
    let present = if p < docs.len() {
        let here = chars_of(docs[p].0.as_str());
        crate::order::chars_equal(here.as_slice(), kc.as_slice())
    } else {
        false
    };
    let ghost old_docs = docs@;
    if present {
        docs.remove(p);
        docs.insert(p, (k, d));
        proof {
            lemma_jv_members(docs@);
            assert(has_key(s, k@));
            assert(jv_members(docs@) =~= s.update(p as int, (k@, dv)));
        }
    } else {
        docs.insert(p, (k, d));
        proof {
            lemma_jv_members(docs@);
            assert(!has_key(s, k@));
            assert forall|i: int| 0 <= i < docs@.len() implies #[trigger] jv_members(docs@)[i] == s.insert(
                p as int,
                (k@, dv),
            )[i] by {
                if i < p {
                    assert(docs@[i] == old_docs[i]);
                } else if i > p {
                    assert(docs@[i] == old_docs[i - 1]);
                }
            }
            assert(jv_members(docs@) =~= s.insert(p as int, (k@, dv)));
        }
    }
}

impl Index {
    /// Adds documents in order, stopping at the first without a valid key.
    fn add_documents(&mut self, docs: Vec<JsonValue>) -> (r: Result<usize, ApiError>)
        requires
            keys_sorted(jv_members(old(self).documents@)),
        ensures
            final(self).primary_key == old(self).primary_key,
            ({
                let (s, err, n) = add_all(
                    jv_members(old(self).documents@),
                    jv_list(docs@),
                    old(self).primary_key@,
                );
                &&& jv_members(final(self).documents@) == s
                &&& err is None ==> r == Ok::<usize, ApiError>(n as usize)
                &&& err matches Some(m) ==> r matches Err(e) && e.status == 400 && e.code@ == "bad_request"@
                    && e.message@ == m
            }),
    {
        let ghost base = jv_members(self.documents@);
        let ghost all = jv_list(docs@);
        proof {
            lemma_jv_list(docs@);
        }
        let n = docs.len();
        let mut rest = docs;
        let mut stack: Vec<JsonValue> = Vec::new();
        while rest.len() > 0
            invariant
                rest@.len() + stack@.len() == n,
                all.len() == n,
                all == jv_list(docs@),
                forall|j: int| 0 <= j < rest@.len() ==> jv(#[trigger] rest@[j]) == all[j],
                forall|j: int| 0 <= j < stack@.len() ==> jv(#[trigger] stack@[j]) == all[n - 1 - j],
            decreases rest@.len(),
        {
            let d = rest.pop().unwrap();
            stack.push(d);
        }
        let mut indexed: usize = 0;
        let mut i: usize = 0;
        proof {
            assert(all.take(0) =~= Seq::<Json>::empty());
            lemma_add_all_sorted(base, all.take(0), self.primary_key@);
        }
        while stack.len() > 0
            invariant
                i + stack@.len() == n,
                all.len() == n,
                forall|j: int| 0 <= j < stack@.len() ==> jv(#[trigger] stack@[j]) == all[n - 1 - j],
                add_all(base, all.take(i as int), self.primary_key@) == (
                    jv_members(self.documents@),
                    None::<Seq<char>>,
                    indexed as nat,
                ),
                keys_sorted(jv_members(self.documents@)),
                indexed <= i,
                self.primary_key == old(self).primary_key,
                base == jv_members(old(self).documents@),
                all == jv_list(docs@),
            decreases stack@.len(),
        {
            let d = stack.pop().unwrap();
            proof {
                assert(jv(d) == all[i as int]);
                assert(all.take(i + 1).drop_last() =~= all.take(i as int));
                assert(all.take(i + 1).last() == all[i as int]);
            }
            match document_id(&d, self.primary_key.as_str()) {
                Ok(k) => {
                    let ghost before = jv_members(self.documents@);
                    upsert_doc(&mut self.documents, k, d);
                    proof {
                        lemma_upsert(before, k@, all[i as int]);
                    }
                    indexed = indexed + 1;
                },
                Err(e) => {
                    proof {
                        let pk = self.primary_key@;
                        assert(doc_key(all[i as int], pk) == Err::<Seq<char>, Seq<char>>(e.message@));
                        assert(add_all(base, all.take(i + 1), pk) == (
                            jv_members(self.documents@),
                            Some(e.message@),
                            indexed as nat,
                        ));
                        lemma_add_all_stops(base, all, pk, i + 1);
                        assert(add_all(base, all, pk) == add_all(base, all.take(i + 1), pk));
                    }
                    return Err(e);
                },
            }
            i = i + 1;
        }
        proof {
            assert(all.take(n as int) =~= all);
        }
        Ok(indexed)
    }
}

/// Once an addition has stopped at an error, later documents change nothing.
proof fn lemma_add_all_stops(base: Seq<(Seq<char>, Json)>, docs: Seq<Json>, pk: Seq<char>, i: int)
    requires
        0 <= i <= docs.len(),
        add_all(base, docs.take(i), pk).1 is Some,
    ensures
        add_all(base, docs, pk) == add_all(base, docs.take(i), pk),
    decreases docs.len() - i,
{
    if i < docs.len() {
        assert(docs.take(i + 1).drop_last() =~= docs.take(i));
        lemma_add_all_stops(base, docs, pk, i + 1);
    } else {
        assert(docs.take(i) =~= docs);
    }
}

// ---------------------------------------------------------------------------
// Search.
// ---------------------------------------------------------------------------

/// How many of the tokens occur in `text`.
pub open spec fn count_contained(text: Seq<char>, toks: Seq<Seq<char>>) -> nat
    decreases toks.len(),
{
    if toks.len() == 0 {
        0
    } else {
        count_contained(text, toks.drop_last()) + if contains(text, toks.last()) {
            1nat
        } else {
            0nat
        }
    }
}

/// The score of each document: how many tokens its searchable text contains.
pub open spec fn scores_of(docs: Seq<(Seq<char>, Json)>, toks: Seq<Seq<char>>) -> Seq<nat> {
    Seq::new(docs.len(), |i: int| count_contained(searchable_text(docs[i].1), toks))
}

/// The positions below `n` whose score is `s`, in increasing order.
pub open spec fn bucket(sc: Seq<nat>, s: nat, n: int) -> Seq<int>
    decreases n,
{
    if n <= 0 {
        seq![]
    } else {
        let b = bucket(sc, s, n - 1);
        if sc[n - 1] == s {
            b.push(n - 1)
        } else {
            b
        }
    }
}

/// The positions with scores `top`, `top - 1`, ..., `s`, each score's in
/// increasing order.
pub open spec fn levels(sc: Seq<nat>, top: int, s: int) -> Seq<int>
    decreases top - s + 1,
{
    if s > top || s < 0 {
        seq![]
    } else {
        levels(sc, top, s + 1) + bucket(sc, s as nat, sc.len() as int)
    }
}

/// The positions of the documents that answer the tokens, best first: more
/// contained tokens first, then key order. With no tokens, every document
/// in key order; otherwise those containing at least one token.
pub open spec fn ranked_docs(docs: Seq<(Seq<char>, Json)>, toks: Seq<Seq<char>>) -> Seq<int> {
    levels(scores_of(docs, toks), toks.len() as int, if toks.len() == 0 {
        0
    } else {
        1
    })
}

/// The query text of a request, empty when absent.
pub open spec fn legacy_query(r: SearchRequest) -> Seq<char> {
    match r.q {
        Some(q) => q@,
        None => seq![],
    }
}

/// `resp` answers `r` over the documents `docs`.
pub open spec fn legacy_search_matches(docs: Seq<(Seq<char>, Json)>, r: SearchRequest, resp: SearchResponse) -> bool {
    let toks = query_tokens(legacy_query(r));
    let order = ranked_docs(docs, toks);
    let offset = match r.offset {
        Some(o) => o,
        None => 0,
    };
    let limit = match r.limit {
        Some(l) => l,
        None => DEFAULT_LIMIT,
    };
    let pg = page(order, offset as int, limit as int);
    &&& resp.query@ == legacy_query(r)
    &&& resp.offset == offset
    &&& resp.limit == limit
    &&& resp.estimated_total_hits == order.len()
    &&& resp.processing_time_ms == 0
    &&& jv_list(resp.hits@) == pg.map_values(|i: int| docs[i].1)
}

proof fn lemma_bucket(sc: Seq<nat>, s: nat, n: int)
    requires
        0 <= n <= sc.len(),
    ensures
        bucket(sc, s, n).len() <= n,
        forall|k: int| 0 <= k < bucket(sc, s, n).len() ==> 0 <= #[trigger] bucket(sc, s, n)[k] < n,
    decreases n,
{
    if n > 0 {
        lemma_bucket(sc, s, n - 1);
    }
}

proof fn lemma_levels(sc: Seq<nat>, top: int, s: int)
    ensures
        forall|k: int| 0 <= k < levels(sc, top, s).len() ==> 0 <= #[trigger] levels(sc, top, s)[k] < sc.len(),
    decreases top - s + 1,
{
    if !(s > top || s < 0) {
        lemma_levels(sc, top, s + 1);
        lemma_bucket(sc, s as nat, sc.len() as int);
        let a = levels(sc, top, s + 1);
        let b = bucket(sc, s as nat, sc.len() as int);
        assert forall|k: int| 0 <= k < (a + b).len() implies 0 <= #[trigger] (a + b)[k] < sc.len() by {
            if k < a.len() {
                assert((a + b)[k] == a[k]);
            } else {
                assert((a + b)[k] == b[k - a.len()]);
            }
        }
    }
}

impl Index {
    /// How many tokens each document's searchable text contains.
    fn scores(&self, toks: &Vec<Vec<char>>) -> (r: Vec<usize>)
        ensures
            r@.len() == self.documents@.len(),
            forall|i: int|
                0 <= i < r@.len() ==> r@[i] as nat == scores_of(jv_members(self.documents@), views(toks@))[i],
    {
        let ghost docs = jv_members(self.documents@);
        let ghost vt = views(toks@);
        proof {
            lemma_jv_members(self.documents@);
        }
        let mut out: Vec<usize> = Vec::new();
        let mut i: usize = 0;
        while i < self.documents.len()
            invariant
                i <= self.documents@.len(),
                docs == jv_members(self.documents@),
                docs.len() == self.documents@.len(),
                forall|j: int| 0 <= j < self.documents@.len() ==> #[trigger] docs[j] == (
                    self.documents@[j].0@,
                    jv(self.documents@[j].1),
                ),
                vt == views(toks@),
                out@.len() == i,
                forall|j: int| 0 <= j < i ==> out@[j] as nat == scores_of(docs, vt)[j],
            decreases self.documents@.len() - i,
        {
            let text = searchable_text_of(&self.documents[i].1);
            let mut count: usize = 0;
            let mut k: usize = 0;
            proof {
                assert(vt.take(0) =~= Seq::<Seq<char>>::empty());
            }
            while k < toks.len()
                invariant
                    k <= toks.len(),
                    vt == views(toks@),
                    count <= k,
                    count as nat == count_contained(text@, vt.take(k as int)),
                decreases toks.len() - k,
            {
                if contains_chars(text.as_slice(), toks[k].as_slice()) {
                    count = count + 1;
                }
                proof {
                    assert(vt.take(k + 1).drop_last() =~= vt.take(k as int));
                    assert(vt.take(k + 1).last() == toks@[k as int]@);
                }
                k = k + 1;
            }
            proof {
                assert(vt.take(toks.len() as int) =~= vt);
                assert(docs[i as int].1 == jv(self.documents@[i as int].1));
            }
            out.push(count);
            i = i + 1;
        }
        out
    }

    /// The positions of the documents with score `s`, in increasing order.
    fn bucket_exec(scores: &Vec<usize>, s: usize, out: &mut Vec<usize>, Ghost(sc): Ghost<Seq<nat>>)
        requires
            sc.len() == scores@.len(),
            forall|i: int| 0 <= i < sc.len() ==> scores@[i] as nat == sc[i],
        ensures
            final(out)@.map_values(|i: usize| i as int) == old(out)@.map_values(|i: usize| i as int) + bucket(
                sc,
                s as nat,
                sc.len() as int,
            ),
    {
        let ghost start = out@.map_values(|i: usize| i as int);
        let mut i: usize = 0;
        while i < scores.len()
            invariant
                i <= scores@.len(),
                sc.len() == scores@.len(),
                forall|j: int| 0 <= j < sc.len() ==> scores@[j] as nat == sc[j],
                out@.map_values(|j: usize| j as int) == start + bucket(sc, s as nat, i as int),
            decreases scores@.len() - i,
        {
            if scores[i] == s {
                let ghost prev = out@;
                out.push(i);
                proof {
                    assert(out@.map_values(|j: usize| j as int) =~= prev.map_values(|j: usize| j as int).push(
                        i as int,
                    ));
                }
            }
            i = i + 1;
        }
    }

    /// Searches the documents of this index.
    fn search(&self, request: &SearchRequest) -> (r: SearchResponse)
        ensures
            legacy_search_matches(jv_members(self.documents@), *request, r),
    {
        let ghost docs = jv_members(self.documents@);
        let query: String = match &request.q {
            Some(q) => q.clone(),
            None => String::new(),
        };
        let qchars = chars_of(query.as_str());
        let toks = tokenize(qchars.as_slice());
        let ghost vt = views(toks@);
        proof {
            crate::text::lemma_query_tokens_len(qchars@);
        }
        let offset: usize = match request.offset {
            Some(o) => o,
            None => 0,
        };
        let limit: usize = match request.limit {
            Some(l) => l,
            None => DEFAULT_LIMIT,
        };
        proof {
            lemma_jv_members(self.documents@);
        }
        let scores = self.scores(&toks);
        let ghost sc = scores_of(docs, vt);
        let low: u128 = if toks.len() == 0 {
            0
        } else {
            1
        };
        let mut order: Vec<usize> = Vec::new();
        let mut level: u128 = toks.len() as u128 + 1;
        proof {
            assert(order@.map_values(|j: usize| j as int) =~= levels(sc, toks.len() as int, level as int));
        }
        while level > low
            invariant
                low <= level <= toks.len() + 1,
                low == (if toks.len() == 0 {
                    0u128
                } else {
                    1u128
                }),
                sc == scores_of(docs, vt),
                sc.len() == scores@.len(),
                forall|i: int| 0 <= i < sc.len() ==> scores@[i] as nat == sc[i],
                order@.map_values(|j: usize| j as int) == levels(sc, toks.len() as int, level as int),
            decreases level,
        {
            level = level - 1;
            Self::bucket_exec(&scores, level as usize, &mut order, Ghost(sc));
        }
        let ghost ranked = ranked_docs(docs, vt);
        proof {
            assert(ranked == levels(sc, toks.len() as int, low as int));
            lemma_levels(sc, toks.len() as int, low as int);
            lemma_jv_members(self.documents@);
        }
        let total = order.len();
        let start = if offset < total {
            offset
        } else {
            total
        };
        let end = if limit < total - start {
            start + limit
        } else {
            total
        };
        let mut hits: Vec<JsonValue> = Vec::new();
        let mut p = start;
        proof {
            assert(hits@ =~= Seq::<JsonValue>::empty());
        }
        while p < end
            invariant
                start <= p <= end <= total,
                total == order@.len(),
                order@.map_values(|j: usize| j as int) == ranked,
                forall|k: int| 0 <= k < ranked.len() ==> 0 <= #[trigger] ranked[k] < docs.len(),
                docs == jv_members(self.documents@),
                docs.len() == self.documents@.len(),
                forall|j: int| 0 <= j < self.documents@.len() ==> #[trigger] docs[j] == (
                    self.documents@[j].0@,
                    jv(self.documents@[j].1),
                ),
                jv_list(hits@) == ranked.subrange(start as int, p as int).map_values(|i: int| docs[i].1),
            decreases end - p,
        {
            let idx = order[p];
            proof {
                assert(ranked[p as int] == idx as int);
            }
            let d = self.documents[idx].1.deep_clone();
            let ghost prev = hits@;
            hits.push(d);
            proof {
                assert(hits@.drop_last() =~= prev);
                assert(ranked.subrange(start as int, p + 1).map_values(|i: int| docs[i].1) =~= ranked.subrange(
                    start as int,
                    p as int,
                ).map_values(|i: int| docs[i].1).push(docs[idx as int].1));
            }
            p = p + 1;
        }
        SearchResponse {
            hits,
            query,
            processing_time_ms: 0,
            limit,
            offset,
            estimated_total_hits: total,
        }
    }
}

// ---------------------------------------------------------------------------
// The engine's operations.
// ---------------------------------------------------------------------------

/// The number of documents of all indexes.
pub open spec fn total_documents(ixs: Seq<(Seq<char>, IndexView)>) -> nat
    decreases ixs.len(),
{
    if ixs.len() == 0 {
        0
    } else {
        total_documents(ixs.drop_last()) + ixs.last().1.docs.len()
    }
}

/// What `add_documents` does to the indexes when the uid is not blank: the
/// index named `uid` (made empty if missing) receives the documents as
/// `add_all` adds them.
pub open spec fn added(e: EngineView, uid: Seq<char>, docs: Seq<Json>) -> (
    Seq<(Seq<char>, IndexView)>,
    Option<Seq<char>>,
    nat,
) {
    let base = if has_key(e.indexes, uid) {
        e.indexes[key_pos(e.indexes, uid)].1.docs
    } else {
        seq![]
    };
    let (docs1, err, n) = add_all(base, docs, DEFAULT_PRIMARY_KEY@);
    (upsert(e.indexes, uid, IndexView { primary_key: DEFAULT_PRIMARY_KEY@, docs: docs1 }), err, n)
}

/// The indexes after `add_documents(uid, docs)`: unchanged for a blank
/// uid, otherwise with the index `uid` created if needed and the documents
/// added to it (up to the first one without a valid key).
pub open spec fn indexes_step(ixs: Seq<(Seq<char>, IndexView)>, uid: Seq<char>, docs: Seq<Json>) -> Seq<
    (Seq<char>, IndexView),
> {
    if trim(uid).len() == 0 {
        ixs
    } else {
        added(EngineView { indexes: ixs, tasks: seq![], next_task_uid: 0 }, uid, docs).0
    }
}

/// Whether `add_documents(uid, docs)` on these indexes succeeds and records a
/// task: the uid is not blank and every document has a valid key.
pub open spec fn add_succeeds(ixs: Seq<(Seq<char>, IndexView)>, uid: Seq<char>, docs: Seq<Json>) -> bool {
    trim(uid).len() > 0 && added(EngineView { indexes: ixs, tasks: seq![], next_task_uid: 0 }, uid, docs).1 is None
}

impl SearchEngine {
    /// The engine's invariant holds.
    pub open spec fn wf(&self) -> bool {
        engine_wf(self@)
    }

    proof fn lemma_view(&self)
        ensures
            self@.indexes.len() == self.indexes@.len(),
            forall|i: int|
                0 <= i < self.indexes@.len() ==> #[trigger] self@.indexes[i] == (
                    self.indexes@[i].0@,
                    index_view(self.indexes@[i].1),
                ),
    {
    }

    /// An engine with no indexes and no tasks.
    pub fn new() -> (r: SearchEngine)
        ensures
            r.wf(),
            r@.indexes.len() == 0,
            r@.tasks.len() == 0,
            r@.next_task_uid == 0,
    {
        SearchEngine { indexes: Vec::new(), tasks: Vec::new(), next_task_uid: 0 }
    }

    /// The service is available.
    pub fn health(&self) -> (r: HealthResponse)
        ensures
            r.status@ == "available"@,
    {
        HealthResponse { status: "available" }
    }

    /// The engine's identity; the commit and build date are those the
    /// program was built with, if any.
    pub fn version(&self, commit_sha: Option<&'static str>, build_date: Option<&'static str>) -> (r: VersionResponse)
        ensures
            r.pkg_version == PKG_VERSION,
            r.commit_sha == commit_sha,
            r.build_date == build_date,
            r.engine == LEGACY_ENGINE_NAME,
    {
        VersionResponse { pkg_version: PKG_VERSION, commit_sha, build_date, engine: LEGACY_ENGINE_NAME }
    }

    /// The indexes in uid order, all on one page.
    pub fn list_indexes(&self) -> (r: IndexesResponse)
        ensures
            r.results@.len() == self@.indexes.len(),
            forall|i: int|
                0 <= i < r.results@.len() ==> (#[trigger] r.results@[i]).uid@ == self@.indexes[i].0
                    && r.results@[i].primary_key@ == self@.indexes[i].1.primary_key
                    && r.results@[i].number_of_documents == self@.indexes[i].1.docs.len(),
            r.offset == 0,
            r.limit == r.results@.len(),
            r.total == r.results@.len(),
    {
        proof {
            self.lemma_view();
        }
        let mut results: Vec<IndexInfo> = Vec::new();
        let mut i: usize = 0;
        while i < self.indexes.len()
            invariant
                i <= self.indexes@.len(),
                self@.indexes.len() == self.indexes@.len(),
                forall|j: int|
                    0 <= j < self.indexes@.len() ==> #[trigger] self@.indexes[j] == (
                        self.indexes@[j].0@,
                        index_view(self.indexes@[j].1),
                    ),
                results@.len() == i,
                forall|j: int|
                    0 <= j < i ==> (#[trigger] results@[j]).uid@ == self@.indexes[j].0
                        && results@[j].primary_key@ == self@.indexes[j].1.primary_key
                        && results@[j].number_of_documents == self@.indexes[j].1.docs.len(),
            decreases self.indexes@.len() - i,
        {
            let entry = &self.indexes[i];
            proof {
                lemma_jv_members(entry.1.documents@);
            }
            results.push(
                IndexInfo {
                    uid: entry.0.clone(),
                    primary_key: entry.1.primary_key.clone(),
                    number_of_documents: entry.1.documents.len(),
                },
            );
            i = i + 1;
        }
        let total = results.len();
        IndexesResponse { results, offset: 0, limit: total, total }
    }

    /// Records a finished addition as the next task.
    fn completed_document_task(&mut self, uid: &str, received_documents: usize, indexed_documents: usize) -> (r:
        Task)
        requires
            old(self).next_task_uid < u64::MAX,
        ensures
            r.task_uid == old(self).next_task_uid,
            r.index_uid@ == uid@,
            r.status@ == "succeeded"@,
            r.task_type@ == "documentAdditionOrUpdate"@,
            r.details == (TaskDetails { received_documents, indexed_documents }),
            final(self).next_task_uid == old(self).next_task_uid + 1,
            final(self).indexes == old(self).indexes,
            final(self).tasks == old(self).tasks,
    {
        let task_uid = self.next_task_uid;
        self.next_task_uid = self.next_task_uid + 1;
        Task {
            task_uid,
            index_uid: uid.to_owned(),
            status: "succeeded".to_owned(),
            task_type: "documentAdditionOrUpdate".to_owned(),
            details: TaskDetails { received_documents, indexed_documents },
        }
    }

    /// Adds documents to the index `uid`, creating it if needed. A blank uid
    /// is refused. Documents are added in order, each replacing the document
    /// with the same `id`; the first document that is not an object with a
    /// string or number `id` stops the addition with an error, the documents
    /// before it staying added. A complete addition is recorded as a task
    /// and returned.
    pub fn add_documents(&mut self, uid: &str, docs: Vec<JsonValue>) -> (r: Result<Task, ApiError>)
        requires
            old(self).wf(),
            trim(uid@).len() > 0 && added(old(self)@, uid@, jv_list(docs@)).1 is None ==> old(self)@.next_task_uid
                < u64::MAX,
        ensures
            final(self).wf(),
            trim(uid@).len() == 0 ==> final(self)@ == old(self)@ && (r matches Err(e) && e.status == 400
                && e.code@ == "bad_request"@ && e.message@ == "index uid must not be empty"@),
            trim(uid@).len() > 0 ==> ({
                let (ixs, err, n) = added(old(self)@, uid@, jv_list(docs@));
                &&& final(self)@.indexes == ixs
                &&& err matches Some(m) ==> r matches Err(e) && e.status == 400 && e.code@ == "bad_request"@
                    && e.message@ == m && final(self)@.tasks == old(self)@.tasks
                    && final(self)@.next_task_uid == old(self)@.next_task_uid
                &&& err is None ==> (r matches Ok(t) && t.task_uid == old(self)@.next_task_uid && t.index_uid@
                    == uid@ && t.status@ == "succeeded"@ && t.task_type@ == "documentAdditionOrUpdate"@ && t.details
                    == (TaskDetails { received_documents: docs@.len() as usize, indexed_documents: n as usize })
                    && final(self)@.tasks == old(self)@.tasks.push(t) && final(self)@.next_task_uid
                    == old(self)@.next_task_uid + 1)
            }),
            final(self)@.indexes == indexes_step(old(self)@.indexes, uid@, jv_list(docs@)),
            r is Ok <==> add_succeeds(old(self)@.indexes, uid@, jv_list(docs@)),
            final(self)@.next_task_uid == old(self)@.next_task_uid + if add_succeeds(
                old(self)@.indexes,
                uid@,
                jv_list(docs@),
            ) {
                1int
            } else {
                0int
            },
            r matches Ok(t) ==> t.task_uid == old(self)@.next_task_uid && final(self)@.tasks == old(self)@.tasks.push(t),
            r is Err ==> final(self)@.tasks == old(self)@.tasks,
    {
        proof {
            let e0 = old(self)@;
            assert(added(e0, uid@, jv_list(docs@)) == added(
                EngineView { indexes: e0.indexes, tasks: seq![], next_task_uid: 0 },
                uid@,
                jv_list(docs@),
            ));
        }
        let u = chars_of(uid);
        let t = trim_chars(u.as_slice());
        if t.len() == 0 {
            return Err(ApiError::bad_request("index uid must not be empty"));
        }
        let ghost e0 = self@;
        proof {
            self.lemma_view();
            lemma_key_pos(e0.indexes, uid@);
        }
        let p = key_pos_exec::<Index, IndexView>(&self.indexes, u.as_slice(), Ghost(e0.indexes));
        let present = if p < self.indexes.len() {
            let here = chars_of(self.indexes[p].0.as_str());
            crate::order::chars_equal(here.as_slice(), u.as_slice())
        } else {
            false
        };
        let ghost old_entries = self.indexes@;
        let (key, mut index) = if present {
            self.indexes.remove(p)
        } else {
            (uid.to_owned(), Index { primary_key: DEFAULT_PRIMARY_KEY.to_owned(), documents: Vec::new() })
        };
        let ghost base = jv_members(index.documents@);
        proof {
            lemma_jv_members(index.documents@);
            if present {
                assert(index == old_entries[p as int].1);
                assert(e0.indexes[p as int] == (old_entries[p as int].0@, index_view(old_entries[p as int].1)));
                assert(base == e0.indexes[key_pos(e0.indexes, uid@)].1.docs);
            } else {
                assert(base =~= Seq::<(Seq<char>, Json)>::empty());
            }
            assert(keys_sorted(base));
            assert(index.primary_key@ == DEFAULT_PRIMARY_KEY@);
        }
        let received = docs.len();
        let result = index.add_documents(docs);
        let ghost ixv = index_view(index);
        self.indexes.insert(p, (key, index));
        proof {
            let (ixs, err, n) = added(e0, uid@, jv_list(docs@));
            lemma_add_all_sorted(base, jv_list(docs@), DEFAULT_PRIMARY_KEY@);
            lemma_upsert(e0.indexes, uid@, ixv);
            assert(ixs == upsert(e0.indexes, uid@, ixv));
            assert(self@.indexes =~= ixs) by {
                assert forall|i: int| 0 <= i < self@.indexes.len() implies #[trigger] self@.indexes[i] == ixs[i] by {
                    if present {
                        if i != p {
                            assert(self.indexes@[i] == old_entries[i]);
                        }
                    } else {
                        if i < p {
                            assert(self.indexes@[i] == old_entries[i]);
                        } else if i > p {
                            assert(self.indexes@[i] == old_entries[i - 1]);
                        }
                    }
                }
            }
            assert forall|i: int| 0 <= i < ixs.len() implies (#[trigger] ixs[i]).1.primary_key == DEFAULT_PRIMARY_KEY@
                && keys_sorted(ixs[i].1.docs) by {
                if i != p {
                    if present || i < p {
                        assert(ixs[i] == e0.indexes[i]);
                    } else {
                        assert(ixs[i] == e0.indexes[i - 1]);
                    }
                }
            }
        }
        match result {
            Err(e) => Err(e),
            Ok(indexed) => {
                let task = self.completed_document_task(uid, received, indexed);
                self.tasks.push(task.clone());
                Ok(task)
            },
        }
    }

    /// Searches the index `uid`; a missing index is a `404`.
    pub fn search(&self, uid: &str, request: SearchRequest) -> (r: Result<SearchResponse, ApiError>)
        requires
            self.wf(),
        ensures
            has_key(self@.indexes, uid@) ==> (r matches Ok(resp) && legacy_search_matches(
                self@.indexes[key_pos(self@.indexes, uid@)].1.docs,
                request,
                resp,
            )),
            !has_key(self@.indexes, uid@) ==> (r matches Err(e) && e.status == 404 && e.code@ == "not_found"@
                && e.message@ == "index '"@ + uid@ + "' was not found"@),
    {
        let u = chars_of(uid);
        proof {
            self.lemma_view();
        }
        let p = key_pos_exec::<Index, IndexView>(&self.indexes, u.as_slice(), Ghost(self@.indexes));
        let present = if p < self.indexes.len() {
            let here = chars_of(self.indexes[p].0.as_str());
            crate::order::chars_equal(here.as_slice(), u.as_slice())
        } else {
            false
        };
        if !present {
            let mut msg = String::from_str("index '");
            msg.append(uid);
            msg.append("' was not found");
            return Err(ApiError::not_found(msg.as_str()));
        }
        Ok(self.indexes[p].1.search(&request))
    }

    /// The size of each index and of the whole database.
    pub fn stats(&self) -> (r: StatsResponse)
        requires
            total_documents(self@.indexes) <= usize::MAX,
        ensures
            r.indexes@.len() == self@.indexes.len(),
            forall|i: int|
                0 <= i < r.indexes@.len() ==> (#[trigger] r.indexes@[i]).0@ == self@.indexes[i].0
                    && r.indexes@[i].1 == (IndexStats {
                    number_of_documents: self@.indexes[i].1.docs.len() as usize,
                    is_indexing: false,
                }),
            r.database_size == total_documents(self@.indexes),
            r.used_database_size == total_documents(self@.indexes),
            r.last_update is None,
    {
        proof {
            self.lemma_view();
        }
        let ghost ixs = self@.indexes;
        let mut indexes: Vec<(String, IndexStats)> = Vec::new();
        let mut total: usize = 0;
        let mut i: usize = 0;
        proof {
            assert(ixs.take(0) =~= Seq::<(Seq<char>, IndexView)>::empty());
        }
        while i < self.indexes.len()
            invariant
                i <= self.indexes@.len(),
                ixs == self@.indexes,
                ixs.len() == self.indexes@.len(),
                forall|j: int|
                    0 <= j < self.indexes@.len() ==> #[trigger] ixs[j] == (
                        self.indexes@[j].0@,
                        index_view(self.indexes@[j].1),
                    ),
                total_documents(ixs) <= usize::MAX,
                total as nat == total_documents(ixs.take(i as int)),
                indexes@.len() == i,
                forall|j: int|
                    0 <= j < i ==> (#[trigger] indexes@[j]).0@ == ixs[j].0 && indexes@[j].1 == (IndexStats {
                        number_of_documents: ixs[j].1.docs.len() as usize,
                        is_indexing: false,
                    }),
            decreases self.indexes@.len() - i,
        {
            let entry = &self.indexes[i];
            proof {
                lemma_jv_members(entry.1.documents@);
                assert(ixs.take(i + 1).drop_last() =~= ixs.take(i as int));
                lemma_total_prefix(ixs, i + 1);
            }
            let n = entry.1.documents.len();
            total = total + n;
            indexes.push((entry.0.clone(), IndexStats { number_of_documents: n, is_indexing: false }));
            i = i + 1;
        }
        proof {
            assert(ixs.take(ixs.len() as int) =~= ixs);
        }
        StatsResponse { database_size: total, used_database_size: total, last_update: None, indexes }
    }

    /// All tasks, oldest first.
    pub fn tasks(&self) -> (r: TasksResponse)
        ensures
            r.results@ == self@.tasks,
            r.limit == self@.tasks.len(),
            r.from == (if self@.tasks.len() > 0 {
                Some(self@.tasks[0].task_uid)
            } else {
                None
            }),
            r.next is None,
    {
        let mut results: Vec<Task> = Vec::new();
        let mut i: usize = 0;
        while i < self.tasks.len()
            invariant
                i <= self.tasks@.len(),
                results@ == self.tasks@.take(i as int),
            decreases self.tasks@.len() - i,
        {
            results.push(self.tasks[i].clone());
            proof {
                assert(results@ =~= self.tasks@.take(i + 1));
            }
            i = i + 1;
        }
        proof {
            assert(self.tasks@.take(self.tasks.len() as int) =~= self.tasks@);
        }
        let from = if self.tasks.len() > 0 {
            Some(self.tasks[0].task_uid)
        } else {
            None
        };
        TasksResponse { results, limit: self.tasks.len(), from, next: None }
    }
}

proof fn lemma_total_prefix(ixs: Seq<(Seq<char>, IndexView)>, n: int)
    requires
        0 <= n <= ixs.len(),
    ensures
        total_documents(ixs.take(n)) <= total_documents(ixs),
    decreases ixs.len(),
{
    if n < ixs.len() {
        assert(ixs.take(n) =~= ixs.drop_last().take(n));
        lemma_total_prefix(ixs.drop_last(), n);
    } else {
        assert(ixs.take(n) =~= ixs);
    }
}

} // verus!
