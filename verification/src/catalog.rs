//! The movie catalog: documents deduplicated by id, kept in id order, and the
//! simple read endpoints over it.

use vstd::prelude::*;
use std::collections::BTreeMap;
use vstd::seq_lib::group_to_multiset_ensures;
use vstd::std_specs::iter::IteratorSpec;

verus! {

broadcast use group_to_multiset_ensures;

/// Name the engine reports in its version response.
pub const ENGINE_NAME: &'static str = "movie-search-core";

/// Version the engine reports in its version response.
pub const PKG_VERSION: &'static str = "0.1.0";

/// Page size used when a request names none.
pub const DEFAULT_LIMIT: usize = 20;

/// A movie document.
#[derive(Debug)]
pub struct Movie {
    pub id: u64,
    pub title: String,
    pub overview: String,
    pub genre: String,
    pub year: Option<i32>,
    pub poster_path: Option<String>,
}

impl Clone for Movie {
    fn clone(&self) -> (r: Self)
        ensures
            r == *self,
    {
        Movie {
            id: self.id,
            title: self.title.clone(),
            overview: self.overview.clone(),
            genre: self.genre.clone(),
            year: self.year,
            poster_path: match &self.poster_path {
                Some(p) => Some(p.clone()),
                None => None,
            },
        }
    }
}

/// Ids strictly increase along `s`: no id occurs twice and movies are in id order.
pub open spec fn ids_increasing(s: Seq<Movie>) -> bool {
    forall|i: int, j: int| 0 <= i < j < s.len() ==> (#[trigger] s[i]).id < (#[trigger] s[j]).id
}

/// No later movie of `s` has the id of `s[i]`: it is the one that wins for its id.
pub open spec fn last_of_id(s: Seq<Movie>, i: int) -> bool {
    forall|j: int| i < j < s.len() ==> (#[trigger] s[j]).id != s[i].id
}

/// `mv` is the movie at `i`, with id `id`, and no later one of the first `k`
/// movies has that id.
pub open spec fn winner_at(movies: Seq<Movie>, k: int, id: u64, mv: Movie, i: int) -> bool {
    &&& 0 <= i < k
    &&& movies[i] == mv
    &&& mv.id == id
    &&& forall|j: int| i < j < k ==> (#[trigger] movies[j]).id != id
}

/// `mv` is the last of the first `k` movies with id `id`.
pub open spec fn winner_upto(movies: Seq<Movie>, k: int, id: u64, mv: Movie) -> bool {
    exists|i: int| #[trigger] winner_at(movies, k, id, mv, i)
}

/// Movies listed in increasing key order from a map that holds, for each
/// id of the input, the last movie with that id, are the input
/// deduplicated by id with the last one winning.
proof fn lemma_dedup_from_map(movies: Seq<Movie>, map: Map<u64, Movie>, keys: Seq<u64>, out: Seq<Movie>)
    requires
        forall|id: u64| #[trigger] map.contains_key(id) ==> winner_upto(movies, movies.len() as int, id, map[id]),
        forall|i: int| 0 <= i < movies.len() ==> map.contains_key(#[trigger] movies[i].id),
        forall|x: int, y: int| 0 <= x < y < keys.len() ==> keys[x] < keys[y],
        keys.to_set() == map.dom(),
        out.len() == keys.len(),
        forall|x: int| 0 <= x < out.len() ==> #[trigger] out[x] == map[keys[x]],
    ensures
        dedup_by_id(movies, out),
{
    assert forall|x: int| 0 <= x < keys.len() implies map.contains_key(#[trigger] keys[x]) by {
        assert(keys.to_set().contains(keys[x]));
    }
    assert forall|x: int| 0 <= x < out.len() implies winner_upto(movies, movies.len() as int, keys[x], #[trigger] out[x]) by {
        assert(map.contains_key(keys[x]));
    }
    assert forall|x: int, y: int| 0 <= x < y < out.len() implies (#[trigger] out[x]).id < (#[trigger] out[y]).id by {
        assert(winner_upto(movies, movies.len() as int, keys[x], out[x]));
        assert(winner_upto(movies, movies.len() as int, keys[y], out[y]));
    }
    assert forall|k: int| 0 <= k < out.len() implies kept(movies, #[trigger] out[k]) by {
        assert(winner_upto(movies, movies.len() as int, keys[k], out[k]));
        let i = choose|i: int| winner_at(movies, movies.len() as int, keys[k], out[k], i);
        assert(movies[i] == out[k] && last_of_id(movies, i));
    }
    assert forall|i: int| 0 <= i < movies.len() implies has_id(out, (#[trigger] movies[i]).id) by {
        let id = movies[i].id;
        assert(map.dom().contains(id));
        assert(keys.to_set().contains(id));
        assert(keys.contains(id));
        let k = choose|k: int| 0 <= k < keys.len() && keys[k] == id;
        assert(winner_upto(movies, movies.len() as int, keys[k], out[k]));
        let w = choose|w: int| winner_at(movies, movies.len() as int, keys[k], out[k], w);
        assert(out[k].id == movies[i].id);
    }
}

/// `u64` keys obey the ordering model of vstd's `BTreeMap` specification.
proof fn lemma_u64_keys_ordered()
    ensures
        vstd::std_specs::btree::key_obeys_cmp_spec::<u64>(),
{
    broadcast use vstd::laws_cmp::group_laws_cmp;
    broadcast use vstd::std_specs::btree::axiom_key_obeys_cmp_spec_meaning;
}

/// A sequence of `u64` keys that vstd's `BTreeMap` specification calls
/// increasing is strictly increasing.
proof fn lemma_increasing_u64(keys: Seq<u64>)
    requires
        vstd::std_specs::btree::increasing_seq(keys),
    ensures
        forall|x: int, y: int| 0 <= x < y < keys.len() ==> keys[x] < keys[y],
{
    broadcast use vstd::laws_cmp::group_laws_cmp;
    vstd::std_specs::btree::axiom_increasing_seq_meaning(keys);
    assert forall|x: int, y: int| 0 <= x < y < keys.len() implies keys[x] < keys[y] by {
        assert(vstd::std_specs::cmp::OrdSpec::cmp_spec(&keys[x], &keys[y]) is Less);
    }
}

/// `m` is the last movie of `input` with its id.
pub open spec fn kept(input: Seq<Movie>, m: Movie) -> bool {
    exists|i: int| 0 <= i < input.len() && input[i] == m && #[trigger] last_of_id(input, i)
}

/// Some movie of `r` has id `id`.
pub open spec fn has_id(r: Seq<Movie>, id: u64) -> bool {
    exists|k: int| 0 <= k < r.len() && (#[trigger] r[k]).id == id
}

/// `r` is `input` deduplicated by id with the last movie of each id winning,
/// in increasing id order.
pub open spec fn dedup_by_id(input: Seq<Movie>, r: Seq<Movie>) -> bool {
    &&& ids_increasing(r)
    &&& forall|k: int| 0 <= k < r.len() ==> kept(input, #[trigger] r[k])
    &&& forall|i: int| 0 <= i < input.len() ==> has_id(r, (#[trigger] input[i]).id)
}

/// A list of movies with its pagination.
#[derive(Debug)]
pub struct MoviesResponse {
    pub results: Vec<Movie>,
    pub offset: usize,
    pub limit: usize,
    pub total: usize,
}

/// The number of documents.
#[derive(Debug)]
pub struct StatsResponse {
    pub document_count: usize,
}

/// Service readiness.
#[derive(Debug)]
pub struct HealthResponse {
    pub status: &'static str,
}

/// Engine identity and dataset size.
#[derive(Debug)]
pub struct VersionResponse {
    pub engine: &'static str,
    pub pkg_version: &'static str,
    pub dataset_documents: usize,
}

/// The search engine over a fixed catalog of movies.
#[derive(Debug)]
pub struct MovieSearch {
    movies: Vec<Movie>,
}

impl View for MovieSearch {
    type V = Seq<Movie>;

    closed spec fn view(&self) -> Seq<Movie> {
        self.movies@
    }
}

impl MovieSearch {
    /// The catalog is well formed: ids strictly increase.
    pub open spec fn wf(&self) -> bool {
        ids_increasing(self@)
    }

    /// Builds the catalog: duplicates by id are dropped with the last one
    /// winning, and movies are kept in increasing id order.
    pub fn from_movies(movies: Vec<Movie>) -> (r: Self)
        ensures
            r.wf(),
            dedup_by_id(movies@, r@),
    {
        let n = movies.len();
        let mut by_id: BTreeMap<u64, Movie> = BTreeMap::new();
        let mut k: usize = 0;
        while k < n
            invariant
                k <= n,
                n == movies@.len(),
                forall|id: u64| #[trigger] by_id@.contains_key(id) ==> winner_upto(movies@, k as int, id, by_id@[id]),
                forall|i: int| 0 <= i < k ==> by_id@.contains_key(#[trigger] movies@[i].id),
            decreases n - k,
        {
            let m = movies[k].clone();
            let ghost before = by_id@;
            by_id.insert(m.id, m);
            proof {
                assert forall|id: u64| #[trigger] by_id@.contains_key(id) implies winner_upto(
                    movies@,
                    k + 1,
                    id,
                    by_id@[id],
                ) by {
                    if id == movies@[k as int].id {
                        assert(by_id@[id] == movies@[k as int]);
                        assert(winner_at(movies@, k + 1, id, by_id@[id], k as int));
                    } else {
                        assert(before.contains_key(id));
                        let i = choose|i: int| winner_at(movies@, k as int, id, before[id], i);
                        assert(winner_at(movies@, k + 1, id, by_id@[id], i));
                    }
                }
                assert forall|i: int| 0 <= i < k + 1 implies by_id@.contains_key(#[trigger] movies@[i].id) by {
                    if i < k {
                        assert(before.contains_key(movies@[i].id));
                    }
                }
            }
            k = k + 1;
        }
        proof {
            lemma_u64_keys_ordered();
        }
        let values = by_id.values();
        let ghost keys = choose|key_seq: Seq<u64>|
            {
                &&& vstd::std_specs::btree::increasing_seq(key_seq)
                &&& key_seq.to_set() == by_id@.dom()
                &&& key_seq.no_duplicates()
                &&& IteratorSpec::remaining(&values) == key_seq.map(|i: int, k: u64| &by_id@[k])
            };
        let mut out: Vec<Movie> = Vec::new();
        for m in it: values
            invariant
                n == movies@.len(),
                it.seq() == keys.map(|i: int, k: u64| &by_id@[k]),
                out@.len() == it.index(),
                forall|x: int| 0 <= x < it.index() ==> #[trigger] out@[x] == by_id@[keys[x]],
        {
            let ghost before = out@;
            out.push(m.clone());
            proof {
                assert forall|x: int| 0 <= x < out@.len() implies #[trigger] out@[x] == by_id@[keys[x]] by {
                    if x < before.len() {
                        assert(out@[x] == before[x]);
                    }
                }
            }
        }
        proof {
            lemma_increasing_u64(keys);
            assert(out@.len() == keys.len());
            lemma_dedup_from_map(movies@, by_id@, keys, out@);
        }
        MovieSearch { movies: out }
    }

    /// The catalog fits in memory: it has at most `usize::MAX` movies.
    pub proof fn lemma_len(self)
        ensures
            self@.len() <= usize::MAX,
    {
        assert(self.movies@.len() == self.movies.len());
    }

    /// The movies of the catalog, in id order.
    pub fn all_movies(&self) -> (r: &Vec<Movie>)
        ensures
            r@ == self@,
    {
        &self.movies
    }

    /// The number of documents.
    pub fn document_count(&self) -> (r: usize)
        ensures
            r == self@.len(),
    {
        self.movies.len()
    }

    /// Readiness: always `available`.
    pub fn health(&self) -> (r: HealthResponse)
        ensures
            r.status == "available",
    {
        HealthResponse { status: "available" }
    }

    /// Engine name, package version and document count.
    pub fn version(&self) -> (r: VersionResponse)
        ensures
            r.engine == ENGINE_NAME,
            r.pkg_version == PKG_VERSION,
            r.dataset_documents == self@.len(),
    {
        VersionResponse {
            engine: ENGINE_NAME,
            pkg_version: PKG_VERSION,
            dataset_documents: self.document_count(),
        }
    }

    /// The document count.
    pub fn stats(&self) -> (r: StatsResponse)
        ensures
            r.document_count == self@.len(),
    {
        StatsResponse { document_count: self.document_count() }
    }

    /// The movies in id order, skipping `offset` and returning at most `limit`.
    pub fn movies(&self, offset: usize, limit: usize) -> (r: MoviesResponse)
        ensures
            r.results@ == page(self@, offset as int, limit as int),
            r.offset == offset,
            r.limit == limit,
            r.total == self@.len(),
    {
        let n = self.movies.len();
        let start = if offset < n {
            offset
        } else {
            n
        };
        let end = if limit < n - start {
            start + limit
        } else {
            n
        };
        let mut results: Vec<Movie> = Vec::new();
        let mut k = start;
        while k < end
            invariant
                start <= k <= end <= n,
                n == self.movies@.len(),
                results@ == self.movies@.subrange(start as int, k as int),
            decreases end - k,
        {
            let m = self.movies[k].clone();
            results.push(m);
            proof {
                assert(results@ =~= self.movies@.subrange(start as int, k + 1));
            }
            k = k + 1;
        }
        MoviesResponse { results, offset, limit, total: n }
    }
}


/// The items of `s` after skipping `offset`, at most `limit` of them.
pub open spec fn page<T>(s: Seq<T>, offset: int, limit: int) -> Seq<T> {
    let start = if offset < s.len() {
        offset
    } else {
        s.len() as int
    };
    let end = if limit < s.len() - start {
        start + limit
    } else {
        s.len() as int
    };
    s.subrange(start, end)
}


} // verus!
