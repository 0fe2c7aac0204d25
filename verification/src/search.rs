//! Full-text search over the catalog: filtering, ranking, sorting, paging,
//! facets, highlighting and optional ranking details.

use vstd::prelude::*;
use crate::clock::{millis_since, now};
use crate::catalog::{page, Movie, MovieSearch, DEFAULT_LIMIT};
use crate::facets::{
    counts_view, genre_histogram, genre_items, is_histogram, is_requested, requested, valid_results,
    year_bounds, year_histogram, year_items, year_range,
};
use crate::filter::{matches_filter, matches_filter_exec, prepare_filter, string_views, SearchFilter, SearchRequest};
use crate::highlight::{highlight, highlight_value};
use crate::order::Rel;
use crate::rank::{candidate, entry_view, is_ordering, lemma_ordering_unique, lemma_result_order_equal, lemma_score_bound, ordered_results, parse_sort_key, parse_sort_key_exec, rank_movie, rank_view, result_order, EntryOrder, RankEntry, RankedMovie, SortKey};
use crate::sort::{index_range, lemma_permutation_of_range, merge_sort, IndexOrder};
use crate::text::{string_from_chars, chars_of, lemma_query_tokens_len, lowercase_chars, query_tokens, genre_values, tokenize, trimmed_pieces, views};

verus! {

/// Counts per value of each requested facet, by facet name.
pub type FacetDistribution = Vec<(String, Vec<(String, usize)>)>;

/// The smallest and largest value of a numeric facet.
#[derive(Clone, Copy, Debug, PartialEq, Eq, Structural)]
pub struct FacetStats {
    pub min: i32,
    pub max: i32,
}

/// How results were ranked, returned with `debug_ranking`.
#[derive(Clone, Debug)]
pub struct RankingInfo {
    pub strategy: &'static str,
    pub typo_tolerance: bool,
    pub sort: Vec<String>,
}

/// How one result scored, returned with `debug_ranking`.
#[derive(Clone, Copy, Debug, PartialEq, Eq, Structural)]
pub struct HitRankingInfo {
    pub matched_tokens: usize,
    pub field_weight: usize,
    pub typo_matches: usize,
}

/// One search result.
#[derive(Clone, Debug)]
pub struct SearchHit {
    pub movie: Movie,
    pub formatted: Option<Vec<(String, String)>>,
    pub ranking_info: Option<HitRankingInfo>,
}

/// The answer to a search request.
#[derive(Clone, Debug)]
pub struct SearchResponse {
    pub hits: Vec<SearchHit>,
    pub query: String,
    pub offset: usize,
    pub limit: usize,
    pub estimated_total_hits: usize,
    pub processing_time_ms: u128,
    pub facet_distribution: FacetDistribution,
    pub facet_stats: Vec<(String, FacetStats)>,
    pub ranking_info: Option<RankingInfo>,
}

/// The ranking strategy reported with `debug_ranking`.
pub const RANKING_STRATEGY: &'static str = "matched_tokens, field_weight, match_quality, id";

// ---------------------------------------------------------------------------
// What a request asks for.
// ---------------------------------------------------------------------------

/// The query text, empty when absent.
pub open spec fn query_of(r: SearchRequest) -> Seq<char> {
    match r.q {
        Some(q) => q@,
        None => seq![],
    }
}

/// The number of results to skip, 0 when absent.
pub open spec fn offset_of(r: SearchRequest) -> usize {
    match r.offset {
        Some(o) => o,
        None => 0,
    }
}

/// The page size, `DEFAULT_LIMIT` when absent.
pub open spec fn limit_of(r: SearchRequest) -> usize {
    match r.limit {
        Some(l) => l,
        None => DEFAULT_LIMIT,
    }
}

/// The sort keys of the request, in order.
pub open spec fn sort_keys(r: SearchRequest) -> Seq<SortKey> {
    string_views(r.sort@).map_values(|s: Seq<char>| parse_sort_key(s))
}

/// The results among the first `n` movies, in catalog order.
pub open spec fn results_upto(
    movies: Seq<Movie>,
    f: Option<SearchFilter>,
    toks: Seq<Seq<char>>,
    typo: bool,
    n: int,
) -> Seq<RankedMovie>
    decreases n,
{
    if n <= 0 {
        seq![]
    } else {
        let r = results_upto(movies, f, toks, typo, n - 1);
        match candidate(movies[n - 1], n - 1, matches_filter(movies[n - 1], f), toks, typo) {
            Some(c) => r.push(c),
            None => r,
        }
    }
}

/// The movies that answer the request, with their scores, in catalog order.
pub open spec fn search_results(movies: Seq<Movie>, r: SearchRequest) -> Seq<RankedMovie> {
    results_upto(movies, r.filters, query_tokens(query_of(r)), r.typo_tolerance, movies.len() as int)
}

/// The results in result order.
pub open spec fn ordered_search_results(movies: Seq<Movie>, r: SearchRequest) -> Seq<RankedMovie> {
    ordered_results(movies, sort_keys(r), search_results(movies, r))
}

/// The results on the requested page.
pub open spec fn page_results(movies: Seq<Movie>, r: SearchRequest) -> Seq<RankedMovie> {
    page(ordered_search_results(movies, r), offset_of(r) as int, limit_of(r) as int)
}

/// The number of genre values of all movies: a bound on how many genre values
/// a facet can count.
pub open spec fn genre_value_total(movies: Seq<Movie>) -> nat
    decreases movies.len(),
{
    if movies.len() == 0 {
        0
    } else {
        genre_value_total(movies.drop_last()) + genre_values(movies.last().genre@).len()
    }
}

/// The results among the first `n` movies name distinct movies, in catalog
/// order, each as `candidate` makes it.
pub proof fn lemma_results_upto(
    movies: Seq<Movie>,
    f: Option<SearchFilter>,
    toks: Seq<Seq<char>>,
    typo: bool,
    n: int,
)
    requires
        0 <= n <= movies.len(),
        movies.len() <= usize::MAX,
        3 * toks.len() <= usize::MAX,
    ensures
        results_upto(movies, f, toks, typo, n).len() <= n,
        forall|k: int|
            0 <= k < results_upto(movies, f, toks, typo, n).len() ==> (#[trigger] results_upto(
                movies,
                f,
                toks,
                typo,
                n,
            )[k]).index < n,
        forall|k: int, l: int|
            0 <= k < l < results_upto(movies, f, toks, typo, n).len() ==> (#[trigger] results_upto(
                movies,
                f,
                toks,
                typo,
                n,
            )[k]).index < (#[trigger] results_upto(movies, f, toks, typo, n)[l]).index,
        forall|k: int|
            0 <= k < results_upto(movies, f, toks, typo, n).len() ==> candidate(
                movies[(#[trigger] results_upto(movies, f, toks, typo, n)[k]).index as int],
                results_upto(movies, f, toks, typo, n)[k].index as int,
                matches_filter(movies[results_upto(movies, f, toks, typo, n)[k].index as int], f),
                toks,
                typo,
            ) == Some(results_upto(movies, f, toks, typo, n)[k]),
        genre_items(movies, results_upto(movies, f, toks, typo, n)).len() <= genre_value_total(
            movies.take(n),
        ),
    decreases n,
{
    if n > 0 {
        lemma_results_upto(movies, f, toks, typo, n - 1);
        let r = results_upto(movies, f, toks, typo, n - 1);
        assert(movies.take(n).drop_last() =~= movies.take(n - 1));
        lemma_score_bound(movies[n - 1], toks, typo);
        match candidate(movies[n - 1], n - 1, matches_filter(movies[n - 1], f), toks, typo) {
            Some(c) => {
                let s = r.push(c);
                assert(s.drop_last() =~= r);
                assert(c.index == n - 1);
                assert forall|k: int| 0 <= k < s.len() implies (#[trigger] s[k]).index < n && candidate(
                    movies[s[k].index as int],
                    s[k].index as int,
                    matches_filter(movies[s[k].index as int], f),
                    toks,
                    typo,
                ) == Some(s[k]) by {
                    if k < r.len() {
                        assert(s[k] == r[k]);
                    } else {
                        assert(s[k] == c);
                    }
                }
                assert forall|k: int, l: int| 0 <= k < l < s.len() implies (#[trigger] s[k]).index
                    < (#[trigger] s[l]).index by {
                    assert(s[k] == r[k]);
                    if l < r.len() {
                        assert(s[l] == r[l]);
                    }
                }
            },
            None => {},
        }
    } else {
        assert(movies.take(n) =~= Seq::<Movie>::empty());
    }
}

proof fn lemma_genre_value_total_prefix(movies: Seq<Movie>, n: int)
    requires
        0 <= n <= movies.len(),
    ensures
        genre_value_total(movies.take(n)) <= genre_value_total(movies),
    decreases movies.len(),
{
    if n < movies.len() {
        assert(movies.take(n) =~= movies.drop_last().take(n));
        lemma_genre_value_total_prefix(movies.drop_last(), n);
    } else {
        assert(movies.take(n) =~= movies);
    }
}


/// The name `genre`.
pub open spec fn genre_name() -> Seq<char> {
    seq!['g', 'e', 'n', 'r', 'e']
}

/// The name `year`.
pub open spec fn year_name() -> Seq<char> {
    seq!['y', 'e', 'a', 'r']
}

/// The name `overview`.
pub open spec fn overview_name() -> Seq<char> {
    seq!['o', 'v', 'e', 'r', 'v', 'i', 'e', 'w']
}

/// The name `title`.
pub open spec fn title_name() -> Seq<char> {
    seq!['t', 'i', 't', 'l', 'e']
}

/// The highlighted entry of one field, when it is wanted.
pub open spec fn field_entry(name: Seq<char>, value: Seq<char>, toks: Seq<Seq<char>>, wanted: bool) -> Seq<
    (Seq<char>, Seq<char>),
> {
    if wanted {
        seq![(name, highlight(value, toks)->0)]
    } else {
        seq![]
    }
}

/// The highlighted fields of a result, by field name in order (genre,
/// overview, title); `None` when no highlighting was asked for or no asked
/// field is one of these three.
pub open spec fn formatted_spec(m: Movie, toks: Seq<Seq<char>>, hl: Seq<String>) -> Option<
    Seq<(Seq<char>, Seq<char>)>,
> {
    if hl.len() == 0 {
        None
    } else {
        let e = field_entry(genre_name(), m.genre@, toks, requested(hl, genre_name())) + field_entry(
            overview_name(),
            m.overview@,
            toks,
            requested(hl, overview_name()),
        ) + field_entry(title_name(), m.title@, toks, requested(hl, title_name()));
        if e.len() == 0 {
            None
        } else {
            Some(e)
        }
    }
}

/// Highlighting the asked fields of `m` does not slice a string off a
/// character boundary.
pub open spec fn formatted_defined(m: Movie, toks: Seq<Seq<char>>, hl: Seq<String>) -> bool {
    hl.len() > 0 ==> {
        &&& requested(hl, genre_name()) ==> highlight(m.genre@, toks) is Some
        &&& requested(hl, overview_name()) ==> highlight(m.overview@, toks) is Some
        &&& requested(hl, title_name()) ==> highlight(m.title@, toks) is Some
    }
}

/// The highlighted fields as character sequences.
pub open spec fn formatted_view(f: Option<Vec<(String, String)>>) -> Option<Seq<(Seq<char>, Seq<char>)>> {
    match f {
        Some(v) => Some(v@.map_values(|e: (String, String)| (e.0@, e.1@))),
        None => None,
    }
}

/// The hit `h` presents result `c`.
pub open spec fn hit_matches(
    movies: Seq<Movie>,
    toks: Seq<Seq<char>>,
    r: SearchRequest,
    c: RankedMovie,
    h: SearchHit,
) -> bool {
    &&& h.movie == movies[c.index as int]
    &&& formatted_view(h.formatted) == formatted_spec(movies[c.index as int], toks, r.highlight@)
    &&& h.ranking_info == if r.debug_ranking {
        Some(
            HitRankingInfo {
                matched_tokens: c.matched_tokens,
                field_weight: c.field_weight,
                typo_matches: c.typo_matches,
            },
        )
    } else {
        None
    }
}

/// The facet distribution as character sequences.
pub open spec fn facet_view(d: Seq<(String, Vec<(String, usize)>)>) -> Seq<(Seq<char>, Seq<(Seq<char>, usize)>)> {
    d.map_values(|e: (String, Vec<(String, usize)>)| (e.0@, counts_view(e.1@)))
}

/// The distribution holds, for `genre` and then `year` when asked for, the
/// counts of each genre and each year among the results.
pub open spec fn facets_match(
    d: Seq<(Seq<char>, Seq<(Seq<char>, usize)>)>,
    movies: Seq<Movie>,
    cands: Seq<RankedMovie>,
    facets: Seq<String>,
) -> bool {
    let g = requested(facets, genre_name());
    let y = requested(facets, year_name());
    &&& d.len() == (if g {
        1int
    } else {
        0int
    }) + (if y {
        1int
    } else {
        0int
    })
    &&& g ==> d[0].0 == genre_name() && is_histogram(d[0].1, genre_items(movies, cands))
    &&& y ==> d[d.len() - 1].0 == year_name() && is_histogram(d[d.len() - 1].1, year_items(movies, cands))
}

/// The statistics hold the year range of the results when `year` is asked for
/// and some result has a year.
pub open spec fn stats_match(
    st: Seq<(String, FacetStats)>,
    movies: Seq<Movie>,
    cands: Seq<RankedMovie>,
    facets: Seq<String>,
) -> bool {
    if requested(facets, year_name()) && year_range(movies, cands) is Some {
        let (lo, hi) = year_range(movies, cands)->0;
        st.len() == 1 && st[0].0@ == year_name() && st[0].1 == FacetStats { min: lo, max: hi }
    } else {
        st.len() == 0
    }
}

/// `resp` answers the request `r` on the catalog `movies` (its processing time aside).
pub open spec fn search_response_matches(movies: Seq<Movie>, r: SearchRequest, resp: SearchResponse) -> bool {
    let toks = query_tokens(query_of(r));
    let results = search_results(movies, r);
    let pg = page_results(movies, r);
    &&& resp.query@ == query_of(r)
    &&& resp.offset == offset_of(r)
    &&& resp.limit == limit_of(r)
    &&& resp.estimated_total_hits == results.len()
    &&& resp.hits@.len() == pg.len()
    &&& forall|i: int| 0 <= i < pg.len() ==> hit_matches(movies, toks, r, #[trigger] pg[i], resp.hits@[i])
    &&& facets_match(facet_view(resp.facet_distribution@), movies, results, r.facets@)
    &&& stats_match(resp.facet_stats@, movies, results, r.facets@)
    &&& (resp.ranking_info is Some) == r.debug_ranking
    &&& resp.ranking_info matches Some(info) ==> info.strategy == RANKING_STRATEGY
        && info.typo_tolerance == r.typo_tolerance && info.sort@ == r.sort@
}

/// Highlighting the page of results does not slice a string off a character
/// boundary (where the search would panic).
pub open spec fn search_defined(movies: Seq<Movie>, r: SearchRequest) -> bool {
    let pg = page_results(movies, r);
    forall|i: int|
        0 <= i < pg.len() ==> formatted_defined(
            movies[(#[trigger] pg[i]).index as int],
            query_tokens(query_of(r)),
            r.highlight@,
        )
}

/// Counts stay within `usize`: the query is short enough for the token
/// weights and the genre fields for the genre counts.
pub open spec fn search_fits(movies: Seq<Movie>, r: SearchRequest) -> bool {
    &&& 3 * query_of(r).len() <= usize::MAX
    &&& genre_value_total(movies) <= usize::MAX
}


/// A copy of a list of strings.
pub fn clone_strings(v: &Vec<String>) -> (r: Vec<String>)
    ensures
        r@ == v@,
{
    let mut out: Vec<String> = Vec::new();
    let mut k: usize = 0;
    while k < v.len()
        invariant
            k <= v.len(),
            out@ == v@.take(k as int),
        decreases v.len() - k,
    {
        out.push(v[k].clone());
        proof {
            assert(out@ =~= v@.take(k + 1));
        }
        k = k + 1;
    }
    proof {
        assert(v@.take(v.len() as int) =~= v@);
    }
    out
}

/// The highlighted fields of a movie; `None` where highlighting would slice a
/// string off a character boundary.
fn formatted_for(
    m: &Movie,
    toks: &Vec<Vec<char>>,
    any: bool,
    want_genre: bool,
    want_overview: bool,
    want_title: bool,
    Ghost(hl): Ghost<Seq<String>>,
) -> (r: Option<Option<Vec<(String, String)>>>)
    requires
        any == (hl.len() > 0),
        want_genre == requested(hl, genre_name()),
        want_overview == requested(hl, overview_name()),
        want_title == requested(hl, title_name()),
    ensures
        r is Some <==> formatted_defined(*m, views(toks@), hl),
        r matches Some(f) ==> formatted_view(f) == formatted_spec(*m, views(toks@), hl),
{
    if !any {
        return Some(None);
    }
    let ghost vt = views(toks@);
    let mut out: Vec<(String, String)> = Vec::new();
    let ghost mut expect: Seq<(Seq<char>, Seq<char>)> = seq![];
    if want_genre {
        match highlight_value(&m.genre, toks) {
            Some(h) => {
                let name: Vec<char> = vec!['g', 'e', 'n', 'r', 'e'];
                proof {
                    assert(name@ =~= genre_name());
                }
                out.push((string_from_chars(name.as_slice()), h));
            },
            None => {
                return None;
            },
        }
    }
    proof {
        expect = field_entry(genre_name(), m.genre@, vt, want_genre);
        assert(out@.map_values(|e: (String, String)| (e.0@, e.1@)) =~= expect);
    }
    if want_overview {
        match highlight_value(&m.overview, toks) {
            Some(h) => {
                let name: Vec<char> = vec!['o', 'v', 'e', 'r', 'v', 'i', 'e', 'w'];
                proof {
                    assert(name@ =~= overview_name());
                }
                let ghost before = out@;
                out.push((string_from_chars(name.as_slice()), h));
                proof {
                    assert(out@.map_values(|e: (String, String)| (e.0@, e.1@)) =~= before.map_values(
                        |e: (String, String)| (e.0@, e.1@),
                    ).push((overview_name(), highlight(m.overview@, vt)->0)));
                }
            },
            None => {
                return None;
            },
        }
    }
    proof {
        expect = expect + field_entry(overview_name(), m.overview@, vt, want_overview);
        assert(out@.map_values(|e: (String, String)| (e.0@, e.1@)) =~= expect);
    }
    if want_title {
        match highlight_value(&m.title, toks) {
            Some(h) => {
                let name: Vec<char> = vec!['t', 'i', 't', 'l', 'e'];
                proof {
                    assert(name@ =~= title_name());
                }
                let ghost before = out@;
                out.push((string_from_chars(name.as_slice()), h));
                proof {
                    assert(out@.map_values(|e: (String, String)| (e.0@, e.1@)) =~= before.map_values(
                        |e: (String, String)| (e.0@, e.1@),
                    ).push((title_name(), highlight(m.title@, vt)->0)));
                }
            },
            None => {
                return None;
            },
        }
    }
    proof {
        expect = expect + field_entry(title_name(), m.title@, vt, want_title);
        assert(out@.map_values(|e: (String, String)| (e.0@, e.1@)) =~= expect);
    }
    if out.len() == 0 {
        Some(None)
    } else {
        Some(Some(out))
    }
}

proof fn lemma_response_matches(
    movies: Seq<Movie>,
    r: SearchRequest,
    resp: SearchResponse,
    toks: Seq<Seq<char>>,
    cands: Seq<RankedMovie>,
    pg: Seq<RankedMovie>,
)
    requires
        toks == query_tokens(query_of(r)),
        cands == search_results(movies, r),
        pg == page_results(movies, r),
        resp.query@ == query_of(r),
        resp.offset == offset_of(r),
        resp.limit == limit_of(r),
        resp.estimated_total_hits == cands.len(),
        resp.hits@.len() == pg.len(),
        forall|i: int| 0 <= i < pg.len() ==> hit_matches(movies, toks, r, #[trigger] pg[i], resp.hits@[i]),
        facets_match(facet_view(resp.facet_distribution@), movies, cands, r.facets@),
        stats_match(resp.facet_stats@, movies, cands, r.facets@),
        (resp.ranking_info is Some) == r.debug_ranking,
        resp.ranking_info matches Some(info) ==> info.strategy == RANKING_STRATEGY
            && info.typo_tolerance == r.typo_tolerance && info.sort@ == r.sort@,
    ensures
        search_response_matches(movies, r, resp),
{
}

/// The sort keys of a list of sort requests, in order.
pub fn sort_keys_of(sort: &Vec<String>) -> (r: Vec<SortKey>)
    ensures
        r@ == string_views(sort@).map_values(|s: Seq<char>| parse_sort_key(s)),
{
    let ghost want = string_views(sort@).map_values(|s: Seq<char>| parse_sort_key(s));
    let mut keys: Vec<SortKey> = Vec::new();
    let mut k: usize = 0;
    while k < sort.len()
        invariant
            k <= sort.len(),
            want == string_views(sort@).map_values(|s: Seq<char>| parse_sort_key(s)),
            keys@ == want.take(k as int),
        decreases sort.len() - k,
    {
        keys.push(parse_sort_key_exec(&sort[k]));
        proof {
            assert(keys@ =~= want.take(k + 1));
        }
        k = k + 1;
    }
    proof {
        assert(want.take(sort.len() as int) =~= want);
    }
    keys
}

impl MovieSearch {
    /// Collects the movies that pass the filter and match the tokens.
    fn collect_results(
        &self,
        request: &SearchRequest,
        toks: &Vec<Vec<char>>,
    ) -> (r: Vec<RankedMovie>)
        requires
            self.wf(),
            views(toks@) == query_tokens(query_of(*request)),
            3 * toks@.len() <= usize::MAX,
        ensures
            r@ == search_results(self@, *request),
    {
        let prepared = prepare_filter(&request.filters);
        let ghost vt = views(toks@);
        let movies = self.all_movies();
        let mut out: Vec<RankedMovie> = Vec::new();
        let n = movies.len();
        let mut i: usize = 0;
        while i < n
            invariant
                i <= n,
                n == self@.len(),
                self@ == movies@,
                vt == views(toks@),
                3 * toks@.len() <= usize::MAX,
                crate::filter::prepared_from(prepared, request.filters),
                out@ == results_upto(self@, request.filters, vt, request.typo_tolerance, i as int),
            decreases n - i,
        {
            let m = &movies[i];
            if matches_filter_exec(m, &prepared, Ghost(request.filters)) {
                if toks.len() == 0 {
                    out.push(
                        RankedMovie {
                            index: i,
                            matched_tokens: 0,
                            field_weight: 0,
                            match_quality: 0,
                            typo_matches: 0,
                        },
                    );
                } else {
                    match rank_movie(m, toks, request.typo_tolerance) {
                        Some(s) => {
                            out.push(
                                RankedMovie {
                                    index: i,
                                    matched_tokens: s.0,
                                    field_weight: s.1,
                                    match_quality: s.2,
                                    typo_matches: s.3,
                                },
                            );
                        },
                        None => {},
                    }
                }
            }
            i = i + 1;
        }
        out
    }

    /// Puts the results in result order.
    fn order_results(&self, cands: &Vec<RankedMovie>, keys: &Vec<SortKey>) -> (r: Vec<RankedMovie>)
        requires
            self.wf(),
            valid_results(self@, cands@),
            forall|k: int, l: int|
                0 <= k < l < cands@.len() ==> (#[trigger] cands@[k]).index < (#[trigger] cands@[l]).index,
        ensures
            r@ == ordered_results(self@, keys@, cands@),
            valid_results(self@, r@),
    {
        let movies = self.all_movies();
        let mut entries: Vec<RankEntry> = Vec::new();
        let mut k: usize = 0;
        while k < cands.len()
            invariant
                k <= cands.len(),
                self@ == movies@,
                valid_results(self@, cands@),
                entries@.len() == k,
                forall|j: int|
                    0 <= j < k ==> entry_view(#[trigger] entries@[j]) == rank_view(self@, cands@[j]),
            decreases cands.len() - k,
        {
            let c = cands[k];
            let m = &movies[c.index];
            let title = lowercase_chars(chars_of(m.title.as_str()).as_slice());
            entries.push(
                RankEntry {
                    id: m.id,
                    title,
                    year: m.year,
                    matched: c.matched_tokens,
                    weight: c.field_weight,
                    quality: c.match_quality,
                },
            );
            k = k + 1;
        }
        let mut key_copy: Vec<SortKey> = Vec::new();
        let mut k: usize = 0;
        while k < keys.len()
            invariant
                k <= keys.len(),
                key_copy@ == keys@.take(k as int),
            decreases keys.len() - k,
        {
            key_copy.push(keys[k]);
            proof {
                assert(key_copy@ =~= keys@.take(k + 1));
            }
            k = k + 1;
        }
        proof {
            assert(keys@.take(keys.len() as int) =~= keys@);
        }
        let ord = EntryOrder { entries, keys: key_copy };
        let range = index_range(cands.len());
        let sorted = merge_sort(&ord, range);
        proof {
            lemma_permutation_of_range(sorted@, range@, cands@.len());
        }
        let mut out: Vec<RankedMovie> = Vec::new();
        let mut p: usize = 0;
        while p < sorted.len()
            invariant
                p <= sorted.len(),
                sorted@.len() == cands@.len(),
                out@.len() == p,
                forall|q: int| 0 <= q < sorted@.len() ==> (#[trigger] sorted@[q] as int) < cands@.len(),
                forall|q: int| 0 <= q < p ==> #[trigger] out@[q] == cands@[sorted@[q] as int],
            decreases sorted.len() - p,
        {
            out.push(cands[sorted[p]]);
            p = p + 1;
        }
        proof {
            let o = out@;
            let ghost movies = self@;
            assert forall|x: RankedMovie| #![trigger o.contains(x)] #![trigger cands@.contains(x)] o.contains(x) <==> cands@.contains(x) by {
                if o.contains(x) {
                    let q = choose|q: int| 0 <= q < o.len() && o[q] == x;
                    assert(cands@[sorted@[q] as int] == x);
                }
                if cands@.contains(x) {
                    let j = choose|j: int| 0 <= j < cands@.len() && cands@[j] == x;
                    assert(sorted@.contains(j as usize));
                    let q = choose|q: int| 0 <= q < sorted@.len() && sorted@[q] == j as usize;
                    assert(o[q] == x);
                }
            }
            assert forall|i: int, j: int| 0 <= i < j < o.len() implies result_order(
                keys@,
                rank_view(movies, #[trigger] o[i]),
                rank_view(movies, #[trigger] o[j]),
            ) == Rel::Less by {
                let a = sorted@[i] as int;
                let b = sorted@[j] as int;
                assert(ord.le(a, b));
                assert(entry_view(ord.entries@[a]) == rank_view(movies, cands@[a]));
                assert(entry_view(ord.entries@[b]) == rank_view(movies, cands@[b]));
                assert(a != b);
                lemma_result_order_equal(keys@, rank_view(movies, cands@[a]), rank_view(movies, cands@[b]));
                if a < b {
                    assert(cands@[a].index < cands@[b].index);
                } else {
                    assert(cands@[b].index < cands@[a].index);
                }
            }
            assert(is_ordering(movies, keys@, cands@, o));
            assert forall|i: int| 0 <= i < o.len() implies (#[trigger] o[i]).index < movies.len() by {
                assert(o.contains(o[i]));
                assert(cands@.contains(o[i]));
            }
            let chosen = ordered_results(movies, keys@, cands@);
            assert(is_ordering(movies, keys@, cands@, chosen));
            lemma_ordering_unique(movies, keys@, o, chosen);
        }
        out
    }

    /// The hits for the results `ordered[start..end]`; `None` where
    /// highlighting one of them would slice a string off a character boundary.
    fn page_hits(
        &self,
        ordered: &Vec<RankedMovie>,
        toks: &Vec<Vec<char>>,
        request: &SearchRequest,
        start: usize,
        end: usize,
    ) -> (r: Option<Vec<SearchHit>>)
        requires
            start <= end <= ordered@.len(),
            valid_results(self@, ordered@),
        ensures
            r is Some <==> forall|i: int|
                start <= i < end ==> formatted_defined(
                    self@[(#[trigger] ordered@[i]).index as int],
                    views(toks@),
                    request.highlight@,
                ),
            r matches Some(h) ==> h@.len() == end - start && forall|i: int|
                0 <= i < end - start ==> hit_matches(
                    self@,
                    views(toks@),
                    *request,
                    #[trigger] ordered@[start + i],
                    h@[i],
                ),
    {
        let ghost vt = views(toks@);
        let movies = self.all_movies();
        let genre_chars: Vec<char> = vec!['g', 'e', 'n', 'r', 'e'];
        let overview_chars: Vec<char> = vec!['o', 'v', 'e', 'r', 'v', 'i', 'e', 'w'];
        let title_chars: Vec<char> = vec!['t', 'i', 't', 'l', 'e'];
        proof {
            assert(genre_chars@ =~= genre_name());
            assert(overview_chars@ =~= overview_name());
            assert(title_chars@ =~= title_name());
        }
        let any_highlight = request.highlight.len() > 0;
        let hl_genre = is_requested(&request.highlight, genre_chars.as_slice());
        let hl_overview = is_requested(&request.highlight, overview_chars.as_slice());
        let hl_title = is_requested(&request.highlight, title_chars.as_slice());
        let mut hits: Vec<SearchHit> = Vec::new();
        let mut p = start;
        while p < end
            invariant
                start <= p <= end <= ordered@.len(),
                self@ == movies@,
                vt == views(toks@),
                valid_results(self@, ordered@),
                any_highlight == (request.highlight@.len() > 0),
                hl_genre == requested(request.highlight@, genre_name()),
                hl_overview == requested(request.highlight@, overview_name()),
                hl_title == requested(request.highlight@, title_name()),
                hits@.len() == p - start,
                forall|i: int|
                    0 <= i < p - start ==> hit_matches(
                        self@,
                        vt,
                        *request,
                        #[trigger] ordered@[start + i],
                        hits@[i],
                    ),
                forall|i: int|
                    start <= i < p ==> formatted_defined(
                        self@[(#[trigger] ordered@[i]).index as int],
                        vt,
                        request.highlight@,
                    ),
            decreases end - p,
        {
            let c = ordered[p];
            let m = &movies[c.index];
            let formatted = match formatted_for(
                m,
                toks,
                any_highlight,
                hl_genre,
                hl_overview,
                hl_title,
                Ghost(request.highlight@),
            ) {
                Some(f) => f,
                None => {
                    return None;
                },
            };
            let ranking_info = if request.debug_ranking {
                Some(
                    HitRankingInfo {
                        matched_tokens: c.matched_tokens,
                        field_weight: c.field_weight,
                        typo_matches: c.typo_matches,
                    },
                )
            } else {
                None
            };
            hits.push(SearchHit { movie: m.clone(), formatted, ranking_info });
            proof {
                assert(ordered@[start + (p - start)] == c);
            }
            p = p + 1;
        }
        Some(hits)
    }

    /// The facet distribution and statistics of the results.
    fn facets_of(&self, cands: &Vec<RankedMovie>, facets: &Vec<String>) -> (r: (
        FacetDistribution,
        Vec<(String, FacetStats)>,
    ))
        requires
            valid_results(self@, cands@),
            genre_items(self@, cands@).len() <= usize::MAX,
        ensures
            facets_match(facet_view(r.0@), self@, cands@, facets@),
            stats_match(r.1@, self@, cands@, facets@),
    {
        let movies = self.all_movies();
        let genre_chars: Vec<char> = vec!['g', 'e', 'n', 'r', 'e'];
        let year_chars: Vec<char> = vec!['y', 'e', 'a', 'r'];
        proof {
            assert(genre_chars@ =~= genre_name());
            assert(year_chars@ =~= year_name());
        }
        let mut dist: FacetDistribution = Vec::new();
        if is_requested(facets, genre_chars.as_slice()) {
            let counts = genre_histogram(movies, cands);
            dist.push((string_from_chars(genre_chars.as_slice()), counts));
        }
        let want_year = is_requested(facets, year_chars.as_slice());
        if want_year {
            let counts = year_histogram(movies, cands);
            dist.push((string_from_chars(year_chars.as_slice()), counts));
        }
        let mut stats: Vec<(String, FacetStats)> = Vec::new();
        if want_year {
            match year_bounds(movies, cands) {
                Some((lo, hi)) => {
                    stats.push((string_from_chars(year_chars.as_slice()), FacetStats { min: lo, max: hi }));
                },
                None => {},
            }
        }
        (dist, stats)
    }

    /// Answers a search request, with a processing time of 0; `None` where
    /// highlighting a result would slice a string off a character boundary.
    fn search_core(&self, request: &SearchRequest) -> (r: Option<SearchResponse>)
        requires
            self.wf(),
            search_fits(self@, *request),
        ensures
            r is Some <==> search_defined(self@, *request),
            r matches Some(resp) ==> search_response_matches(self@, *request, resp)
                && resp.processing_time_ms == 0,
    {
        let query: String = match &request.q {
            Some(q) => q.clone(),
            None => string_from_chars(Vec::<char>::new().as_slice()),
        };
        let qchars = chars_of(query.as_str());
        proof {
            assert(qchars@ == query_of(*request));
            lemma_query_tokens_len(qchars@);
        }
        let toks = tokenize(qchars.as_slice());
        let ghost vt = views(toks@);
        let offset: usize = match request.offset {
            Some(o) => o,
            None => 0,
        };
        let limit: usize = match request.limit {
            Some(l) => l,
            None => DEFAULT_LIMIT,
        };
        let cands = self.collect_results(request, &toks);
        let movies = self.all_movies();
        proof {
            assert(movies@.len() == movies.len());
        }
        assert({
            &&& valid_results(self@, cands@)
            &&& genre_items(self@, cands@).len() <= usize::MAX
            &&& forall|k: int, l: int|
                0 <= k < l < cands@.len() ==> (#[trigger] cands@[k]).index < (#[trigger] cands@[l]).index
        }) by {
            lemma_results_upto(
                self@,
                request.filters,
                vt,
                request.typo_tolerance,
                self@.len() as int,
            );
            lemma_genre_value_total_prefix(self@, self@.len() as int);
            assert(self@.take(self@.len() as int) =~= self@);
        }
        let (facet_distribution, facet_stats) = self.facets_of(&cands, &request.facets);
        let keys = sort_keys_of(&request.sort);
        let ordered = self.order_results(&cands, &keys);
        let total = ordered.len();
        let start = if offset < total {
            offset
        } else {
            total
        };
        let end = if limit < total - start {
            start + limit
        } else {
            total
        };
        let ghost pg = page_results(self@, *request);
        proof {
            assert(pg =~= ordered@.subrange(start as int, end as int));
        }
        let hits = match self.page_hits(&ordered, &toks, request, start, end) {
            Some(h) => h,
            None => {
                proof {
                    let i = choose|i: int|
                        start <= i < end && !formatted_defined(
                            self@[(#[trigger] ordered@[i]).index as int],
                            vt,
                            request.highlight@,
                        );
                    assert(pg[i - start] == ordered@[i]);
                }
                return None;
            },
        };
        proof {
            assert forall|i: int| 0 <= i < pg.len() implies formatted_defined(
                self@[(#[trigger] pg[i]).index as int],
                vt,
                request.highlight@,
            ) by {
                assert(pg[i] == ordered@[start + i]);
            }
            assert forall|i: int| 0 <= i < pg.len() implies hit_matches(
                self@,
                vt,
                *request,
                #[trigger] pg[i],
                hits@[i],
            ) by {
                assert(pg[i] == ordered@[start + i]);
            }
        }
        let ranking_info = if request.debug_ranking {
            Some(
                RankingInfo {
                    strategy: RANKING_STRATEGY,
                    typo_tolerance: request.typo_tolerance,
                    sort: clone_strings(&request.sort),
                },
            )
        } else {
            None
        };
        let resp = SearchResponse {
            hits,
            query,
            offset,
            limit,
            estimated_total_hits: cands.len(),
            processing_time_ms: 0,
            facet_distribution,
            facet_stats,
            ranking_info,
        };
        proof {
            lemma_response_matches(self@, *request, resp, vt, cands@, pg);
        }
        Some(resp)
    }

    /// Whether the counts of a search on this catalog stay within `usize`.
    fn search_fits_exec(&self, request: &SearchRequest) -> (r: bool)
        ensures
            r == search_fits(self@, *request),
    {
        let qlen: usize = match &request.q {
            Some(q) => chars_of(q.as_str()).len(),
            None => 0,
        };
        if qlen > usize::MAX / 3 {
            return false;
        }
        let movies = self.all_movies();
        let mut total: usize = 0;
        let mut i: usize = 0;
        proof {
            assert(self@.take(0) =~= Seq::<Movie>::empty());
        }
        while i < movies.len()
            invariant
                i <= movies.len(),
                self@ == movies@,
                total == genre_value_total(self@.take(i as int)),
            decreases movies.len() - i,
        {
            let values = trimmed_pieces(chars_of(movies[i].genre.as_str()).as_slice(), true);
            proof {
                assert(self@.take(i + 1).drop_last() =~= self@.take(i as int));
                assert(values@.len() == views(values@).len());
            }
            if values.len() > usize::MAX - total {
                proof {
                    lemma_genre_value_total_prefix(self@, i + 1);
                }
                return false;
            }
            total = total + values.len();
            i = i + 1;
        }
        proof {
            assert(self@.take(movies.len() as int) =~= self@);
        }
        true
    }

    /// Answers a search request: the movies that pass the filter and match
    /// the query (all of them for an empty query), in result order, the
    /// requested page of them with highlighting and ranking details as asked,
    /// and the facets of all of them.
    pub fn search(&self, request: SearchRequest) -> (r: SearchResponse)
        requires
            self.wf(),
            search_fits(self@, request),
            search_defined(self@, request),
        ensures
            search_response_matches(self@, request, r),
    {
        let started = now();
        let mut resp = self.search_core(&request).unwrap();
        resp.processing_time_ms = millis_since(&started);
        resp
    }

    /// Answers a search request as `search` does, or `None` where the counts
    /// would not fit in `usize` or highlighting a result would slice a string
    /// off a character boundary.
    pub fn try_search(&self, request: SearchRequest) -> (r: Option<SearchResponse>)
        requires
            self.wf(),
        ensures
            r is Some <==> search_fits(self@, request) && search_defined(self@, request),
            r matches Some(resp) ==> search_response_matches(self@, request, resp),
    {
        let started = now();
        if !self.search_fits_exec(&request) {
            return None;
        }
        match self.search_core(&request) {
            Some(mut resp) => {
                resp.processing_time_ms = millis_since(&started);
                Some(resp)
            },
            None => None,
        }
    }
}

} // verus!
