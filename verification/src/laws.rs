//! Properties of the search engine as a whole, stated over the models that
//! the operations' contracts use.

use vstd::prelude::*;
use crate::catalog::{dedup_by_id, has_id, ids_increasing, kept, last_of_id, page, Movie, MovieSearch};
use crate::filter::{matches_filter, SearchRequest};
use crate::matching::MatchKind;
use crate::rank::{candidate, field_match, score, token_match};
use crate::matching::{contains, lemma_find_from, match_kind, occurs_at, some_prefix, starts_with};
use crate::text::{all_ascii, is_sep, is_ws, split_pieces, trim, trim_end, trim_start, trimmed_nonempty, word_tokens};
use crate::search::{
    lemma_results_upto, limit_of, offset_of, ordered_search_results, page_results, query_of, results_upto,
    search_fits, search_results, sort_keys, facet_view, facets_match, formatted_view, genre_name, hit_matches,
    search_response_matches, SearchResponse,
};
use crate::highlight::{escape_char, escape_html};
use crate::json::Json;
use crate::legacy::{
    add_all, add_succeeds, added, bucket, count_contained, doc_key, indexes_step, levels, ranked_docs, scores_of,
    total_documents, EngineView, IndexInfo, IndexStats, IndexesResponse, SearchEngine, StatsResponse, IndexView,
};
use crate::keyed::{has_key, key_pos, keys_sorted, lemma_key_pos, lemma_upsert, upsert};
use crate::csvio::{all_names, row_cells};
use crate::order::{lex_lt, strictly_sorted};
use crate::text::{lemma_sorted_set, sorted_set};
use crate::suggest::{
    at_most, dedup_titles, normalized_query, ranked_titles, seen_before, suggest_limit, suggestions_spec, title_rank,
};
use crate::filter::{SearchFilter, SuggestRequest};
use crate::text::{lowercase, query_tokens};
use crate::facets::{count_of, genre_items, is_histogram, requested, valid_results, year_items, year_range};
use crate::order::Rel;
use crate::rank::{
    is_ordering, lemma_ordering_unique, lemma_result_order_coherent, lemma_result_order_equal,
    ordered_results, rank_view, result_order, RankedMovie, SortKey,
};

verus! {

/// `o` is strictly increasing in result order.
pub open spec fn strictly_ordered(movies: Seq<Movie>, keys: Seq<SortKey>, o: Seq<RankedMovie>) -> bool {
    forall|i: int, j: int|
        0 <= i < j < o.len() ==> result_order(
            keys,
            rank_view(movies, #[trigger] o[i]),
            rank_view(movies, #[trigger] o[j]),
        ) == Rel::Less
}

/// Results name distinct movies of the catalog, in increasing catalog order.
pub open spec fn distinct_results(movies: Seq<Movie>, cands: Seq<RankedMovie>) -> bool {
    &&& valid_results(movies, cands)
    &&& forall|k: int, l: int|
        0 <= k < l < cands.len() ==> (#[trigger] cands[k]).index < (#[trigger] cands[l]).index
}

/// The result order of two results, with its definition hidden.
#[verifier::opaque]
spec fn rel_of(movies: Seq<Movie>, keys: Seq<SortKey>, a: RankedMovie, b: RankedMovie) -> Rel {
    result_order(keys, rank_view(movies, a), rank_view(movies, b))
}

spec fn sorted_by_rel(movies: Seq<Movie>, keys: Seq<SortKey>, o: Seq<RankedMovie>) -> bool {
    forall|i: int, j: int| 0 <= i < j < o.len() ==> rel_of(movies, keys, #[trigger] o[i], #[trigger] o[j]) == Rel::Less
}

proof fn lemma_rel(movies: Seq<Movie>, keys: Seq<SortKey>, a: RankedMovie, b: RankedMovie, c: RankedMovie)
    ensures
        rel_of(movies, keys, b, a) == rel_of(movies, keys, a, b).flip(),
        rel_of(movies, keys, a, b) == Rel::Less && rel_of(movies, keys, b, c) == Rel::Less ==> rel_of(
            movies,
            keys,
            a,
            c,
        ) == Rel::Less,
        rel_of(movies, keys, a, b) == Rel::Equal ==> movies[a.index as int].id == movies[b.index as int].id,
{
    reveal(rel_of);
    lemma_result_order_coherent(keys, rank_view(movies, a), rank_view(movies, b), rank_view(movies, c));
    lemma_result_order_equal(keys, rank_view(movies, a), rank_view(movies, b));
}

proof fn lemma_sorted_by_rel(movies: Seq<Movie>, keys: Seq<SortKey>, o: Seq<RankedMovie>)
    requires
        sorted_by_rel(movies, keys, o),
    ensures
        strictly_ordered(movies, keys, o),
{
    reveal(rel_of);
    assert forall|i: int, j: int| 0 <= i < j < o.len() implies result_order(
        keys,
        rank_view(movies, #[trigger] o[i]),
        rank_view(movies, #[trigger] o[j]),
    ) == Rel::Less by {
        assert(rel_of(movies, keys, o[i], o[j]) == Rel::Less);
    }
}

/// `x` placed into the ordered `o` before the first result it precedes.
spec fn insert_ordered(movies: Seq<Movie>, keys: Seq<SortKey>, o: Seq<RankedMovie>, x: RankedMovie) -> Seq<
    RankedMovie,
>
    decreases o.len(),
{
    if o.len() == 0 {
        seq![x]
    } else if rel_of(movies, keys, x, o[0]) == Rel::Less {
        seq![x] + o
    } else {
        seq![o[0]] + insert_ordered(movies, keys, o.drop_first(), x)
    }
}

proof fn lemma_insert_front(movies: Seq<Movie>, keys: Seq<SortKey>, o: Seq<RankedMovie>, x: RankedMovie)
    requires
        o.len() > 0,
        sorted_by_rel(movies, keys, o),
        rel_of(movies, keys, x, o[0]) == Rel::Less,
    ensures
        sorted_by_rel(movies, keys, seq![x] + o),
        forall|y: RankedMovie| #[trigger] (seq![x] + o).contains(y) <==> (o.contains(y) || y == x),
{
    let r = seq![x] + o;
    assert forall|i: int, j: int| 0 <= i < j < r.len() implies rel_of(movies, keys, #[trigger] r[i], #[trigger] r[j])
        == Rel::Less by {
        if i > 0 {
            assert(r[i] == o[i - 1] && r[j] == o[j - 1]);
        } else {
            assert(r[j] == o[j - 1]);
            if j > 1 {
                assert(rel_of(movies, keys, o[0], o[j - 1]) == Rel::Less);
                lemma_rel(movies, keys, x, o[0], o[j - 1]);
            }
        }
    }
    assert forall|y: RankedMovie| #[trigger] r.contains(y) <==> (o.contains(y) || y == x) by {
        if r.contains(y) {
            let k = choose|k: int| 0 <= k < r.len() && r[k] == y;
            if k > 0 {
                assert(o[k - 1] == y);
            }
        }
        if o.contains(y) {
            let k = choose|k: int| 0 <= k < o.len() && o[k] == y;
            assert(r[k + 1] == y);
        }
        if y == x {
            assert(r[0] == x);
        }
    }
}

proof fn lemma_insert_ordered(movies: Seq<Movie>, keys: Seq<SortKey>, o: Seq<RankedMovie>, x: RankedMovie)
    requires
        sorted_by_rel(movies, keys, o),
        forall|i: int| 0 <= i < o.len() ==> rel_of(movies, keys, #[trigger] o[i], x) != Rel::Equal,
    ensures
        sorted_by_rel(movies, keys, insert_ordered(movies, keys, o, x)),
        insert_ordered(movies, keys, o, x).len() == o.len() + 1,
        forall|y: RankedMovie|
            #[trigger] insert_ordered(movies, keys, o, x).contains(y) <==> (o.contains(y) || y == x),
    decreases o.len(),
{
    let r = insert_ordered(movies, keys, o, x);
    if o.len() == 0 {
        assert forall|y: RankedMovie| #[trigger] r.contains(y) <==> (o.contains(y) || y == x) by {
            if r.contains(y) {
                assert(r[0] == y);
            }
            if y == x {
                assert(r[0] == x);
            }
        }
    } else if rel_of(movies, keys, x, o[0]) == Rel::Less {
        lemma_insert_front(movies, keys, o, x);
    } else {
        let t = o.drop_first();
        assert forall|i: int, j: int| 0 <= i < j < t.len() implies rel_of(movies, keys, #[trigger] t[i], #[trigger] t[j])
            == Rel::Less by {
            assert(t[i] == o[i + 1] && t[j] == o[j + 1]);
        }
        assert forall|i: int| 0 <= i < t.len() implies rel_of(movies, keys, #[trigger] t[i], x) != Rel::Equal by {
            assert(t[i] == o[i + 1]);
        }
        lemma_insert_ordered(movies, keys, t, x);
        let ti = insert_ordered(movies, keys, t, x);
        assert(r =~= seq![o[0]] + ti);
        lemma_rel(movies, keys, o[0], x, x);
        assert(rel_of(movies, keys, o[0], x) == Rel::Less);
        assert forall|i: int, j: int| 0 <= i < j < r.len() implies rel_of(movies, keys, #[trigger] r[i], #[trigger] r[j])
            == Rel::Less by {
            if i > 0 {
                assert(r[i] == ti[i - 1] && r[j] == ti[j - 1]);
            } else {
                assert(r[j] == ti[j - 1]);
                assert(ti.contains(ti[j - 1]));
                if ti[j - 1] != x {
                    assert(t.contains(ti[j - 1]));
                    let k = choose|k: int| 0 <= k < t.len() && t[k] == ti[j - 1];
                    assert(o[k + 1] == t[k]);
                }
            }
        }
        assert forall|y: RankedMovie| #[trigger] r.contains(y) <==> (o.contains(y) || y == x) by {
            if r.contains(y) {
                let k = choose|k: int| 0 <= k < r.len() && r[k] == y;
                if k > 0 {
                    assert(ti[k - 1] == y);
                    assert(ti.contains(y));
                    if t.contains(y) {
                        let m = choose|m: int| 0 <= m < t.len() && t[m] == y;
                        assert(o[m + 1] == y);
                    }
                } else {
                    assert(o[0] == y);
                }
            }
            if o.contains(y) {
                let k = choose|k: int| 0 <= k < o.len() && o[k] == y;
                if k > 0 {
                    assert(t[k - 1] == y);
                    assert(t.contains(y));
                    assert(ti.contains(y));
                    let m = choose|m: int| 0 <= m < ti.len() && ti[m] == y;
                    assert(r[m + 1] == y);
                } else {
                    assert(r[0] == y);
                }
            }
            if y == x {
                assert(ti.contains(x));
                let m = choose|m: int| 0 <= m < ti.len() && ti[m] == x;
                assert(r[m + 1] == x);
            }
        }
    }
}

/// Some listing of `cands` is sorted strictly by the result order.
proof fn lemma_sorted_listing(movies: Seq<Movie>, keys: Seq<SortKey>, cands: Seq<RankedMovie>) -> (o: Seq<RankedMovie>)
    requires
        ids_increasing(movies),
        distinct_results(movies, cands),
    ensures
        sorted_by_rel(movies, keys, o),
        o.len() == cands.len(),
        forall|y: RankedMovie| #![trigger o.contains(y)] #![trigger cands.contains(y)] o.contains(y) <==> cands.contains(y),
    decreases cands.len(),
{
    if cands.len() == 0 {
        seq![]
    } else {
        let init = cands.drop_last();
        let x = cands.last();
        assert forall|k: int, l: int| 0 <= k < l < init.len() implies (#[trigger] init[k]).index
            < (#[trigger] init[l]).index by {
            assert(init[k] == cands[k] && init[l] == cands[l]);
        }
        assert forall|k: int| 0 <= k < init.len() implies (#[trigger] init[k]).index < movies.len() by {
            assert(init[k] == cands[k]);
        }
        let oi = lemma_sorted_listing(movies, keys, init);
        assert forall|i: int| 0 <= i < oi.len() implies rel_of(movies, keys, #[trigger] oi[i], x) != Rel::Equal by {
            assert(oi.contains(oi[i]));
            assert(init.contains(oi[i]));
            let k = choose|k: int| 0 <= k < init.len() && init[k] == oi[i];
            assert(cands[k] == oi[i]);
            assert(cands[k].index < cands[cands.len() - 1].index);
            assert(movies[cands[k].index as int].id < movies[x.index as int].id);
            lemma_rel(movies, keys, oi[i], x, x);
        }
        lemma_insert_ordered(movies, keys, oi, x);
        let r = insert_ordered(movies, keys, oi, x);
        assert forall|y: RankedMovie| #![trigger r.contains(y)] #![trigger cands.contains(y)] r.contains(y)
            <==> cands.contains(y) by {
            if cands.contains(y) && y != x {
                let k = choose|k: int| 0 <= k < cands.len() && cands[k] == y;
                assert(init[k] == y);
                assert(init.contains(y));
            }
            if init.contains(y) {
                let k = choose|k: int| 0 <= k < init.len() && init[k] == y;
                assert(cands[k] == y);
            }
            if y == x {
                assert(cands[cands.len() - 1] == x);
            }
        }
        r
    }
}

/// The search results in result order are the matching movies, each once,
/// strictly ordered by the sort keys and then by relevance (more matched
/// tokens, more field weight, better match quality, lower id).
pub proof fn law_results_strictly_ordered(movies: Seq<Movie>, keys: Seq<SortKey>, cands: Seq<RankedMovie>)
    requires
        ids_increasing(movies),
        distinct_results(movies, cands),
    ensures
        is_ordering(movies, keys, cands, ordered_results(movies, keys, cands)),
        strictly_ordered(movies, keys, ordered_results(movies, keys, cands)),
{
    let o = lemma_sorted_listing(movies, keys, cands);
    lemma_sorted_by_rel(movies, keys, o);
    assert(is_ordering(movies, keys, cands, o));
}


/// The search results of a request name distinct movies of the catalog, in
/// catalog order.
proof fn lemma_search_results_distinct(ms: MovieSearch, r: SearchRequest)
    requires
        ms.wf(),
        search_fits(ms@, r),
    ensures
        distinct_results(ms@, search_results(ms@, r)),
        forall|k: int|
            0 <= k < search_results(ms@, r).len() ==> candidate(
                ms@[(#[trigger] search_results(ms@, r)[k]).index as int],
                search_results(ms@, r)[k].index as int,
                matches_filter(ms@[search_results(ms@, r)[k].index as int], r.filters),
                query_tokens(query_of(r)),
                r.typo_tolerance,
            ) == Some(search_results(ms@, r)[k]),
{
    ms.lemma_len();
    crate::text::lemma_query_tokens_len(query_of(r));
    lemma_results_upto(
        ms@,
        r.filters,
        query_tokens(query_of(r)),
        r.typo_tolerance,
        ms@.len() as int,
    );
}

/// A search lists its results strictly in result order: by the sort keys,
/// then by relevance (more matched tokens, more field weight, better match
/// quality, lower id); every result appears exactly once.
pub proof fn law_search_results_ordered(ms: MovieSearch, r: SearchRequest)
    requires
        ms.wf(),
        search_fits(ms@, r),
    ensures
        is_ordering(ms@, sort_keys(r), search_results(ms@, r), ordered_search_results(ms@, r)),
        strictly_ordered(ms@, sort_keys(r), page_results(ms@, r)),
{
    lemma_search_results_distinct(ms, r);
    law_results_strictly_ordered(ms@, sort_keys(r), search_results(ms@, r));
    let o = ordered_search_results(ms@, r);
    let pg = page_results(ms@, r);
    let start = if offset_of(r) < o.len() {
        offset_of(r) as int
    } else {
        o.len() as int
    };
    assert forall|i: int, j: int| 0 <= i < j < pg.len() implies result_order(
        sort_keys(r),
        rank_view(ms@, #[trigger] pg[i]),
        rank_view(ms@, #[trigger] pg[j]),
    ) == Rel::Less by {
        assert(pg[i] == o[start + i] && pg[j] == o[start + j]);
    }
}

/// A page holds at most `limit` results, and exactly
/// `min(limit, total - offset)` of them when the offset is within the total.
pub proof fn law_page_size<T>(s: Seq<T>, offset: int, limit: int)
    requires
        offset >= 0,
        limit >= 0,
    ensures
        page(s, offset, limit).len() <= limit,
        offset <= s.len() ==> page(s, offset, limit).len() == if limit < s.len() - offset {
            limit
        } else {
            s.len() - offset
        },
        offset >= s.len() ==> page(s, offset, limit).len() == 0,
{
}

/// Paging is consistent: the page at `offset` of size `a` followed by the
/// page right after it of size `b` is the page at `offset` of size `a + b`.
pub proof fn law_pages_concatenate<T>(s: Seq<T>, offset: int, a: int, b: int)
    requires
        offset >= 0,
        a >= 0,
        b >= 0,
    ensures
        page(s, offset, a) + page(s, offset + a, b) == page(s, offset, a + b),
{
    assert(page(s, offset, a) + page(s, offset + a, b) =~= page(s, offset, a + b));
}

/// Every search result passes the request's filter.
pub proof fn law_results_pass_filter(ms: MovieSearch, r: SearchRequest)
    requires
        ms.wf(),
        search_fits(ms@, r),
    ensures
        forall|k: int|
            0 <= k < search_results(ms@, r).len() ==> matches_filter(
                ms@[(#[trigger] search_results(ms@, r)[k]).index as int],
                r.filters,
            ),
{
    lemma_search_results_distinct(ms, r);
}

proof fn lemma_score_without_typos(m: Movie, toks: Seq<Seq<char>>)
    ensures
        score(m, toks, false).3 == 0,
        score(m, toks, false).0 <= score(m, toks, true).0,
    decreases toks.len(),
{
    if toks.len() > 0 {
        lemma_score_without_typos(m, toks.drop_last());
        let t = toks.last();
        match token_match(m, t, false) {
            Some((w, k)) => {
                assert(k != MatchKind::Typo);
                assert(token_match(m, t, true) is Some);
            },
            None => {},
        }
    }
}

/// Typo tolerance is opt-in: without it no result matches a token by a typo,
/// and turning it on never drops a movie that matched without it.
pub proof fn law_typo_tolerance_opt_in(m: Movie, i: int, passes: bool, toks: Seq<Seq<char>>)
    ensures
        candidate(m, i, passes, toks, false) matches Some(c) ==> c.typo_matches == 0,
        candidate(m, i, passes, toks, false) is Some ==> candidate(m, i, passes, toks, true) is Some,
{
    lemma_score_without_typos(m, toks);
}


/// The result for movie `i` of a search without tokens.
pub open spec fn unscored(i: int) -> RankedMovie {
    RankedMovie { index: i as usize, matched_tokens: 0, field_weight: 0, match_quality: 0, typo_matches: 0 }
}

proof fn lemma_all_results(movies: Seq<Movie>, toks: Seq<Seq<char>>, typo: bool, n: int)
    requires
        0 <= n <= movies.len(),
        toks.len() == 0,
    ensures
        results_upto(movies, None, toks, typo, n) == Seq::new(n as nat, |i: int| unscored(i)),
    decreases n,
{
    if n > 0 {
        lemma_all_results(movies, toks, typo, n - 1);
        assert(results_upto(movies, None, toks, typo, n) =~= Seq::new(n as nat, |i: int| unscored(i)));
    } else {
        assert(results_upto(movies, None, toks, typo, n) =~= Seq::new(n as nat, |i: int| unscored(i)));
    }
}

/// A search with no query words, no filter and no sort keys pages through
/// the whole catalog in id order, as `movies` does: it counts every movie,
/// and the hits are the movies of the same page of the catalog.
#[verifier::spinoff_prover]
#[verifier::rlimit(40)]
pub proof fn law_empty_query_lists_catalog(ms: MovieSearch, r: SearchRequest)
    requires
        ms.wf(),
        query_tokens(query_of(r)).len() == 0,
        r.filters is None,
        r.sort@.len() == 0,
    ensures
        search_results(ms@, r).len() == ms@.len(),
        page_results(ms@, r).len() == page(ms@, offset_of(r) as int, limit_of(r) as int).len(),
        forall|i: int|
            0 <= i < page_results(ms@, r).len() ==> ms@[(#[trigger] page_results(ms@, r)[i]).index as int]
                == page(ms@, offset_of(r) as int, limit_of(r) as int)[i],
{
    let movies = ms@;
    let toks = query_tokens(query_of(r));
    let keys = sort_keys(r);
    ms.lemma_len();
    lemma_all_results(movies, toks, r.typo_tolerance, movies.len() as int);
    let cands = search_results(movies, r);
    assert(cands == Seq::new(movies.len(), |i: int| unscored(i)));
    assert(keys.len() == 0);
    assert(distinct_results(movies, cands));
    law_results_strictly_ordered(movies, keys, cands);
    let o = ordered_results(movies, keys, cands);
    assert forall|i: int, j: int| 0 <= i < j < cands.len() implies result_order(
        keys,
        rank_view(movies, #[trigger] cands[i]),
        rank_view(movies, #[trigger] cands[j]),
    ) == Rel::Less by {
        assert(cands[i] == unscored(i) && cands[j] == unscored(j));
        assert(movies[i].id < movies[j].id);
    }
    lemma_ordering_unique(movies, keys, o, cands);
    assert(o == cands);
    let pg = page_results(movies, r);
    let off = offset_of(r) as int;
    let lim = limit_of(r) as int;
    let start = if off < movies.len() {
        off
    } else {
        movies.len() as int
    };
    assert forall|i: int| 0 <= i < pg.len() implies movies[(#[trigger] pg[i]).index as int] == page(
        movies,
        off,
        lim,
    )[i] by {
        assert(pg[i] == cands[start + i]);
    }
}


/// No character that HTML gives a meaning to is left raw by escaping.
pub open spec fn html_inert(s: Seq<char>) -> bool {
    forall|i: int| 0 <= i < s.len() ==> (#[trigger] s[i]) != '<' && s[i] != '>' && s[i] != '"' && s[i] != '\''
}

/// Escaping leaves no `<`, `>`, `"` or `'` in the text: escaped field values
/// cannot open or close markup.
pub proof fn law_escape_is_inert(s: Seq<char>)
    ensures
        html_inert(escape_html(s)),
    decreases s.len(),
{
    if s.len() > 0 {
        law_escape_is_inert(s.drop_last());
        let a = escape_html(s.drop_last());
        let b = escape_char(s.last());
        assert(html_inert(b));
        assert forall|i: int| 0 <= i < (a + b).len() implies (#[trigger] (a + b)[i]) != '<' && (a + b)[i] != '>'
            && (a + b)[i] != '"' && (a + b)[i] != '\'' by {
            if i < a.len() {
                assert((a + b)[i] == a[i]);
            } else {
                assert((a + b)[i] == b[i - a.len()]);
            }
        }
    }
}

proof fn lemma_dedup_titles(s: Seq<Seq<char>>)
    ensures
        forall|i: int, j: int|
            0 <= i < j < dedup_titles(s).len() ==> lowercase(#[trigger] dedup_titles(s)[i]) != lowercase(
                #[trigger] dedup_titles(s)[j],
            ),
        forall|i: int| 0 <= i < dedup_titles(s).len() ==> s.contains(#[trigger] dedup_titles(s)[i]),
    decreases s.len(),
{
    if s.len() > 0 {
        let p = s.drop_last();
        lemma_dedup_titles(p);
        let d = dedup_titles(p);
        assert forall|i: int| 0 <= i < d.len() implies s.contains(#[trigger] d[i]) by {
            assert(p.contains(d[i]));
            let k = choose|k: int| 0 <= k < p.len() && p[k] == d[i];
            assert(s[k] == d[i]);
        }
        if !seen_before(s, s.len() - 1) {
            let e = d.push(s.last());
            assert(s[s.len() - 1] == s.last());
            assert forall|i: int, j: int| 0 <= i < j < e.len() implies lowercase(#[trigger] e[i]) != lowercase(
                #[trigger] e[j],
            ) by {
                if j == e.len() - 1 {
                    assert(e[i] == d[i]);
                    assert(p.contains(d[i]));
                    let k = choose|k: int| 0 <= k < p.len() && p[k] == d[i];
                    assert(s[k] == d[i]);
                    if lowercase(e[i]) == lowercase(e[j]) {
                        assert(lowercase(s[k]) == lowercase(s[s.len() - 1]));
                    }
                } else {
                    assert(e[i] == d[i] && e[j] == d[j]);
                }
            }
            assert forall|i: int| 0 <= i < e.len() implies s.contains(#[trigger] e[i]) by {
                if i < d.len() {
                    assert(e[i] == d[i]);
                } else {
                    assert(e[i] == s[s.len() - 1]);
                }
            }
        }
    }
}

proof fn lemma_ranked_titles(movies: Seq<Movie>, f: Option<SearchFilter>, nq: Seq<char>, rank: int)
    ensures
        forall|t: Seq<char>| #[trigger] ranked_titles(movies, f, nq, rank).contains(t) ==> title_rank(t, nq)
            == Some(rank),
    decreases movies.len(),
{
    if movies.len() > 0 {
        lemma_ranked_titles(movies.drop_last(), f, nq, rank);
        let r = ranked_titles(movies.drop_last(), f, nq, rank);
        assert forall|t: Seq<char>| #[trigger] ranked_titles(movies, f, nq, rank).contains(t) implies title_rank(
            t,
            nq,
        ) == Some(rank) by {
            let full = ranked_titles(movies, f, nq, rank);
            let k = choose|k: int| 0 <= k < full.len() && full[k] == t;
            if k < r.len() {
                assert(full[k] == r[k]);
                assert(r.contains(t));
            }
        }
    }
}

/// Suggestions are well formed: none for a blank query; otherwise at most the
/// limit, no two equal ignoring case, and each a title that begins with or
/// contains the (trimmed, lowercased) query.
pub proof fn law_suggestions_well_formed(movies: Seq<Movie>, r: SuggestRequest)
    ensures
        normalized_query(r).len() == 0 ==> suggestions_spec(movies, r).len() == 0,
        suggestions_spec(movies, r).len() <= suggest_limit(r),
        forall|i: int, j: int|
            0 <= i < j < suggestions_spec(movies, r).len() ==> lowercase(
                #[trigger] suggestions_spec(movies, r)[i],
            ) != lowercase(#[trigger] suggestions_spec(movies, r)[j]),
        forall|i: int|
            0 <= i < suggestions_spec(movies, r).len() ==> title_rank(
                #[trigger] suggestions_spec(movies, r)[i],
                normalized_query(r),
            ) is Some,
{
    let nq = normalized_query(r);
    if nq.len() > 0 {
        let a = ranked_titles(movies, r.filters, nq, 0);
        let b = ranked_titles(movies, r.filters, nq, 1);
        let all = a + b;
        lemma_dedup_titles(all);
        lemma_ranked_titles(movies, r.filters, nq, 0);
        lemma_ranked_titles(movies, r.filters, nq, 1);
        let d = dedup_titles(all);
        let out = suggestions_spec(movies, r);
        assert(out == at_most(d, suggest_limit(r) as int));
        assert forall|i: int| 0 <= i < out.len() implies title_rank(#[trigger] out[i], nq) is Some by {
            assert(out[i] == d[i]);
            assert(all.contains(d[i]));
            let k = choose|k: int| 0 <= k < all.len() && all[k] == d[i];
            if k < a.len() {
                assert(a[k] == d[i]);
                assert(a.contains(d[i]));
            } else {
                assert(b[k - a.len()] == d[i]);
                assert(b.contains(d[i]));
            }
        }
        assert forall|i: int, j: int| 0 <= i < j < out.len() implies lowercase(#[trigger] out[i]) != lowercase(
            #[trigger] out[j],
        ) by {
            assert(out[i] == d[i] && out[j] == d[j]);
        }
    }
}


/// The year statistics of a result set bound every year in it: the minimum
/// is at most the maximum, and each result's year lies between them.
pub proof fn law_year_stats_bound(movies: Seq<Movie>, cands: Seq<RankedMovie>)
    ensures
        year_range(movies, cands) matches Some((lo, hi)) ==> lo <= hi,
        year_range(movies, cands) matches Some((lo, hi)) ==> forall|k: int|
            0 <= k < cands.len() ==> (movies[(#[trigger] cands[k]).index as int].year matches Some(y) ==> lo
                <= y <= hi),
        year_range(movies, cands) is None ==> forall|k: int|
            0 <= k < cands.len() ==> movies[(#[trigger] cands[k]).index as int].year is None,
    decreases cands.len(),
{
    if cands.len() > 0 {
        let p = cands.drop_last();
        law_year_stats_bound(movies, p);
        let last = cands.last();
        assert(cands[cands.len() - 1] == last);
        match year_range(movies, cands) {
            Some((lo, hi)) => {
                assert forall|k: int| 0 <= k < cands.len() implies (movies[(#[trigger] cands[k]).index as int].year matches Some(
                    y,
                ) ==> lo <= y <= hi) by {
                    if k < p.len() {
                        assert(p[k] == cands[k]);
                    }
                }
            },
            None => {
                assert forall|k: int| 0 <= k < cands.len() implies movies[(#[trigger] cands[k]).index as int].year is None by {
                    if k < p.len() {
                        assert(p[k] == cands[k]);
                    }
                }
            },
        }
    }
}


proof fn lemma_count_contained(text: Seq<char>, toks: Seq<Seq<char>>)
    ensures
        count_contained(text, toks) <= toks.len(),
    decreases toks.len(),
{
    if toks.len() > 0 {
        lemma_count_contained(text, toks.drop_last());
    }
}

proof fn lemma_bucket_members(sc: Seq<nat>, s: nat, n: int)
    requires
        0 <= n <= sc.len(),
    ensures
        forall|i: int| #[trigger] bucket(sc, s, n).contains(i) <==> (0 <= i < n && sc[i] == s),
        forall|a: int, b: int|
            0 <= a < b < bucket(sc, s, n).len() ==> #[trigger] bucket(sc, s, n)[a] < #[trigger] bucket(sc, s, n)[b],
    decreases n,
{
    if n > 0 {
        lemma_bucket_members(sc, s, n - 1);
        let b = bucket(sc, s, n - 1);
        assert forall|i: int| #[trigger] bucket(sc, s, n).contains(i) <==> (0 <= i < n && sc[i] == s) by {
            if sc[n - 1] == s {
                let c = b.push(n - 1);
                if c.contains(i) {
                    let k = choose|k: int| 0 <= k < c.len() && c[k] == i;
                    if k < b.len() {
                        assert(b[k] == i);
                        assert(b.contains(i));
                    }
                }
                if 0 <= i < n && sc[i] == s {
                    if i < n - 1 {
                        assert(b.contains(i));
                        let k = choose|k: int| 0 <= k < b.len() && b[k] == i;
                        assert(c[k] == i);
                    } else {
                        assert(c[b.len() as int] == i);
                    }
                }
            }
        }
        if sc[n - 1] == s {
            let c = b.push(n - 1);
            assert forall|a: int, d: int| 0 <= a < d < c.len() implies #[trigger] c[a] < #[trigger] c[d] by {
                if d < b.len() {
                    assert(c[a] == b[a] && c[d] == b[d]);
                } else {
                    assert(c[a] == b[a]);
                    assert(b.contains(b[a]));
                }
            }
        }
    }
}

proof fn lemma_levels_members(sc: Seq<nat>, top: int, s: int)
    requires
        s >= 0,
    ensures
        forall|i: int| #[trigger] levels(sc, top, s).contains(i) <==> (0 <= i < sc.len() && s <= sc[i] <= top),
        forall|a: int, b: int|
            0 <= a < b < levels(sc, top, s).len() ==> sc[#[trigger] levels(sc, top, s)[a]] > sc[#[trigger] levels(
                sc,
                top,
                s,
            )[b]] || (sc[levels(sc, top, s)[a]] == sc[levels(sc, top, s)[b]] && levels(sc, top, s)[a] < levels(
                sc,
                top,
                s,
            )[b]),
    decreases top - s + 1,
{
    if s <= top {
        lemma_levels_members(sc, top, s + 1);
        lemma_bucket_members(sc, s as nat, sc.len() as int);
        let hi = levels(sc, top, s + 1);
        let lo = bucket(sc, s as nat, sc.len() as int);
        let l = hi + lo;
        assert(levels(sc, top, s) == l);
        assert forall|i: int| #[trigger] l.contains(i) <==> (0 <= i < sc.len() && s <= sc[i] <= top) by {
            if l.contains(i) {
                let k = choose|k: int| 0 <= k < l.len() && l[k] == i;
                if k < hi.len() {
                    assert(hi[k] == i);
                    assert(hi.contains(i));
                } else {
                    assert(lo[k - hi.len()] == i);
                    assert(lo.contains(i));
                }
            }
            if 0 <= i < sc.len() && s <= sc[i] <= top {
                if sc[i] > s {
                    assert(hi.contains(i));
                    let k = choose|k: int| 0 <= k < hi.len() && hi[k] == i;
                    assert(l[k] == i);
                } else {
                    assert(lo.contains(i));
                    let k = choose|k: int| 0 <= k < lo.len() && lo[k] == i;
                    assert(l[hi.len() + k] == i);
                }
            }
        }
        assert forall|a: int, b: int| 0 <= a < b < l.len() implies sc[#[trigger] l[a]] > sc[#[trigger] l[b]] || (
        sc[l[a]] == sc[l[b]] && l[a] < l[b]) by {
            if b < hi.len() {
                assert(l[a] == hi[a] && l[b] == hi[b]);
            } else if a >= hi.len() {
                assert(l[a] == lo[a - hi.len()] && l[b] == lo[b - hi.len()]);
                assert(lo.contains(lo[a - hi.len()]));
                assert(lo.contains(lo[b - hi.len()]));
            } else {
                assert(l[a] == hi[a] && l[b] == lo[b - hi.len()]);
                assert(hi.contains(hi[a]));
                assert(lo.contains(lo[b - hi.len()]));
            }
        }
    } else {
        assert forall|i: int| #[trigger] levels(sc, top, s).contains(i) implies false by {}
    }
}

/// The engine's search answers exactly the documents that contain at least
/// one query token (every document for a query without tokens), each once,
/// documents containing more tokens first and equally good ones in key order.
pub proof fn law_legacy_search_exact(docs: Seq<(Seq<char>, Json)>, toks: Seq<Seq<char>>)
    ensures
        forall|i: int|
            #[trigger] ranked_docs(docs, toks).contains(i) <==> (0 <= i < docs.len() && (toks.len() == 0
                || scores_of(docs, toks)[i] >= 1)),
        forall|a: int, b: int|
            0 <= a < b < ranked_docs(docs, toks).len() ==> scores_of(docs, toks)[#[trigger] ranked_docs(docs, toks)[a]]
                > scores_of(docs, toks)[#[trigger] ranked_docs(docs, toks)[b]] || (scores_of(docs, toks)[ranked_docs(
                docs,
                toks,
            )[a]] == scores_of(docs, toks)[ranked_docs(docs, toks)[b]] && ranked_docs(docs, toks)[a] < ranked_docs(
                docs,
                toks,
            )[b]),
{
    let sc = scores_of(docs, toks);
    let low: int = if toks.len() == 0 {
        0
    } else {
        1
    };
    lemma_levels_members(sc, toks.len() as int, low);
    assert forall|i: int| 0 <= i < docs.len() implies #[trigger] sc[i] <= toks.len() by {
        lemma_count_contained(crate::json::searchable_text(docs[i].1), toks);
    }
}


/// Adding one valid document stores it under its key, keeping the keys
/// sorted: it replaces the document with the same key (the count stays) or
/// is inserted in key order (the count grows by one).
pub proof fn law_added_document_is_stored(base: Seq<(Seq<char>, Json)>, d: Json, pk: Seq<char>)
    requires
        keys_sorted(base),
        doc_key(d, pk) is Ok,
    ensures
        ({
            let k = doc_key(d, pk)->Ok_0;
            let (s, err, n) = add_all(base, seq![d], pk);
            &&& err is None && n == 1
            &&& s == upsert(base, k, d)
            &&& keys_sorted(s)
            &&& s[key_pos(base, k)] == (k, d)
            &&& s.len() == if has_key(base, k) {
                base.len()
            } else {
                base.len() + 1
            }
        }),
{
    let k = doc_key(d, pk)->Ok_0;
    let one = seq![d];
    assert(one.drop_last() =~= Seq::<Json>::empty());
    assert(one.last() == d);
    assert(add_all(base, one.drop_last(), pk) == (base, None::<Seq<char>>, 0nat));
    assert(add_all(base, one, pk) == (upsert(base, k, d), None::<Seq<char>>, 1nat));
    lemma_upsert(base, k, d);
    crate::keyed::lemma_key_pos(base, k);
}

/// The CSV headers of a JSON array of objects are strictly sorted, name
/// exactly the members that some row has, and every row has one cell per
/// header.
pub proof fn law_csv_table_shape(rows: Seq<Json>, m: Seq<(Seq<char>, Json)>)
    ensures
        strictly_sorted(sorted_set(all_names(rows))),
        forall|name: Seq<char>| #[trigger] sorted_set(all_names(rows)).contains(name) <==> all_names(rows).contains(name),
        row_cells(m, sorted_set(all_names(rows))).len() == sorted_set(all_names(rows)).len(),
{
    lemma_sorted_set(all_names(rows));
}

/// Two lists in strictly increasing id order with the same movies are equal.
proof fn lemma_increasing_unique(a: Seq<Movie>, b: Seq<Movie>)
    requires
        ids_increasing(a),
        ids_increasing(b),
        forall|m: Movie| a.contains(m) <==> b.contains(m),
    ensures
        a == b,
    decreases a.len(),
{
    if a.len() == 0 {
        if b.len() > 0 {
            assert(b.contains(b[0]));
        }
        assert(a =~= b);
    } else {
        assert(a.contains(a[0]));
        let j = choose|j: int| 0 <= j < b.len() && b[j] == a[0];
        assert(b.contains(b[0]));
        let i = choose|i: int| 0 <= i < a.len() && a[i] == b[0];
        if j > 0 {
            assert(b[0].id < b[j].id);
            if i > 0 {
                assert(a[0].id < a[i].id);
            }
        }
        assert(a[0] == b[0]);
        let a1 = a.drop_first();
        let b1 = b.drop_first();
        assert forall|m: Movie| a1.contains(m) <==> b1.contains(m) by {
            if a1.contains(m) {
                let x = choose|x: int| 0 <= x < a1.len() && a1[x] == m;
                assert(a[x + 1] == m && a[0].id < a[x + 1].id);
                assert(a.contains(m));
                let y = choose|y: int| 0 <= y < b.len() && b[y] == m;
                assert(y > 0);
                assert(b1[y - 1] == m);
            }
            if b1.contains(m) {
                let y = choose|y: int| 0 <= y < b1.len() && b1[y] == m;
                assert(b[y + 1] == m && b[0].id < b[y + 1].id);
                assert(b.contains(m));
                let x = choose|x: int| 0 <= x < a.len() && a[x] == m;
                assert(x > 0);
                assert(a1[x - 1] == m);
            }
        }
        lemma_increasing_unique(a1, b1);
        assert(a =~= seq![a[0]] + a1);
        assert(b =~= seq![b[0]] + b1);
    }
}

/// When input movies that share an id are equal, the catalog holds exactly
/// the input movies.
proof fn lemma_dedup_same_id_equal(v: Seq<Movie>, r: Seq<Movie>)
    requires
        forall|i: int, j: int|
            0 <= i < v.len() && 0 <= j < v.len() && (#[trigger] v[i]).id == (#[trigger] v[j]).id ==> v[i] == v[j],
        dedup_by_id(v, r),
    ensures
        forall|m: Movie| r.contains(m) <==> v.contains(m),
{
    assert forall|m: Movie| r.contains(m) <==> v.contains(m) by {
        if r.contains(m) {
            let k = choose|k: int| 0 <= k < r.len() && r[k] == m;
            assert(kept(v, r[k]));
            let i = choose|i: int| 0 <= i < v.len() && v[i] == r[k] && #[trigger] last_of_id(v, i);
            assert(v[i] == m);
        }
        if v.contains(m) {
            let i = choose|i: int| 0 <= i < v.len() && v[i] == m;
            assert(has_id(r, v[i].id));
            let k = choose|k: int| 0 <= k < r.len() && (#[trigger] r[k]).id == v[i].id;
            assert(kept(v, r[k]));
            let i2 = choose|i2: int| 0 <= i2 < v.len() && v[i2] == r[k] && #[trigger] last_of_id(v, i2);
            assert(v[i2] == v[i]);
            assert(r[k] == m);
        }
    }
}

/// Building the catalog does not depend on the order of the input when no
/// two movies share an id: catalogs built from two orderings of the same
/// movies are the same, so every operation answers them alike.
pub proof fn law_catalog_ignores_input_order(v: Seq<Movie>, w: Seq<Movie>, a: MovieSearch, b: MovieSearch)
    requires
        forall|i: int, j: int| 0 <= i < j < v.len() ==> (#[trigger] v[i]).id != (#[trigger] v[j]).id,
        w.to_multiset() == v.to_multiset(),
        dedup_by_id(v, a@),
        dedup_by_id(w, b@),
    ensures
        a@ == b@,
{
    broadcast use vstd::seq_lib::group_to_multiset_ensures;
    assert forall|i: int, j: int|
        0 <= i < v.len() && 0 <= j < v.len() && (#[trigger] v[i]).id == (#[trigger] v[j]).id implies v[i] == v[j] by {
        if i < j {
            assert(v[i].id != v[j].id);
        } else if j < i {
            assert(v[j].id != v[i].id);
        }
    }
    assert forall|i: int, j: int|
        0 <= i < w.len() && 0 <= j < w.len() && (#[trigger] w[i]).id == (#[trigger] w[j]).id implies w[i] == w[j] by {
        assert(w.contains(w[i]) && w.contains(w[j]));
        assert(w.to_multiset().count(w[i]) > 0 && w.to_multiset().count(w[j]) > 0);
        assert(v.to_multiset().count(w[i]) > 0 && v.to_multiset().count(w[j]) > 0);
        assert(v.contains(w[i]));
        assert(v.contains(w[j]));
        let x = choose|x: int| 0 <= x < v.len() && v[x] == w[i];
        let y = choose|y: int| 0 <= y < v.len() && v[y] == w[j];
        assert(v[x].id == v[y].id);
    }
    lemma_dedup_same_id_equal(v, a@);
    lemma_dedup_same_id_equal(w, b@);
    assert forall|m: Movie| a@.contains(m) <==> b@.contains(m) by {
        assert(v.contains(m) <==> v.to_multiset().count(m) > 0);
        assert(w.contains(m) <==> w.to_multiset().count(m) > 0);
    }
    lemma_increasing_unique(a@, b@);
}

/// Two strictly sorted lists of keys with the same keys are equal.
proof fn lemma_sorted_keys_unique(a: Seq<Seq<char>>, b: Seq<Seq<char>>)
    requires
        strictly_sorted(a),
        strictly_sorted(b),
        forall|x: Seq<char>| a.contains(x) <==> b.contains(x),
    ensures
        a == b,
    decreases a.len(),
{
    if a.len() == 0 {
        if b.len() > 0 {
            assert(b.contains(b[0]));
        }
        assert(a =~= b);
    } else {
        assert(a.contains(a[0]));
        let j = choose|j: int| 0 <= j < b.len() && b[j] == a[0];
        assert(b.contains(b[0]));
        let i = choose|i: int| 0 <= i < a.len() && a[i] == b[0];
        if i > 0 && j > 0 {
            assert(lex_lt(b[0], b[j]));
            assert(lex_lt(a[0], a[i]));
            crate::order::lemma_lex_flip(a[0], b[0]);
        }
        assert(a[0] == b[0]);
        let a1 = a.drop_first();
        let b1 = b.drop_first();
        assert forall|m: Seq<char>| a1.contains(m) <==> b1.contains(m) by {
            crate::order::lemma_lex_equal(m, m);
            if a1.contains(m) {
                let x = choose|x: int| 0 <= x < a1.len() && a1[x] == m;
                assert(a[x + 1] == m && lex_lt(a[0], a[x + 1]));
                assert(a.contains(m));
                let y = choose|y: int| 0 <= y < b.len() && b[y] == m;
                assert(y > 0);
                assert(b1[y - 1] == m);
            }
            if b1.contains(m) {
                let y = choose|y: int| 0 <= y < b1.len() && b1[y] == m;
                assert(b[y + 1] == m && lex_lt(b[0], b[y + 1]));
                assert(b.contains(m));
                let x = choose|x: int| 0 <= x < a.len() && a[x] == m;
                assert(x > 0);
                assert(a1[x - 1] == m);
            }
        }
        lemma_sorted_keys_unique(a1, b1);
        assert(a =~= seq![a[0]] + a1);
        assert(b =~= seq![b[0]] + b1);
    }
}

/// The keys of a histogram, in order.
spec fn hist_keys(h: Seq<(Seq<char>, usize)>) -> Seq<Seq<char>> {
    h.map_values(|e: (Seq<char>, usize)| e.0)
}

/// A histogram of given items is unique.
proof fn lemma_histogram_unique(h1: Seq<(Seq<char>, usize)>, h2: Seq<(Seq<char>, usize)>, items: Seq<Seq<char>>)
    requires
        is_histogram(h1, items),
        is_histogram(h2, items),
    ensures
        h1 == h2,
{
    let k1 = hist_keys(h1);
    let k2 = hist_keys(h2);
    assert forall|i: int, j: int| 0 <= i < j < k1.len() implies lex_lt(#[trigger] k1[i], #[trigger] k1[j]) by {
        assert(lex_lt(h1[i].0, h1[j].0));
    }
    assert forall|i: int, j: int| 0 <= i < j < k2.len() implies lex_lt(#[trigger] k2[i], #[trigger] k2[j]) by {
        assert(lex_lt(h2[i].0, h2[j].0));
    }
    assert forall|x: Seq<char>| k1.contains(x) <==> k2.contains(x) by {
        if k1.contains(x) {
            let k = choose|k: int| 0 <= k < k1.len() && k1[k] == x;
            assert(h1[k].0 == x);
            assert(items.contains(x));
            let q = choose|q: int| 0 <= q < h2.len() && (#[trigger] h2[q]).0 == x;
            assert(k2[q] == x);
        }
        if k2.contains(x) {
            let k = choose|k: int| 0 <= k < k2.len() && k2[k] == x;
            assert(h2[k].0 == x);
            assert(items.contains(x));
            let q = choose|q: int| 0 <= q < h1.len() && (#[trigger] h1[q]).0 == x;
            assert(k1[q] == x);
        }
    }
    lemma_sorted_keys_unique(k1, k2);
    assert forall|i: int| 0 <= i < h1.len() implies h1[i] == h2[i] by {
        assert(k1[i] == k2[i]);
        assert(h1[i].1 == count_of(items, h1[i].0));
        assert(h2[i].1 == count_of(items, h2[i].0));
    }
    assert(h1 =~= h2);
}

/// A search's answer is determined by the catalog and the request: two
/// answers to one request on one catalog agree in every field but the
/// processing time (hits, totals, highlighted fields, facets, statistics
/// and ranking details).
pub proof fn law_search_deterministic(ms: MovieSearch, r: SearchRequest, a: SearchResponse, b: SearchResponse)
    requires
        search_response_matches(ms@, r, a),
        search_response_matches(ms@, r, b),
    ensures
        a.query@ == b.query@,
        a.offset == b.offset,
        a.limit == b.limit,
        a.estimated_total_hits == b.estimated_total_hits,
        a.hits@.len() == b.hits@.len(),
        forall|i: int|
            0 <= i < a.hits@.len() ==> (#[trigger] a.hits@[i]).movie == b.hits@[i].movie && formatted_view(
                a.hits@[i].formatted,
            ) == formatted_view(b.hits@[i].formatted) && a.hits@[i].ranking_info == b.hits@[i].ranking_info,
        facet_view(a.facet_distribution@) == facet_view(b.facet_distribution@),
        a.facet_stats@.len() == b.facet_stats@.len(),
        forall|i: int|
            0 <= i < a.facet_stats@.len() ==> (#[trigger] a.facet_stats@[i]).0@ == b.facet_stats@[i].0@
                && a.facet_stats@[i].1 == b.facet_stats@[i].1,
        a.ranking_info is Some <==> b.ranking_info is Some,
        a.ranking_info matches Some(x) ==> (b.ranking_info matches Some(y) && x.strategy == y.strategy
            && x.typo_tolerance == y.typo_tolerance && x.sort@ == y.sort@),
{
    let pg = page_results(ms@, r);
    let toks = query_tokens(query_of(r));
    assert forall|i: int| 0 <= i < a.hits@.len() implies (#[trigger] a.hits@[i]).movie == b.hits@[i].movie
        && formatted_view(a.hits@[i].formatted) == formatted_view(b.hits@[i].formatted)
        && a.hits@[i].ranking_info == b.hits@[i].ranking_info by {
        assert(hit_matches(ms@, toks, r, pg[i], a.hits@[i]));
        assert(hit_matches(ms@, toks, r, pg[i], b.hits@[i]));
    }
    let results = search_results(ms@, r);
    let da = facet_view(a.facet_distribution@);
    let db = facet_view(b.facet_distribution@);
    assert(facets_match(da, ms@, results, r.facets@));
    assert(facets_match(db, ms@, results, r.facets@));
    assert forall|k: int| 0 <= k < da.len() implies da[k] == db[k] by {
        let g = requested(r.facets@, genre_name());
        if g && k == 0 {
            lemma_histogram_unique(da[0].1, db[0].1, genre_items(ms@, results));
        } else {
            lemma_histogram_unique(da[da.len() - 1].1, db[db.len() - 1].1, year_items(ms@, results));
        }
    }
    assert(da =~= db);
}

/// A search answers the page of its results that the request asks for:
/// the query, offset (0 by default) and limit (20 by default) come back as
/// asked, the total counts every result, and the page holds
/// `min(limit, total - min(offset, total))` hits.
pub proof fn law_search_page_shape(ms: MovieSearch, r: SearchRequest, resp: SearchResponse)
    requires
        ms.wf(),
        search_fits(ms@, r),
        search_response_matches(ms@, r, resp),
    ensures
        resp.query@ == query_of(r),
        resp.offset == offset_of(r),
        resp.limit == limit_of(r),
        resp.estimated_total_hits == search_results(ms@, r).len(),
        ({
            let total = resp.estimated_total_hits as int;
            let start = if (resp.offset as int) < total {
                resp.offset as int
            } else {
                total
            };
            resp.hits@.len() == if (resp.limit as int) < total - start {
                resp.limit as int
            } else {
                total - start
            }
        }),
{
    law_search_results_ordered(ms, r);
    law_page_size(ordered_search_results(ms@, r), offset_of(r) as int, limit_of(r) as int);
}

/// Every title of `s` has its lowercase form among the deduplicated titles.
proof fn lemma_dedup_titles_cover(s: Seq<Seq<char>>)
    ensures
        forall|t: Seq<char>| #[trigger] s.contains(t) ==> exists|k: int|
            0 <= k < dedup_titles(s).len() && lowercase(#[trigger] dedup_titles(s)[k]) == lowercase(t),
    decreases s.len(),
{
    if s.len() > 0 {
        let p = s.drop_last();
        lemma_dedup_titles_cover(p);
        let d = dedup_titles(p);
        let e = dedup_titles(s);
        assert forall|t: Seq<char>| #[trigger] s.contains(t) implies exists|k: int|
            0 <= k < e.len() && lowercase(#[trigger] e[k]) == lowercase(t) by {
            let x = choose|x: int| 0 <= x < s.len() && s[x] == t;
            let u = if x < s.len() - 1 {
                t
            } else if seen_before(s, s.len() - 1) {
                let j = choose|j: int| 0 <= j < s.len() - 1 && lowercase(#[trigger] s[j]) == lowercase(s[s.len() - 1]);
                s[j]
            } else {
                t
            };
            if x < s.len() - 1 || seen_before(s, s.len() - 1) {
                assert(lowercase(u) == lowercase(t));
                if x < s.len() - 1 {
                    assert(p[x] == t);
                } else {
                    let j = choose|j: int| 0 <= j < s.len() - 1 && lowercase(#[trigger] s[j]) == lowercase(s[s.len() - 1]);
                    assert(p[j] == s[j]);
                }
                assert(p.contains(u));
                let k = choose|k: int| 0 <= k < d.len() && lowercase(#[trigger] d[k]) == lowercase(u);
                assert(e[k] == d[k]);
            } else {
                assert(e[e.len() - 1] == s.last());
            }
        }
    }
}

/// The titles of `ranked_titles` are those of the movies that pass the
/// filter and answer the query with that rank.
proof fn lemma_ranked_titles_exact(movies: Seq<Movie>, f: Option<SearchFilter>, nq: Seq<char>, rank: int, t: Seq<char>)
    ensures
        ranked_titles(movies, f, nq, rank).contains(t) <==> exists|i: int|
            0 <= i < movies.len() && matches_filter(#[trigger] movies[i], f) && title_rank(movies[i].title@, nq)
                == Some(rank) && movies[i].title@ == t,
    decreases movies.len(),
{
    if movies.len() > 0 {
        let p = movies.drop_last();
        lemma_ranked_titles_exact(p, f, nq, rank, t);
        let r = ranked_titles(p, f, nq, rank);
        let full = ranked_titles(movies, f, nq, rank);
        let m = movies.last();
        if full.contains(t) {
            let k = choose|k: int| 0 <= k < full.len() && full[k] == t;
            if k < r.len() {
                assert(r[k] == t);
                assert(r.contains(t));
                let i = choose|i: int|
                    0 <= i < p.len() && matches_filter(#[trigger] p[i], f) && title_rank(p[i].title@, nq) == Some(rank)
                        && p[i].title@ == t;
                assert(movies[i] == p[i]);
            } else {
                assert(movies[movies.len() - 1] == m);
            }
        }
        if exists|i: int|
            0 <= i < movies.len() && matches_filter(#[trigger] movies[i], f) && title_rank(movies[i].title@, nq)
                == Some(rank) && movies[i].title@ == t {
            let i = choose|i: int|
                0 <= i < movies.len() && matches_filter(#[trigger] movies[i], f) && title_rank(movies[i].title@, nq)
                    == Some(rank) && movies[i].title@ == t;
            if i < movies.len() - 1 {
                assert(p[i] == movies[i]);
                assert(r.contains(t));
                let k = choose|k: int| 0 <= k < r.len() && r[k] == t;
                assert(full[k] == t);
            } else {
                assert(full[full.len() - 1] == t);
            }
        }
    } else {
        assert(ranked_titles(movies, f, nq, rank) =~= Seq::<Seq<char>>::empty());
    }
}

/// The lowercase titles of the movies that pass the request's filter and
/// whose lowercase title contains the normalized query.
pub open spec fn matching_titles(movies: Seq<Movie>, r: SuggestRequest) -> Set<Seq<char>> {
    Set::new(
        |l: Seq<char>|
            exists|i: int|
                0 <= i < movies.len() && matches_filter(#[trigger] movies[i], r.filters) && title_rank(
                    movies[i].title@,
                    normalized_query(r),
                ) is Some && lowercase(movies[i].title@) == l,
    )
}

/// No matching title is left out while the limit leaves room: for a query
/// that is not blank there are as many suggestions as the limit allows of
/// the distinct (ignoring case) titles that match.
pub proof fn law_suggestion_count(movies: Seq<Movie>, r: SuggestRequest)
    requires
        normalized_query(r).len() > 0,
    ensures
        matching_titles(movies, r).finite(),
        suggestions_spec(movies, r).len() == if (suggest_limit(r) as int) < matching_titles(movies, r).len() {
            suggest_limit(r) as int
        } else {
            matching_titles(movies, r).len() as int
        },
{
    let nq = normalized_query(r);
    let a = ranked_titles(movies, r.filters, nq, 0);
    let b = ranked_titles(movies, r.filters, nq, 1);
    let all = a + b;
    let d = dedup_titles(all);
    lemma_dedup_titles(all);
    lemma_dedup_titles_cover(all);
    let low = d.map_values(|t: Seq<char>| lowercase(t));
    let set = matching_titles(movies, r);
    assert(low.no_duplicates()) by {
        assert forall|i: int, j: int| 0 <= i < low.len() && 0 <= j < low.len() && i != j implies low[i] != low[j] by {
            if i < j {
                assert(lowercase(d[i]) != lowercase(d[j]));
            } else {
                assert(lowercase(d[j]) != lowercase(d[i]));
            }
        }
    }
    assert(low.to_set() =~= set) by {
        assert forall|l: Seq<char>| low.to_set().contains(l) implies set.contains(l) by {
            assert(low.contains(l));
            let k = choose|k: int| 0 <= k < low.len() && low[k] == l;
            assert(all.contains(d[k]));
            let x = choose|x: int| 0 <= x < all.len() && all[x] == d[k];
            if x < a.len() {
                assert(a.contains(d[k]));
                lemma_ranked_titles_exact(movies, r.filters, nq, 0, d[k]);
            } else {
                assert(b[x - a.len()] == d[k]);
                assert(b.contains(d[k]));
                lemma_ranked_titles_exact(movies, r.filters, nq, 1, d[k]);
            }
        }
        assert forall|l: Seq<char>| set.contains(l) implies low.to_set().contains(l) by {
            let i = choose|i: int|
                0 <= i < movies.len() && matches_filter(#[trigger] movies[i], r.filters) && title_rank(
                    movies[i].title@,
                    nq,
                ) is Some && lowercase(movies[i].title@) == l;
            let t = movies[i].title@;
            let rk = title_rank(t, nq)->0;
            assert(rk == 0 || rk == 1);
            lemma_ranked_titles_exact(movies, r.filters, nq, rk, t);
            if rk == 0 {
                let x = choose|x: int| 0 <= x < a.len() && a[x] == t;
                assert(all[x] == t);
            } else {
                let x = choose|x: int| 0 <= x < b.len() && b[x] == t;
                assert(all[a.len() + x] == t);
            }
            assert(all.contains(t));
            let k = choose|k: int| 0 <= k < d.len() && lowercase(#[trigger] d[k]) == lowercase(t);
            assert(low[k] == l);
            assert(low.contains(l));
        }
    }
    low.unique_seq_to_set();
}

/// `a` occurs somewhere in `b`.
spec fn occurs_in(b: Seq<char>, a: Seq<char>) -> bool {
    exists|i: int| occurs_at(b, a, i)
}

proof fn lemma_occurs_contains(h: Seq<char>, n: Seq<char>, i: int)
    requires
        occurs_at(h, n, i),
    ensures
        contains(h, n),
{
    lemma_find_from(h, n, 0);
}

/// Every piece of a split occurs in the text, and the last one ends it.
#[verifier::spinoff_prover]
proof fn lemma_pieces_occur(s: Seq<char>, by_comma: bool)
    ensures
        split_pieces(s, by_comma).len() >= 1,
        occurs_at(s, split_pieces(s, by_comma).last(), s.len() - split_pieces(s, by_comma).last().len()),
        forall|k: int| 0 <= k < split_pieces(s, by_comma).len() ==> occurs_in(s, #[trigger] split_pieces(s, by_comma)[k]),
    decreases s.len(),
{
    if s.len() == 0 {
        assert(s.subrange(0, 0) =~= Seq::<char>::empty());
        assert(split_pieces(s, by_comma)[0] == Seq::<char>::empty());
        assert(occurs_at(s, split_pieces(s, by_comma)[0], 0));
        assert(occurs_in(s, split_pieces(s, by_comma)[0]));
    } else {
        let p = s.drop_last();
        lemma_pieces_occur(p, by_comma);
        let r = split_pieces(p, by_comma);
        let full = split_pieces(s, by_comma);
        assert forall|k: int| 0 <= k < r.len() implies occurs_in(s, #[trigger] r[k]) by {
            assert(occurs_in(p, r[k]));
            let i = choose|i: int| occurs_at(p, r[k], i);
            assert(s.subrange(i, i + r[k].len()) =~= p.subrange(i, i + r[k].len()));
            assert(occurs_at(s, r[k], i));
        }
        if is_sep(s.last(), by_comma) {
            assert(s.subrange(s.len() as int, s.len() as int) =~= Seq::<char>::empty());
            assert(occurs_at(s, full.last(), s.len() - full.last().len()));
            assert forall|k: int| 0 <= k < full.len() implies occurs_in(s, #[trigger] full[k]) by {
                if k < r.len() {
                    assert(full[k] == r[k]);
                } else {
                    assert(occurs_at(s, full[k], s.len() as int));
                }
            }
        } else {
            let last = r.last().push(s.last());
            let st = p.len() - r.last().len();
            assert(s.subrange(st, s.len() as int) =~= p.subrange(st, p.len() as int).push(s.last()));
            assert(occurs_at(s, full.last(), s.len() - full.last().len()));
            assert forall|k: int| 0 <= k < full.len() implies occurs_in(s, #[trigger] full[k]) by {
                if k < r.len() - 1 {
                    assert(full[k] == r[k]);
                } else {
                    assert(occurs_at(s, full[k], st));
                }
            }
        }
    }
}

/// Trimming takes a run of characters out of the middle.
proof fn lemma_trim_occurs(s: Seq<char>)
    ensures
        occurs_in(s, trim(s)),
{
    lemma_trim_start_occurs(s);
    let a = trim_start(s);
    let i = choose|i: int| occurs_at(s, a, i) && i + a.len() == s.len();
    lemma_trim_end_occurs(a);
    let b = trim_end(a);
    assert(occurs_at(a, b, 0));
    assert(s.subrange(i, i + b.len()) =~= a.subrange(0, b.len() as int));
    assert(occurs_at(s, b, i));
}

proof fn lemma_trim_start_occurs(s: Seq<char>)
    ensures
        exists|i: int| occurs_at(s, trim_start(s), i) && i + trim_start(s).len() == s.len(),
    decreases s.len(),
{
    if s.len() > 0 && is_ws(s[0]) {
        lemma_trim_start_occurs(s.drop_first());
        let t = trim_start(s.drop_first());
        let i = choose|i: int| occurs_at(s.drop_first(), t, i) && i + t.len() == s.drop_first().len();
        assert(s.subrange(i + 1, i + 1 + t.len()) =~= s.drop_first().subrange(i, i + t.len()));
        assert(occurs_at(s, trim_start(s), i + 1));
    } else {
        assert(s.subrange(0, s.len() as int) =~= s);
        assert(occurs_at(s, trim_start(s), 0));
    }
}

proof fn lemma_trim_end_occurs(s: Seq<char>)
    ensures
        occurs_at(s, trim_end(s), 0),
    decreases s.len(),
{
    if s.len() > 0 && is_ws(s.last()) {
        lemma_trim_end_occurs(s.drop_last());
        let t = trim_end(s.drop_last());
        assert(s.subrange(0, t.len() as int) =~= s.drop_last().subrange(0, t.len() as int));
    } else {
        assert(s.subrange(0, s.len() as int) =~= s);
    }
}

/// The trimmed pieces that are not empty each occur in the text.
proof fn lemma_trimmed_occur(s: Seq<char>, pieces: Seq<Seq<char>>)
    requires
        forall|k: int| 0 <= k < pieces.len() ==> occurs_in(s, #[trigger] pieces[k]),
    ensures
        forall|k: int| 0 <= k < trimmed_nonempty(pieces).len() ==> occurs_in(s, #[trigger] trimmed_nonempty(pieces)[k]),
    decreases pieces.len(),
{
    if pieces.len() > 0 {
        let p = pieces.drop_last();
        assert forall|k: int| 0 <= k < p.len() implies occurs_in(s, #[trigger] p[k]) by {
            assert(p[k] == pieces[k]);
        }
        lemma_trimmed_occur(s, p);
        let t = trim(pieces.last());
        if t.len() > 0 {
            let q = pieces.last();
            assert(occurs_in(s, pieces[pieces.len() - 1]));
            let i = choose|i: int| occurs_at(s, q, i);
            lemma_trim_occurs(q);
            let j = choose|j: int| occurs_at(q, t, j);
            assert(s.subrange(i + j, i + j + t.len()) =~= q.subrange(j, j + t.len()));
            assert(occurs_at(s, t, i + j));
            let r = trimmed_nonempty(p);
            assert forall|k: int| 0 <= k < r.push(t).len() implies occurs_in(s, #[trigger] r.push(t)[k]) by {
                if k < r.len() {
                    assert(r.push(t)[k] == r[k]);
                }
            }
        }
    }
}

/// A token that begins a word of an ASCII field occurs in the lowercased
/// field, so without typo tolerance every match of an ASCII field is exact.
proof fn lemma_ascii_field_exact(v: Seq<char>, t: Seq<char>)
    requires
        all_ascii(v),
        match_kind(lowercase(v), word_tokens(v), t, false) is Some,
    ensures
        match_kind(lowercase(v), word_tokens(v), t, false) == Some(MatchKind::Exact),
{
    if !contains(lowercase(v), t) {
        let words = word_tokens(v);
        assert(some_prefix(words, t));
        let k = choose|k: int| 0 <= k < words.len() && starts_with(#[trigger] words[k], t);
        let pieces = split_pieces(v, false);
        lemma_pieces_occur(v, false);
        lemma_trimmed_occur(v, pieces);
        let tn = trimmed_nonempty(pieces);
        let piece = tn[k];
        assert(occurs_in(v, piece));
        let i = choose|i: int| occurs_at(v, piece, i);
        let lv = lowercase(v);
        let lp = lowercase(piece);
        assert(all_ascii(piece)) by {
            assert forall|x: int| 0 <= x < piece.len() implies (#[trigger] piece[x] as u32) < 128 by {
                assert(piece[x] == v[i + x]);
            }
        }
        assert(words[k] == lp);
        assert(lv.subrange(i, i + t.len()) =~= t) by {
            assert forall|x: int| 0 <= x < t.len() implies lv.subrange(i, i + t.len())[x] == t[x] by {
                assert(lp[x] == t[x]);
                assert(piece[x] == v[i + x]);
            }
        }
        lemma_occurs_contains(lv, t, i);
    }
}

/// Without typo tolerance, a movie whose title, genre and overview are ASCII
/// matches every query token exactly: its match quality is 0, so results of
/// equal matched tokens and field weight come in id order, as the search
/// semantics describe.
pub proof fn law_typo_off_matches_are_exact(m: Movie, toks: Seq<Seq<char>>)
    requires
        all_ascii(m.title@),
        all_ascii(m.genre@),
        all_ascii(m.overview@),
    ensures
        score(m, toks, false).2 == 0,
        score(m, toks, false).3 == 0,
    decreases toks.len(),
{
    if toks.len() > 0 {
        law_typo_off_matches_are_exact(m, toks.drop_last());
        let t = toks.last();
        if field_match(m.title@, t, false) is Some {
            lemma_ascii_field_exact(m.title@, t);
        } else if field_match(m.genre@, t, false) is Some {
            lemma_ascii_field_exact(m.genre@, t);
        } else if field_match(m.overview@, t, false) is Some {
            lemma_ascii_field_exact(m.overview@, t);
        }
    }
}

/// The ids of some movies.
pub open spec fn movie_ids(v: Seq<Movie>) -> Seq<u64> {
    v.map_values(|m: Movie| m.id)
}

/// The catalog holds one movie per distinct id of the input: its size is
/// the number of distinct ids.
pub proof fn law_catalog_size_is_distinct_ids(v: Seq<Movie>, a: MovieSearch)
    requires
        dedup_by_id(v, a@),
    ensures
        movie_ids(v).to_set().finite(),
        a@.len() == movie_ids(v).to_set().len(),
{
    let ids = movie_ids(a@);
    let vids = movie_ids(v);
    assert(ids.no_duplicates()) by {
        assert forall|i: int, j: int| 0 <= i < ids.len() && 0 <= j < ids.len() && i != j implies ids[i] != ids[j] by {
            if i < j {
                assert(a@[i].id < a@[j].id);
            } else {
                assert(a@[j].id < a@[i].id);
            }
        }
    }
    assert(ids.to_set() =~= vids.to_set()) by {
        assert forall|x: u64| ids.to_set().contains(x) implies vids.to_set().contains(x) by {
            assert(ids.contains(x));
            let k = choose|k: int| 0 <= k < ids.len() && ids[k] == x;
            assert(kept(v, a@[k]));
            let i = choose|i: int| 0 <= i < v.len() && v[i] == a@[k] && #[trigger] last_of_id(v, i);
            assert(vids[i] == x);
            assert(vids.contains(x));
        }
        assert forall|x: u64| vids.to_set().contains(x) implies ids.to_set().contains(x) by {
            assert(vids.contains(x));
            let i = choose|i: int| 0 <= i < vids.len() && vids[i] == x;
            assert(has_id(a@, v[i].id));
            let k = choose|k: int| 0 <= k < a@.len() && (#[trigger] a@[k]).id == v[i].id;
            assert(ids[k] == x);
            assert(ids.contains(x));
        }
    }
    ids.unique_seq_to_set();
}

/// Some entry of `s` has key `k`.
pub open spec fn has_entry<X>(s: Seq<(Seq<char>, X)>, k: Seq<char>) -> bool {
    exists|i: int| 0 <= i < s.len() && (#[trigger] s[i]).0 == k
}

proof fn lemma_has_key_entry<X>(s: Seq<(Seq<char>, X)>, k: Seq<char>)
    requires
        keys_sorted(s),
    ensures
        has_key(s, k) <==> has_entry(s, k),
{
    lemma_key_pos(s, k);
    if has_key(s, k) {
        assert(s[key_pos(s, k)].0 == k);
    }
}

proof fn lemma_upsert_entries<X>(s: Seq<(Seq<char>, X)>, k: Seq<char>, v: X, x: Seq<char>)
    requires
        keys_sorted(s),
    ensures
        has_entry(upsert(s, k, v), x) <==> (has_entry(s, x) || x == k),
{
    lemma_key_pos(s, k);
    let p = key_pos(s, k);
    let r = upsert(s, k, v);
    if has_key(s, k) {
        assert(r[p].0 == k);
        if has_entry(r, x) {
            let i = choose|i: int| 0 <= i < r.len() && (#[trigger] r[i]).0 == x;
            if i != p {
                assert(s[i] == r[i]);
            }
        }
        if has_entry(s, x) {
            let i = choose|i: int| 0 <= i < s.len() && (#[trigger] s[i]).0 == x;
            if i != p {
                assert(r[i] == s[i]);
            } else {
                assert(r[p].0 == x);
            }
        }
    } else {
        assert(r[p].0 == k);
        if has_entry(r, x) {
            let i = choose|i: int| 0 <= i < r.len() && (#[trigger] r[i]).0 == x;
            if i < p {
                assert(s[i] == r[i]);
            } else if i > p {
                assert(s[i - 1] == r[i]);
            }
        }
        if has_entry(s, x) {
            let i = choose|i: int| 0 <= i < s.len() && (#[trigger] s[i]).0 == x;
            if i < p {
                assert(r[i] == s[i]);
            } else {
                assert(r[i + 1] == s[i]);
            }
        }
    }
}

/// The indexes after a sequence of `add_documents` calls, each a uid and its
/// documents, on a new engine.
pub open spec fn indexes_after(calls: Seq<(Seq<char>, Seq<Json>)>) -> Seq<(Seq<char>, IndexView)>
    decreases calls.len(),
{
    if calls.len() == 0 {
        seq![]
    } else {
        indexes_step(indexes_after(calls.drop_last()), calls.last().0, calls.last().1)
    }
}

/// How many of a sequence of `add_documents` calls on a new engine succeed.
pub open spec fn successes(calls: Seq<(Seq<char>, Seq<Json>)>) -> nat
    decreases calls.len(),
{
    if calls.len() == 0 {
        0
    } else {
        successes(calls.drop_last()) + if add_succeeds(
            indexes_after(calls.drop_last()),
            calls.last().0,
            calls.last().1,
        ) {
            1nat
        } else {
            0nat
        }
    }
}

/// Some call names `uid`, and it is not blank.
pub open spec fn named_by(calls: Seq<(Seq<char>, Seq<Json>)>, uid: Seq<char>) -> bool {
    exists|k: int| 0 <= k < calls.len() && trim((#[trigger] calls[k]).0).len() > 0 && calls[k].0 == uid
}

/// The indexes stay in uid order, and an index exists exactly when some
/// call with a non-blank uid named it (even a call that then failed on a
/// document).
proof fn lemma_indexes_after(calls: Seq<(Seq<char>, Seq<Json>)>, uid: Seq<char>)
    ensures
        keys_sorted(indexes_after(calls)),
        has_key(indexes_after(calls), uid) <==> named_by(calls, uid),
    decreases calls.len(),
{
    if calls.len() > 0 {
        let p = calls.drop_last();
        lemma_indexes_after(p, uid);
        let ixs = indexes_after(p);
        let (u, d) = calls.last();
        assert(named_by(calls, uid) <==> (named_by(p, uid) || (trim(u).len() > 0 && u == uid))) by {
            if named_by(calls, uid) {
                let k = choose|k: int| 0 <= k < calls.len() && trim((#[trigger] calls[k]).0).len() > 0 && calls[k].0 == uid;
                if k < p.len() {
                    assert(p[k] == calls[k]);
                }
            }
            if named_by(p, uid) {
                let k = choose|k: int| 0 <= k < p.len() && trim((#[trigger] p[k]).0).len() > 0 && p[k].0 == uid;
                assert(calls[k] == p[k]);
            }
            if trim(u).len() > 0 && u == uid {
                assert(calls[calls.len() - 1] == calls.last());
            }
        }
        if trim(u).len() > 0 {
            let e = EngineView { indexes: ixs, tasks: seq![], next_task_uid: 0 };
            let iv = IndexView {
                primary_key: crate::legacy::DEFAULT_PRIMARY_KEY@,
                docs: add_all(
                    if has_key(ixs, u) {
                        ixs[key_pos(ixs, u)].1.docs
                    } else {
                        seq![]
                    },
                    d,
                    crate::legacy::DEFAULT_PRIMARY_KEY@,
                ).0,
            };
            assert(indexes_after(calls) == upsert(ixs, u, iv));
            lemma_upsert(ixs, u, iv);
            lemma_upsert_entries(ixs, u, iv, uid);
            lemma_has_key_entry(ixs, uid);
            lemma_has_key_entry(upsert(ixs, u, iv), uid);
        }
    }
}

/// What the engine's history gives, step by step, from a new engine through
/// a sequence of `add_documents` calls: the indexes of each step are those
/// the calls so far made; every successful call, and only those, records one
/// task and advances the task counter, so the task uids count the
/// successful additions from 0; and searching an index answers `404` exactly
/// when no call with a non-blank uid named it.
pub proof fn law_engine_history(es: Seq<EngineView>, calls: Seq<(Seq<char>, Seq<Json>)>, uid: Seq<char>)
    requires
        es.len() == calls.len() + 1,
        es[0].indexes.len() == 0,
        es[0].tasks.len() == 0,
        es[0].next_task_uid == 0,
        forall|k: int|
            0 <= k < calls.len() ==> {
                let ok = add_succeeds(es[k].indexes, (#[trigger] calls[k]).0, calls[k].1);
                &&& es[k + 1].indexes == indexes_step(es[k].indexes, calls[k].0, calls[k].1)
                &&& es[k + 1].next_task_uid == es[k].next_task_uid + if ok {
                    1int
                } else {
                    0int
                }
                &&& ok ==> es[k + 1].tasks == es[k].tasks.push(es[k + 1].tasks.last())
                    && es[k + 1].tasks.last().task_uid == es[k].next_task_uid
                &&& !ok ==> es[k + 1].tasks == es[k].tasks
            },
    ensures
        forall|k: int|
            0 <= k <= calls.len() ==> (#[trigger] es[k]).indexes == indexes_after(calls.take(k))
                && es[k].next_task_uid == successes(calls.take(k)) && es[k].tasks.len() == successes(calls.take(k)),
        forall|j: int| 0 <= j < es.last().tasks.len() ==> (#[trigger] es.last().tasks[j]).task_uid == j,
        has_key(es.last().indexes, uid) <==> named_by(calls, uid),
    decreases calls.len(),
{
    assert(calls.take(0) =~= Seq::<(Seq<char>, Seq<Json>)>::empty());
    if calls.len() > 0 {
        let n = calls.len() - 1;
        let p = calls.drop_last();
        let ep = es.drop_last();
        assert forall|k: int| 0 <= k < p.len() implies {
            let ok = add_succeeds(ep[k].indexes, (#[trigger] p[k]).0, p[k].1);
            &&& ep[k + 1].indexes == indexes_step(ep[k].indexes, p[k].0, p[k].1)
            &&& ep[k + 1].next_task_uid == ep[k].next_task_uid + if ok {
                1int
            } else {
                0int
            }
            &&& ok ==> ep[k + 1].tasks == ep[k].tasks.push(ep[k + 1].tasks.last())
                && ep[k + 1].tasks.last().task_uid == ep[k].next_task_uid
            &&& !ok ==> ep[k + 1].tasks == ep[k].tasks
        } by {
            assert(p[k] == calls[k]);
            assert(ep[k] == es[k] && ep[k + 1] == es[k + 1]);
        }
        law_engine_history(ep, p, uid);
        assert forall|k: int| 0 <= k <= calls.len() implies (#[trigger] es[k]).indexes == indexes_after(calls.take(k))
            && es[k].next_task_uid == successes(calls.take(k)) && es[k].tasks.len() == successes(calls.take(k)) by {
            if k <= n {
                assert(ep[k] == es[k]);
                assert(calls.take(k) =~= p.take(k));
            } else {
                assert(calls.take(k) =~= calls);
                assert(calls.drop_last() =~= p);
                assert(p.take(n) =~= p);
                assert(ep[n] == es[n]);
                assert(calls[n] == calls.last());
            }
        }
        let last = es[calls.len() as int];
        let prev = es[n];
        assert(prev == ep.last());
        assert(last == es.last());
        assert forall|j: int| 0 <= j < last.tasks.len() implies (#[trigger] last.tasks[j]).task_uid == j by {
            assert(calls[n] == calls.last());
            if j < prev.tasks.len() {
                assert(last.tasks[j] == prev.tasks[j]);
            }
        }
        lemma_indexes_after(calls, uid);
        assert(calls.take(calls.len() as int) =~= calls);
    } else {
        lemma_indexes_after(calls, uid);
        assert(named_by(calls, uid) == false);
    }
}

/// An addition stops at the first document without a valid key: the
/// documents before it are upserted and none after it, and the error is that
/// document's. An addition with no such document adds every document.
pub proof fn law_addition_stops_at_first_bad_document(base: Seq<(Seq<char>, Json)>, docs: Seq<Json>, pk: Seq<char>)
    ensures
        add_all(base, docs, pk).1 matches Some(msg) ==> exists|k: int|
            0 <= k < docs.len() && (forall|j: int| 0 <= j < k ==> doc_key(#[trigger] docs[j], pk) is Ok) && doc_key(
                docs[k],
                pk,
            ) == Err::<Seq<char>, Seq<char>>(msg) && add_all(base, docs.take(k), pk).1 is None && #[trigger] add_all(
                base,
                docs.take(k),
                pk,
            ).0 == add_all(base, docs, pk).0,
        add_all(base, docs, pk).1 is None ==> (forall|j: int| 0 <= j < docs.len() ==> doc_key(#[trigger] docs[j], pk) is Ok)
            && add_all(base, docs, pk).2 == docs.len(),
    decreases docs.len(),
{
    if docs.len() > 0 {
        let p = docs.drop_last();
        law_addition_stops_at_first_bad_document(base, p, pk);
        let (s, err, n) = add_all(base, p, pk);
        assert(docs.take(p.len() as int) =~= p);
        if err is Some {
            let msg = err->0;
            let k = choose|k: int|
                0 <= k < p.len() && (forall|j: int| 0 <= j < k ==> doc_key(#[trigger] p[j], pk) is Ok) && doc_key(
                    p[k],
                    pk,
                ) == Err::<Seq<char>, Seq<char>>(msg) && add_all(base, p.take(k), pk).1 is None && #[trigger] add_all(
                    base,
                    p.take(k),
                    pk,
                ).0 == add_all(base, p, pk).0;
            assert(docs.take(k) =~= p.take(k));
            assert forall|j: int| 0 <= j < k implies doc_key(#[trigger] docs[j], pk) is Ok by {
                assert(docs[j] == p[j]);
            }
            assert(docs[k] == p[k]);
        } else {
            assert forall|j: int| 0 <= j < docs.len() - 1 implies doc_key(#[trigger] docs[j], pk) is Ok by {
                assert(docs[j] == p[j]);
            }
            if doc_key(docs.last(), pk) is Err {
                let k = p.len() as int;
                assert(docs[k] == docs.last());
            } else {
                assert(docs[docs.len() - 1] == docs.last());
            }
        }
    }
}

/// The sum of the listed indexes' document counts.
pub open spec fn listed_total(results: Seq<IndexInfo>) -> nat
    decreases results.len(),
{
    if results.len() == 0 {
        0
    } else {
        listed_total(results.drop_last()) + (results.last().number_of_documents as nat)
    }
}

proof fn lemma_listed_total(results: Seq<IndexInfo>, ixs: Seq<(Seq<char>, IndexView)>)
    requires
        results.len() == ixs.len(),
        forall|i: int| 0 <= i < results.len() ==> (#[trigger] results[i]).number_of_documents == ixs[i].1.docs.len(),
    ensures
        listed_total(results) == total_documents(ixs),
    decreases results.len(),
{
    if results.len() > 0 {
        let r = results.drop_last();
        let x = ixs.drop_last();
        assert forall|i: int| 0 <= i < r.len() implies (#[trigger] r[i]).number_of_documents == x[i].1.docs.len() by {
            assert(r[i] == results[i] && x[i] == ixs[i]);
        }
        lemma_listed_total(r, x);
        assert(results[results.len() - 1] == results.last());
    }
}

/// The statistics agree with the list of indexes: the same uids in the same
/// order, the same document counts, no index being indexed, and both
/// database sizes the sum of the counts.
pub proof fn law_stats_agree_with_list(e: SearchEngine, st: StatsResponse, li: IndexesResponse)
    requires
        st.indexes@.len() == e@.indexes.len(),
        forall|i: int|
            0 <= i < st.indexes@.len() ==> (#[trigger] st.indexes@[i]).0@ == e@.indexes[i].0
                && st.indexes@[i].1 == (IndexStats {
                number_of_documents: e@.indexes[i].1.docs.len() as usize,
                is_indexing: false,
            }),
        st.database_size == total_documents(e@.indexes),
        st.used_database_size == total_documents(e@.indexes),
        li.results@.len() == e@.indexes.len(),
        forall|i: int|
            0 <= i < li.results@.len() ==> (#[trigger] li.results@[i]).uid@ == e@.indexes[i].0
                && li.results@[i].number_of_documents == e@.indexes[i].1.docs.len(),
    ensures
        st.indexes@.len() == li.results@.len(),
        forall|i: int|
            0 <= i < st.indexes@.len() ==> (#[trigger] st.indexes@[i]).0@ == li.results@[i].uid@
                && st.indexes@[i].1 == (IndexStats {
                number_of_documents: li.results@[i].number_of_documents,
                is_indexing: false,
            }),
        st.database_size == listed_total(li.results@),
        st.used_database_size == listed_total(li.results@),
{
    lemma_listed_total(li.results@, e@.indexes);
    assert forall|i: int| 0 <= i < st.indexes@.len() implies (#[trigger] st.indexes@[i]).0@ == li.results@[i].uid@
        && st.indexes@[i].1 == (IndexStats {
        number_of_documents: li.results@[i].number_of_documents,
        is_indexing: false,
    }) by {
        assert(li.results@[i].number_of_documents == e@.indexes[i].1.docs.len());
    }
}

/// Every movie's title, genre and overview are ASCII text.
pub open spec fn ascii_catalog(movies: Seq<Movie>) -> bool {
    forall|i: int|
        0 <= i < movies.len() ==> all_ascii((#[trigger] movies[i]).title@) && all_ascii(movies[i].genre@) && all_ascii(
            movies[i].overview@,
        )
}

/// The search semantics: without sort keys, the page lists the matching
/// movies by matched query tokens (descending), then field weight
/// (descending), then match quality (ascending), then id (ascending).
/// Without typo tolerance every match of an ASCII catalog is exact, so the
/// quality tie-break never applies there and ties go to the lower id.
pub proof fn law_search_order_semantics(ms: MovieSearch, r: SearchRequest)
    requires
        ms.wf(),
        search_fits(ms@, r),
        r.sort@.len() == 0,
    ensures
        forall|i: int, j: int|
            0 <= i < j < page_results(ms@, r).len() ==> {
                let a = #[trigger] page_results(ms@, r)[i];
                let b = #[trigger] page_results(ms@, r)[j];
                ||| a.matched_tokens > b.matched_tokens
                ||| a.matched_tokens == b.matched_tokens && a.field_weight > b.field_weight
                ||| a.matched_tokens == b.matched_tokens && a.field_weight == b.field_weight && a.match_quality
                    < b.match_quality
                ||| a.matched_tokens == b.matched_tokens && a.field_weight == b.field_weight && a.match_quality
                    == b.match_quality && ms@[a.index as int].id < ms@[b.index as int].id
            },
        !r.typo_tolerance && ascii_catalog(ms@) ==> forall|i: int|
            0 <= i < page_results(ms@, r).len() ==> (#[trigger] page_results(ms@, r)[i]).match_quality == 0,
{
    law_search_results_ordered(ms, r);
    lemma_search_results_distinct(ms, r);
    let pg = page_results(ms@, r);
    let keys = sort_keys(r);
    assert(keys =~= Seq::<SortKey>::empty());
    assert forall|i: int, j: int| 0 <= i < j < pg.len() implies {
        let a = #[trigger] pg[i];
        let b = #[trigger] pg[j];
        ||| a.matched_tokens > b.matched_tokens
        ||| a.matched_tokens == b.matched_tokens && a.field_weight > b.field_weight
        ||| a.matched_tokens == b.matched_tokens && a.field_weight == b.field_weight && a.match_quality
            < b.match_quality
        ||| a.matched_tokens == b.matched_tokens && a.field_weight == b.field_weight && a.match_quality
            == b.match_quality && ms@[a.index as int].id < ms@[b.index as int].id
    } by {
        assert(result_order(keys, rank_view(ms@, pg[i]), rank_view(ms@, pg[j])) == Rel::Less);
    }
    if !r.typo_tolerance && ascii_catalog(ms@) {
        let o = ordered_search_results(ms@, r);
        let res = search_results(ms@, r);
        let start = if offset_of(r) < o.len() {
            offset_of(r) as int
        } else {
            o.len() as int
        };
        assert forall|i: int| 0 <= i < pg.len() implies (#[trigger] pg[i]).match_quality == 0 by {
            assert(pg[i] == o[start + i]);
            assert(o.contains(o[start + i]));
            assert(res.contains(pg[i]));
            let k = choose|k: int| 0 <= k < res.len() && res[k] == pg[i];
            let m = ms@[res[k].index as int];
            law_typo_off_matches_are_exact(m, query_tokens(query_of(r)));
        }
    }
}

/// The positions of the movies that pass the filter and answer the query
/// with rank `rank`, in catalog order.
spec fn rank_pos(movies: Seq<Movie>, f: Option<SearchFilter>, nq: Seq<char>, rank: int) -> Seq<int>
    decreases movies.len(),
{
    if movies.len() == 0 {
        seq![]
    } else {
        let r = rank_pos(movies.drop_last(), f, nq, rank);
        if matches_filter(movies.last(), f) && title_rank(movies.last().title@, nq) == Some(rank) {
            r.push(movies.len() - 1)
        } else {
            r
        }
    }
}

/// Movie `i` passes the filter and answers the query with rank `rank`.
spec fn in_group(movies: Seq<Movie>, f: Option<SearchFilter>, nq: Seq<char>, i: int, rank: int) -> bool {
    0 <= i < movies.len() && matches_filter(movies[i], f) && title_rank(movies[i].title@, nq) == Some(rank)
}

proof fn lemma_rank_pos(movies: Seq<Movie>, f: Option<SearchFilter>, nq: Seq<char>, rank: int)
    ensures
        ranked_titles(movies, f, nq, rank).len() == rank_pos(movies, f, nq, rank).len(),
        forall|k: int|
            0 <= k < rank_pos(movies, f, nq, rank).len() ==> in_group(
                movies,
                f,
                nq,
                #[trigger] rank_pos(movies, f, nq, rank)[k],
                rank,
            ) && ranked_titles(movies, f, nq, rank)[k] == movies[rank_pos(movies, f, nq, rank)[k]].title@,
        forall|k: int, l: int|
            0 <= k < l < rank_pos(movies, f, nq, rank).len() ==> #[trigger] rank_pos(movies, f, nq, rank)[k]
                < #[trigger] rank_pos(movies, f, nq, rank)[l],
        forall|i: int|
            #[trigger] in_group(movies, f, nq, i, rank) ==> exists|k: int|
                0 <= k < rank_pos(movies, f, nq, rank).len() && rank_pos(movies, f, nq, rank)[k] == i,
    decreases movies.len(),
{
    if movies.len() > 0 {
        let p = movies.drop_last();
        lemma_rank_pos(p, f, nq, rank);
        let rp = rank_pos(p, f, nq, rank);
        let full = rank_pos(movies, f, nq, rank);
        let rt = ranked_titles(p, f, nq, rank);
        let ft = ranked_titles(movies, f, nq, rank);
        assert forall|k: int| 0 <= k < rp.len() implies in_group(movies, f, nq, #[trigger] rp[k], rank) && movies[rp[k]]
            == p[rp[k]] by {
            assert(in_group(p, f, nq, rp[k], rank));
        }
        assert forall|k: int| 0 <= k < full.len() implies in_group(movies, f, nq, #[trigger] full[k], rank)
            && ft[k] == movies[full[k]].title@ by {
            if k < rp.len() {
                assert(full[k] == rp[k] && ft[k] == rt[k]);
                assert(in_group(movies, f, nq, rp[k], rank) && movies[rp[k]] == p[rp[k]]);
            } else {
                assert(movies[movies.len() - 1] == movies.last());
            }
        }
        assert forall|i: int| #[trigger] in_group(movies, f, nq, i, rank) implies exists|k: int|
            0 <= k < full.len() && full[k] == i by {
            if i < movies.len() - 1 {
                assert(p[i] == movies[i]);
                assert(in_group(p, f, nq, i, rank));
                let k = choose|k: int| 0 <= k < rp.len() && rp[k] == i;
                assert(full[k] == i);
            } else {
                assert(movies[i] == movies.last());
                assert(full[full.len() - 1] == i);
            }
        }
        assert forall|k: int, l: int| 0 <= k < l < full.len() implies #[trigger] full[k] < #[trigger] full[l] by {
            if l < rp.len() {
                assert(full[k] == rp[k] && full[l] == rp[l]);
            } else {
                assert(full[k] == rp[k]);
                assert(0 <= rp[k] < p.len()) by {
                    assert(in_group(p, f, nq, rp[k], rank));
                }
            }
        }
    }
}

/// The positions of `s` that `dedup_titles` keeps.
spec fn dedup_pos(s: Seq<Seq<char>>) -> Seq<int>
    decreases s.len(),
{
    if s.len() == 0 {
        seq![]
    } else {
        let d = dedup_pos(s.drop_last());
        if seen_before(s, s.len() - 1) {
            d
        } else {
            d.push(s.len() - 1)
        }
    }
}

proof fn lemma_dedup_pos(s: Seq<Seq<char>>)
    ensures
        dedup_titles(s).len() == dedup_pos(s).len(),
        forall|k: int|
            0 <= k < dedup_pos(s).len() ==> 0 <= #[trigger] dedup_pos(s)[k] < s.len() && dedup_titles(s)[k]
                == s[dedup_pos(s)[k]] && !seen_before(s, dedup_pos(s)[k]),
        forall|k: int, l: int| 0 <= k < l < dedup_pos(s).len() ==> #[trigger] dedup_pos(s)[k] < #[trigger] dedup_pos(s)[l],
    decreases s.len(),
{
    if s.len() > 0 {
        let p = s.drop_last();
        lemma_dedup_pos(p);
        let dp = dedup_pos(p);
        let full = dedup_pos(s);
        let dt = dedup_titles(p);
        let ft = dedup_titles(s);
        assert forall|k: int| 0 <= k < full.len() implies 0 <= #[trigger] full[k] < s.len() && ft[k] == s[full[k]]
            && !seen_before(s, full[k]) by {
            if k < dp.len() {
                assert(full[k] == dp[k] && ft[k] == dt[k]);
                let q = dp[k];
                assert(p[q] == s[q]);
                if seen_before(s, q) {
                    let j = choose|j: int| 0 <= j < q && lowercase(#[trigger] s[j]) == lowercase(s[q]);
                    assert(p[j] == s[j]);
                    assert(seen_before(p, q));
                }
            } else {
                assert(s[s.len() - 1] == s.last());
            }
        }
        assert forall|k: int, l: int| 0 <= k < l < full.len() implies #[trigger] full[k] < #[trigger] full[l] by {
            if l < dp.len() {
                assert(full[k] == dp[k] && full[l] == dp[l]);
            } else {
                assert(full[k] == dp[k]);
            }
        }
    }
}

/// Movie `i` is the first (lowest position, so lowest id) of the movies
/// that pass the request's filter and whose title answers the query, among
/// those whose lowercase title is `l`.
pub open spec fn first_with_title(movies: Seq<Movie>, r: SuggestRequest, l: Seq<char>, i: int) -> bool {
    &&& 0 <= i < movies.len()
    &&& matches_filter(movies[i], r.filters)
    &&& title_rank(movies[i].title@, normalized_query(r)) is Some
    &&& lowercase(movies[i].title@) == l
    &&& forall|j: int|
        0 <= j < i && matches_filter(#[trigger] movies[j], r.filters) && title_rank(movies[j].title@, normalized_query(r))
            is Some ==> lowercase(movies[j].title@) != l
}

/// `t` is the title of the first movie with its lowercase title.
pub open spec fn title_of_first(movies: Seq<Movie>, r: SuggestRequest, t: Seq<char>) -> bool {
    exists|i: int| #[trigger] first_with_title(movies, r, lowercase(t), i) && movies[i].title@ == t
}

/// Each suggestion is the title of the lowest-id movie (among those that
/// pass the filter and answer the query) with that lowercase title, and the
/// titles that begin with the query come before those that only contain
/// it, each group in id order.
pub proof fn law_suggestions_pick_first_titles(movies: Seq<Movie>, r: SuggestRequest)
    requires
        ids_increasing(movies),
        normalized_query(r).len() > 0,
    ensures
        forall|k: int|
            0 <= k < suggestions_spec(movies, r).len() ==> title_of_first(
                movies,
                r,
                #[trigger] suggestions_spec(movies, r)[k],
            ),
        forall|k1: int, k2: int, i1: int, i2: int|
            0 <= k1 < k2 < suggestions_spec(movies, r).len() && #[trigger] first_with_title(
                movies,
                r,
                lowercase(suggestions_spec(movies, r)[k1]),
                i1,
            ) && #[trigger] first_with_title(movies, r, lowercase(suggestions_spec(movies, r)[k2]), i2) ==> (title_rank(
                suggestions_spec(movies, r)[k1],
                normalized_query(r),
            )->0 < title_rank(suggestions_spec(movies, r)[k2], normalized_query(r))->0 || (title_rank(
                suggestions_spec(movies, r)[k1],
                normalized_query(r),
            ) == title_rank(suggestions_spec(movies, r)[k2], normalized_query(r)) && movies[i1].id < movies[i2].id)),
{
    let nq = normalized_query(r);
    let f = r.filters;
    let a = ranked_titles(movies, f, nq, 0);
    let b = ranked_titles(movies, f, nq, 1);
    let all = a + b;
    let ap = rank_pos(movies, f, nq, 0);
    let bp = rank_pos(movies, f, nq, 1);
    lemma_rank_pos(movies, f, nq, 0);
    lemma_rank_pos(movies, f, nq, 1);
    lemma_dedup_pos(all);
    let d = dedup_titles(all);
    let dp = dedup_pos(all);
    let sugg = suggestions_spec(movies, r);
    assert(sugg == at_most(d, suggest_limit(r) as int));
    // The movie behind each position of `all`.
    let pos_movie = |q: int| if q < a.len() {
        ap[q]
    } else {
        bp[q - a.len()]
    };
    assert forall|q: int| 0 <= q < all.len() implies in_group(movies, f, nq, pos_movie(q), if q < a.len() {
        0int
    } else {
        1int
    }) && all[q] == movies[pos_movie(q)].title@ by {
        if q < a.len() {
            assert(all[q] == a[q]);
        } else {
            assert(all[q] == b[q - a.len()]);
        }
    }
    // A kept position holds the first movie with its lowercase title.
    assert forall|k: int| 0 <= k < d.len() implies first_with_title(movies, r, lowercase(d[k]), pos_movie(#[trigger] dp[k]))
        && movies[pos_movie(dp[k])].title@ == d[k] by {
        let q = dp[k];
        let i = pos_movie(q);
        let rk: int = if q < a.len() {
            0
        } else {
            1
        };
        assert(in_group(movies, f, nq, i, rk));
        assert forall|j: int|
            0 <= j < i && matches_filter(#[trigger] movies[j], f) && title_rank(movies[j].title@, nq) is Some implies lowercase(
            movies[j].title@,
        ) != lowercase(d[k]) by {
            if lowercase(movies[j].title@) == lowercase(d[k]) {
                assert(title_rank(movies[j].title@, nq) == title_rank(movies[i].title@, nq));
                assert(in_group(movies, f, nq, j, rk));
                if rk == 0 {
                    let x = choose|x: int| 0 <= x < ap.len() && ap[x] == j;
                    if x >= q {
                        assert(ap[q] < ap[x]);
                    }
                    assert(all[x] == a[x]);
                    assert(lowercase(all[x]) == lowercase(all[q]));
                    assert(seen_before(all, q));
                } else {
                    let x = choose|x: int| 0 <= x < bp.len() && bp[x] == j;
                    if x >= q - a.len() {
                        assert(bp[q - a.len()] < bp[x]);
                    }
                    assert(all[a.len() + x] == b[x]);
                    assert(lowercase(all[a.len() + x]) == lowercase(all[q]));
                    assert(seen_before(all, q));
                }
            }
        }
    }
    assert forall|k: int| 0 <= k < sugg.len() implies title_of_first(movies, r, #[trigger] sugg[k]) by {
        assert(sugg[k] == d[k]);
        assert(first_with_title(movies, r, lowercase(d[k]), pos_movie(dp[k])));
    }
    assert forall|k1: int, k2: int, i1: int, i2: int|
        0 <= k1 < k2 < sugg.len() && #[trigger] first_with_title(movies, r, lowercase(sugg[k1]), i1)
            && #[trigger] first_with_title(movies, r, lowercase(sugg[k2]), i2) implies (title_rank(sugg[k1], nq)->0 < title_rank(sugg[k2], nq)->0 || (title_rank(sugg[k1], nq) == title_rank(
        sugg[k2],
        nq,
    ) && movies[i1].id < movies[i2].id)) by {
        assert(sugg[k1] == d[k1] && sugg[k2] == d[k2]);
        let q1 = dp[k1];
        let q2 = dp[k2];
        assert(q1 < q2);
        let j1 = pos_movie(q1);
        let j2 = pos_movie(q2);
        assert(first_with_title(movies, r, lowercase(d[k1]), j1));
        assert(first_with_title(movies, r, lowercase(d[k2]), j2));
        // The first movie with a lowercase title is unique.
        if i1 < j1 {
            assert(lowercase(movies[i1].title@) != lowercase(d[k1]));
        } else if j1 < i1 {
            assert(lowercase(movies[j1].title@) != lowercase(d[k1]));
        }
        if i2 < j2 {
            assert(lowercase(movies[i2].title@) != lowercase(d[k2]));
        } else if j2 < i2 {
            assert(lowercase(movies[j2].title@) != lowercase(d[k2]));
        }
        assert(title_rank(d[k1], nq) == title_rank(movies[j1].title@, nq));
        assert(title_rank(d[k2], nq) == title_rank(movies[j2].title@, nq));
        if q1 < a.len() && q2 < a.len() {
            assert(ap[q1] < ap[q2]);
        } else if q1 >= a.len() && q2 >= a.len() {
            assert(bp[q1 - a.len()] < bp[q2 - a.len()]);
        }
    }
}

/// In an index, whose documents are kept in key order, the search lists
/// documents containing more query tokens first and equally good ones in
/// increasing key order (keys compared as strings, so `10` before `2`).
pub proof fn law_legacy_search_key_order(docs: Seq<(Seq<char>, Json)>, toks: Seq<Seq<char>>)
    requires
        keys_sorted(docs),
    ensures
        forall|a: int, b: int|
            0 <= a < b < ranked_docs(docs, toks).len() ==> scores_of(docs, toks)[#[trigger] ranked_docs(docs, toks)[a]]
                > scores_of(docs, toks)[#[trigger] ranked_docs(docs, toks)[b]] || (scores_of(docs, toks)[ranked_docs(
                docs,
                toks,
            )[a]] == scores_of(docs, toks)[ranked_docs(docs, toks)[b]] && lex_lt(
                docs[ranked_docs(docs, toks)[a]].0,
                docs[ranked_docs(docs, toks)[b]].0,
            )),
{
    law_legacy_search_exact(docs, toks);
    let rd = ranked_docs(docs, toks);
    assert forall|a: int, b: int| 0 <= a < b < rd.len() implies scores_of(docs, toks)[#[trigger] rd[a]] > scores_of(
        docs,
        toks,
    )[#[trigger] rd[b]] || (scores_of(docs, toks)[rd[a]] == scores_of(docs, toks)[rd[b]] && lex_lt(
        docs[rd[a]].0,
        docs[rd[b]].0,
    )) by {
        assert(rd.contains(rd[a]) && rd.contains(rd[b]));
    }
}

} // verus!
