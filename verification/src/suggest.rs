//! Title suggestions while typing: titles that begin with the query come
//! first, then titles that contain it, each title once.

use vstd::prelude::*;
use crate::catalog::{Movie, MovieSearch};
use crate::clock::{millis_since, now};
use crate::filter::{matches_filter, matches_filter_exec, prepare_filter, prepared_from, string_views, PreparedFilter, SearchFilter, SuggestRequest};
use crate::matching::{contains, contains_chars, starts_with, starts_with_chars};
use crate::order::chars_equal;
use crate::text::{chars_of, lowercase, lowercase_chars, string_from_chars, trim, trim_chars, views};

verus! {

/// The number of suggestions when the request names none.
pub const DEFAULT_SUGGEST_LIMIT: usize = 5;

/// The answer to a suggestion request.
#[derive(Clone, Debug)]
pub struct SuggestResponse {
    pub suggestions: Vec<String>,
    pub query: String,
    pub processing_time_ms: u128,
}

/// The query text, empty when absent.
pub open spec fn suggest_query(r: SuggestRequest) -> Seq<char> {
    match r.q {
        Some(q) => q@,
        None => seq![],
    }
}

/// The query as titles are compared with it: trimmed, then lowercased.
pub open spec fn normalized_query(r: SuggestRequest) -> Seq<char> {
    lowercase(trim(suggest_query(r)))
}

/// The number of suggestions asked for.
pub open spec fn suggest_limit(r: SuggestRequest) -> usize {
    match r.limit {
        Some(l) => l,
        None => DEFAULT_SUGGEST_LIMIT,
    }
}

/// How a title answers the query: 0 when its lowercase form begins with the
/// query, 1 when it contains it elsewhere, none otherwise.
pub open spec fn title_rank(title: Seq<char>, nq: Seq<char>) -> Option<int> {
    let t = lowercase(title);
    if starts_with(t, nq) {
        Some(0)
    } else if contains(t, nq) {
        Some(1)
    } else {
        None
    }
}

/// The titles of the movies that pass the filter and answer the query with
/// rank `rank`, in catalog order.
pub open spec fn ranked_titles(
    movies: Seq<Movie>,
    f: Option<SearchFilter>,
    nq: Seq<char>,
    rank: int,
) -> Seq<Seq<char>>
    decreases movies.len(),
{
    if movies.len() == 0 {
        seq![]
    } else {
        let r = ranked_titles(movies.drop_last(), f, nq, rank);
        let m = movies.last();
        if matches_filter(m, f) && title_rank(m.title@, nq) == Some(rank) {
            r.push(m.title@)
        } else {
            r
        }
    }
}

/// Some title before position `i` is the title at `i`, ignoring case.
pub open spec fn seen_before(s: Seq<Seq<char>>, i: int) -> bool {
    exists|j: int| 0 <= j < i && lowercase(#[trigger] s[j]) == lowercase(s[i])
}

/// The titles with every title dropped whose lowercase form an earlier title
/// already has.
pub open spec fn dedup_titles(s: Seq<Seq<char>>) -> Seq<Seq<char>>
    decreases s.len(),
{
    if s.len() == 0 {
        seq![]
    } else {
        let d = dedup_titles(s.drop_last());
        if seen_before(s, s.len() - 1) {
            d
        } else {
            d.push(s.last())
        }
    }
}

/// The first `n` items of `s`, or all of them when there are fewer.
pub open spec fn at_most<T>(s: Seq<T>, n: int) -> Seq<T> {
    if n < s.len() {
        s.take(n)
    } else {
        s
    }
}

/// The suggestions for a request: none for a blank query; otherwise the
/// titles that begin with the query, then those that contain it, each in
/// catalog (id) order, each title once ignoring case, at most the limit.
pub open spec fn suggestions_spec(movies: Seq<Movie>, r: SuggestRequest) -> Seq<Seq<char>> {
    let nq = normalized_query(r);
    if nq.len() == 0 {
        seq![]
    } else {
        at_most(
            dedup_titles(
                ranked_titles(movies, r.filters, nq, 0) + ranked_titles(movies, r.filters, nq, 1),
            ),
            suggest_limit(r) as int,
        )
    }
}

/// How a title answers the normalized query.
fn title_rank_exec(title: &String, nq: &[char]) -> (r: Option<u8>)
    ensures
        r matches Some(k) ==> title_rank(title@, nq@) == Some(k as int),
        r is None ==> title_rank(title@, nq@) is None,
{
    let t = lowercase_chars(chars_of(title.as_str()).as_slice());
    if starts_with_chars(t.as_slice(), nq) {
        Some(0)
    } else if contains_chars(t.as_slice(), nq) {
        Some(1)
    } else {
        None
    }
}

/// Whether `x` is one of `keys`.
fn has_key(keys: &Vec<Vec<char>>, x: &[char]) -> (r: bool)
    ensures
        r == views(keys@).contains(x@),
{
    let mut i: usize = 0;
    while i < keys.len()
        invariant
            i <= keys.len(),
            forall|j: int| 0 <= j < i ==> (#[trigger] keys@[j])@ != x@,
        decreases keys.len() - i,
    {
        if chars_equal(keys[i].as_slice(), x) {
            proof {
                assert(views(keys@)[i as int] == x@);
            }
            return true;
        }
        i = i + 1;
    }
    proof {
        if views(keys@).contains(x@) {
            let j = choose|j: int| 0 <= j < views(keys@).len() && views(keys@)[j] == x@;
            assert(keys@[j]@ == x@);
        }
    }
    false
}

/// The titles without repeats ignoring case, at most `limit` of them.
pub fn dedup_at_most(titles: &Vec<Vec<char>>, limit: usize) -> (r: Vec<Vec<char>>)
    ensures
        views(r@) == at_most(dedup_titles(views(titles@)), limit as int),
{
    let ghost s = views(titles@);
    let mut out: Vec<Vec<char>> = Vec::new();
    let mut keys: Vec<Vec<char>> = Vec::new();
    let mut k: usize = 0;
    proof {
        assert(s.take(0) =~= Seq::<Seq<char>>::empty());
        assert(views(out@) =~= Seq::<Seq<char>>::empty());
    }
    while k < titles.len()
        invariant
            k <= titles.len(),
            s == views(titles@),
            keys@.len() == k,
            forall|j: int| 0 <= j < k ==> (#[trigger] keys@[j])@ == lowercase(s[j]),
            views(out@) == at_most(dedup_titles(s.take(k as int)), limit as int),
        decreases titles.len() - k,
    {
        let key = lowercase_chars(titles[k].as_slice());
        let seen = has_key(&keys, key.as_slice());
        let ghost before = s.take(k as int);
        let ghost after = s.take(k + 1);
        proof {
            assert(after.drop_last() =~= before);
            assert(after.last() == s[k as int]);
            assert(seen == seen_before(after, k as int)) by {
                if seen {
                    let j = choose|j: int| 0 <= j < views(keys@).len() && views(keys@)[j] == key@;
                    assert(keys@[j]@ == key@);
                    assert(after[j] == s[j]);
                    assert(lowercase(after[j]) == lowercase(after[k as int]));
                }
                if seen_before(after, k as int) {
                    let j = choose|j: int| 0 <= j < k && lowercase(#[trigger] after[j]) == lowercase(after[k as int]);
                    assert(after[j] == s[j]);
                    assert(views(keys@)[j] == key@);
                }
            }
        }
        if !seen && out.len() < limit {
            let t = crate::text::slice_chars(titles[k].as_slice(), 0, titles[k].len());
            let ghost prev = out@;
            proof {
                assert(t@ =~= titles@[k as int]@);
                assert(s[k as int] == titles@[k as int]@);
            }
            out.push(t);
            proof {
                assert(views(out@) =~= views(prev).push(s[k as int]));
            }
        }
        keys.push(key);
        k = k + 1;
    }
    proof {
        assert(s.take(titles.len() as int) =~= s);
    }
    out
}

impl MovieSearch {
    /// The titles of the movies that pass the filter and answer the query
    /// with rank `rank`, in catalog order.
    fn ranked_titles_exec(
        &self,
        prepared: &PreparedFilter,
        Ghost(f): Ghost<Option<SearchFilter>>,
        nq: &[char],
        rank: u8,
    ) -> (r: Vec<Vec<char>>)
        requires
            prepared_from(*prepared, f),
        ensures
            views(r@) == ranked_titles(self@, f, nq@, rank as int),
    {
        let movies = self.all_movies();
        let mut out: Vec<Vec<char>> = Vec::new();
        let mut i: usize = 0;
        proof {
            assert(self@.take(0) =~= Seq::<Movie>::empty());
            assert(views(out@) =~= Seq::<Seq<char>>::empty());
        }
        while i < movies.len()
            invariant
                i <= movies.len(),
                self@ == movies@,
                prepared_from(*prepared, f),
                views(out@) == ranked_titles(self@.take(i as int), f, nq@, rank as int),
            decreases movies.len() - i,
        {
            let m = &movies[i];
            proof {
                assert(self@.take(i + 1).drop_last() =~= self@.take(i as int));
                assert(self@.take(i + 1).last() == self@[i as int]);
            }
            if matches_filter_exec(m, prepared, Ghost(f)) {
                match title_rank_exec(&m.title, nq) {
                    Some(k) => {
                        if k == rank {
                            let ghost prev = out@;
                            out.push(chars_of(m.title.as_str()));
                            proof {
                                assert(views(out@) =~= views(prev).push(m.title@));
                            }
                        }
                    },
                    None => {},
                }
            }
            i = i + 1;
        }
        proof {
            assert(self@.take(movies.len() as int) =~= self@);
        }
        out
    }

    /// Suggests titles for a query, with a processing time of 0.
    fn suggest_core(&self, request: &SuggestRequest) -> (r: SuggestResponse)
        ensures
            r.query@ == suggest_query(*request),
            string_views(r.suggestions@) == suggestions_spec(self@, *request),
            r.processing_time_ms == 0,
    {
        let query: String = match &request.q {
            Some(q) => q.clone(),
            None => string_from_chars(Vec::<char>::new().as_slice()),
        };
        let qchars = chars_of(query.as_str());
        let trimmed = trim_chars(qchars.as_slice());
        let nq = lowercase_chars(trimmed.as_slice());
        let limit: usize = match request.limit {
            Some(l) => l,
            None => DEFAULT_SUGGEST_LIMIT,
        };
        let mut suggestions: Vec<String> = Vec::new();
        if nq.len() == 0 {
            proof {
                assert(string_views(suggestions@) =~= Seq::<Seq<char>>::empty());
            }
            return SuggestResponse { suggestions, query, processing_time_ms: 0 };
        }
        let prepared = prepare_filter(&request.filters);
        let mut titles = self.ranked_titles_exec(&prepared, Ghost(request.filters), nq.as_slice(), 0);
        let more = self.ranked_titles_exec(&prepared, Ghost(request.filters), nq.as_slice(), 1);
        let ghost first = views(titles@);
        let mut j: usize = 0;
        while j < more.len()
            invariant
                j <= more.len(),
                views(titles@) == first + views(more@).take(j as int),
            decreases more.len() - j,
        {
            let t = crate::text::slice_chars(more[j].as_slice(), 0, more[j].len());
            let ghost prev = titles@;
            proof {
                assert(t@ =~= more@[j as int]@);
                assert(views(more@)[j as int] == more@[j as int]@);
            }
            titles.push(t);
            proof {
                assert(views(titles@) =~= views(prev).push(views(more@)[j as int]));
                assert(views(more@).take(j + 1) =~= views(more@).take(j as int).push(views(more@)[j as int]));
            }
            j = j + 1;
        }
        proof {
            assert(views(more@).take(more.len() as int) =~= views(more@));
        }
        let picked = dedup_at_most(&titles, limit);
        let mut k: usize = 0;
        while k < picked.len()
            invariant
                k <= picked.len(),
                string_views(suggestions@) == views(picked@).take(k as int),
            decreases picked.len() - k,
        {
            let ghost prev = suggestions@;
            suggestions.push(string_from_chars(picked[k].as_slice()));
            proof {
                assert(string_views(suggestions@) =~= string_views(prev).push(picked@[k as int]@));
                assert(views(picked@).take(k + 1) =~= views(picked@).take(k as int).push(picked@[k as int]@));
            }
            k = k + 1;
        }
        proof {
            assert(views(picked@).take(picked.len() as int) =~= views(picked@));
        }
        SuggestResponse { suggestions, query, processing_time_ms: 0 }
    }

    /// Suggests titles for a query: for a non-blank query, the titles of the
    /// movies that pass the filter and begin with the query (trimmed and
    /// lowercased), then those that contain it, each group in id order, each
    /// title once ignoring case, at most the limit (5 by default).
    pub fn suggest(&self, request: SuggestRequest) -> (r: SuggestResponse)
        ensures
            r.query@ == suggest_query(request),
            string_views(r.suggestions@) == suggestions_spec(self@, request),
    {
        let started = now();
        let mut resp = self.suggest_core(&request);
        resp.processing_time_ms = millis_since(&started);
        resp
    }
}

} // verus!
