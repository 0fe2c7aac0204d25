//! Search requests and the genre/year filter they may carry.

use vstd::prelude::*;
use crate::catalog::Movie;
use crate::text::{chars_of, genre_values, trim, trim_chars, trimmed_pieces, views};

verus! {

/// Inclusive bounds on the release year.
#[derive(Clone, Copy, Debug, Default)]
pub struct YearFilter {
    pub gte: Option<i32>,
    pub lte: Option<i32>,
}

/// Restricts results to some genres and a year range.
#[derive(Clone, Debug, Default)]
pub struct SearchFilter {
    pub genre: Vec<String>,
    pub year: Option<YearFilter>,
}

/// A search request; every field is optional.
#[derive(Clone, Debug, Default)]
pub struct SearchRequest {
    pub q: Option<String>,
    pub offset: Option<usize>,
    pub limit: Option<usize>,
    pub filters: Option<SearchFilter>,
    pub sort: Vec<String>,
    pub facets: Vec<String>,
    pub highlight: Vec<String>,
    pub typo_tolerance: bool,
    pub debug_ranking: bool,
}

/// A title-suggestion request.
#[derive(Clone, Debug, Default)]
pub struct SuggestRequest {
    pub q: Option<String>,
    pub limit: Option<usize>,
    pub filters: Option<SearchFilter>,
}

/// The characters of each string, in order.
pub open spec fn string_views(v: Seq<String>) -> Seq<Seq<char>> {
    v.map_values(|s: String| s@)
}

/// Two strings are equal ignoring ASCII case (`str::eq_ignore_ascii_case`):
/// letters `A`..`Z` match their lowercase forms, every other character matches only itself.
pub open spec fn eq_ignore_ascii_case(a: Seq<char>, b: Seq<char>) -> bool {
    a.len() == b.len() && forall|i: int| 0 <= i < a.len() ==> ascii_fold(#[trigger] a[i]) == ascii_fold(b[i])
}

/// The code point of `c` with ASCII uppercase letters mapped to lowercase.
pub open spec fn ascii_fold(c: char) -> u32 {
    let u = c as u32;
    if 65 <= u <= 90 {
        (u + 32) as u32
    } else {
        u
    }
}

fn ascii_fold_exec(c: char) -> (r: u32)
    ensures
        r == ascii_fold(c),
{
    let u = c as u32;
    if 65 <= u && u <= 90 {
        u + 32
    } else {
        u
    }
}

/// Whether two character slices are equal ignoring ASCII case.
pub fn eq_ignore_ascii_case_chars(a: &[char], b: &[char]) -> (r: bool)
    ensures
        r == eq_ignore_ascii_case(a@, b@),
{
    if a.len() != b.len() {
        return false;
    }
    let mut i: usize = 0;
    while i < a.len()
        invariant
            i <= a.len(),
            a.len() == b.len(),
            forall|k: int| 0 <= k < i ==> ascii_fold(#[trigger] a@[k]) == ascii_fold(b@[k]),
        decreases a.len() - i,
    {
        if ascii_fold_exec(a[i]) != ascii_fold_exec(b[i]) {
            return false;
        }
        i = i + 1;
    }
    true
}

/// Some element of `a` equals some element of `b`, ignoring ASCII case.
pub open spec fn any_pair_eq(a: Seq<Seq<char>>, b: Seq<Seq<char>>) -> bool {
    exists|i: int, j: int|
        0 <= i < a.len() && 0 <= j < b.len() && eq_ignore_ascii_case(#[trigger] a[i], #[trigger] b[j])
}

/// Some genre of the movie's genre field equals some requested genre (trimmed),
/// ignoring ASCII case.
pub open spec fn genre_matches(movie_genre: Seq<char>, requested: Seq<Seq<char>>) -> bool {
    any_pair_eq(genre_values(movie_genre), requested.map_values(|r: Seq<char>| trim(r)))
}

/// Whether some element of `a` equals some element of `b`, ignoring ASCII case.
pub fn any_pair_eq_exec(a: &Vec<Vec<char>>, b: &Vec<Vec<char>>) -> (r: bool)
    ensures
        r == any_pair_eq(views(a@), views(b@)),
{
    let ghost va = views(a@);
    let ghost vb = views(b@);
    let mut i: usize = 0;
    while i < a.len()
        invariant
            i <= a.len(),
            va == views(a@),
            vb == views(b@),
            forall|x: int, y: int|
                0 <= x < i && 0 <= y < vb.len() ==> !eq_ignore_ascii_case(#[trigger] va[x], #[trigger] vb[y]),
        decreases a.len() - i,
    {
        let mut j: usize = 0;
        while j < b.len()
            invariant
                i < a.len(),
                j <= b.len(),
                va == views(a@),
                vb == views(b@),
                forall|x: int, y: int|
                    0 <= x < i && 0 <= y < vb.len() ==> !eq_ignore_ascii_case(#[trigger] va[x], #[trigger] vb[y]),
                forall|y: int| 0 <= y < j ==> !eq_ignore_ascii_case(va[i as int], #[trigger] vb[y]),
            decreases b.len() - j,
        {
            if eq_ignore_ascii_case_chars(a[i].as_slice(), b[j].as_slice()) {
                assert(eq_ignore_ascii_case(va[i as int], vb[j as int]));
                return true;
            }
            j = j + 1;
        }
        i = i + 1;
    }
    false
}

/// The year is known and within the bounds that are given.
pub open spec fn year_matches(f: YearFilter, year: Option<i32>) -> bool {
    match year {
        None => false,
        Some(y) => (f.gte matches Some(min) ==> min <= y) && (f.lte matches Some(max) ==> y <= max),
    }
}

/// The movie passes the filter: no filter passes everything; a genre list that
/// is not empty must match a genre of the movie; a year filter needs a year in range.
pub open spec fn matches_filter(m: Movie, f: Option<SearchFilter>) -> bool {
    match f {
        None => true,
        Some(f) => (f.genre@.len() == 0 || genre_matches(m.genre@, string_views(f.genre@))) && (
        f.year matches Some(y) ==> year_matches(y, m.year)),
    }
}

/// A filter prepared for repeated use: the requested genres trimmed.
pub struct PreparedFilter {
    pub active: bool,
    pub genres: Vec<Vec<char>>,
    pub any_genre: bool,
    pub year: Option<YearFilter>,
}

/// The prepared form agrees with the filter it was made from.
pub open spec fn prepared_from(p: PreparedFilter, f: Option<SearchFilter>) -> bool {
    match f {
        None => !p.active,
        Some(f) => {
            &&& p.active
            &&& p.any_genre == (f.genre@.len() == 0)
            &&& p.genres@.len() == f.genre@.len()
            &&& forall|j: int|
                0 <= j < f.genre@.len() ==> (#[trigger] p.genres@[j])@ == trim(f.genre@[j]@)
            &&& p.year == f.year
        },
    }
}

/// Trims the requested genres once.
pub fn prepare_filter(f: &Option<SearchFilter>) -> (r: PreparedFilter)
    ensures
        prepared_from(r, *f),
{
    match f {
        None => PreparedFilter { active: false, genres: Vec::new(), any_genre: true, year: None },
        Some(f) => {
            let mut genres: Vec<Vec<char>> = Vec::new();
            let mut j: usize = 0;
            while j < f.genre.len()
                invariant
                    j <= f.genre.len(),
                    genres@.len() == j,
                    forall|k: int| 0 <= k < j ==> (#[trigger] genres@[k])@ == trim(f.genre@[k]@),
                decreases f.genre.len() - j,
            {
                let g = chars_of(f.genre[j].as_str());
                genres.push(trim_chars(g.as_slice()));
                j = j + 1;
            }
            PreparedFilter {
                active: true,
                any_genre: f.genre.len() == 0,
                genres,
                year: f.year,
            }
        },
    }
}

/// Whether the movie passes the filter.
pub fn matches_filter_exec(m: &Movie, p: &PreparedFilter, Ghost(f): Ghost<Option<SearchFilter>>) -> (r:
    bool)
    requires
        prepared_from(*p, f),
    ensures
        r == matches_filter(*m, f),
{
    if !p.active {
        return true;
    }
    let ghost filter = f->0;
    if !p.any_genre {
        let values = trimmed_pieces(chars_of(m.genre.as_str()).as_slice(), true);
        if !any_pair_eq_exec(&values, &p.genres) {
            proof {
                assert(views(p.genres@) =~= string_views(filter.genre@).map_values(
                    |r: Seq<char>| trim(r),
                ));
            }
            return false;
        }
        proof {
            assert(views(p.genres@) =~= string_views(filter.genre@).map_values(
                |r: Seq<char>| trim(r),
            ));
        }
    }
    match p.year {
        None => true,
        Some(y) => match m.year {
            None => false,
            Some(year) => {
                let low_ok = match y.gte {
                    Some(min) => min <= year,
                    None => true,
                };
                let high_ok = match y.lte {
                    Some(max) => year <= max,
                    None => true,
                };
                low_ok && high_ok
            },
        },
    }
}

} // verus!
