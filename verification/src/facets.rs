//! Facets of a result set: how many results carry each genre and each year,
//! and the range of their years.

use vstd::prelude::*;
use crate::catalog::Movie;
use crate::order::{lemma_lex_equal, lemma_lex_flip, lemma_lex_trans, lex_compare, lex_lt, Rel};
use crate::rank::RankedMovie;
use crate::text::{chars_of, decimal, decimal_chars, genre_values, lowercase, lowercase_chars, string_from_chars, trimmed_pieces, views};

verus! {

/// How often `x` occurs in `items`.
pub open spec fn count_of(items: Seq<Seq<char>>, x: Seq<char>) -> nat
    decreases items.len(),
{
    if items.len() == 0 {
        0
    } else {
        count_of(items.drop_last(), x) + if items.last() == x {
            1nat
        } else {
            0nat
        }
    }
}

/// `h` lists each distinct item of `items` once, in lexicographic order, with
/// how often it occurs (what a `BTreeMap<String, usize>` of counts holds).
pub open spec fn is_histogram(h: Seq<(Seq<char>, usize)>, items: Seq<Seq<char>>) -> bool {
    &&& forall|i: int, j: int| 0 <= i < j < h.len() ==> lex_lt((#[trigger] h[i]).0, (#[trigger] h[j]).0)
    &&& forall|k: int| 0 <= k < h.len() ==> (#[trigger] h[k]).1 == count_of(items, h[k].0)
    &&& forall|x: Seq<char>|
        #![trigger items.contains(x)]
        items.contains(x) <==> exists|k: int| 0 <= k < h.len() && (#[trigger] h[k]).0 == x
}

/// The keys as character sequences, with their counts.
pub open spec fn counts_view(h: Seq<(String, usize)>) -> Seq<(Seq<char>, usize)> {
    h.map_values(|e: (String, usize)| (e.0@, e.1))
}

proof fn lemma_count_bound(items: Seq<Seq<char>>, x: Seq<char>)
    ensures
        count_of(items, x) <= items.len(),
        count_of(items, x) > 0 <==> items.contains(x),
    decreases items.len(),
{
    if items.len() > 0 {
        lemma_count_bound(items.drop_last(), x);
        if items.drop_last().contains(x) {
            let k = choose|k: int| 0 <= k < items.drop_last().len() && items.drop_last()[k] == x;
            assert(items[k] == x);
        }
        if items.contains(x) && items.last() != x {
            let k = choose|k: int| 0 <= k < items.len() && items[k] == x;
            assert(items.drop_last()[k] == x);
        }
        if items.last() == x {
            assert(items[items.len() - 1] == x);
        }
    }
}

/// Adds one occurrence of `x` to the histogram `h` of `items`.
fn add_item(h: &mut Vec<(Vec<char>, usize)>, x: Vec<char>, Ghost(items): Ghost<Seq<Seq<char>>>)
    requires
        is_histogram(pairs_view(old(h)@), items),
        items.len() < usize::MAX,
    ensures
        is_histogram(pairs_view(final(h)@), items.push(x@)),
{
    let ghost hv = pairs_view(h@);
    let ghost after = items.push(x@);
    proof {
        assert(after.drop_last() =~= items);
        assert forall|y: Seq<char>| count_of(after, y) == count_of(items, y) + if y == x@ {
            1nat
        } else {
            0nat
        } by {}
        assert forall|y: Seq<char>| #[trigger] after.contains(y) <==> (items.contains(y) || y == x@) by {
            if after.contains(y) && y != x@ {
                let k = choose|k: int| 0 <= k < after.len() && after[k] == y;
                assert(items[k] == y);
            }
            if items.contains(y) {
                let k = choose|k: int| 0 <= k < items.len() && items[k] == y;
                assert(after[k] == y);
            }
            if y == x@ {
                assert(after[items.len() as int] == y);
            }
        }
    }
    let mut p: usize = 0;
    while p < h.len()
        invariant
            p <= h.len(),
            h@ == old(h)@,
            hv == pairs_view(h@),
            is_histogram(hv, items),
            items.len() < usize::MAX,
            after == items.push(x@),
            forall|y: Seq<char>| count_of(after, y) == count_of(items, y) + if y == x@ {
                1nat
            } else {
                0nat
            },
            forall|y: Seq<char>| #[trigger] after.contains(y) <==> (items.contains(y) || y == x@),
            forall|k: int| 0 <= k < p ==> lex_lt((#[trigger] hv[k]).0, x@),
        decreases h.len() - p,
    {
        let o = lex_compare(x.as_slice(), h[p].0.as_slice());
        assert(hv[p as int].0 == h@[p as int].0@);
        if o == Rel::Equal {
            proof {
                lemma_lex_equal(x@, hv[p as int].0);
                lemma_count_bound(items, x@);
            }
            let c = h[p].1;
            assert(hv[p as int].1 == c);
            assert(c == count_of(items, x@));
            let key = crate::text::slice_chars(h[p].0.as_slice(), 0, h[p].0.len());
            proof {
                assert(key@ =~= h@[p as int].0@);
            }
            h.set(p, (key, c + 1));
            proof {
                let nv = pairs_view(h@);
                assert(nv =~= hv.update(p as int, (x@, (c + 1) as usize)));
                assert forall|x2: Seq<char>| #![trigger after.contains(x2)] after.contains(x2) <==> exists|k: int|
                    0 <= k < nv.len() && (#[trigger] nv[k]).0 == x2 by {
                    if after.contains(x2) && x2 != x@ {
                        assert(items.contains(x2));
                        let k = choose|k: int| 0 <= k < hv.len() && (#[trigger] hv[k]).0 == x2;
                        assert(nv[k].0 == x2);
                    }
                    if x2 == x@ {
                        assert(nv[p as int].0 == x2);
                    }
                    if exists|k: int| 0 <= k < nv.len() && (#[trigger] nv[k]).0 == x2 {
                        let k = choose|k: int| 0 <= k < nv.len() && (#[trigger] nv[k]).0 == x2;
                        if k != p {
                            assert(hv[k].0 == x2);
                            assert(items.contains(x2));
                        }
                    }
                }
            }
            return;
        }
        if o == Rel::Less {
            let ghost before = h@;
            h.insert(p, (x, 1));
            proof {
                let nv = pairs_view(h@);
                assert(nv =~= hv.insert(p as int, (x@, 1usize)));
                assert(!items.contains(x@)) by {
                    if items.contains(x@) {
                        let k = choose|k: int| 0 <= k < hv.len() && (#[trigger] hv[k]).0 == x@;
                        if k < p {
                            assert(lex_lt(hv[k].0, x@));
                            lemma_lex_equal(x@, x@);
                        } else if k > p {
                            assert(lex_lt(hv[p as int].0, hv[k].0));
                            lemma_lex_flip(x@, hv[p as int].0);
                            lemma_lex_trans(x@, hv[p as int].0, hv[k].0);
                            lemma_lex_equal(x@, x@);
                        } else {
                            lemma_lex_equal(x@, hv[p as int].0);
                        }
                    }
                }
                lemma_count_bound(items, x@);
                assert forall|i: int, j: int| 0 <= i < j < nv.len() implies lex_lt(
                    (#[trigger] nv[i]).0,
                    (#[trigger] nv[j]).0,
                ) by {
                    if i < p && j == p {
                    } else if i < p && j > p {
                        assert(lex_lt(hv[i].0, x@));
                        assert(nv[j] == hv[j - 1]);
                        assert(lex_lt(hv[i].0, hv[j - 1].0));
                    } else if i == p && j > p {
                        assert(nv[j] == hv[j - 1]);
                        if j - 1 > p {
                            assert(lex_lt(hv[p as int].0, hv[j - 1].0));
                            lemma_lex_trans(x@, hv[p as int].0, hv[j - 1].0);
                        }
                    } else if i > p {
                        assert(nv[i] == hv[i - 1] && nv[j] == hv[j - 1]);
                    }
                }
                assert forall|k: int| 0 <= k < nv.len() implies (#[trigger] nv[k]).1 == count_of(
                    after,
                    nv[k].0,
                ) by {
                    if k < p {
                        assert(nv[k] == hv[k]);
                        assert(hv[k].0 != x@) by {
                            lemma_lex_equal(hv[k].0, x@);
                        }
                    } else if k > p {
                        assert(nv[k] == hv[k - 1]);
                        assert(hv[k - 1].0 != x@) by {
                            if hv[k - 1].0 == x@ {
                                assert(items.contains(x@)) by {
                                    assert(exists|m: int| 0 <= m < hv.len() && (#[trigger] hv[m]).0 == x@);
                                }
                            }
                        }
                    }
                }
                assert forall|x2: Seq<char>| #![trigger after.contains(x2)] after.contains(x2) <==> exists|k: int|
                    0 <= k < nv.len() && (#[trigger] nv[k]).0 == x2 by {
                    if after.contains(x2) && x2 != x@ {
                        assert(items.contains(x2));
                        let k = choose|k: int| 0 <= k < hv.len() && (#[trigger] hv[k]).0 == x2;
                        if k < p {
                            assert(nv[k].0 == x2);
                        } else {
                            assert(nv[k + 1].0 == x2);
                        }
                    }
                    if x2 == x@ {
                        assert(nv[p as int].0 == x2);
                    }
                    if exists|k: int| 0 <= k < nv.len() && (#[trigger] nv[k]).0 == x2 {
                        let k = choose|k: int| 0 <= k < nv.len() && (#[trigger] nv[k]).0 == x2;
                        if k < p {
                            assert(hv[k].0 == x2);
                            assert(items.contains(x2));
                        } else if k > p {
                            assert(hv[k - 1].0 == x2);
                            assert(items.contains(x2));
                        }
                    }
                }
            }
            return;
        }
        proof {
            lemma_lex_flip(x@, hv[p as int].0);
        }
        p = p + 1;
    }
    let ghost before = h@;
    h.push((x, 1));
    proof {
        let nv = pairs_view(h@);
        assert(nv =~= hv.push((x@, 1usize)));
        assert(!items.contains(x@)) by {
            if items.contains(x@) {
                let k = choose|k: int| 0 <= k < hv.len() && (#[trigger] hv[k]).0 == x@;
                assert(lex_lt(hv[k].0, x@));
                lemma_lex_equal(x@, x@);
            }
        }
        lemma_count_bound(items, x@);
        assert forall|k: int| 0 <= k < nv.len() implies (#[trigger] nv[k]).1 == count_of(after, nv[k].0) by {
            if k < hv.len() {
                assert(nv[k] == hv[k]);
                lemma_lex_equal(hv[k].0, x@);
            }
        }
        assert forall|x2: Seq<char>| #![trigger after.contains(x2)] after.contains(x2) <==> exists|k: int|
            0 <= k < nv.len() && (#[trigger] nv[k]).0 == x2 by {
            if after.contains(x2) && x2 != x@ {
                assert(items.contains(x2));
                let k = choose|k: int| 0 <= k < hv.len() && (#[trigger] hv[k]).0 == x2;
                assert(nv[k].0 == x2);
            }
            if x2 == x@ {
                assert(nv[hv.len() as int].0 == x2);
            }
            if exists|k: int| 0 <= k < nv.len() && (#[trigger] nv[k]).0 == x2 {
                let k = choose|k: int| 0 <= k < nv.len() && (#[trigger] nv[k]).0 == x2;
                if k < hv.len() {
                    assert(hv[k].0 == x2);
                    assert(items.contains(x2));
                }
            }
        }
    }
}

/// The keys as character sequences, with their counts.
pub open spec fn pairs_view(h: Seq<(Vec<char>, usize)>) -> Seq<(Seq<char>, usize)> {
    h.map_values(|e: (Vec<char>, usize)| (e.0@, e.1))
}

/// The genres of the results, in result order, each movie contributing its genre values.
pub open spec fn genre_items(movies: Seq<Movie>, cands: Seq<RankedMovie>) -> Seq<Seq<char>>
    decreases cands.len(),
{
    if cands.len() == 0 {
        seq![]
    } else {
        genre_items(movies, cands.drop_last()) + genre_values(movies[cands.last().index as int].genre@)
    }
}

/// The years of the results that have one, in decimal.
pub open spec fn year_items(movies: Seq<Movie>, cands: Seq<RankedMovie>) -> Seq<Seq<char>>
    decreases cands.len(),
{
    if cands.len() == 0 {
        seq![]
    } else {
        year_items(movies, cands.drop_last()) + match movies[cands.last().index as int].year {
            Some(y) => seq![decimal(y as int)],
            None => seq![],
        }
    }
}

/// The smallest and largest year among the results that have one.
pub open spec fn year_range(movies: Seq<Movie>, cands: Seq<RankedMovie>) -> Option<(i32, i32)>
    decreases cands.len(),
{
    if cands.len() == 0 {
        None
    } else {
        let r = year_range(movies, cands.drop_last());
        match movies[cands.last().index as int].year {
            None => r,
            Some(y) => match r {
                None => Some((y, y)),
                Some((lo, hi)) => Some(
                    (if y < lo {
                        y
                    } else {
                        lo
                    }, if y > hi {
                        y
                    } else {
                        hi
                    }),
                ),
            },
        }
    }
}

/// Every result names a movie of the catalog.
pub open spec fn valid_results(movies: Seq<Movie>, cands: Seq<RankedMovie>) -> bool {
    forall|k: int| 0 <= k < cands.len() ==> (#[trigger] cands[k]).index < movies.len()
}

proof fn lemma_genre_items_prefix(movies: Seq<Movie>, cands: Seq<RankedMovie>, k: int)
    requires
        0 <= k <= cands.len(),
    ensures
        genre_items(movies, cands.take(k)).len() <= genre_items(movies, cands).len(),
    decreases cands.len(),
{
    if k < cands.len() {
        assert(cands.take(k) =~= cands.drop_last().take(k));
        lemma_genre_items_prefix(movies, cands.drop_last(), k);
    } else {
        assert(cands.take(k) =~= cands);
    }
}

proof fn lemma_year_items_len(movies: Seq<Movie>, cands: Seq<RankedMovie>)
    ensures
        year_items(movies, cands).len() <= cands.len(),
    decreases cands.len(),
{
    if cands.len() > 0 {
        lemma_year_items_len(movies, cands.drop_last());
    }
}

/// Copies the keys of a histogram into strings.
fn to_string_counts(h: &Vec<(Vec<char>, usize)>) -> (r: Vec<(String, usize)>)
    ensures
        counts_view(r@) == pairs_view(h@),
{
    let mut out: Vec<(String, usize)> = Vec::new();
    let mut k: usize = 0;
    while k < h.len()
        invariant
            k <= h.len(),
            counts_view(out@) == pairs_view(h@).take(k as int),
        decreases h.len() - k,
    {
        let key = string_from_chars(h[k].0.as_slice());
        let ghost before = out@;
        out.push((key, h[k].1));
        proof {
            assert(counts_view(out@) =~= counts_view(before).push((h@[k as int].0@, h@[k as int].1)));
            assert(pairs_view(h@).take(k + 1) =~= pairs_view(h@).take(k as int).push(pairs_view(h@)[k as int]));
        }
        k = k + 1;
    }
    proof {
        assert(pairs_view(h@).take(h.len() as int) =~= pairs_view(h@));
    }
    out
}

/// How many results carry each genre.
pub fn genre_histogram(movies: &Vec<Movie>, cands: &Vec<RankedMovie>) -> (r: Vec<(String, usize)>)
    requires
        valid_results(movies@, cands@),
        genre_items(movies@, cands@).len() <= usize::MAX,
    ensures
        is_histogram(counts_view(r@), genre_items(movies@, cands@)),
{
    let mut h: Vec<(Vec<char>, usize)> = Vec::new();
    let mut k: usize = 0;
    proof {
        assert(cands@.take(0) =~= Seq::<RankedMovie>::empty());
        assert(pairs_view(h@) =~= Seq::<(Seq<char>, usize)>::empty());
    }
    while k < cands.len()
        invariant
            k <= cands.len(),
            valid_results(movies@, cands@),
            genre_items(movies@, cands@).len() <= usize::MAX,
            is_histogram(pairs_view(h@), genre_items(movies@, cands@.take(k as int))),
        decreases cands.len() - k,
    {
        let m = &movies[cands[k].index];
        let values = trimmed_pieces(chars_of(m.genre.as_str()).as_slice(), true);
        let ghost gv = genre_values(m.genre@);
        let ghost prefix = genre_items(movies@, cands@.take(k as int));
        proof {
            assert(cands@.take(k + 1).drop_last() =~= cands@.take(k as int));
            assert(genre_items(movies@, cands@.take(k + 1)) == prefix + gv);
            lemma_genre_items_prefix(movies@, cands@, k + 1);
        }
        let mut j: usize = 0;
        while j < values.len()
            invariant
                j <= values.len(),
                views(values@) == gv,
                prefix.len() + gv.len() <= usize::MAX,
                is_histogram(pairs_view(h@), prefix + gv.take(j as int)),
            decreases values.len() - j,
        {
            let x = crate::text::slice_chars(values[j].as_slice(), 0, values[j].len());
            proof {
                assert(x@ =~= gv[j as int]);
                assert((prefix + gv.take(j as int)).push(x@) =~= prefix + gv.take(j + 1));
            }
            add_item(&mut h, x, Ghost(prefix + gv.take(j as int)));
            j = j + 1;
        }
        proof {
            assert(gv.take(values.len() as int) =~= gv);
        }
        k = k + 1;
    }
    proof {
        assert(cands@.take(cands.len() as int) =~= cands@);
    }
    to_string_counts(&h)
}

/// How many results carry each year.
pub fn year_histogram(movies: &Vec<Movie>, cands: &Vec<RankedMovie>) -> (r: Vec<(String, usize)>)
    requires
        valid_results(movies@, cands@),
    ensures
        is_histogram(counts_view(r@), year_items(movies@, cands@)),
{
    let mut h: Vec<(Vec<char>, usize)> = Vec::new();
    let mut k: usize = 0;
    proof {
        assert(cands@.take(0) =~= Seq::<RankedMovie>::empty());
        assert(pairs_view(h@) =~= Seq::<(Seq<char>, usize)>::empty());
    }
    while k < cands.len()
        invariant
            k <= cands.len(),
            valid_results(movies@, cands@),
            is_histogram(pairs_view(h@), year_items(movies@, cands@.take(k as int))),
        decreases cands.len() - k,
    {
        let ghost prefix = year_items(movies@, cands@.take(k as int));
        proof {
            assert(cands@.take(k + 1).drop_last() =~= cands@.take(k as int));
            lemma_year_items_len(movies@, cands@.take(k as int));
        }
        match movies[cands[k].index].year {
            Some(y) => {
                let x = decimal_chars(y);
                proof {
                    assert(prefix.push(x@) =~= year_items(movies@, cands@.take(k + 1)));
                }
                add_item(&mut h, x, Ghost(prefix));
            },
            None => {
                proof {
                    assert(prefix =~= year_items(movies@, cands@.take(k + 1)));
                }
            },
        }
        k = k + 1;
    }
    proof {
        assert(cands@.take(cands.len() as int) =~= cands@);
    }
    to_string_counts(&h)
}

/// The smallest and largest year among the results.
pub fn year_bounds(movies: &Vec<Movie>, cands: &Vec<RankedMovie>) -> (r: Option<(i32, i32)>)
    requires
        valid_results(movies@, cands@),
    ensures
        r == year_range(movies@, cands@),
{
    let mut r: Option<(i32, i32)> = None;
    let mut k: usize = 0;
    proof {
        assert(cands@.take(0) =~= Seq::<RankedMovie>::empty());
    }
    while k < cands.len()
        invariant
            k <= cands.len(),
            valid_results(movies@, cands@),
            r == year_range(movies@, cands@.take(k as int)),
        decreases cands.len() - k,
    {
        proof {
            assert(cands@.take(k + 1).drop_last() =~= cands@.take(k as int));
        }
        match movies[cands[k].index].year {
            Some(y) => {
                r = match r {
                    None => Some((y, y)),
                    Some((lo, hi)) => Some(
                        (if y < lo {
                            y
                        } else {
                            lo
                        }, if y > hi {
                            y
                        } else {
                            hi
                        }),
                    ),
                };
            },
            None => {},
        }
        k = k + 1;
    }
    proof {
        assert(cands@.take(cands.len() as int) =~= cands@);
    }
    r
}

/// Some requested name, lowercased, is `name`.
pub open spec fn requested(fields: Seq<String>, name: Seq<char>) -> bool {
    exists|i: int| 0 <= i < fields.len() && lowercase((#[trigger] fields[i])@) == name
}

/// Whether some requested name, lowercased, is `name`.
pub fn is_requested(fields: &Vec<String>, name: &[char]) -> (r: bool)
    ensures
        r == requested(fields@, name@),
{
    let mut i: usize = 0;
    while i < fields.len()
        invariant
            i <= fields.len(),
            forall|k: int| 0 <= k < i ==> lowercase((#[trigger] fields@[k])@) != name@,
        decreases fields.len() - i,
    {
        let l = lowercase_chars(chars_of(fields[i].as_str()).as_slice());
        if crate::order::chars_equal(l.as_slice(), name) {
            return true;
        }
        i = i + 1;
    }
    false
}

} // verus!
