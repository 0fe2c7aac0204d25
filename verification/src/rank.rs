//! Relevance scoring of a movie against query tokens, and the order of results:
//! requested sort keys first, then matched tokens, field weight, match quality and id.

use vstd::prelude::*;
use crate::catalog::Movie;
use crate::sort::IndexOrder;
use crate::filter::eq_ignore_ascii_case;
use crate::matching::{find, find_chars, match_field, match_kind, MatchKind};
use crate::order::{compare_int, compare_u64, compare_usize, lemma_lex_flip, lemma_lex_trans, lex_compare, lex_order, Rel};
use crate::text::{chars_of, lowercase, lowercase_chars, views, word_tokens, word_tokens_of};

verus! {

// ---------------------------------------------------------------------------
// Scoring.
// ---------------------------------------------------------------------------

/// How token `t` matches the field value `v` (lowercased text and lowercased words).
pub open spec fn field_match(v: Seq<char>, t: Seq<char>, typo: bool) -> Option<MatchKind> {
    match_kind(lowercase(v), word_tokens(v), t, typo)
}

/// The field a token matches, first of title (weight 3), genre (2) and overview (1),
/// with how it matched.
pub open spec fn token_match(m: Movie, t: Seq<char>, typo: bool) -> Option<(nat, MatchKind)> {
    match field_match(m.title@, t, typo) {
        Some(k) => Some((3nat, k)),
        None => match field_match(m.genre@, t, typo) {
            Some(k) => Some((2nat, k)),
            None => match field_match(m.overview@, t, typo) {
                Some(k) => Some((1nat, k)),
                None => None,
            },
        },
    }
}

/// The score of a movie for some tokens: matched tokens, summed field weight,
/// summed match quality and typo matches.
pub open spec fn score(m: Movie, toks: Seq<Seq<char>>, typo: bool) -> (nat, nat, nat, nat)
    decreases toks.len(),
{
    if toks.len() == 0 {
        (0, 0, 0, 0)
    } else {
        let s = score(m, toks.drop_last(), typo);
        match token_match(m, toks.last(), typo) {
            Some((w, k)) => (
                s.0 + 1,
                s.1 + w,
                s.2 + k.spec_quality(),
                s.3 + if k == MatchKind::Typo {
                    1nat
                } else {
                    0nat
                },
            ),
            None => s,
        }
    }
}

/// Scores are bounded by the number of tokens.
pub proof fn lemma_score_bound(m: Movie, toks: Seq<Seq<char>>, typo: bool)
    ensures
        score(m, toks, typo).0 <= toks.len(),
        score(m, toks, typo).1 <= 3 * score(m, toks, typo).0,
        score(m, toks, typo).2 <= 2 * score(m, toks, typo).0,
        score(m, toks, typo).3 <= score(m, toks, typo).0,
    decreases toks.len(),
{
    if toks.len() > 0 {
        lemma_score_bound(m, toks.drop_last(), typo);
    }
}

/// A movie that is a search result, with its score.
#[derive(Clone, Copy, Debug, PartialEq, Eq, Structural)]
pub struct RankedMovie {
    pub index: usize,
    pub matched_tokens: usize,
    pub field_weight: usize,
    pub match_quality: usize,
    pub typo_matches: usize,
}

/// Movie `i` as a result: it passes the filter and, when there are tokens,
/// matches at least one of them.
pub open spec fn candidate(
    m: Movie,
    i: int,
    passes: bool,
    toks: Seq<Seq<char>>,
    typo: bool,
) -> Option<RankedMovie> {
    if !passes {
        None
    } else if toks.len() == 0 {
        Some(
            RankedMovie {
                index: i as usize,
                matched_tokens: 0,
                field_weight: 0,
                match_quality: 0,
                typo_matches: 0,
            },
        )
    } else {
        let s = score(m, toks, typo);
        if s.0 > 0 {
            Some(
                RankedMovie {
                    index: i as usize,
                    matched_tokens: s.0 as usize,
                    field_weight: s.1 as usize,
                    match_quality: s.2 as usize,
                    typo_matches: s.3 as usize,
                },
            )
        } else {
            None
        }
    }
}

/// The searchable forms of a field value: its lowercased text and its words.
pub struct SearchableField {
    pub text: Vec<char>,
    pub words: Vec<Vec<char>>,
}

/// Lowercases a field value and splits it into words.
pub fn searchable_field(v: &String) -> (r: SearchableField)
    ensures
        r.text@ == lowercase(v@),
        views(r.words@) == word_tokens(v@),
{
    let c = chars_of(v.as_str());
    SearchableField { text: lowercase_chars(c.as_slice()), words: word_tokens_of(c.as_slice()) }
}

/// Scores a movie against the tokens; `None` when no token matches.
pub fn rank_movie(m: &Movie, toks: &Vec<Vec<char>>, typo: bool) -> (r: Option<(usize, usize, usize, usize)>)
    requires
        3 * toks@.len() <= usize::MAX,
    ensures
        r matches Some(s) ==> score(*m, views(toks@), typo) == (s.0 as nat, s.1 as nat, s.2 as nat, s.3 as nat)
            && s.0 > 0,
        r is None ==> score(*m, views(toks@), typo).0 == 0,
{
    let title = searchable_field(&m.title);
    let genre = searchable_field(&m.genre);
    let overview = searchable_field(&m.overview);
    let ghost vt = views(toks@);
    let mut matched: usize = 0;
    let mut weight: usize = 0;
    let mut quality: usize = 0;
    let mut typos: usize = 0;
    let mut k: usize = 0;
    proof {
        assert(vt.take(0) =~= Seq::<Seq<char>>::empty());
    }
    while k < toks.len()
        invariant
            k <= toks.len(),
            3 * toks@.len() <= usize::MAX,
            vt == views(toks@),
            title.text@ == lowercase(m.title@),
            views(title.words@) == word_tokens(m.title@),
            genre.text@ == lowercase(m.genre@),
            views(genre.words@) == word_tokens(m.genre@),
            overview.text@ == lowercase(m.overview@),
            views(overview.words@) == word_tokens(m.overview@),
            score(*m, vt.take(k as int), typo) == (
                matched as nat,
                weight as nat,
                quality as nat,
                typos as nat,
            ),
            matched <= k,
            weight <= 3 * matched,
            quality <= 2 * matched,
            typos <= matched,
        decreases toks.len() - k,
    {
        let t = toks[k].as_slice();
        proof {
            assert(vt.take(k + 1).drop_last() =~= vt.take(k as int));
            assert(vt.take(k + 1).last() == t@);
        }
        let hit = match match_field(title.text.as_slice(), &title.words, t, typo) {
            Some(kind) => Some((3usize, kind)),
            None => match match_field(genre.text.as_slice(), &genre.words, t, typo) {
                Some(kind) => Some((2usize, kind)),
                None => match match_field(overview.text.as_slice(), &overview.words, t, typo) {
                    Some(kind) => Some((1usize, kind)),
                    None => None,
                },
            },
        };
        match hit {
            Some((w, kind)) => {
                matched = matched + 1;
                weight = weight + w;
                quality = quality + kind.quality();
                if kind == MatchKind::Typo {
                    typos = typos + 1;
                }
            },
            None => {},
        }
        k = k + 1;
    }
    proof {
        assert(vt.take(toks.len() as int) =~= vt);
    }
    if matched > 0 {
        Some((matched, weight, quality, typos))
    } else {
        None
    }
}

// ---------------------------------------------------------------------------
// Sort keys.
// ---------------------------------------------------------------------------

/// A field that results can be sorted by.
#[derive(Clone, Copy, Debug, PartialEq, Eq, Structural)]
pub enum SortField {
    Id,
    Title,
    Year,
    Other,
}

/// A requested sort: a field and a direction.
#[derive(Clone, Copy, Debug, PartialEq, Eq, Structural)]
pub struct SortKey {
    pub field: SortField,
    pub descending: bool,
}

/// Reads a sort request `field` or `field:direction`: the field is `id`,
/// `title` or `year` (any other name sorts nothing), the direction is
/// descending exactly when it is `desc` in any ASCII case.
pub open spec fn parse_sort_key(raw: Seq<char>) -> SortKey {
    let colon = find(raw, seq![':']);
    let field = match colon {
        Some(i) => raw.take(i),
        None => raw,
    };
    SortKey {
        field: if field == seq!['i', 'd'] {
            SortField::Id
        } else if field == seq!['t', 'i', 't', 'l', 'e'] {
            SortField::Title
        } else if field == seq!['y', 'e', 'a', 'r'] {
            SortField::Year
        } else {
            SortField::Other
        },
        descending: match colon {
            Some(i) => eq_ignore_ascii_case(raw.skip(i + 1), seq!['d', 'e', 's', 'c']),
            None => false,
        },
    }
}

/// Reads one sort request.
pub fn parse_sort_key_exec(raw: &String) -> (r: SortKey)
    ensures
        r == parse_sort_key(raw@),
{
    let c = chars_of(raw.as_str());
    let colon_chars: Vec<char> = vec![':'];
    let colon = find_chars(c.as_slice(), colon_chars.as_slice());
    proof {
        assert(colon_chars@ =~= seq![':']);
        crate::matching::lemma_find_from(c@, colon_chars@, 0);
    }
    let end = match colon {
        Some(i) => i,
        None => c.len(),
    };
    let field = crate::text::slice_chars(c.as_slice(), 0, end);
    proof {
        if colon is None {
            assert(field@ =~= c@);
        }
    }
    let id_name: Vec<char> = vec!['i', 'd'];
    let title_name: Vec<char> = vec!['t', 'i', 't', 'l', 'e'];
    let year_name: Vec<char> = vec!['y', 'e', 'a', 'r'];
    proof {
        assert(id_name@ =~= seq!['i', 'd']);
        assert(title_name@ =~= seq!['t', 'i', 't', 'l', 'e']);
        assert(year_name@ =~= seq!['y', 'e', 'a', 'r']);
    }
    let f = if crate::order::chars_equal(field.as_slice(), id_name.as_slice()) {
        SortField::Id
    } else if crate::order::chars_equal(field.as_slice(), title_name.as_slice()) {
        SortField::Title
    } else if crate::order::chars_equal(field.as_slice(), year_name.as_slice()) {
        SortField::Year
    } else {
        SortField::Other
    };
    let descending = match colon {
        Some(i) => {
            assert(crate::matching::occurs_at(c@, colon_chars@, i as int));
            assert(colon_chars@.len() == 1);
            let n = c.len();
            let dir = crate::text::slice_chars(c.as_slice(), i + 1, n);
            let desc: Vec<char> = vec!['d', 'e', 's', 'c'];
            proof {
                assert(desc@ =~= seq!['d', 'e', 's', 'c']);
                assert(dir@ =~= c@.skip(i + 1));
            }
            crate::filter::eq_ignore_ascii_case_chars(dir.as_slice(), desc.as_slice())
        },
        None => false,
    };
    SortKey { field: f, descending }
}

// ---------------------------------------------------------------------------
// The result order.
// ---------------------------------------------------------------------------

/// What the order reads of a result: id, lowercased title, year, matched
/// tokens, field weight and match quality.
pub type RankView = (u64, Seq<char>, Option<i32>, usize, usize, usize);

/// The order view of a result of the catalog `movies`.
pub open spec fn rank_view(movies: Seq<Movie>, c: RankedMovie) -> RankView {
    let m = movies[c.index as int];
    (m.id, lowercase(m.title@), m.year, c.matched_tokens, c.field_weight, c.match_quality)
}

/// `x` if it decides, else `y`.
pub open spec fn then(x: Rel, y: Rel) -> Rel {
    if x != Rel::Equal {
        x
    } else {
        y
    }
}

/// Known years come first, in increasing order; unknown years last.
pub open spec fn year_order(a: Option<i32>, b: Option<i32>) -> Rel {
    match (a, b) {
        (Some(x), Some(y)) => compare_int(x as int, y as int),
        (Some(_), None) => Rel::Less,
        (None, Some(_)) => Rel::Greater,
        (None, None) => Rel::Equal,
    }
}

/// The order of one sort key.
pub open spec fn key_order(k: SortKey, x: RankView, y: RankView) -> Rel {
    let o = match k.field {
        SortField::Id => compare_int(x.0 as int, y.0 as int),
        SortField::Title => lex_order(x.1, y.1),
        SortField::Year => year_order(x.2, y.2),
        SortField::Other => Rel::Equal,
    };
    if k.descending {
        o.flip()
    } else {
        o
    }
}

/// The order of the sort keys, the first key that decides winning.
pub open spec fn keys_order(keys: Seq<SortKey>, x: RankView, y: RankView) -> Rel
    decreases keys.len(),
{
    if keys.len() == 0 {
        Rel::Equal
    } else {
        then(key_order(keys[0], x, y), keys_order(keys.drop_first(), x, y))
    }
}

/// Relevance: more matched tokens, then more field weight, then better (lower)
/// match quality, then lower id.
pub open spec fn relevance_order(x: RankView, y: RankView) -> Rel {
    then(
        compare_int(y.3 as int, x.3 as int),
        then(
            compare_int(y.4 as int, x.4 as int),
            then(compare_int(x.5 as int, y.5 as int), compare_int(x.0 as int, y.0 as int)),
        ),
    )
}

/// The order of results: the sort keys, then relevance.
pub open spec fn result_order(keys: Seq<SortKey>, x: RankView, y: RankView) -> Rel {
    then(keys_order(keys, x, y), relevance_order(x, y))
}

/// Two steps `ab` and `bc` compose to `ac` as in an order: non-strictly, and
/// strictly when either step is strict.
pub open spec fn trans_ok(ab: Rel, bc: Rel, ac: Rel) -> bool {
    &&& (ab != Rel::Greater && bc != Rel::Greater ==> ac != Rel::Greater)
    &&& ((ab == Rel::Less && bc != Rel::Greater) || (ab != Rel::Greater && bc == Rel::Less)
        ==> ac == Rel::Less)
}

/// The comparisons among three values behave as a total preorder: swapping
/// flips, and both chains `a, b, c` and `c, b, a` are transitive.
pub open spec fn coherent(ab: Rel, bc: Rel, ac: Rel, ba: Rel, cb: Rel, ca: Rel) -> bool {
    &&& ba == ab.flip()
    &&& cb == bc.flip()
    &&& ca == ac.flip()
    &&& trans_ok(ab, bc, ac)
    &&& trans_ok(cb, ba, ca)
}

proof fn lemma_then(
    ab1: Rel,
    bc1: Rel,
    ac1: Rel,
    ba1: Rel,
    cb1: Rel,
    ca1: Rel,
    ab2: Rel,
    bc2: Rel,
    ac2: Rel,
    ba2: Rel,
    cb2: Rel,
    ca2: Rel,
)
    requires
        coherent(ab1, bc1, ac1, ba1, cb1, ca1),
        coherent(ab2, bc2, ac2, ba2, cb2, ca2),
    ensures
        coherent(
            then(ab1, ab2),
            then(bc1, bc2),
            then(ac1, ac2),
            then(ba1, ba2),
            then(cb1, cb2),
            then(ca1, ca2),
        ),
{
}

proof fn lemma_flip_coherent(ab: Rel, bc: Rel, ac: Rel, ba: Rel, cb: Rel, ca: Rel)
    requires
        coherent(ab, bc, ac, ba, cb, ca),
    ensures
        coherent(ab.flip(), bc.flip(), ac.flip(), ba.flip(), cb.flip(), ca.flip()),
{
}

proof fn lemma_int_coherent(a: int, b: int, c: int)
    ensures
        coherent(
            compare_int(a, b),
            compare_int(b, c),
            compare_int(a, c),
            compare_int(b, a),
            compare_int(c, b),
            compare_int(c, a),
        ),
{
}

proof fn lemma_lex_coherent(a: Seq<char>, b: Seq<char>, c: Seq<char>)
    ensures
        coherent(
            lex_order(a, b),
            lex_order(b, c),
            lex_order(a, c),
            lex_order(b, a),
            lex_order(c, b),
            lex_order(c, a),
        ),
{
    lemma_lex_flip(a, b);
    lemma_lex_flip(b, c);
    lemma_lex_flip(a, c);
    if lex_order(a, b) != Rel::Greater && lex_order(b, c) != Rel::Greater {
        lemma_lex_trans(a, b, c);
    }
    if lex_order(c, b) != Rel::Greater && lex_order(b, a) != Rel::Greater {
        lemma_lex_trans(c, b, a);
    }
}

proof fn lemma_year_coherent(a: Option<i32>, b: Option<i32>, c: Option<i32>)
    ensures
        coherent(
            year_order(a, b),
            year_order(b, c),
            year_order(a, c),
            year_order(b, a),
            year_order(c, b),
            year_order(c, a),
        ),
{
}

proof fn lemma_key_coherent(k: SortKey, x: RankView, y: RankView, z: RankView)
    ensures
        coherent(
            key_order(k, x, y),
            key_order(k, y, z),
            key_order(k, x, z),
            key_order(k, y, x),
            key_order(k, z, y),
            key_order(k, z, x),
        ),
{
    lemma_int_coherent(x.0 as int, y.0 as int, z.0 as int);
    lemma_lex_coherent(x.1, y.1, z.1);
    lemma_year_coherent(x.2, y.2, z.2);
    let o = |p: RankView, q: RankView|
        match k.field {
            SortField::Id => compare_int(p.0 as int, q.0 as int),
            SortField::Title => lex_order(p.1, q.1),
            SortField::Year => year_order(p.2, q.2),
            SortField::Other => Rel::Equal,
        };
    assert(coherent(o(x, y), o(y, z), o(x, z), o(y, x), o(z, y), o(z, x)));
    if k.descending {
        lemma_flip_coherent(o(x, y), o(y, z), o(x, z), o(y, x), o(z, y), o(z, x));
    }
}

proof fn lemma_keys_coherent(keys: Seq<SortKey>, x: RankView, y: RankView, z: RankView)
    ensures
        coherent(
            keys_order(keys, x, y),
            keys_order(keys, y, z),
            keys_order(keys, x, z),
            keys_order(keys, y, x),
            keys_order(keys, z, y),
            keys_order(keys, z, x),
        ),
    decreases keys.len(),
{
    if keys.len() > 0 {
        lemma_key_coherent(keys[0], x, y, z);
        lemma_keys_coherent(keys.drop_first(), x, y, z);
        lemma_then(
            key_order(keys[0], x, y),
            key_order(keys[0], y, z),
            key_order(keys[0], x, z),
            key_order(keys[0], y, x),
            key_order(keys[0], z, y),
            key_order(keys[0], z, x),
            keys_order(keys.drop_first(), x, y),
            keys_order(keys.drop_first(), y, z),
            keys_order(keys.drop_first(), x, z),
            keys_order(keys.drop_first(), y, x),
            keys_order(keys.drop_first(), z, y),
            keys_order(keys.drop_first(), z, x),
        );
    }
}

proof fn lemma_relevance_coherent(x: RankView, y: RankView, z: RankView)
    ensures
        coherent(
            relevance_order(x, y),
            relevance_order(y, z),
            relevance_order(x, z),
            relevance_order(y, x),
            relevance_order(z, y),
            relevance_order(z, x),
        ),
{
    lemma_int_coherent(z.3 as int, y.3 as int, x.3 as int);
    lemma_int_coherent(z.4 as int, y.4 as int, x.4 as int);
    lemma_int_coherent(x.5 as int, y.5 as int, z.5 as int);
    lemma_int_coherent(x.0 as int, y.0 as int, z.0 as int);
    let q = |p: RankView, r: RankView| compare_int(p.5 as int, r.5 as int);
    let i = |p: RankView, r: RankView| compare_int(p.0 as int, r.0 as int);
    lemma_then(
        q(x, y),
        q(y, z),
        q(x, z),
        q(y, x),
        q(z, y),
        q(z, x),
        i(x, y),
        i(y, z),
        i(x, z),
        i(y, x),
        i(z, y),
        i(z, x),
    );
    let qi = |p: RankView, r: RankView| then(q(p, r), i(p, r));
    let w = |p: RankView, r: RankView| compare_int(r.4 as int, p.4 as int);
    lemma_then(
        w(x, y),
        w(y, z),
        w(x, z),
        w(y, x),
        w(z, y),
        w(z, x),
        qi(x, y),
        qi(y, z),
        qi(x, z),
        qi(y, x),
        qi(z, y),
        qi(z, x),
    );
    let wqi = |p: RankView, r: RankView| then(w(p, r), qi(p, r));
    let mt = |p: RankView, r: RankView| compare_int(r.3 as int, p.3 as int);
    lemma_then(
        mt(x, y),
        mt(y, z),
        mt(x, z),
        mt(y, x),
        mt(z, y),
        mt(z, x),
        wqi(x, y),
        wqi(y, z),
        wqi(x, z),
        wqi(y, x),
        wqi(z, y),
        wqi(z, x),
    );
}

/// The result order is a total preorder: swapping flips it, and it is transitive.
pub proof fn lemma_result_order_coherent(keys: Seq<SortKey>, x: RankView, y: RankView, z: RankView)
    ensures
        coherent(
            result_order(keys, x, y),
            result_order(keys, y, z),
            result_order(keys, x, z),
            result_order(keys, y, x),
            result_order(keys, z, y),
            result_order(keys, z, x),
        ),
{
    lemma_keys_coherent(keys, x, y, z);
    lemma_relevance_coherent(x, y, z);
    lemma_then(
        keys_order(keys, x, y),
        keys_order(keys, y, z),
        keys_order(keys, x, z),
        keys_order(keys, y, x),
        keys_order(keys, z, y),
        keys_order(keys, z, x),
        relevance_order(x, y),
        relevance_order(y, z),
        relevance_order(x, z),
        relevance_order(y, x),
        relevance_order(z, y),
        relevance_order(z, x),
    );
}

/// Results compare `Equal` only when they have the same id.
pub proof fn lemma_result_order_equal(keys: Seq<SortKey>, x: RankView, y: RankView)
    ensures
        result_order(keys, x, y) == Rel::Equal ==> x.0 == y.0,
{
}

/// Compares two years.
pub fn year_order_exec(a: Option<i32>, b: Option<i32>) -> (r: Rel)
    ensures
        r == year_order(a, b),
{
    match (a, b) {
        (Some(x), Some(y)) => if x < y {
            Rel::Less
        } else if x > y {
            Rel::Greater
        } else {
            Rel::Equal
        },
        (Some(_), None) => Rel::Less,
        (None, Some(_)) => Rel::Greater,
        (None, None) => Rel::Equal,
    }
}

/// What the exec order reads of a result.
pub struct RankEntry {
    pub id: u64,
    pub title: Vec<char>,
    pub year: Option<i32>,
    pub matched: usize,
    pub weight: usize,
    pub quality: usize,
}

/// The order view of an entry.
pub open spec fn entry_view(e: RankEntry) -> RankView {
    (e.id, e.title@, e.year, e.matched, e.weight, e.quality)
}

/// Compares two entries in result order.
pub fn result_order_exec(keys: &Vec<SortKey>, x: &RankEntry, y: &RankEntry) -> (r: Rel)
    ensures
        r == result_order(keys@, entry_view(*x), entry_view(*y)),
{
    let ghost xv = entry_view(*x);
    let ghost yv = entry_view(*y);
    let mut k: usize = 0;
    proof {
        assert(keys@.skip(0) =~= keys@);
    }
    while k < keys.len()
        invariant
            k <= keys.len(),
            xv == entry_view(*x),
            yv == entry_view(*y),
            keys_order(keys@, xv, yv) == keys_order(keys@.skip(k as int), xv, yv),
        decreases keys.len() - k,
    {
        let key = keys[k];
        let o = match key.field {
            SortField::Id => compare_u64(x.id, y.id),
            SortField::Title => lex_compare(x.title.as_slice(), y.title.as_slice()),
            SortField::Year => year_order_exec(x.year, y.year),
            SortField::Other => Rel::Equal,
        };
        let o = if key.descending {
            o.reversed()
        } else {
            o
        };
        proof {
            assert(keys@.skip(k as int)[0] == key);
            assert(keys@.skip(k as int).drop_first() =~= keys@.skip(k + 1));
        }
        if o != Rel::Equal {
            return o;
        }
        k = k + 1;
    }
    let a = compare_usize(y.matched, x.matched);
    if a != Rel::Equal {
        return a;
    }
    let b = compare_usize(y.weight, x.weight);
    if b != Rel::Equal {
        return b;
    }
    let c = compare_usize(x.quality, y.quality);
    if c != Rel::Equal {
        return c;
    }
    compare_u64(x.id, y.id)
}

/// Orders positions of a list of entries by result order.
pub struct EntryOrder {
    pub entries: Vec<RankEntry>,
    pub keys: Vec<SortKey>,
}

impl IndexOrder for EntryOrder {
    open spec fn size(&self) -> nat {
        self.entries@.len()
    }

    open spec fn le(&self, a: int, b: int) -> bool {
        result_order(self.keys@, entry_view(self.entries@[a]), entry_view(self.entries@[b]))
            != Rel::Greater
    }

    fn le_exec(&self, a: usize, b: usize) -> (r: bool) {
        result_order_exec(&self.keys, &self.entries[a], &self.entries[b]) != Rel::Greater
    }

    proof fn lemma_total(&self, a: int, b: int) {
        let x = entry_view(self.entries@[a]);
        let y = entry_view(self.entries@[b]);
        lemma_result_order_coherent(self.keys@, x, y, y);
    }

    proof fn lemma_trans(&self, a: int, b: int, c: int) {
        lemma_result_order_coherent(
            self.keys@,
            entry_view(self.entries@[a]),
            entry_view(self.entries@[b]),
            entry_view(self.entries@[c]),
        );
    }
}

/// `o` lists the results `cands` strictly in result order: each comes before the next.
pub open spec fn is_ordering(
    movies: Seq<Movie>,
    keys: Seq<SortKey>,
    cands: Seq<RankedMovie>,
    o: Seq<RankedMovie>,
) -> bool {
    &&& o.len() == cands.len()
    &&& forall|x: RankedMovie| #![trigger o.contains(x)] #![trigger cands.contains(x)] o.contains(x) <==> cands.contains(x)
    &&& forall|i: int, j: int|
        0 <= i < j < o.len() ==> result_order(
            keys,
            rank_view(movies, #[trigger] o[i]),
            rank_view(movies, #[trigger] o[j]),
        ) == Rel::Less
}

/// The results `cands` in result order.
pub open spec fn ordered_results(
    movies: Seq<Movie>,
    keys: Seq<SortKey>,
    cands: Seq<RankedMovie>,
) -> Seq<RankedMovie> {
    choose|o: Seq<RankedMovie>| is_ordering(movies, keys, cands, o)
}

/// Two strict orderings of the same results are the same sequence.
pub proof fn lemma_ordering_unique(
    movies: Seq<Movie>,
    keys: Seq<SortKey>,
    a: Seq<RankedMovie>,
    b: Seq<RankedMovie>,
)
    requires
        forall|i: int, j: int|
            0 <= i < j < a.len() ==> result_order(
                keys,
                rank_view(movies, #[trigger] a[i]),
                rank_view(movies, #[trigger] a[j]),
            ) == Rel::Less,
        forall|i: int, j: int|
            0 <= i < j < b.len() ==> result_order(
                keys,
                rank_view(movies, #[trigger] b[i]),
                rank_view(movies, #[trigger] b[j]),
            ) == Rel::Less,
        forall|x: RankedMovie| #![trigger a.contains(x)] #![trigger b.contains(x)] a.contains(x) <==> b.contains(x),
    ensures
        a == b,
    decreases a.len(),
{
    let rel = |x: RankedMovie, y: RankedMovie|
        result_order(keys, rank_view(movies, x), rank_view(movies, y));
    assert forall|x: RankedMovie, y: RankedMovie| #[trigger] rel(y, x) == rel(x, y).flip() by {
        lemma_result_order_coherent(keys, rank_view(movies, x), rank_view(movies, y), rank_view(movies, y));
    }
    if a.len() == 0 {
        if b.len() > 0 {
            assert(b.contains(b[0]));
        }
        assert(a =~= b);
    } else if b.len() == 0 {
        assert(a.contains(a[0]));
    } else {
        assert(a.contains(a[0]));
        assert(b.contains(b[0]));
        let i = choose|i: int| 0 <= i < a.len() && a[i] == b[0];
        let j = choose|j: int| 0 <= j < b.len() && b[j] == a[0];
        if a[0] != b[0] {
            assert(i > 0 && j > 0);
            assert(rel(a[0], a[i]) == Rel::Less);
            assert(rel(b[0], b[j]) == Rel::Less);
            assert(rel(b[0], a[0]) == rel(a[0], b[0]).flip());
        }
        let ta = a.drop_first();
        let tb = b.drop_first();
        assert forall|x: RankedMovie| #![trigger ta.contains(x)] #![trigger tb.contains(x)] ta.contains(x) <==> tb.contains(x) by {
            if ta.contains(x) {
                let k = choose|k: int| 0 <= k < ta.len() && ta[k] == x;
                assert(a[k + 1] == x);
                assert(rel(a[0], x) == Rel::Less);
                assert(rel(x, x) == rel(x, x).flip());
                assert(b.contains(x));
                let m = choose|m: int| 0 <= m < b.len() && b[m] == x;
                assert(m != 0);
                assert(tb[m - 1] == x);
            }
            if tb.contains(x) {
                let k = choose|k: int| 0 <= k < tb.len() && tb[k] == x;
                assert(b[k + 1] == x);
                assert(rel(b[0], x) == Rel::Less);
                assert(rel(x, x) == rel(x, x).flip());
                assert(a.contains(x));
                let m = choose|m: int| 0 <= m < a.len() && a[m] == x;
                assert(m != 0);
                assert(ta[m - 1] == x);
            }
        }
        assert forall|p: int, q: int| 0 <= p < q < ta.len() implies result_order(
            keys,
            rank_view(movies, #[trigger] ta[p]),
            rank_view(movies, #[trigger] ta[q]),
        ) == Rel::Less by {
            assert(ta[p] == a[p + 1] && ta[q] == a[q + 1]);
        }
        assert forall|p: int, q: int| 0 <= p < q < tb.len() implies result_order(
            keys,
            rank_view(movies, #[trigger] tb[p]),
            rank_view(movies, #[trigger] tb[q]),
        ) == Rel::Less by {
            assert(tb[p] == b[p + 1] && tb[q] == b[q + 1]);
        }
        lemma_ordering_unique(movies, keys, ta, tb);
        assert(a =~= seq![a[0]] + ta);
        assert(b =~= seq![b[0]] + tb);
    }
}

} // verus!
