//! Character-level text operations used by the search engine: Unicode
//! classification and lowercasing from std, and verified splitting, trimming,
//! tokenizing, substring search, HTML escaping and number formatting.

use vstd::prelude::*;
use crate::order::{
    lemma_lex_equal, lemma_lex_flip, lemma_lex_trans, lex_compare, lex_lt, lex_order, strictly_sorted, Rel,
};

verus! {

// ---------------------------------------------------------------------------
// Unicode facts taken from std.
// ---------------------------------------------------------------------------

/// Whether `char::is_alphanumeric` holds for a character outside ASCII
/// (Unicode Alphabetic or Numeric).
pub uninterp spec fn unicode_alnum(c: char) -> bool;

/// Whether `char::is_alphanumeric` holds for `c`: among ASCII characters
/// exactly the letters and digits; beyond ASCII, the Unicode property.
pub open spec fn is_alnum(c: char) -> bool {
    if (c as u32) < 128 {
        ascii_alnum(c)
    } else {
        unicode_alnum(c)
    }
}

/// Whether `c` has the Unicode White_Space property, which
/// `char::is_whitespace` tests: tab to carriage return, space, next line,
/// no-break space, ogham space mark, the spaces U+2000 to U+200A, line and
/// paragraph separator, narrow no-break space, medium mathematical space and
/// ideographic space.
pub open spec fn is_ws(c: char) -> bool {
    let u = c as u32;
    ||| 0x9 <= u <= 0xd
    ||| u == 0x20
    ||| u == 0x85
    ||| u == 0xa0
    ||| u == 0x1680
    ||| 0x2000 <= u <= 0x200a
    ||| u == 0x2028
    ||| u == 0x2029
    ||| u == 0x202f
    ||| u == 0x205f
    ||| u == 0x3000
}

/// An ASCII letter or digit.
pub open spec fn ascii_alnum(c: char) -> bool {
    ('0' <= c && c <= '9') || ('a' <= c && c <= 'z') || ('A' <= c && c <= 'Z')
}

/// Every character is ASCII.
pub open spec fn all_ascii(s: Seq<char>) -> bool {
    forall|i: int| 0 <= i < s.len() ==> (#[trigger] s[i] as u32) < 128
}

/// ASCII lowercasing: `A` to `Z` become `a` to `z`, every other character
/// stays.
pub open spec fn ascii_lower(c: char) -> char {
    if 'A' <= c && c <= 'Z' {
        ((c as u32) + 32) as char
    } else {
        c
    }
}

/// What `str::to_lowercase` returns for a string with the characters `s`
/// that are not all ASCII (full Unicode lowercasing, including the
/// context-dependent final sigma).
pub uninterp spec fn unicode_lowercase(s: Seq<char>) -> Seq<char>;

/// What `str::to_lowercase` returns for a string with the characters `s`:
/// for ASCII text, each letter `A` to `Z` lowercased and every other
/// character kept; otherwise the Unicode lowercasing.
pub open spec fn lowercase(s: Seq<char>) -> Seq<char> {
    if all_ascii(s) {
        s.map_values(|c: char| ascii_lower(c))
    } else {
        unicode_lowercase(s)
    }
}

/// `char::is_alphanumeric`: among ASCII characters exactly the letters and
/// digits are alphanumeric; beyond ASCII the result is named.
#[verifier::external_body]
pub(crate) fn char_is_alphanumeric(c: char) -> (r: bool)
    ensures
        (c as u32) < 128 ==> (r <==> ascii_alnum(c)),
        (c as u32) >= 128 ==> r == unicode_alnum(c),
{
    c.is_alphanumeric()
}

/// Whether `c` has the White_Space property (what `char::is_whitespace`
/// tests).
pub(crate) fn char_is_whitespace(c: char) -> (r: bool)
    ensures
        r == is_ws(c),
{
    let u = c as u32;
    (0x9 <= u && u <= 0xd) || u == 0x20 || u == 0x85 || u == 0xa0 || u == 0x1680 || (0x2000 <= u && u <= 0x200a)
        || u == 0x2028 || u == 0x2029 || u == 0x202f || u == 0x205f || u == 0x3000
}

/// `str::to_lowercase`: an ASCII string is lowercased letter by letter, as
/// `to_ascii_lowercase` does; for other text the result is named.
#[verifier::external_body]
pub(crate) fn str_to_lowercase(s: &str) -> (r: String)
    ensures
        all_ascii(s@) ==> r@ == s@.map_values(|c: char| ascii_lower(c)),
        !all_ascii(s@) ==> r@ == unicode_lowercase(s@),
{
    s.to_lowercase()
}

/// Collects characters into a `String` (`FromIterator<&char> for String`): the
/// string holds exactly the given characters.
#[verifier::external_body]
pub(crate) fn string_from_chars(v: &[char]) -> (r: String)
    ensures
        r@ == v@,
{
    v.iter().collect()
}

// ---------------------------------------------------------------------------
// Conversions between strings and character vectors.
// ---------------------------------------------------------------------------

/// The characters of each vector, in order.
pub open spec fn views(v: Seq<Vec<char>>) -> Seq<Seq<char>> {
    v.map_values(|x: Vec<char>| x@)
}

/// The characters of `s`, in order.
pub fn chars_of(s: &str) -> (r: Vec<char>)
    ensures
        r@ == s@,
{
    let mut out: Vec<char> = Vec::new();
    for c in it: s.chars()
        invariant
            out@ == it.seq().take(it.index() as int),
            it.seq() == s@,
    {
        out.push(c);
    }
    out
}

/// A copy of `s[start..end]`.
pub fn slice_chars(s: &[char], start: usize, end: usize) -> (r: Vec<char>)
    requires
        start <= end <= s.len(),
    ensures
        r@ == s@.subrange(start as int, end as int),
{
    let mut out: Vec<char> = Vec::new();
    let mut k = start;
    while k < end
        invariant
            start <= k <= end <= s.len(),
            out@ == s@.subrange(start as int, k as int),
        decreases end - k,
    {
        out.push(s[k]);
        k = k + 1;
    }
    out
}

/// Appends the characters of `src` to `dst`.
pub fn push_all(dst: &mut Vec<char>, src: &[char])
    ensures
        final(dst)@ == old(dst)@ + src@,
{
    let mut k: usize = 0;
    while k < src.len()
        invariant
            k <= src.len(),
            dst@ == old(dst)@ + src@.take(k as int),
        decreases src.len() - k,
    {
        dst.push(src[k]);
        k = k + 1;
    }
    assert(src@.take(src.len() as int) =~= src@);
}

/// The lowercase form of the characters `v`, as `str::to_lowercase` gives it.
pub fn lowercase_chars(v: &[char]) -> (r: Vec<char>)
    ensures
        r@ == lowercase(v@),
{
    let s = string_from_chars(v);
    let l = str_to_lowercase(s.as_str());
    chars_of(l.as_str())
}

// ---------------------------------------------------------------------------
// Trimming.
// ---------------------------------------------------------------------------

/// `s` without its leading whitespace.
pub open spec fn trim_start(s: Seq<char>) -> Seq<char>
    decreases s.len(),
{
    if s.len() > 0 && is_ws(s[0]) {
        trim_start(s.drop_first())
    } else {
        s
    }
}

/// `s` without its trailing whitespace.
pub open spec fn trim_end(s: Seq<char>) -> Seq<char>
    decreases s.len(),
{
    if s.len() > 0 && is_ws(s.last()) {
        trim_end(s.drop_last())
    } else {
        s
    }
}

/// `s` without leading and trailing whitespace, as `str::trim` gives it.
pub open spec fn trim(s: Seq<char>) -> Seq<char> {
    trim_end(trim_start(s))
}

/// Removes leading and trailing whitespace.
pub fn trim_chars(s: &[char]) -> (r: Vec<char>)
    ensures
        r@ == trim(s@),
{
    let n = s.len();
    let mut i: usize = 0;
    assert(s@.subrange(0, n as int) =~= s@);
    while i < n && char_is_whitespace(s[i])
        invariant
            n == s.len(),
            i <= n,
            trim_start(s@) == trim_start(s@.subrange(i as int, n as int)),
        decreases n - i,
    {
        assert(s@.subrange(i as int, n as int).drop_first() =~= s@.subrange(i + 1, n as int));
        i = i + 1;
    }
    assert(trim_start(s@) == s@.subrange(i as int, n as int));
    let mut j: usize = n;
    while j > i && char_is_whitespace(s[j - 1])
        invariant
            n == s.len(),
            i <= j <= n,
            trim(s@) == trim_end(s@.subrange(i as int, j as int)),
        decreases j,
    {
        assert(s@.subrange(i as int, j as int).drop_last() =~= s@.subrange(i as int, j - 1));
        j = j - 1;
    }
    assert(trim(s@) == s@.subrange(i as int, j as int));
    slice_chars(s, i, j)
}

// ---------------------------------------------------------------------------
// Splitting into pieces.
// ---------------------------------------------------------------------------

/// The separator of a split: a comma, or any character that is not alphanumeric.
pub open spec fn is_sep(c: char, by_comma: bool) -> bool {
    if by_comma {
        c == ','
    } else {
        !is_alnum(c)
    }
}

/// The pieces of `s` between separators, as `str::split` yields them:
/// `n` separators give `n + 1` pieces, empty ones included.
pub open spec fn split_pieces(s: Seq<char>, by_comma: bool) -> Seq<Seq<char>>
    decreases s.len(),
{
    if s.len() == 0 {
        seq![Seq::<char>::empty()]
    } else {
        let r = split_pieces(s.drop_last(), by_comma);
        if is_sep(s.last(), by_comma) {
            r.push(Seq::<char>::empty())
        } else {
            r.update(r.len() - 1, r.last().push(s.last()))
        }
    }
}

/// A split always yields at least one piece.
pub proof fn lemma_split_nonempty(s: Seq<char>, by_comma: bool)
    ensures
        split_pieces(s, by_comma).len() >= 1,
    decreases s.len(),
{
    if s.len() > 0 {
        lemma_split_nonempty(s.drop_last(), by_comma);
    }
}

/// The trimmed pieces that are not empty, in order.
pub open spec fn trimmed_nonempty(pieces: Seq<Seq<char>>) -> Seq<Seq<char>>
    decreases pieces.len(),
{
    if pieces.len() == 0 {
        seq![]
    } else {
        let r = trimmed_nonempty(pieces.drop_last());
        let t = trim(pieces.last());
        if t.len() == 0 {
            r
        } else {
            r.push(t)
        }
    }
}

/// The genres listed in a comma-separated genre field, trimmed, empty ones left out.
pub open spec fn genre_values(s: Seq<char>) -> Seq<Seq<char>> {
    trimmed_nonempty(split_pieces(s, true))
}

/// The words of `s`: its runs of alphanumeric characters, lowercased, in order.
pub open spec fn word_tokens(s: Seq<char>) -> Seq<Seq<char>> {
    trimmed_nonempty(split_pieces(s, false)).map_values(|t: Seq<char>| lowercase(t))
}

proof fn lemma_trim_start_len(s: Seq<char>)
    ensures
        trim_start(s).len() <= s.len(),
    decreases s.len(),
{
    if s.len() > 0 && is_ws(s[0]) {
        lemma_trim_start_len(s.drop_first());
    }
}

proof fn lemma_trim_end_len(s: Seq<char>)
    ensures
        trim_end(s).len() <= s.len(),
    decreases s.len(),
{
    if s.len() > 0 && is_ws(s.last()) {
        lemma_trim_end_len(s.drop_last());
    }
}

/// Trimming never lengthens.
pub proof fn lemma_trim_len(s: Seq<char>)
    ensures
        trim(s).len() <= s.len(),
{
    lemma_trim_start_len(s);
    lemma_trim_end_len(trim_start(s));
}

/// Splits `s` at separators and keeps the trimmed pieces that are not empty.
pub fn trimmed_pieces(s: &[char], by_comma: bool) -> (r: Vec<Vec<char>>)
    ensures
        views(r@) == trimmed_nonempty(split_pieces(s@, by_comma)),
{
    let mut out: Vec<Vec<char>> = Vec::new();
    let mut cur: Vec<char> = Vec::new();
    let mut i: usize = 0;
    proof {
        assert(s@.take(0) =~= Seq::<char>::empty());
        assert(split_pieces(s@.take(0), by_comma).drop_last() =~= Seq::<Seq<char>>::empty());
        assert(views(out@) =~= Seq::<Seq<char>>::empty());
    }
    while i < s.len()
        invariant
            i <= s.len(),
            split_pieces(s@.take(i as int), by_comma).len() >= 1,
            views(out@) == trimmed_nonempty(split_pieces(s@.take(i as int), by_comma).drop_last()),
            cur@ == split_pieces(s@.take(i as int), by_comma).last(),
        decreases s.len() - i,
    {
        let c = s[i];
        let sep = if by_comma {
            c == ','
        } else {
            !char_is_alphanumeric(c)
        };
        proof {
            assert(s@.take(i + 1).drop_last() =~= s@.take(i as int));
            lemma_split_nonempty(s@.take(i + 1), by_comma);
        }
        let ghost prev = split_pieces(s@.take(i as int), by_comma);
        if sep {
            let t = trim_chars(cur.as_slice());
            proof {
                assert(split_pieces(s@.take(i + 1), by_comma).drop_last() =~= prev);
                assert(prev =~= prev.drop_last().push(prev.last()));
            }
            if t.len() > 0 {
                let ghost before = out@;
                out.push(t);
                proof {
                    assert(views(out@) =~= views(before).push(t@));
                }
            }
            cur = Vec::new();
        } else {
            cur.push(c);
            proof {
                assert(split_pieces(s@.take(i + 1), by_comma).drop_last() =~= prev.drop_last());
            }
        }
        i = i + 1;
    }
    let t = trim_chars(cur.as_slice());
    proof {
        let p = split_pieces(s@.take(i as int), by_comma);
        assert(s@.take(i as int) =~= s@);
        assert(p =~= p.drop_last().push(p.last()));
    }
    if t.len() > 0 {
        let ghost before = out@;
        out.push(t);
        proof {
            assert(views(out@) =~= views(before).push(t@));
        }
    }
    out
}


/// The lowercased words of `s`, in order (duplicates kept).
pub fn word_tokens_of(s: &[char]) -> (r: Vec<Vec<char>>)
    ensures
        views(r@) == word_tokens(s@),
{
    let pieces = trimmed_pieces(s, false);
    let mut out: Vec<Vec<char>> = Vec::new();
    let mut k: usize = 0;
    while k < pieces.len()
        invariant
            k <= pieces.len(),
            views(out@) == views(pieces@).take(k as int).map_values(|t: Seq<char>| lowercase(t)),
        decreases pieces.len() - k,
    {
        let l = lowercase_chars(pieces[k].as_slice());
        let ghost before = out@;
        out.push(l);
        proof {
            assert(views(out@) =~= views(before).push(l@));
            assert(views(pieces@).take(k + 1) =~= views(pieces@).take(k as int).push(
                pieces@[k as int]@,
            ));
            assert(views(out@) =~= views(pieces@).take(k + 1).map_values(
                |t: Seq<char>| lowercase(t),
            ));
        }
        k = k + 1;
    }
    proof {
        assert(views(pieces@).take(pieces.len() as int) =~= views(pieces@));
    }
    out
}

// ---------------------------------------------------------------------------
// Sorted sets of words.
// ---------------------------------------------------------------------------

/// `r` with `x` inserted at its place in lexicographic order, unless already present.
pub open spec fn insert_sorted(r: Seq<Seq<char>>, x: Seq<char>) -> Seq<Seq<char>>
    decreases r.len(),
{
    if r.len() == 0 {
        seq![x]
    } else {
        match lex_order(x, r[0]) {
            Rel::Less => seq![x] + r,
            Rel::Equal => r,
            Rel::Greater => seq![r[0]] + insert_sorted(r.drop_first(), x),
        }
    }
}

/// The distinct elements of `items` in lexicographic order (what collecting
/// into a `BTreeSet<String>` and iterating gives).
pub open spec fn sorted_set(items: Seq<Seq<char>>) -> Seq<Seq<char>>
    decreases items.len(),
{
    if items.len() == 0 {
        seq![]
    } else {
        insert_sorted(sorted_set(items.drop_last()), items.last())
    }
}

/// The distinct lowercased words of a query, in lexicographic order.
pub open spec fn query_tokens(q: Seq<char>) -> Seq<Seq<char>> {
    sorted_set(word_tokens(q))
}

/// Inserting keeps the sequence strictly sorted, and adds exactly `x`.
pub proof fn lemma_insert_sorted(r: Seq<Seq<char>>, x: Seq<char>)
    requires
        strictly_sorted(r),
    ensures
        strictly_sorted(insert_sorted(r, x)),
        forall|y: Seq<char>| #[trigger]
            insert_sorted(r, x).contains(y) <==> (r.contains(y) || y == x),
        insert_sorted(r, x).len() <= r.len() + 1,
    decreases r.len(),
{
    let s = insert_sorted(r, x);
    if r.len() == 0 {
        assert forall|y: Seq<char>| #[trigger] s.contains(y) <==> (r.contains(y) || y == x) by {
            if s.contains(y) {
                assert(s[0] == y);
            }
            if y == x {
                assert(s[0] == y);
            }
        }
    } else {
        lemma_lex_equal(x, r[0]);
        match lex_order(x, r[0]) {
            Rel::Less => {
                assert forall|i: int, j: int| 0 <= i < j < s.len() implies lex_lt(
                    #[trigger] s[i],
                    #[trigger] s[j],
                ) by {
                    if i == 0 && j > 1 {
                        lemma_lex_trans(x, r[0], r[j - 1]);
                    }
                    if i > 0 {
                        assert(s[i] == r[i - 1] && s[j] == r[j - 1]);
                    }
                }
                assert forall|y: Seq<char>| #[trigger] s.contains(y) <==> (r.contains(y) || y
                    == x) by {
                    if s.contains(y) {
                        let k = choose|k: int| 0 <= k < s.len() && s[k] == y;
                        if k > 0 {
                            assert(r[k - 1] == y);
                        }
                    }
                    if r.contains(y) {
                        let k = choose|k: int| 0 <= k < r.len() && r[k] == y;
                        assert(s[k + 1] == y);
                    }
                    if y == x {
                        assert(s[0] == y);
                    }
                }
            },
            Rel::Equal => {
                assert(r.contains(r[0]));
            },
            Rel::Greater => {
                let t = r.drop_first();
                assert(strictly_sorted(t)) by {
                    assert forall|i: int, j: int| 0 <= i < j < t.len() implies lex_lt(
                        #[trigger] t[i],
                        #[trigger] t[j],
                    ) by {
                        assert(t[i] == r[i + 1] && t[j] == r[j + 1]);
                    }
                }
                lemma_insert_sorted(t, x);
                let u = insert_sorted(t, x);
                lemma_lex_flip(x, r[0]);
                assert forall|i: int, j: int| 0 <= i < j < s.len() implies lex_lt(
                    #[trigger] s[i],
                    #[trigger] s[j],
                ) by {
                    if i == 0 {
                        let y = u[j - 1];
                        assert(u.contains(y));
                        if y == x {
                        } else {
                            assert(t.contains(y));
                            let k = choose|k: int| 0 <= k < t.len() && t[k] == y;
                            assert(r[k + 1] == y);
                        }
                    } else {
                        assert(s[i] == u[i - 1] && s[j] == u[j - 1]);
                    }
                }
                assert forall|y: Seq<char>| #[trigger] s.contains(y) <==> (r.contains(y) || y
                    == x) by {
                    if s.contains(y) {
                        let k = choose|k: int| 0 <= k < s.len() && s[k] == y;
                        if k > 0 {
                            assert(u.contains(y));
                            if t.contains(y) {
                                let m = choose|m: int| 0 <= m < t.len() && t[m] == y;
                                assert(r[m + 1] == y);
                            }
                        } else {
                            assert(r[0] == y);
                        }
                    }
                    if r.contains(y) {
                        let k = choose|k: int| 0 <= k < r.len() && r[k] == y;
                        if k > 0 {
                            assert(t[k - 1] == y);
                            assert(u.contains(y));
                            let m = choose|m: int| 0 <= m < u.len() && u[m] == y;
                            assert(s[m + 1] == y);
                        } else {
                            assert(s[0] == y);
                        }
                    }
                    if y == x {
                        assert(u.contains(y));
                        let m = choose|m: int| 0 <= m < u.len() && u[m] == y;
                        assert(s[m + 1] == y);
                    }
                }
            },
        }
    }
}

/// `sorted_set` is strictly sorted, holds exactly the items, and is no longer than them.
pub proof fn lemma_sorted_set(items: Seq<Seq<char>>)
    ensures
        strictly_sorted(sorted_set(items)),
        forall|y: Seq<char>| #[trigger] sorted_set(items).contains(y) <==> items.contains(y),
        sorted_set(items).len() <= items.len(),
    decreases items.len(),
{
    if items.len() > 0 {
        let p = items.drop_last();
        lemma_sorted_set(p);
        lemma_insert_sorted(sorted_set(p), items.last());
        assert forall|y: Seq<char>| #[trigger]
            sorted_set(items).contains(y) <==> items.contains(y) by {
            if p.contains(y) {
                let k = choose|k: int| 0 <= k < p.len() && p[k] == y;
                assert(items[k] == y);
            }
            if items.contains(y) {
                let k = choose|k: int| 0 <= k < items.len() && items[k] == y;
                if k < items.len() - 1 {
                    assert(p[k] == y);
                }
            }
        }
    }
}

/// Inserts `x` into the strictly sorted `v` unless it is already there.
pub fn insert_sorted_chars(v: &mut Vec<Vec<char>>, x: Vec<char>)
    ensures
        views(final(v)@) == insert_sorted(views(old(v)@), x@),
{
    let mut p: usize = 0;
    proof {
        assert(views(v@).skip(0) =~= views(v@));
        assert(views(v@).take(0) + views(v@) =~= views(v@));
    }
    while p < v.len()
        invariant
            p <= v.len(),
            v@ == old(v)@,
            insert_sorted(views(v@), x@) == views(v@).take(p as int) + insert_sorted(
                views(v@).skip(p as int),
                x@,
            ),
        decreases v.len() - p,
    {
        let ghost rest = views(v@).skip(p as int);
        assert(rest[0] == v@[p as int]@);
        match lex_compare(x.as_slice(), v[p].as_slice()) {
            Rel::Less => {
                let ghost before = v@;
                v.insert(p, x);
                proof {
                    assert(views(v@) =~= views(before).take(p as int) + (seq![x@] + rest));
                }
                return;
            },
            Rel::Equal => {
                proof {
                    assert(views(v@) =~= views(v@).take(p as int) + rest);
                }
                return;
            },
            Rel::Greater => {
                proof {
                    assert(rest.drop_first() =~= views(v@).skip(p + 1));
                    assert(views(v@).take(p as int) + (seq![rest[0]] + insert_sorted(
                        rest.drop_first(),
                        x@,
                    )) =~= views(v@).take(p + 1) + insert_sorted(views(v@).skip(p + 1), x@));
                }
                p = p + 1;
            },
        }
    }
    let ghost before = v@;
    v.push(x);
    proof {
        assert(views(before).skip(p as int) =~= Seq::<Seq<char>>::empty());
        assert(views(before).take(p as int) =~= views(before));
        assert(views(v@) =~= views(before).push(x@));
    }
}

/// The distinct items, in lexicographic order.
pub fn sorted_set_of(items: &Vec<Vec<char>>) -> (r: Vec<Vec<char>>)
    ensures
        views(r@) == sorted_set(views(items@)),
{
    let mut out: Vec<Vec<char>> = Vec::new();
    let mut k: usize = 0;
    proof {
        assert(views(items@).take(0) =~= Seq::<Seq<char>>::empty());
        assert(views(out@) =~= Seq::<Seq<char>>::empty());
    }
    while k < items.len()
        invariant
            k <= items.len(),
            views(out@) == sorted_set(views(items@).take(k as int)),
        decreases items.len() - k,
    {
        let x = slice_chars(items[k].as_slice(), 0, items[k].len());
        proof {
            assert(items[k as int]@.subrange(0, items[k as int]@.len() as int) =~= items[k as int]@);
            assert(views(items@).take(k + 1).drop_last() =~= views(items@).take(k as int));
        }
        insert_sorted_chars(&mut out, x);
        k = k + 1;
    }
    proof {
        assert(views(items@).take(items.len() as int) =~= views(items@));
    }
    out
}

/// The distinct lowercased words of `q`, in lexicographic order: the query
/// tokens of the search engine.
pub fn tokenize(q: &[char]) -> (r: Vec<Vec<char>>)
    ensures
        views(r@) == query_tokens(q@),
        strictly_sorted(views(r@)),
        forall|t: Seq<char>| #[trigger] views(r@).contains(t) <==> word_tokens(q@).contains(t),
{
    let words = word_tokens_of(q);
    let r = sorted_set_of(&words);
    proof {
        lemma_sorted_set(word_tokens(q@));
    }
    r
}

// ---------------------------------------------------------------------------
// Decimal numbers.
// ---------------------------------------------------------------------------

/// The character of a decimal digit.
pub open spec fn digit_char(d: nat) -> char {
    if d == 0 {
        '0'
    } else if d == 1 {
        '1'
    } else if d == 2 {
        '2'
    } else if d == 3 {
        '3'
    } else if d == 4 {
        '4'
    } else if d == 5 {
        '5'
    } else if d == 6 {
        '6'
    } else if d == 7 {
        '7'
    } else if d == 8 {
        '8'
    } else {
        '9'
    }
}

/// The decimal digits of `n`, without leading zeros.
pub open spec fn digits(n: nat) -> Seq<char>
    decreases n,
{
    if n < 10 {
        seq![digit_char(n)]
    } else {
        digits(n / 10).push(digit_char(n % 10))
    }
}

/// The decimal form of `n`, with a leading `-` when negative (what `i32::to_string` gives).
pub open spec fn decimal(n: int) -> Seq<char> {
    if n < 0 {
        seq!['-'] + digits((-n) as nat)
    } else {
        digits(n as nat)
    }
}

fn digit_char_exec(d: u64) -> (r: char)
    requires
        d < 10,
    ensures
        r == digit_char(d as nat),
{
    if d == 0 {
        '0'
    } else if d == 1 {
        '1'
    } else if d == 2 {
        '2'
    } else if d == 3 {
        '3'
    } else if d == 4 {
        '4'
    } else if d == 5 {
        '5'
    } else if d == 6 {
        '6'
    } else if d == 7 {
        '7'
    } else if d == 8 {
        '8'
    } else {
        '9'
    }
}

fn push_digits(n: u64, out: &mut Vec<char>)
    ensures
        final(out)@ == old(out)@ + digits(n as nat),
    decreases n,
{
    if n >= 10 {
        push_digits(n / 10, out);
    }
    out.push(digit_char_exec(n % 10));
    proof {
        if n >= 10 {
            assert(digits(n as nat) == digits((n / 10) as nat).push(digit_char((n % 10) as nat)));
        }
    }
}

/// The decimal form of an `i32`.
pub fn decimal_chars(n: i32) -> (r: Vec<char>)
    ensures
        r@ == decimal(n as int),
{
    let mut out: Vec<char> = Vec::new();
    if n < 0 {
        out.push('-');
        let m: u64 = (0i64 - (n as i64)) as u64;
        push_digits(m, &mut out);
    } else {
        push_digits(n as u64, &mut out);
        assert(out@ =~= decimal(n as int));
    }
    out
}

proof fn lemma_trimmed_nonempty_le(pieces: Seq<Seq<char>>)
    ensures
        trimmed_nonempty(pieces).len() <= pieces.len(),
        pieces.len() > 0 ==> trimmed_nonempty(pieces.drop_last()).len() <= trimmed_nonempty(pieces).len(),
    decreases pieces.len(),
{
    if pieces.len() > 0 {
        lemma_trimmed_nonempty_le(pieces.drop_last());
    }
}

/// A split yields no more non-empty trimmed pieces than `s` has characters.
pub proof fn lemma_trimmed_pieces_len(s: Seq<char>, by_comma: bool)
    ensures
        trimmed_nonempty(split_pieces(s, by_comma)).len() <= s.len(),
        trimmed_nonempty(split_pieces(s, by_comma)).len() <= split_pieces(s, by_comma).len(),
    decreases s.len(),
{
    lemma_trimmed_nonempty_le(split_pieces(s, by_comma));
    if s.len() == 0 {
        assert(trim(Seq::<char>::empty()).len() == 0) by {
            lemma_trim_len(Seq::<char>::empty());
        }
        assert(split_pieces(s, by_comma).drop_last() =~= Seq::<Seq<char>>::empty());
    } else {
        let r = split_pieces(s.drop_last(), by_comma);
        lemma_trimmed_pieces_len(s.drop_last(), by_comma);
        lemma_split_nonempty(s.drop_last(), by_comma);
        lemma_trimmed_nonempty_le(r);
        let p = split_pieces(s, by_comma);
        if is_sep(s.last(), by_comma) {
            assert(p.drop_last() =~= r);
            lemma_trim_len(Seq::<char>::empty());
        } else {
            assert(p.drop_last() =~= r.drop_last());
        }
    }
}

/// A query has no more distinct tokens than characters.
pub proof fn lemma_query_tokens_len(q: Seq<char>)
    ensures
        query_tokens(q).len() <= q.len(),
{
    lemma_sorted_set(word_tokens(q));
    lemma_trimmed_pieces_len(q, false);
}

} // verus!
