//! Highlighting: HTML-escaped field values with the first matching query token
//! wrapped in `<mark>` tags.

use vstd::prelude::*;

use crate::matching::{contains, contains_chars, find, find_chars, lemma_find_from};
use crate::text::{chars_of, lowercase, lowercase_chars, push_all, slice_chars, string_from_chars, views};

verus! {

/// The HTML escape of one character: `&`, `<`, `>`, `"` and `'` become entities.
pub open spec fn escape_char(c: char) -> Seq<char> {
    if c == '&' {
        seq!['&', 'a', 'm', 'p', ';']
    } else if c == '<' {
        seq!['&', 'l', 't', ';']
    } else if c == '>' {
        seq!['&', 'g', 't', ';']
    } else if c == '"' {
        seq!['&', 'q', 'u', 'o', 't', ';']
    } else if c == '\'' {
        seq!['&', '#', '3', '9', ';']
    } else {
        seq![c]
    }
}

/// The HTML escape of `s`, character by character (what the chain of
/// `replace` calls gives, `&` being replaced first).
pub open spec fn escape_html(s: Seq<char>) -> Seq<char>
    decreases s.len(),
{
    if s.len() == 0 {
        seq![]
    } else {
        escape_html(s.drop_last()) + escape_char(s.last())
    }
}

/// Escapes `&`, `<`, `>`, `"` and `'` for HTML.
pub fn escape_html_chars(s: &[char]) -> (r: Vec<char>)
    ensures
        r@ == escape_html(s@),
{
    let mut out: Vec<char> = Vec::new();
    let mut k: usize = 0;
    proof {
        assert(s@.take(0) =~= Seq::<char>::empty());
    }
    while k < s.len()
        invariant
            k <= s.len(),
            out@ == escape_html(s@.take(k as int)),
        decreases s.len() - k,
    {
        let c = s[k];
        let ghost before = out@;
        if c == '&' {
            out.push('&');
            out.push('a');
            out.push('m');
            out.push('p');
            out.push(';');
        } else if c == '<' {
            out.push('&');
            out.push('l');
            out.push('t');
            out.push(';');
        } else if c == '>' {
            out.push('&');
            out.push('g');
            out.push('t');
            out.push(';');
        } else if c == '"' {
            out.push('&');
            out.push('q');
            out.push('u');
            out.push('o');
            out.push('t');
            out.push(';');
        } else if c == '\'' {
            out.push('&');
            out.push('#');
            out.push('3');
            out.push('9');
            out.push(';');
        } else {
            out.push(c);
        }
        proof {
            assert(s@.take(k + 1).drop_last() =~= s@.take(k as int));
            assert(out@ =~= before + escape_char(c));
        }
        k = k + 1;
    }
    proof {
        assert(s@.take(s.len() as int) =~= s@);
    }
    out
}

// ---------------------------------------------------------------------------
// UTF-8 byte offsets.
// ---------------------------------------------------------------------------

/// The number of bytes of the UTF-8 encoding of `c`.
pub open spec fn utf8_width(c: char) -> nat {
    let u = c as u32;
    if u < 0x80 {
        1
    } else if u < 0x800 {
        2
    } else if u < 0x10000 {
        3
    } else {
        4
    }
}

/// The number of bytes of the UTF-8 encoding of `s`.
pub open spec fn utf8_len(s: Seq<char>) -> nat
    decreases s.len(),
{
    if s.len() == 0 {
        0
    } else {
        utf8_len(s.drop_last()) + utf8_width(s.last())
    }
}

/// The character position of `s` that starts at byte offset `b`, if `b` is a
/// character boundary within (or at the end of) `s`.
pub open spec fn char_at_byte(s: Seq<char>, b: int) -> Option<int> {
    if exists|k: int| 0 <= k <= s.len() && utf8_len(#[trigger] s.take(k)) == b {
        Some(choose|k: int| 0 <= k <= s.len() && utf8_len(#[trigger] s.take(k)) == b)
    } else {
        None
    }
}

proof fn lemma_utf8_take_step(s: Seq<char>, k: int)
    requires
        0 <= k < s.len(),
    ensures
        utf8_len(s.take(k + 1)) == utf8_len(s.take(k)) + utf8_width(s[k]),
{
    assert(s.take(k + 1).drop_last() =~= s.take(k));
}

proof fn lemma_utf8_take_increasing(s: Seq<char>, i: int, j: int)
    requires
        0 <= i < j <= s.len(),
    ensures
        utf8_len(s.take(i)) < utf8_len(s.take(j)),
    decreases j - i,
{
    lemma_utf8_take_step(s, j - 1);
    if i < j - 1 {
        lemma_utf8_take_increasing(s, i, j - 1);
    }
}

proof fn lemma_utf8_len_bound(s: Seq<char>)
    ensures
        utf8_len(s) <= 4 * s.len(),
    decreases s.len(),
{
    if s.len() > 0 {
        lemma_utf8_len_bound(s.drop_last());
    }
}

fn utf8_width_exec(c: char) -> (r: u128)
    ensures
        r == utf8_width(c),
{
    let u = c as u32;
    if u < 0x80 {
        1
    } else if u < 0x800 {
        2
    } else if u < 0x10000 {
        3
    } else {
        4
    }
}

/// The UTF-8 length of the first `k` characters of `s`.
fn utf8_prefix_len(s: &[char], k: usize) -> (r: u128)
    requires
        k <= s.len(),
    ensures
        r == utf8_len(s@.take(k as int)),
{
    let mut total: u128 = 0;
    let mut i: usize = 0;
    proof {
        assert(s@.take(0) =~= Seq::<char>::empty());
    }
    while i < k
        invariant
            i <= k <= s.len(),
            total == utf8_len(s@.take(i as int)),
            total <= 4 * i,
        decreases k - i,
    {
        proof {
            lemma_utf8_take_step(s@, i as int);
        }
        total = total + utf8_width_exec(s[i]);
        i = i + 1;
    }
    total
}

/// The character position that starts at byte offset `b` of `s`.
fn char_at_byte_exec(s: &[char], b: u128) -> (r: Option<usize>)
    ensures
        r matches Some(k) ==> char_at_byte(s@, b as int) == Some(k as int),
        r is None ==> char_at_byte(s@, b as int) is None,
{
    let mut total: u128 = 0;
    let mut k: usize = 0;
    proof {
        assert(s@.take(0) =~= Seq::<char>::empty());
    }
    while k < s.len() && total < b
        invariant
            k <= s.len(),
            total == utf8_len(s@.take(k as int)),
            total <= 4 * k,
            forall|m: int| 0 <= m < k ==> utf8_len(#[trigger] s@.take(m)) < b,
        decreases s.len() - k,
    {
        proof {
            lemma_utf8_take_step(s@, k as int);
        }
        total = total + utf8_width_exec(s[k]);
        k = k + 1;
    }
    if total == b {
        proof {
            assert(utf8_len(s@.take(k as int)) == b);
            let c = choose|m: int| 0 <= m <= s@.len() && utf8_len(#[trigger] s@.take(m)) == b;
            if c < k {
                lemma_utf8_take_increasing(s@, c, k as int);
            } else if c > k {
                lemma_utf8_take_increasing(s@, k as int, c);
            }
        }
        Some(k)
    } else {
        proof {
            assert forall|m: int| 0 <= m <= s@.len() implies utf8_len(#[trigger] s@.take(m)) != b by {
                if m > k {
                    lemma_utf8_take_increasing(s@, k as int, m);
                }
            }
        }
        None
    }
}

// ---------------------------------------------------------------------------
// Highlighting a value.
// ---------------------------------------------------------------------------

/// The first token, in order, that is not empty and occurs in `h`.
pub open spec fn first_contained(toks: Seq<Seq<char>>, h: Seq<char>) -> Option<Seq<char>>
    decreases toks.len(),
{
    if toks.len() == 0 {
        None
    } else if toks[0].len() > 0 && contains(h, toks[0]) {
        Some(toks[0])
    } else {
        first_contained(toks.drop_first(), h)
    }
}

/// The character range of `esc` to mark for token `t`: the first occurrence
/// of `t` in the lowercased text `low` gives a byte range, which is mapped back
/// onto `esc`; `None` when that range does not fall on character boundaries of
/// `esc` (where slicing the string would panic).
pub open spec fn mark_range(esc: Seq<char>, low: Seq<char>, t: Seq<char>) -> Option<(int, int)> {
    match find(low, t) {
        None => None,
        Some(k) => {
            let start = utf8_len(low.take(k));
            let end = start + utf8_len(t);
            match (char_at_byte(esc, start as int), char_at_byte(esc, end as int)) {
                (Some(a), Some(b)) => Some((a, b)),
                _ => None,
            }
        },
    }
}

/// The opening tag.
pub open spec fn open_mark() -> Seq<char> {
    seq!['<', 'm', 'a', 'r', 'k', '>']
}

/// The closing tag.
pub open spec fn close_mark() -> Seq<char> {
    seq!['<', '/', 'm', 'a', 'r', 'k', '>']
}

/// The highlighted form of a field value: the HTML escape of `value`, with
/// the first occurrence of the first query token it contains (compared on the
/// lowercased escape) wrapped in `<mark>`; `None` where the byte range of the
/// occurrence does not fall on character boundaries of the escaped value.
pub open spec fn highlight(value: Seq<char>, toks: Seq<Seq<char>>) -> Option<Seq<char>> {
    let esc = escape_html(value);
    let low = lowercase(esc);
    match first_contained(toks, low) {
        None => Some(esc),
        Some(t) => match mark_range(esc, low, t) {
            Some((a, b)) => Some(
                esc.take(a) + open_mark() + esc.subrange(a, b) + close_mark() + esc.skip(b),
            ),
            None => None,
        },
    }
}

proof fn lemma_first_contained(toks: Seq<Seq<char>>, h: Seq<char>)
    ensures
        first_contained(toks, h) matches Some(t) ==> contains(h, t),
    decreases toks.len(),
{
    if toks.len() > 0 {
        lemma_first_contained(toks.drop_first(), h);
    }
}

/// Highlights a field value; `None` where slicing the escaped value at the
/// match would fall off a character boundary.
pub fn highlight_value(value: &String, toks: &Vec<Vec<char>>) -> (r: Option<String>)
    ensures
        r matches Some(s) ==> highlight(value@, views(toks@)) == Some(s@),
        r is None ==> highlight(value@, views(toks@)) is None,
{
    let esc = escape_html_chars(chars_of(value.as_str()).as_slice());
    let low = lowercase_chars(esc.as_slice());
    let ghost vt = views(toks@);
    let mut i: usize = 0;
    let mut chosen: Option<usize> = None;
    proof {
        assert(vt.skip(0) =~= vt);
    }
    while i < toks.len()
        invariant_except_break
            chosen is None,
        invariant
            i <= toks.len(),
            vt == views(toks@),
            first_contained(vt, low@) == first_contained(vt.skip(i as int), low@),
        ensures
            chosen matches Some(j) ==> j < toks.len() && first_contained(vt, low@) == Some(
                toks@[j as int]@,
            ),
            chosen is None ==> first_contained(vt, low@) is None,
        decreases toks.len() - i,
    {
        proof {
            assert(vt.skip(i as int)[0] == toks@[i as int]@);
            assert(vt.skip(i as int).drop_first() =~= vt.skip(i + 1));
        }
        if toks[i].len() > 0 && contains_chars(low.as_slice(), toks[i].as_slice()) {
            chosen = Some(i);
            break;
        }
        i = i + 1;
    }
    match chosen {
        None => {
            Some(string_from_chars(esc.as_slice()))
        },
        Some(i) => {
            let t = toks[i].as_slice();
            assert(first_contained(vt, low@) == Some(t@));
            proof {
                lemma_first_contained(vt, low@);
            }
            let k = match find_chars(low.as_slice(), t) {
                Some(k) => k,
                None => {
                    return None;
                },
            };
            proof {
                lemma_find_from(low@, t@, 0);
                lemma_utf8_len_bound(low@.take(k as int));
                lemma_utf8_len_bound(t@);
            }
            let start = utf8_prefix_len(low.as_slice(), k);
            let tlen = utf8_prefix_len(t, t.len());
            proof {
                assert(t@.take(t.len() as int) =~= t@);
            }
            let end = start + tlen;
            let a = match char_at_byte_exec(esc.as_slice(), start) {
                Some(a) => a,
                None => {
                    return None;
                },
            };
            let b = match char_at_byte_exec(esc.as_slice(), end) {
                Some(b) => b,
                None => {
                    return None;
                },
            };
            proof {
                let c = choose|m: int| 0 <= m <= esc@.len() && utf8_len(#[trigger] esc@.take(m)) == start;
                let d = choose|m: int| 0 <= m <= esc@.len() && utf8_len(#[trigger] esc@.take(m)) == end;
                assert(a as int == c && b as int == d);
                if b < a {
                    lemma_utf8_take_increasing(esc@, b as int, a as int);
                }
            }
            let mut out = slice_chars(esc.as_slice(), 0, a);
            let open: Vec<char> = vec!['<', 'm', 'a', 'r', 'k', '>'];
            let close: Vec<char> = vec!['<', '/', 'm', 'a', 'r', 'k', '>'];
            let middle = slice_chars(esc.as_slice(), a, b);
            let rest = slice_chars(esc.as_slice(), b, esc.len());
            push_all(&mut out, open.as_slice());
            push_all(&mut out, middle.as_slice());
            push_all(&mut out, close.as_slice());
            push_all(&mut out, rest.as_slice());
            proof {
                assert(open@ =~= open_mark());
                assert(close@ =~= close_mark());
                assert(esc@.take(a as int) =~= esc@.subrange(0, a as int));
                assert(esc@.skip(b as int) =~= esc@.subrange(b as int, esc@.len() as int));
            }
            Some(string_from_chars(out.as_slice()))
        },
    }
}

} // verus!
