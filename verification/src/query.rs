//! Request targets: path segments, query parameters, percent-decoding and
//! unsigned decimal numbers.

use vstd::prelude::*;
use vstd::utf8::{decode_utf8, encode_utf8, valid_utf8};
use crate::text::{chars_of, string_from_chars, views};

verus! {

// ---------------------------------------------------------------------------
// Splitting.
// ---------------------------------------------------------------------------

/// `s` split at every `c` (`str::split`): always at least one piece.
pub open spec fn split_char(s: Seq<char>, c: char) -> Seq<Seq<char>>
    decreases s.len(),
{
    if s.len() == 0 {
        seq![seq![]]
    } else {
        let r = split_char(s.drop_last(), c);
        if s.last() == c {
            r.push(seq![])
        } else {
            r.update(r.len() - 1, r.last().push(s.last()))
        }
    }
}

proof fn lemma_split_char_len(s: Seq<char>, c: char)
    ensures
        split_char(s, c).len() >= 1,
    decreases s.len(),
{
    if s.len() > 0 {
        lemma_split_char_len(s.drop_last(), c);
    }
}

/// The non-empty pieces of `pieces`, in order.
pub open spec fn nonempty(pieces: Seq<Seq<char>>) -> Seq<Seq<char>>
    decreases pieces.len(),
{
    if pieces.len() == 0 {
        seq![]
    } else if pieces.last().len() == 0 {
        nonempty(pieces.drop_last())
    } else {
        nonempty(pieces.drop_last()).push(pieces.last())
    }
}

/// The pieces of `s` split at `c`.
pub fn split_chars(s: &[char], c: char) -> (r: Vec<Vec<char>>)
    ensures
        views(r@) == split_char(s@, c),
{
    let mut out: Vec<Vec<char>> = Vec::new();
    let mut cur: Vec<char> = Vec::new();
    let mut i: usize = 0;
    proof {
        assert(s@.take(0) =~= Seq::<char>::empty());
        assert(views(out@).push(cur@) =~= split_char(s@.take(0), c));
    }
    while i < s.len()
        invariant
            i <= s@.len(),
            views(out@).push(cur@) == split_char(s@.take(i as int), c),
        decreases s@.len() - i,
    {
        let ghost prev = split_char(s@.take(i as int), c);
        proof {
            assert(s@.take(i + 1).drop_last() =~= s@.take(i as int));
            assert(s@.take(i + 1).last() == s@[i as int]);
            lemma_split_char_len(s@.take(i as int), c);
        }
        if s[i] == c {
            let done = cur;
            let ghost before = views(out@);
            out.push(done);
            cur = Vec::new();
            proof {
                assert(views(out@) =~= before.push(done@));
                assert(views(out@).push(cur@) =~= prev.push(seq![]));
            }
        } else {
            let ghost before = views(out@);
            cur.push(s[i]);
            proof {
                assert(views(out@).push(cur@) =~= prev.update(prev.len() - 1, prev.last().push(s@[i as int])));
            }
        }
        i = i + 1;
    }
    proof {
        assert(s@.take(s@.len() as int) =~= s@);
    }
    let ghost before = views(out@);
    out.push(cur);
    proof {
        assert(views(out@) =~= before.push(cur@));
    }
    out
}

/// The non-empty pieces, in order.
pub fn nonempty_pieces(pieces: Vec<Vec<char>>) -> (r: Vec<Vec<char>>)
    ensures
        views(r@) == nonempty(views(pieces@)),
{
    let ghost all = views(pieces@);
    let mut out: Vec<Vec<char>> = Vec::new();
    let mut rest = pieces;
    let mut stack: Vec<Vec<char>> = Vec::new();
    let n = rest.len();
    while rest.len() > 0
        invariant
            rest@.len() + stack@.len() == n,
            all.len() == n,
            forall|j: int| 0 <= j < rest@.len() ==> (#[trigger] rest@[j])@ == all[j],
            forall|j: int| 0 <= j < stack@.len() ==> (#[trigger] stack@[j])@ == all[n - 1 - j],
        decreases rest@.len(),
    {
        let p = rest.pop().unwrap();
        stack.push(p);
    }
    let mut i: usize = 0;
    proof {
        assert(all.take(0) =~= Seq::<Seq<char>>::empty());
        assert(views(out@) =~= Seq::<Seq<char>>::empty());
    }
    while stack.len() > 0
        invariant
            i + stack@.len() == n,
            all.len() == n,
            forall|j: int| 0 <= j < stack@.len() ==> (#[trigger] stack@[j])@ == all[n - 1 - j],
            views(out@) == nonempty(all.take(i as int)),
        decreases stack@.len(),
    {
        let p = stack.pop().unwrap();
        proof {
            assert(p@ == all[i as int]);
            assert(all.take(i + 1).drop_last() =~= all.take(i as int));
            assert(all.take(i + 1).last() == all[i as int]);
        }
        if p.len() > 0 {
            let ghost before = views(out@);
            out.push(p);
            proof {
                assert(views(out@) =~= before.push(all[i as int]));
            }
        }
        i = i + 1;
    }
    proof {
        assert(all.take(n as int) =~= all);
    }
    out
}

/// The non-empty segments of a path split at `/`: leading, trailing and
/// repeated slashes are ignored.
pub open spec fn path_segments(path: Seq<char>) -> Seq<Seq<char>> {
    nonempty(split_char(path, '/'))
}

/// The segments of a path.
pub fn path_segments_of(path: &str) -> (r: Vec<Vec<char>>)
    ensures
        views(r@) == path_segments(path@),
{
    let p = chars_of(path);
    let pieces = split_chars(p.as_slice(), '/');
    nonempty_pieces(pieces)
}

/// The position of the first `c` in `s`.
pub open spec fn first_char(s: Seq<char>, c: char) -> Option<int>
    decreases s.len(),
{
    if s.len() == 0 {
        None
    } else if s[0] == c {
        Some(0)
    } else {
        match first_char(s.drop_first(), c) {
            Some(i) => Some(i + 1),
            None => None,
        }
    }
}

/// The position of the first `c` in `s`.
fn first_char_exec(s: &[char], c: char) -> (r: Option<usize>)
    ensures
        r matches Some(i) ==> first_char(s@, c) == Some(i as int) && i < s@.len(),
        r is None ==> first_char(s@, c) is None,
{
    let mut i: usize = 0;
    while i < s.len()
        invariant
            i <= s@.len(),
            forall|j: int| 0 <= j < i ==> s@[j] != c,
        decreases s@.len() - i,
    {
        if s[i] == c {
            proof {
                lemma_first_char(s@, c, i as int);
            }
            return Some(i);
        }
        i = i + 1;
    }
    proof {
        lemma_first_char(s@, c, i as int);
    }
    None
}

proof fn lemma_first_char(s: Seq<char>, c: char, k: int)
    requires
        0 <= k <= s.len(),
        forall|j: int| 0 <= j < k ==> s[j] != c,
    ensures
        k < s.len() && s[k] == c ==> first_char(s, c) == Some(k),
        k == s.len() ==> first_char(s, c) is None,
    decreases k,
{
    if k > 0 {
        let t = s.drop_first();
        assert forall|j: int| 0 <= j < k - 1 implies t[j] != c by {
            assert(t[j] == s[j + 1]);
        }
        lemma_first_char(t, c, k - 1);
        assert(s[0] != c);
        if k < s.len() {
            assert(t[k - 1] == s[k]);
        }
    }
}

/// The path and query of a request target, split at the first `?` (an
/// empty query when there is none).
pub open spec fn split_target(url: Seq<char>) -> (Seq<char>, Seq<char>) {
    match first_char(url, '?') {
        Some(i) => (url.take(i), url.skip(i + 1)),
        None => (url, seq![]),
    }
}

/// Splits a request target into path and query.
pub fn split_target_of(url: &str) -> (r: (String, String))
    ensures
        (r.0@, r.1@) == split_target(url@),
{
    let u = chars_of(url);
    match first_char_exec(u.as_slice(), '?') {
        Some(i) => {
            assert(i < u@.len());
            assert(u@.len() == u.len());
            let path = crate::text::slice_chars(u.as_slice(), 0, i);
            let query = crate::text::slice_chars(u.as_slice(), i + 1, u.len());
            proof {
                assert(path@ =~= u@.take(i as int));
                assert(query@ =~= u@.skip(i + 1));
            }
            (string_from_chars(path.as_slice()), string_from_chars(query.as_slice()))
        },
        None => (string_from_chars(u.as_slice()), string_from_chars(Vec::<char>::new().as_slice())),
    }
}

// ---------------------------------------------------------------------------
// Unsigned decimal numbers.
// ---------------------------------------------------------------------------

/// `c` is an ASCII digit.
pub open spec fn is_digit(c: char) -> bool {
    '0' <= c && c <= '9'
}

/// The value of a string of ASCII digits.
pub open spec fn digits_value(s: Seq<char>) -> int
    decreases s.len(),
{
    if s.len() == 0 {
        0
    } else {
        digits_value(s.drop_last()) * 10 + (s.last() as int - '0' as int)
    }
}

/// The characters of `s` after an optional leading `+`.
pub open spec fn unsigned_digits(s: Seq<char>) -> Seq<char> {
    if s.len() > 0 && s[0] == '+' {
        s.drop_first()
    } else {
        s
    }
}

/// Every character of `d` is an ASCII digit.
pub open spec fn all_digits(d: Seq<char>) -> bool {
    forall|i: int| 0 <= i < d.len() ==> is_digit(#[trigger] d[i])
}

/// An unsigned number as `str::parse` reads it for a type whose largest
/// value is `max`: an optional `+`, then one or more ASCII digits, with a
/// value of at most `max`; `None` otherwise.
pub open spec fn parse_unsigned(s: Seq<char>, max: int) -> Option<int> {
    let d = unsigned_digits(s);
    if d.len() > 0 && all_digits(d) && digits_value(d) <= max {
        Some(digits_value(d))
    } else {
        None
    }
}

proof fn lemma_digits_value_nonneg(s: Seq<char>)
    requires
        forall|i: int| 0 <= i < s.len() ==> is_digit(#[trigger] s[i]),
    ensures
        digits_value(s) >= 0,
    decreases s.len(),
{
    if s.len() > 0 {
        lemma_digits_value_nonneg(s.drop_last());
    }
}

proof fn lemma_digits_value_grows(s: Seq<char>, k: int)
    requires
        0 <= k <= s.len(),
        forall|i: int| 0 <= i < s.len() ==> is_digit(#[trigger] s[i]),
    ensures
        digits_value(s.take(k)) <= digits_value(s),
    decreases s.len() - k,
{
    if k < s.len() {
        lemma_digits_value_grows(s, k + 1);
        assert(s.take(k + 1).drop_last() =~= s.take(k));
        assert(forall|i: int| 0 <= i < s.take(k).len() ==> is_digit(#[trigger] s.take(k)[i]));
        lemma_digits_value_nonneg(s.take(k));
    } else {
        assert(s.take(k) =~= s);
    }
}

/// Reads an unsigned number whose value is at most `max`.
pub fn parse_unsigned_chars(s: &[char], max: u64) -> (r: Option<u64>)
    ensures
        r matches Some(v) ==> parse_unsigned(s@, max as int) == Some(v as int),
        r is None ==> parse_unsigned(s@, max as int) is None,
{
    let start: usize = if s.len() > 0 && s[0] == '+' {
        1
    } else {
        0
    };
    let ghost d = if s@.len() > 0 && s@[0] == '+' {
        s@.drop_first()
    } else {
        s@
    };
    proof {
        assert(d =~= s@.skip(start as int));
    }
    if start >= s.len() {
        return None;
    }
    let mut value: u64 = 0;
    let mut i: usize = start;
    proof {
        assert(d.take(0) =~= Seq::<char>::empty());
    }
    while i < s.len()
        invariant
            start <= i <= s@.len(),
            d == s@.skip(start as int),
            d == unsigned_digits(s@),
            d.len() > 0,
            value as int == digits_value(d.take(i - start)),
            value <= max,
            forall|j: int| 0 <= j < i - start ==> is_digit(#[trigger] d[j]),
        decreases s@.len() - i,
    {
        let c = s[i];
        proof {
            assert(d[i - start] == c);
        }
        if !('0' <= c && c <= '9') {
            proof {
                assert(!is_digit(d[i - start]));
                assert(!all_digits(d));
            }
            return None;
        }
        let digit = (c as u32 - '0' as u32) as u64;
        proof {
            assert(d.take(i + 1 - start).drop_last() =~= d.take(i - start));
            assert(d.take(i + 1 - start).last() == c);
        }
        if digit > max || value > (max - digit) / 10 {
            proof {
                assert(value * 10 + digit > max) by (nonlinear_arith)
                    requires
                        digit > max || value > (max - digit) / 10,
                        value >= 0,
                ;
                assert forall|j: int| 0 <= j < i + 1 - start implies is_digit(#[trigger] d[j]) by {}
                let k = i + 1 - start;
                assert(digits_value(d.take(k)) == value * 10 + digit);
                if all_digits(d) {
                    lemma_digits_value_grows(d, k);
                    assert(digits_value(d) > max);
                }
            }
            return None;
        }
        proof {
            assert(value * 10 + digit <= max) by (nonlinear_arith)
                requires
                    value <= (max - digit) / 10,
                    digit <= 9,
            ;
        }
        value = value * 10 + digit;
        i = i + 1;
    }
    proof {
        assert(d.take(s@.len() - start) =~= d);
    }
    Some(value)
}

// ---------------------------------------------------------------------------
// `name=value` query parameters read as numbers.
// ---------------------------------------------------------------------------

/// The first `name=value` pair among `pairs` whose value reads as a `usize`,
/// read as one (`split_once('=')` on each pair; pairs without `=`, with
/// another name or with an unreadable value are passed over).
pub open spec fn usize_param(pairs: Seq<Seq<char>>, name: Seq<char>) -> Option<int>
    decreases pairs.len(),
{
    if pairs.len() == 0 {
        None
    } else {
        let p = pairs[0];
        match first_char(p, '=') {
            Some(i) => if p.take(i) == name && parse_unsigned(p.skip(i + 1), usize::MAX as int) is Some {
                parse_unsigned(p.skip(i + 1), usize::MAX as int)
            } else {
                usize_param(pairs.drop_first(), name)
            },
            None => usize_param(pairs.drop_first(), name),
        }
    }
}

/// The value of the first `name=value` pair of `query` (pairs separated by
/// `&`) whose value reads as a `usize`.
pub fn query_usize(query: &str, name: &str) -> (r: Option<usize>)
    ensures
        r matches Some(v) ==> usize_param(split_char(query@, '&'), name@) == Some(v as int),
        r is None ==> usize_param(split_char(query@, '&'), name@) is None,
{
    let q = chars_of(query);
    let n = chars_of(name);
    let pairs = split_chars(q.as_slice(), '&');
    let ghost all = views(pairs@);
    let mut i: usize = 0;
    proof {
        assert(all.skip(0) =~= all);
    }
    while i < pairs.len()
        invariant
            i <= pairs@.len(),
            all == views(pairs@),
            all == split_char(query@, '&'),
            n@ == name@,
            usize_param(all, name@) == usize_param(all.skip(i as int), name@),
        decreases pairs@.len() - i,
    {
        let p = &pairs[i];
        proof {
            assert(all.skip(i as int)[0] == p@);
            assert(all.skip(i as int).drop_first() =~= all.skip(i + 1));
        }
        match first_char_exec(p.as_slice(), '=') {
            Some(eq) => {
                assert(eq < p@.len());
                let key = crate::text::slice_chars(p.as_slice(), 0, eq);
                let value = crate::text::slice_chars(p.as_slice(), eq + 1, p.len());
                proof {
                    assert(key@ =~= p@.take(eq as int));
                    assert(value@ =~= p@.skip(eq + 1));
                }
                if crate::order::chars_equal(key.as_slice(), n.as_slice()) {
                    match parse_unsigned_chars(value.as_slice(), usize::MAX as u64) {
                        Some(v) => {
                            return Some(v as usize);
                        },
                        None => {},
                    }
                }
            },
            None => {},
        }
        i = i + 1;
    }
    None
}

// ---------------------------------------------------------------------------
// Percent-decoded query parameters.
// ---------------------------------------------------------------------------

/// The value of a hexadecimal digit byte.
pub open spec fn hex_value(b: u8) -> Option<u8> {
    if 48 <= b <= 57 {
        Some((b - 48) as u8)
    } else if 97 <= b <= 102 {
        Some((b - 97 + 10) as u8)
    } else if 65 <= b <= 70 {
        Some((b - 65 + 10) as u8)
    } else {
        None
    }
}

/// The value of a hexadecimal digit byte.
pub fn hex(byte: u8) -> (r: Option<u8>)
    ensures
        r == hex_value(byte),
{
    if 48 <= byte && byte <= 57 {
        Some(byte - 48)
    } else if 97 <= byte && byte <= 102 {
        Some(byte - 97 + 10)
    } else if 65 <= byte && byte <= 70 {
        Some(byte - 65 + 10)
    } else {
        None
    }
}

/// Form decoding of bytes: `+` is a space, `%` and two hex digits is the
/// byte they spell, anything else stands for itself.
pub open spec fn percent_bytes(b: Seq<u8>) -> Seq<u8>
    decreases b.len(),
{
    if b.len() == 0 {
        seq![]
    } else if b[0] == 43 {
        seq![32u8] + percent_bytes(b.drop_first())
    } else if b[0] == 37 && 2 < b.len() && hex_value(b[1]) is Some && hex_value(b[2]) is Some {
        seq![(hex_value(b[1])->0 * 16 + hex_value(b[2])->0) as u8] + percent_bytes(b.skip(3))
    } else {
        seq![b[0]] + percent_bytes(b.drop_first())
    }
}

/// The text that `String::from_utf8_lossy` makes of bytes.
pub uninterp spec fn utf8_lossy(b: Seq<u8>) -> Seq<char>;

/// A byte that begins no UTF-8 sequence and continues none after a
/// complete character: a continuation byte, or one that UTF-8 never uses.
pub open spec fn stray_byte(x: u8) -> bool {
    (0x80 <= x && x <= 0xbf) || x == 0xc0 || x == 0xc1 || x >= 0xf5
}

/// What the documentation of `String::from_utf8_lossy` gives of the text
/// `t` made of `b`: valid UTF-8 is decoded as it is, and a stray byte
/// between two valid parts becomes one U+FFFD between their characters.
pub open spec fn lossy_text(b: Seq<u8>, t: Seq<char>) -> bool {
    &&& valid_utf8(b) ==> t == decode_utf8(b)
    &&& forall|v: Seq<u8>, x: u8, w: Seq<u8>|
        #![trigger stray_byte(x), decode_utf8(v), decode_utf8(w)]
        b == v + seq![x] + w && valid_utf8(v) && valid_utf8(w) && stray_byte(x) ==> t == decode_utf8(v)
            + seq!['\u{FFFD}'] + decode_utf8(w)
}

/// `String::from_utf8_lossy`: the bytes as text, each invalid sequence
/// replaced by U+FFFD. The result is named; of it the contract states what
/// the documentation says plainly: valid UTF-8 is decoded as it is, and a
/// lone byte that cannot start or continue a character there is one
/// invalid sequence, replaced by one U+FFFD.
#[verifier::external_body]
pub(crate) fn string_from_utf8_lossy(b: &[u8]) -> (r: String)
    ensures
        r@ == utf8_lossy(b@),
        lossy_text(b@, r@),
{
    String::from_utf8_lossy(b).to_string()
}

/// Form-decodes `input` and reads the bytes as UTF-8, replacing invalid
/// sequences.
pub fn percent_decode(input: &str) -> (r: String)
    ensures
        r@ == utf8_lossy(percent_bytes(encode_utf8(input@))),
        lossy_text(percent_bytes(encode_utf8(input@)), r@),
{
    let bytes = input.as_bytes();
    let ghost b = bytes@;
    let mut out: Vec<u8> = Vec::new();
    let mut i: usize = 0;
    proof {
        assert(b.skip(0) =~= b);
    }
    while i < bytes.len()
        invariant
            i <= b.len(),
            b == bytes@,
            out@ + percent_bytes(b.skip(i as int)) == percent_bytes(b),
        decreases b.len() - i,
    {
        let ghost rest = b.skip(i as int);
        proof {
            assert(rest[0] == b[i as int]);
        }
        if bytes[i] == 43 {
            out.push(32);
            proof {
                assert(rest.drop_first() =~= b.skip(i + 1));
                assert(out@ + percent_bytes(b.skip(i + 1)) =~= percent_bytes(b));
            }
            i = i + 1;
        } else if bytes[i] == 37 && bytes.len() - i > 2 {
            proof {
                assert(rest[1] == b[i + 1] && rest[2] == b[i + 2]);
            }
            match (hex(bytes[i + 1]), hex(bytes[i + 2])) {
                (Some(h), Some(l)) => {
                    out.push(h * 16 + l);
                    proof {
                        assert(rest.skip(3) =~= b.skip(i + 3));
                        assert(out@ + percent_bytes(b.skip(i + 3)) =~= percent_bytes(b));
                    }
                    i = i + 3;
                },
                _ => {
                    out.push(bytes[i]);
                    proof {
                        assert(rest.drop_first() =~= b.skip(i + 1));
                        assert(out@ + percent_bytes(b.skip(i + 1)) =~= percent_bytes(b));
                    }
                    i = i + 1;
                },
            }
        } else {
            out.push(bytes[i]);
            proof {
                assert(rest.drop_first() =~= b.skip(i + 1));
                assert(out@ + percent_bytes(b.skip(i + 1)) =~= percent_bytes(b));
            }
            i = i + 1;
        }
    }
    proof {
        assert(b.skip(b.len() as int) =~= Seq::<u8>::empty());
        assert(out@ =~= percent_bytes(b));
    }
    string_from_utf8_lossy(out.as_slice())
}

/// The name of a `name=value` pair: what comes before the first `=`, or the
/// whole pair (`splitn(2, '=')`).
pub open spec fn pair_name(p: Seq<char>) -> Seq<char> {
    match first_char(p, '=') {
        Some(i) => p.take(i),
        None => p,
    }
}

/// The value of a `name=value` pair: what comes after the first `=`, or
/// nothing.
pub open spec fn pair_value(p: Seq<char>) -> Seq<char> {
    match first_char(p, '=') {
        Some(i) => p.skip(i + 1),
        None => seq![],
    }
}

/// The raw value of the first pair named `key`.
pub open spec fn raw_param(pairs: Seq<Seq<char>>, key: Seq<char>) -> Option<Seq<char>>
    decreases pairs.len(),
{
    if pairs.len() == 0 {
        None
    } else if pair_name(pairs[0]) == key {
        Some(pair_value(pairs[0]))
    } else {
        raw_param(pairs.drop_first(), key)
    }
}

/// The form-decoded value of the first non-empty pair of `query` named `key`.
pub open spec fn query_param_spec(query: Seq<char>, key: Seq<char>) -> Option<Seq<char>> {
    match raw_param(nonempty(split_char(query, '&')), key) {
        Some(v) => Some(utf8_lossy(percent_bytes(encode_utf8(v)))),
        None => None,
    }
}

/// The form-decoded value of the first non-empty pair of `query` (pairs
/// separated by `&`) named `key`.
pub fn query_param(query: &str, key: &str) -> (r: Option<String>)
    ensures
        r matches Some(s) ==> query_param_spec(query@, key@) == Some(s@),
        r is None ==> query_param_spec(query@, key@) is None,
        r matches Some(s) ==> lossy_text(
            percent_bytes(encode_utf8(raw_param(nonempty(split_char(query@, '&')), key@)->0)),
            s@,
        ),
{
    let q = chars_of(query);
    let k = chars_of(key);
    let parts = nonempty_pieces(split_chars(q.as_slice(), '&'));
    let ghost all = views(parts@);
    let mut i: usize = 0;
    proof {
        assert(all.skip(0) =~= all);
    }
    while i < parts.len()
        invariant
            i <= parts@.len(),
            all == views(parts@),
            all == nonempty(split_char(query@, '&')),
            k@ == key@,
            raw_param(all, key@) == raw_param(all.skip(i as int), key@),
        decreases parts@.len() - i,
    {
        let p = &parts[i];
        proof {
            assert(all.skip(i as int)[0] == p@);
            assert(all.skip(i as int).drop_first() =~= all.skip(i + 1));
        }
        let (name, value) = match first_char_exec(p.as_slice(), '=') {
            Some(eq) => {
                assert(eq < p@.len());
                assert(p@.len() == p.len());
                let name = crate::text::slice_chars(p.as_slice(), 0, eq);
                let value = crate::text::slice_chars(p.as_slice(), eq + 1, p.len());
                proof {
                    assert(name@ =~= p@.take(eq as int));
                    assert(value@ =~= p@.skip(eq + 1));
                }
                (name, value)
            },
            None => {
                let name = crate::text::slice_chars(p.as_slice(), 0, p.len());
                proof {
                    assert(name@ =~= p@);
                }
                (name, Vec::new())
            },
        };
        proof {
            assert(name@ == pair_name(p@));
            assert(value@ =~= pair_value(p@));
        }
        if crate::order::chars_equal(name.as_slice(), k.as_slice()) {
            let v = string_from_chars(value.as_slice());
            return Some(percent_decode(v.as_str()));
        }
        i = i + 1;
    }
    None
}

/// The value of the first non-empty pair of `query` named `key`, read as a
/// `u32` after form decoding; `None` when there is no such pair or it does
/// not read as one.
pub fn query_param_u32(query: &str, key: &str) -> (r: Option<u32>)
    ensures
        r matches Some(v) ==> (query_param_spec(query@, key@) matches Some(s) && parse_unsigned(s, u32::MAX as int)
            == Some(v as int)),
        r is None ==> (query_param_spec(query@, key@) matches Some(s) ==> parse_unsigned(s, u32::MAX as int)
            is None),
{
    match query_param(query, key) {
        Some(s) => {
            let c = chars_of(s.as_str());
            match parse_unsigned_chars(c.as_slice(), u32::MAX as u64) {
                Some(v) => Some(v as u32),
                None => None,
            }
        },
        None => None,
    }
}

} // verus!
