//! Matching a query token against a searchable field: substring, prefix and
//! bounded edit distance.

use vstd::prelude::*;
use crate::text::views;

verus! {

/// `n` occurs in `h` starting at position `i`.
pub open spec fn occurs_at(h: Seq<char>, n: Seq<char>, i: int) -> bool {
    0 <= i && i + n.len() <= h.len() && h.subrange(i, i + n.len()) == n
}

/// The first position at or after `i` where `n` occurs in `h`.
pub open spec fn find_from(h: Seq<char>, n: Seq<char>, i: int) -> Option<int>
    decreases h.len() + 1 - i,
{
    if i < 0 || i + n.len() > h.len() {
        None
    } else if occurs_at(h, n, i) {
        Some(i)
    } else {
        find_from(h, n, i + 1)
    }
}

/// The first position where `n` occurs in `h`, counted in characters.
pub open spec fn find(h: Seq<char>, n: Seq<char>) -> Option<int> {
    find_from(h, n, 0)
}

/// `n` occurs in `h` (`str::contains`).
pub open spec fn contains(h: Seq<char>, n: Seq<char>) -> bool {
    find(h, n) is Some
}

/// `a` begins with `p` (`str::starts_with`).
pub open spec fn starts_with(a: Seq<char>, p: Seq<char>) -> bool {
    occurs_at(a, p, 0)
}

/// What `find_from` returns is an occurrence, and none comes between `i` and it.
pub proof fn lemma_find_from(h: Seq<char>, n: Seq<char>, i: int)
    requires
        0 <= i,
    ensures
        find_from(h, n, i) matches Some(k) ==> i <= k && occurs_at(h, n, k) && forall|m: int|
            i <= m < k ==> !occurs_at(h, n, m),
        find_from(h, n, i) is None ==> forall|m: int| i <= m ==> !occurs_at(h, n, m),
    decreases h.len() + 1 - i,
{
    if i + n.len() <= h.len() && !occurs_at(h, n, i) {
        lemma_find_from(h, n, i + 1);
    }
}

/// Whether `n` occurs in `h` at position `i`.
pub fn occurs_at_exec(h: &[char], n: &[char], i: usize) -> (r: bool)
    ensures
        r == occurs_at(h@, n@, i as int),
{
    if i > h.len() || n.len() > h.len() - i {
        return false;
    }
    let mut k: usize = 0;
    while k < n.len()
        invariant
            i + n.len() <= h.len(),
            k <= n.len(),
            h@.subrange(i as int, i + k) == n@.take(k as int),
        decreases n.len() - k,
    {
        if h[i + k] != n[k] {
            assert(h@.subrange(i as int, i + n.len())[k as int] != n@[k as int]);
            return false;
        }
        assert(h@.subrange(i as int, i + k + 1) =~= n@.take(k + 1));
        k = k + 1;
    }
    assert(n@.take(n.len() as int) =~= n@);
    true
}

/// The first position where `n` occurs in `h` (`str::find`, counted in characters).
pub fn find_chars(h: &[char], n: &[char]) -> (r: Option<usize>)
    ensures
        r matches Some(k) ==> find(h@, n@) == Some(k as int),
        r is None ==> find(h@, n@) is None,
{
    if n.len() > h.len() {
        return None;
    }
    let last = h.len() - n.len();
    let mut i: usize = 0;
    while i <= last
        invariant
            last == h.len() - n.len(),
            n.len() <= h.len(),
            find(h@, n@) == find_from(h@, n@, i as int),
        decreases last + 1 - i,
    {
        if occurs_at_exec(h, n, i) {
            return Some(i);
        }
        if i == last {
            assert(find_from(h@, n@, i + 1) is None);
            return None;
        }
        i = i + 1;
    }
    None
}

/// Whether `n` occurs in `h`.
pub fn contains_chars(h: &[char], n: &[char]) -> (r: bool)
    ensures
        r == contains(h@, n@),
{
    find_chars(h, n).is_some()
}

/// Whether `a` begins with `p`.
pub fn starts_with_chars(a: &[char], p: &[char]) -> (r: bool)
    ensures
        r == starts_with(a@, p@),
{
    occurs_at_exec(a, p, 0)
}

// ---------------------------------------------------------------------------
// Edit distance.
// ---------------------------------------------------------------------------

/// The smallest of three numbers.
pub open spec fn min3(x: nat, y: nat, z: nat) -> nat {
    let m = if x <= y {
        x
    } else {
        y
    };
    if m <= z {
        m
    } else {
        z
    }
}

/// The Levenshtein distance between the first `i` characters of `a` and the
/// first `j` characters of `b` (insertions, deletions and substitutions cost one).
pub open spec fn lev(a: Seq<char>, b: Seq<char>, i: nat, j: nat) -> nat
    decreases i + j,
{
    if i == 0 {
        j
    } else if j == 0 {
        i
    } else {
        min3(
            lev(a, b, (i - 1) as nat, (j - 1) as nat) + (if a[i - 1] == b[j - 1] {
                0nat
            } else {
                1nat
            }),
            lev(a, b, i, (j - 1) as nat) + 1,
            lev(a, b, (i - 1) as nat, j) + 1,
        )
    }
}

/// The Levenshtein distance between `a` and `b`.
pub open spec fn edit_distance(a: Seq<char>, b: Seq<char>) -> nat {
    lev(a, b, a.len(), b.len())
}

/// A distance is at most the longer prefix length.
pub proof fn lemma_lev_bound(a: Seq<char>, b: Seq<char>, i: nat, j: nat)
    ensures
        lev(a, b, i, j) <= if i <= j {
            j
        } else {
            i
        },
    decreases i + j,
{
    if i > 0 && j > 0 {
        lemma_lev_bound(a, b, (i - 1) as nat, (j - 1) as nat);
    }
}

/// The Levenshtein distance between `a` and `b`, by dynamic programming over
/// two rows.
pub fn levenshtein(a: &[char], b: &[char]) -> (r: usize)
    ensures
        r == edit_distance(a@, b@),
{
    let m = b.len();
    let mut previous: Vec<u128> = Vec::new();
    let mut current: Vec<u128> = Vec::new();
    let mut j: usize = 0;
    loop
        invariant_except_break
            j <= m,
            previous@.len() == j,
            current@.len() == j,
            forall|k: int| 0 <= k < j ==> previous@[k] == lev(a@, b@, 0, k as nat),
        invariant
            m == b.len(),
        ensures
            previous@.len() == m + 1,
            current@.len() == m + 1,
            forall|k: int| 0 <= k <= m ==> previous@[k] == lev(a@, b@, 0, k as nat),
        decreases m - j,
    {
        previous.push(j as u128);
        current.push(0);
        if j == m {
            break;
        }
        j = j + 1;
    }
    let mut i: usize = 0;
    while i < a.len()
        invariant
            i <= a.len(),
            m == b.len(),
            previous@.len() == m + 1,
            current@.len() == m + 1,
            forall|k: int| 0 <= k <= m ==> previous@[k] == lev(a@, b@, i as nat, k as nat),
        decreases a.len() - i,
    {
        let ac = a[i];
        current.set(0, (i as u128) + 1);
        let mut k: usize = 0;
        while k < m
            invariant
                i < a.len(),
                k <= m,
                m == b.len(),
                ac == a@[i as int],
                previous@.len() == m + 1,
                current@.len() == m + 1,
                forall|x: int| 0 <= x <= m ==> previous@[x] == lev(a@, b@, i as nat, x as nat),
                forall|x: int| 0 <= x <= k ==> current@[x] == lev(a@, b@, (i + 1) as nat, x as nat),
            decreases m - k,
        {
            proof {
                lemma_lev_bound(a@, b@, i as nat, k as nat);
                lemma_lev_bound(a@, b@, (i + 1) as nat, k as nat);
                lemma_lev_bound(a@, b@, i as nat, (k + 1) as nat);
            }
            let diff: u128 = if ac != b[k] {
                1
            } else {
                0
            };
            let substitution = previous[k] + diff;
            let insertion = current[k] + 1;
            let deletion = previous[k + 1] + 1;
            let smaller = if substitution <= insertion {
                substitution
            } else {
                insertion
            };
            let best = if smaller <= deletion {
                smaller
            } else {
                deletion
            };
            current.set(k + 1, best);
            k = k + 1;
        }
        let tmp = previous;
        previous = current;
        current = tmp;
        i = i + 1;
    }
    proof {
        lemma_lev_bound(a@, b@, a.len() as nat, m as nat);
    }
    previous[m] as usize
}

// ---------------------------------------------------------------------------
// Matching a token against a field.
// ---------------------------------------------------------------------------

/// How a query token matched a field; ranks prefer exact, then prefix, then typo matches.
#[derive(Clone, Copy, Debug, PartialEq, Eq, Structural)]
pub enum MatchKind {
    Exact,
    Prefix,
    Typo,
}

impl MatchKind {
    /// The rank penalty of the match: exact 0, prefix 1, typo 2.
    pub open spec fn spec_quality(self) -> nat {
        match self {
            MatchKind::Exact => 0,
            MatchKind::Prefix => 1,
            MatchKind::Typo => 2,
        }
    }

    /// The rank penalty of the match: exact 0, prefix 1, typo 2.
    pub fn quality(self) -> (r: usize)
        ensures
            r == self.spec_quality(),
    {
        match self {
            MatchKind::Exact => 0,
            MatchKind::Prefix => 1,
            MatchKind::Typo => 2,
        }
    }
}

/// The largest edit distance a token may be from a word and still count as a
/// typo match: none up to 3 characters, 1 up to 7, 2 beyond.
pub open spec fn typo_threshold(t: Seq<char>) -> Option<nat> {
    if t.len() <= 3 {
        None
    } else if t.len() <= 7 {
        Some(1)
    } else {
        Some(2)
    }
}

/// Some word of the field begins with the token.
pub open spec fn some_prefix(words: Seq<Seq<char>>, t: Seq<char>) -> bool {
    exists|k: int| 0 <= k < words.len() && starts_with(#[trigger] words[k], t)
}

/// Some word of the field is within `limit` edits of the token.
pub open spec fn some_close(words: Seq<Seq<char>>, t: Seq<char>, limit: nat) -> bool {
    exists|k: int| 0 <= k < words.len() && edit_distance(t, #[trigger] words[k]) <= limit
}

/// How token `t` matches a field whose lowercased text is `text` and whose
/// words are `words`: a substring of the text, else a prefix of a word, else
/// (with typo tolerance) close to a word; `None` when it does not match.
pub open spec fn match_kind(text: Seq<char>, words: Seq<Seq<char>>, t: Seq<char>, typo: bool) -> Option<
    MatchKind,
> {
    if contains(text, t) {
        Some(MatchKind::Exact)
    } else if some_prefix(words, t) {
        Some(MatchKind::Prefix)
    } else if typo && typo_threshold(t) is Some && some_close(words, t, typo_threshold(t)->0) {
        Some(MatchKind::Typo)
    } else {
        None
    }
}

/// The typo threshold of a token.
pub fn typo_threshold_of(t: &[char]) -> (r: Option<usize>)
    ensures
        r matches Some(v) ==> typo_threshold(t@) == Some(v as nat),
        r is None ==> typo_threshold(t@) is None,
{
    let n = t.len();
    if n <= 3 {
        None
    } else if n <= 7 {
        Some(1)
    } else {
        Some(2)
    }
}

/// How token `t` matches the field with lowercased text `text` and words `words`.
pub fn match_field(text: &[char], words: &Vec<Vec<char>>, t: &[char], typo: bool) -> (r: Option<
    MatchKind,
>)
    ensures
        r == match_kind(text@, views(words@), t@, typo),
{
    let ghost w = views(words@);
    if contains_chars(text, t) {
        return Some(MatchKind::Exact);
    }
    assert(!contains(text@, t@));
    let mut k: usize = 0;
    while k < words.len()
        invariant
            k <= words.len(),
            w == views(words@),
            !contains(text@, t@),
            forall|x: int| 0 <= x < k ==> !starts_with(#[trigger] w[x], t@),
        decreases words.len() - k,
    {
        if starts_with_chars(words[k].as_slice(), t) {
            assert(starts_with(w[k as int], t@));
            assert(some_prefix(w, t@));
            return Some(MatchKind::Prefix);
        }
        k = k + 1;
    }
    if !typo {
        return None;
    }
    let limit = match typo_threshold_of(t) {
        Some(v) => v,
        None => {
            return None;
        },
    };
    let mut k: usize = 0;
    while k < words.len()
        invariant
            k <= words.len(),
            w == views(words@),
            typo,
            !contains(text@, t@),
            !some_prefix(w, t@),
            typo_threshold(t@) == Some(limit as nat),
            forall|x: int| 0 <= x < k ==> edit_distance(t@, #[trigger] w[x]) > limit,
        decreases words.len() - k,
    {
        if levenshtein(t, words[k].as_slice()) <= limit {
            assert(edit_distance(t@, w[k as int]) <= limit);
            assert(some_close(w, t@, limit as nat));
            return Some(MatchKind::Typo);
        }
        k = k + 1;
    }
    None
}

} // verus!
