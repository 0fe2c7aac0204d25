//! Three-way comparison and the lexicographic order on character sequences
//! (the order of `String`, since UTF-8 byte order agrees with code point order).

use vstd::prelude::*;

verus! {

/// The outcome of a three-way comparison.
#[derive(Clone, Copy, Debug, PartialEq, Eq, Structural)]
pub enum Rel {
    Less,
    Equal,
    Greater,
}

impl Rel {
    /// The outcome with both sides swapped.
    pub open spec fn flip(self) -> Rel {
        match self {
            Rel::Less => Rel::Greater,
            Rel::Equal => Rel::Equal,
            Rel::Greater => Rel::Less,
        }
    }

    /// The outcome of the comparison when the order is reversed (descending).
    pub fn reversed(self) -> (r: Rel)
        ensures
            r == self.flip(),
    {
        match self {
            Rel::Less => Rel::Greater,
            Rel::Equal => Rel::Equal,
            Rel::Greater => Rel::Less,
        }
    }
}

/// Three-way comparison of two integers.
pub open spec fn compare_int(a: int, b: int) -> Rel {
    if a < b {
        Rel::Less
    } else if a > b {
        Rel::Greater
    } else {
        Rel::Equal
    }
}

/// Three-way comparison of two `u64` values.
pub fn compare_u64(a: u64, b: u64) -> (r: Rel)
    ensures
        r == compare_int(a as int, b as int),
{
    if a < b {
        Rel::Less
    } else if a > b {
        Rel::Greater
    } else {
        Rel::Equal
    }
}

/// Three-way comparison of two `usize` values.
pub fn compare_usize(a: usize, b: usize) -> (r: Rel)
    ensures
        r == compare_int(a as int, b as int),
{
    if a < b {
        Rel::Less
    } else if a > b {
        Rel::Greater
    } else {
        Rel::Equal
    }
}

/// Lexicographic comparison of two character sequences by code point.
pub open spec fn lex_order(a: Seq<char>, b: Seq<char>) -> Rel
    decreases a.len(),
{
    if a.len() == 0 {
        if b.len() == 0 {
            Rel::Equal
        } else {
            Rel::Less
        }
    } else if b.len() == 0 {
        Rel::Greater
    } else if (a[0] as u32) != (b[0] as u32) {
        compare_int(a[0] as u32 as int, b[0] as u32 as int)
    } else {
        lex_order(a.drop_first(), b.drop_first())
    }
}

/// `a` comes strictly before `b` in lexicographic order.
pub open spec fn lex_lt(a: Seq<char>, b: Seq<char>) -> bool {
    lex_order(a, b) == Rel::Less
}

/// Each element comes strictly before the next: the sequence is sorted and has no duplicates.
pub open spec fn strictly_sorted(s: Seq<Seq<char>>) -> bool {
    forall|i: int, j: int| 0 <= i < j < s.len() ==> lex_lt(#[trigger] s[i], #[trigger] s[j])
}

proof fn lemma_char_eq(a: char, b: char)
    requires
        (a as u32) == (b as u32),
    ensures
        a == b,
{
    vstd::utf8::char_u32_cast(a, a as u32);
    vstd::utf8::char_u32_cast(b, b as u32);
}

/// Swapping the arguments flips the outcome.
pub proof fn lemma_lex_flip(a: Seq<char>, b: Seq<char>)
    ensures
        lex_order(b, a) == lex_order(a, b).flip(),
    decreases a.len(),
{
    if a.len() > 0 && b.len() > 0 && (a[0] as u32) == (b[0] as u32) {
        lemma_lex_flip(a.drop_first(), b.drop_first());
    }
}

/// The comparison reports `Equal` exactly for equal sequences.
pub proof fn lemma_lex_equal(a: Seq<char>, b: Seq<char>)
    ensures
        (lex_order(a, b) == Rel::Equal) == (a == b),
    decreases a.len(),
{
    if a.len() == 0 && b.len() == 0 {
        assert(a =~= b);
    }
    if a.len() > 0 && b.len() > 0 {
        if (a[0] as u32) == (b[0] as u32) {
            lemma_char_eq(a[0], b[0]);
            lemma_lex_equal(a.drop_first(), b.drop_first());
            if a.drop_first() == b.drop_first() {
                assert(a =~= seq![a[0]] + a.drop_first());
                assert(b =~= seq![b[0]] + b.drop_first());
            }
        }
    }
}

/// The lexicographic order is transitive, strictly so when either step is strict.
pub proof fn lemma_lex_trans(a: Seq<char>, b: Seq<char>, c: Seq<char>)
    requires
        lex_order(a, b) != Rel::Greater,
        lex_order(b, c) != Rel::Greater,
    ensures
        lex_order(a, c) != Rel::Greater,
        (lex_order(a, b) == Rel::Less || lex_order(b, c) == Rel::Less) ==> lex_order(a, c) == Rel::Less,
    decreases a.len(),
{
    lemma_lex_equal(a, b);
    lemma_lex_equal(b, c);
    if a.len() > 0 && b.len() > 0 && c.len() > 0 {
        if (a[0] as u32) == (b[0] as u32) && (b[0] as u32) == (c[0] as u32) {
            lemma_lex_trans(a.drop_first(), b.drop_first(), c.drop_first());
        }
    }
}

/// Compares two character slices lexicographically.
pub fn lex_compare(a: &[char], b: &[char]) -> (r: Rel)
    ensures
        r == lex_order(a@, b@),
{
    let mut i: usize = 0;
    proof {
        assert(a@.skip(0) =~= a@);
        assert(b@.skip(0) =~= b@);
    }
    while i < a.len() && i < b.len()
        invariant
            0 <= i <= a.len(),
            i <= b.len(),
            lex_order(a@, b@) == lex_order(a@.skip(i as int), b@.skip(i as int)),
        decreases a.len() - i,
    {
        let x = a[i] as u32;
        let y = b[i] as u32;
        if x < y {
            return Rel::Less;
        } else if x > y {
            return Rel::Greater;
        }
        proof {
            assert(a@.skip(i as int).drop_first() =~= a@.skip(i + 1));
            assert(b@.skip(i as int).drop_first() =~= b@.skip(i + 1));
        }
        i = i + 1;
    }
    if i < a.len() {
        Rel::Greater
    } else if i < b.len() {
        Rel::Less
    } else {
        Rel::Equal
    }
}

/// Whether two character slices are equal.
pub fn chars_equal(a: &[char], b: &[char]) -> (r: bool)
    ensures
        r == (a@ == b@),
{
    proof {
        lemma_lex_equal(a@, b@);
    }
    lex_compare(a, b) == Rel::Equal
}

} // verus!
