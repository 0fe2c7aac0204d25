//! Sequences of entries kept in strictly increasing key order, the way a
//! `BTreeMap<String, _>` keeps its entries, with insertion by key.

use vstd::prelude::*;
use crate::order::{lemma_lex_equal, lemma_lex_flip, lemma_lex_trans, lex_compare, lex_lt, lex_order, Rel};

verus! {

/// The keys strictly increase along `s`.
pub open spec fn keys_sorted<X>(s: Seq<(Seq<char>, X)>) -> bool {
    forall|i: int, j: int| 0 <= i < j < s.len() ==> lex_lt((#[trigger] s[i]).0, (#[trigger] s[j]).0)
}

/// The position of the first entry whose key is not below `k`.
pub open spec fn key_pos<X>(s: Seq<(Seq<char>, X)>, k: Seq<char>) -> int
    decreases s.len(),
{
    if s.len() == 0 {
        0
    } else if lex_lt(s[0].0, k) {
        1 + key_pos(s.drop_first(), k)
    } else {
        0
    }
}

/// Whether `s` has an entry with key `k`, found at `key_pos`.
pub open spec fn has_key<X>(s: Seq<(Seq<char>, X)>, k: Seq<char>) -> bool {
    key_pos(s, k) < s.len() && s[key_pos(s, k)].0 == k
}

/// `s` with the entry for `k` set to `v`: replaced where `k` is present,
/// inserted in key order otherwise.
pub open spec fn upsert<X>(s: Seq<(Seq<char>, X)>, k: Seq<char>, v: X) -> Seq<(Seq<char>, X)> {
    if has_key(s, k) {
        s.update(key_pos(s, k), (k, v))
    } else {
        s.insert(key_pos(s, k), (k, v))
    }
}

/// The entries before `key_pos` have smaller keys, and (in a sorted
/// sequence) the others do not.
pub proof fn lemma_key_pos<X>(s: Seq<(Seq<char>, X)>, k: Seq<char>)
    ensures
        0 <= key_pos(s, k) <= s.len(),
        forall|i: int| 0 <= i < key_pos(s, k) ==> lex_lt((#[trigger] s[i]).0, k),
        key_pos(s, k) < s.len() ==> !lex_lt(s[key_pos(s, k)].0, k),
        keys_sorted(s) ==> forall|i: int| key_pos(s, k) <= i < s.len() ==> !lex_lt((#[trigger] s[i]).0, k),
        keys_sorted(s) && !has_key(s, k) ==> forall|i: int| 0 <= i < s.len() ==> (#[trigger] s[i]).0 != k,
    decreases s.len(),
{
    if s.len() > 0 {
        let t = s.drop_first();
        lemma_key_pos(t, k);
        assert forall|i: int| 0 <= i < key_pos(s, k) implies lex_lt((#[trigger] s[i]).0, k) by {
            if i > 0 {
                assert(s[i] == t[i - 1]);
            }
        }
        if keys_sorted(s) {
            assert(keys_sorted(t)) by {
                assert forall|i: int, j: int| 0 <= i < j < t.len() implies lex_lt((#[trigger] t[i]).0, (#[trigger] t[j]).0) by {
                    assert(t[i] == s[i + 1] && t[j] == s[j + 1]);
                }
            }
            let p = key_pos(s, k);
            assert forall|i: int| p <= i < s.len() implies !lex_lt((#[trigger] s[i]).0, k) by {
                if p == 0 {
                    if i > 0 {
                        assert(lex_lt(s[0].0, s[i].0));
                        lemma_lex_flip(s[0].0, k);
                        if lex_lt(s[i].0, k) {
                            lemma_lex_trans(s[0].0, s[i].0, k);
                        }
                    }
                } else {
                    assert(s[i] == t[i - 1]);
                }
            }
            if !has_key(s, k) {
                assert forall|i: int| 0 <= i < s.len() implies (#[trigger] s[i]).0 != k by {
                    if i < p {
                        lemma_lex_equal(s[i].0, k);
                    } else if i > p {
                        assert(lex_lt(s[p].0, s[i].0));
                        lemma_lex_flip(s[p].0, k);
                        lemma_lex_equal(s[p].0, k);
                        lemma_lex_equal(s[i].0, k);
                        if s[i].0 == k {
                            assert(lex_order(s[p].0, k) == Rel::Less);
                        }
                    }
                }
            }
        }
    }
}

/// Setting an entry keeps the keys sorted; the new entry sits at `key_pos`.
pub proof fn lemma_upsert<X>(s: Seq<(Seq<char>, X)>, k: Seq<char>, v: X)
    requires
        keys_sorted(s),
    ensures
        keys_sorted(upsert(s, k, v)),
        upsert(s, k, v)[key_pos(s, k)] == (k, v),
        has_key(s, k) ==> upsert(s, k, v).len() == s.len(),
        !has_key(s, k) ==> upsert(s, k, v).len() == s.len() + 1,
{
    lemma_key_pos(s, k);
    let p = key_pos(s, k);
    let r = upsert(s, k, v);
    if has_key(s, k) {
        assert forall|i: int, j: int| 0 <= i < j < r.len() implies lex_lt((#[trigger] r[i]).0, (#[trigger] r[j]).0) by {
            if i != p && j != p {
                assert(r[i] == s[i] && r[j] == s[j]);
            } else {
                assert(r[i].0 == s[i].0 && r[j].0 == s[j].0);
            }
        }
    } else {
        assert forall|i: int, j: int| 0 <= i < j < r.len() implies lex_lt((#[trigger] r[i]).0, (#[trigger] r[j]).0) by {
            if j < p {
                assert(r[i] == s[i] && r[j] == s[j]);
            } else if i > p {
                assert(r[i] == s[i - 1] && r[j] == s[j - 1]);
            } else if i == p {
                assert(r[j] == s[j - 1]);
                assert(!lex_lt(s[j - 1].0, k));
                assert(s[j - 1].0 != k);
                lemma_lex_flip(s[j - 1].0, k);
                lemma_lex_equal(s[j - 1].0, k);
            } else if j == p {
                assert(r[i] == s[i]);
            } else {
                assert(r[i] == s[i] && r[j] == s[j - 1]);
                assert(lex_lt(s[i].0, k));
                assert(!lex_lt(s[j - 1].0, k));
                assert(s[j - 1].0 != k);
                lemma_lex_flip(s[j - 1].0, k);
                lemma_lex_equal(s[j - 1].0, k);
                lemma_lex_trans(s[i].0, k, s[j - 1].0);
            }
        }
    }
}

/// The position of the first key not below `k`.
pub fn key_pos_exec<X, Y>(s: &Vec<(String, X)>, k: &[char], Ghost(view): Ghost<Seq<(Seq<char>, Y)>>) -> (r: usize)
    requires
        view.len() == s@.len(),
        forall|i: int| 0 <= i < s@.len() ==> (#[trigger] view[i]).0 == s@[i].0@,
    ensures
        r == key_pos(view, k@),
{
    let mut i: usize = 0;
    proof {
        assert(view.skip(0) =~= view);
    }
    while i < s.len()
        invariant
            i <= s.len(),
            view.len() == s@.len(),
            forall|j: int| 0 <= j < s@.len() ==> (#[trigger] view[j]).0 == s@[j].0@,
            key_pos(view, k@) == i + key_pos(view.skip(i as int), k@),
        decreases s.len() - i,
    {
        let key = crate::text::chars_of(s[i].0.as_str());
        let c = lex_compare(key.as_slice(), k);
        proof {
            assert(view.skip(i as int)[0] == view[i as int]);
            assert(view.skip(i as int).drop_first() =~= view.skip(i + 1));
        }
        if c != Rel::Less {
            return i;
        }
        i = i + 1;
    }
    i
}

} // verus!
