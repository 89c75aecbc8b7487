//! Sort keys and a stable insertion sort used for deterministic output.
//!
//! A key is a number followed by a list of words; keys compare by number
//! first and then lexicographically by words, each word compared as
//! `String` compares.
use vstd::prelude::*;

use crate::text::{seq_lt, str_lt};

verus! {

broadcast use vstd::seq_lib::group_seq_properties;

/// Neither sequence is below the other.
pub open spec fn seq_equiv(a: Seq<char>, b: Seq<char>) -> bool {
    !seq_lt(a, b) && !seq_lt(b, a)
}

/// Lexicographic order on lists of words.
pub open spec fn words_lt(a: Seq<Seq<char>>, b: Seq<Seq<char>>) -> bool
    decreases a.len(),
{
    if b.len() == 0 {
        false
    } else if a.len() == 0 {
        true
    } else if seq_lt(a[0], b[0]) {
        true
    } else if seq_equiv(a[0], b[0]) {
        words_lt(a.drop_first(), b.drop_first())
    } else {
        false
    }
}

/// The mathematical value of a key.
pub type KeyModel = (int, Seq<Seq<char>>);

/// Strict order on keys: by number, then by words.
pub open spec fn key_lt(a: KeyModel, b: KeyModel) -> bool {
    a.0 < b.0 || (a.0 == b.0 && words_lt(a.1, b.1))
}

/// The words of a string vector, as character sequences.
pub open spec fn words_model(v: Seq<String>) -> Seq<Seq<char>> {
    v.map_values(|s: String| s@)
}

/// A sort key.
pub struct SortKey {
    pub rank: u64,
    pub words: Vec<String>,
}

impl SortKey {
    pub open spec fn model(&self) -> KeyModel {
        (self.rank as int, words_model(self.words@))
    }
}

/// The keys of `s` are in non-decreasing order.
pub open spec fn keys_sorted<T>(s: Seq<(SortKey, T)>) -> bool {
    forall|i: int, j: int| 0 <= i < j < s.len() ==> !key_lt(s[j].0.model(), s[i].0.model())
}

pub proof fn lemma_seq_lt_asym(a: Seq<char>, b: Seq<char>)
    ensures
        seq_lt(a, b) ==> !seq_lt(b, a),
    decreases a.len(),
{
    if a.len() > 0 && b.len() > 0 {
        lemma_seq_lt_asym(a.drop_first(), b.drop_first());
    }
}

/// `a <= b` and `b <= c` give `a <= c`, where `x <= y` is `!(y < x)`.
pub proof fn lemma_seq_nlt_trans(a: Seq<char>, b: Seq<char>, c: Seq<char>)
    requires
        !seq_lt(b, a),
        !seq_lt(c, b),
    ensures
        !seq_lt(c, a),
    decreases a.len(),
{
    if a.len() > 0 && b.len() > 0 && c.len() > 0 {
        if (a[0] as u32) == (b[0] as u32) && (b[0] as u32) == (c[0] as u32) {
            lemma_seq_nlt_trans(a.drop_first(), b.drop_first(), c.drop_first());
        }
    }
}

/// `a < b` and `b <= c` give `a < c`.
pub proof fn lemma_seq_lt_nlt(a: Seq<char>, b: Seq<char>, c: Seq<char>)
    requires
        seq_lt(a, b),
        !seq_lt(c, b),
    ensures
        seq_lt(a, c),
    decreases a.len(),
{
    if a.len() > 0 && b.len() > 0 && c.len() > 0 {
        if (a[0] as u32) == (b[0] as u32) && (b[0] as u32) == (c[0] as u32) {
            lemma_seq_lt_nlt(a.drop_first(), b.drop_first(), c.drop_first());
        }
    }
}

pub proof fn lemma_words_lt_asym(a: Seq<Seq<char>>, b: Seq<Seq<char>>)
    ensures
        words_lt(a, b) ==> !words_lt(b, a),
    decreases a.len(),
{
    if a.len() > 0 && b.len() > 0 {
        lemma_seq_lt_asym(a[0], b[0]);
        lemma_words_lt_asym(a.drop_first(), b.drop_first());
    }
}

/// `a <= b` and `b <= c` give `a <= c` on word lists.
pub proof fn lemma_words_nlt_trans(a: Seq<Seq<char>>, b: Seq<Seq<char>>, c: Seq<Seq<char>>)
    requires
        !words_lt(b, a),
        !words_lt(c, b),
    ensures
        !words_lt(c, a),
    decreases a.len(),
{
    if a.len() > 0 && b.len() > 0 && c.len() > 0 {
        lemma_seq_nlt_trans(a[0], b[0], c[0]);
        if seq_equiv(c[0], a[0]) {
            // a[0] <= b[0] <= c[0] ~ a[0], so b[0] is equivalent to both.
            if seq_lt(a[0], b[0]) {
                lemma_seq_lt_nlt(a[0], b[0], c[0]);
            }
            if seq_lt(b[0], c[0]) {
                lemma_seq_lt_nlt(b[0], c[0], a[0]);
            }
            lemma_words_nlt_trans(a.drop_first(), b.drop_first(), c.drop_first());
        }
    }
}

/// `key_lt` is asymmetric, and its complement is transitive.
pub proof fn lemma_key_order(a: KeyModel, b: KeyModel, c: KeyModel)
    ensures
        key_lt(a, b) ==> !key_lt(b, a),
        !key_lt(b, a) && !key_lt(c, b) ==> !key_lt(c, a),
{
    lemma_words_lt_asym(a.1, b.1);
    if !key_lt(b, a) && !key_lt(c, b) && a.0 == b.0 && b.0 == c.0 {
        lemma_words_nlt_trans(a.1, b.1, c.1);
    }
}

/// `a < b` on keys.
pub fn key_less(a: &SortKey, b: &SortKey) -> (r: bool)
    ensures
        r == key_lt(a.model(), b.model()),
{
    if a.rank != b.rank {
        return a.rank < b.rank;
    }
    let n = a.words.len();
    let m = b.words.len();
    let ghost wa = words_model(a.words@);
    let ghost wb = words_model(b.words@);
    let mut i: usize = 0;
    assert(wa.skip(0) =~= wa);
    assert(wb.skip(0) =~= wb);
    while i < n && i < m
        invariant
            n == a.words@.len(),
            m == b.words@.len(),
            wa == words_model(a.words@),
            wb == words_model(b.words@),
            a.rank == b.rank,
            i <= n,
            i <= m,
            words_lt(wa, wb) == words_lt(wa.skip(i as int), wb.skip(i as int)),
        decreases n - i,
    {
        let x = a.words[i].as_str();
        let y = b.words[i].as_str();
        assert(wa.skip(i as int)[0] == x@);
        assert(wb.skip(i as int)[0] == y@);
        let ghost sa = wa.skip(i as int);
        let ghost sb = wb.skip(i as int);
        if str_lt(x, y) {
            assert(words_lt(sa, sb));
            return true;
        }
        if str_lt(y, x) {
            assert(!words_lt(sa, sb));
            return false;
        }
        assert(wa.skip(i as int).drop_first() =~= wa.skip(i + 1));
        assert(wb.skip(i as int).drop_first() =~= wb.skip(i + 1));
        i = i + 1;
    }
    i < m
}

/// `perm` is a permutation of the positions of a sequence of length `n`.
pub open spec fn is_permutation(perm: Seq<int>, n: int) -> bool {
    &&& perm.len() == n
    &&& forall|q: int| 0 <= q < n ==> 0 <= #[trigger] perm[q] < n
    &&& forall|q: int, r: int| 0 <= q < r < n ==> #[trigger] perm[q] != #[trigger] perm[r]
}

/// Pairs with equal keys keep the order they had: `perm` gives the
/// original position of each.
pub open spec fn stable<T>(out: Seq<(SortKey, T)>, perm: Seq<int>) -> bool {
    forall|q: int, r: int|
        0 <= q < r < out.len() && !key_lt(#[trigger] out[q].0.model(), #[trigger] out[r].0.model()) ==> perm[q]
            < perm[r]
}

/// Sorts `(key, item)` pairs by key. The sort is stable, and the result
/// holds the same pairs as the input.
pub fn sort_by_key<T>(items: Vec<(SortKey, T)>) -> (out: Vec<(SortKey, T)>)
    ensures
        out@.len() == items@.len(),
        out@.to_multiset() == items@.to_multiset(),
        keys_sorted(out@),
        exists|perm: Seq<int>|
            is_permutation(perm, items@.len() as int) && stable(out@, perm) && forall|q: int|
                0 <= q < out@.len() ==> #[trigger] out@[q] == items@[perm[q]],
{
    let mut rest = items;
    let mut out: Vec<(SortKey, T)> = Vec::new();
    let ghost orig = rest@;
    proof {
        assert(orig.skip(0) =~= orig);
    }
    let ghost mut taken: int = 0;
    let ghost mut perm: Seq<int> = seq![];
    while rest.len() > 0
        invariant
            0 <= taken <= orig.len(),
            rest@ == orig.skip(taken),
            out@.len() == taken,
            is_permutation(perm, taken),
            stable(out@, perm),
            forall|q: int| 0 <= q < taken ==> #[trigger] out@[q] == orig[perm[q]],
            out@.to_multiset() == orig.take(taken).to_multiset(),
            keys_sorted(out@),
        decreases rest@.len(),
    {
        let x = rest.remove(0);
        proof {
            assert(orig.take(taken + 1) =~= orig.take(taken).push(x));
            assert(rest@ =~= orig.skip(taken + 1));
        }
        let mut p: usize = out.len();
        while p > 0 && key_less(&x.0, &out[p - 1].0)
            invariant
                p <= out@.len(),
                forall|j: int| p <= j < out@.len() ==> key_lt(x.0.model(), #[trigger] out@[j].0.model()),
            decreases p,
        {
            p = p - 1;
        }
        let ghost before = out@;
        out.insert(p, x);
        proof {
            assert(out@ =~= before.take(p as int) + seq![x] + before.skip(p as int));
            let ghost old_perm = perm;
            perm = old_perm.take(p as int) + seq![taken] + old_perm.skip(p as int);
            assert(x == orig[taken]);
            assert forall|q: int| 0 <= q < taken + 1 implies #[trigger] out@[q] == orig[perm[q]] by {
                if q < p {
                    assert(perm[q] == old_perm[q]);
                } else if q > p {
                    assert(perm[q] == old_perm[q - 1]);
                }
            }
            assert forall|q: int, r: int| 0 <= q < r < taken + 1 implies #[trigger] perm[q] != #[trigger] perm[r] by {
                if q < p && r > p {
                    assert(perm[r] == old_perm[r - 1]);
                } else if q > p {
                    assert(perm[q] == old_perm[q - 1]);
                    assert(perm[r] == old_perm[r - 1]);
                }
            }
            assert forall|q: int, r: int|
                0 <= q < r < out@.len() && !key_lt(#[trigger] out@[q].0.model(), #[trigger] out@[r].0.model())
                    implies perm[q] < perm[r] by {
                if r < p {
                    assert(out@[q] == before[q] && out@[r] == before[r]);
                    assert(perm[q] == old_perm[q] && perm[r] == old_perm[r]);
                } else if r == p {
                    assert(perm[r] == taken);
                    assert(perm[q] == old_perm[q]);
                } else if q < p {
                    assert(out@[q] == before[q] && out@[r] == before[r - 1]);
                    assert(perm[q] == old_perm[q] && perm[r] == old_perm[r - 1]);
                } else if q == p {
                    assert(out@[r] == before[r - 1]);
                    assert(key_lt(x.0.model(), before[r - 1].0.model()));
                } else {
                    assert(out@[q] == before[q - 1] && out@[r] == before[r - 1]);
                    assert(perm[q] == old_perm[q - 1] && perm[r] == old_perm[r - 1]);
                }
            }
            assert forall|q: int| 0 <= q < taken + 1 implies 0 <= #[trigger] perm[q] < taken + 1 by {
                if q < p {
                    assert(perm[q] == old_perm[q]);
                } else if q > p {
                    assert(perm[q] == old_perm[q - 1]);
                }
            }
            vstd::seq_lib::lemma_multiset_commutative(before.take(p as int), seq![x]);
            vstd::seq_lib::lemma_multiset_commutative(
                before.take(p as int) + seq![x],
                before.skip(p as int),
            );
            vstd::seq_lib::lemma_multiset_commutative(before.take(p as int), before.skip(p as int));
            assert(before =~= before.take(p as int) + before.skip(p as int));
            assert(out@.to_multiset() =~= before.to_multiset().insert(x));
            assert forall|i: int, j: int| 0 <= i < j < out@.len() implies !key_lt(
                out@[j].0.model(),
                out@[i].0.model(),
            ) by {
                let xm = x.0.model();
                if i < p && j == p {
                    if i < p - 1 {
                        lemma_key_order(before[i].0.model(), before[p - 1].0.model(), xm);
                    }
                } else if i == p && j > p {
                    lemma_key_order(xm, before[j - 1].0.model(), xm);
                } else if i < p && j > p {
                    assert(!key_lt(before[j - 1].0.model(), before[i].0.model()));
                } else if i > p {
                    assert(!key_lt(before[j - 1].0.model(), before[i - 1].0.model()));
                }
            }
            taken = taken + 1;
        }
    }
    proof {
        assert(orig.take(taken) =~= orig);
    }
    assert(forall|q: int| 0 <= q < out@.len() ==> #[trigger] out@[q] == items@[perm[q]]);
    assert(stable(out@, perm));
    out
}

} // verus!
