//! Products of integer sequences.

use crate::sums::{distinct_indices, lemma_distinct_indices_remove, picked};
use vstd::prelude::*;

verus! {

/// Product of the first `n` entries.
pub open spec fn prefix_product(s: Seq<int>, n: nat) -> int
    decreases n,
{
    if n == 0 || n > s.len() {
        1
    } else {
        prefix_product(s, (n - 1) as nat) * s[n - 1]
    }
}

/// Product of all entries.
pub open spec fn product_of(s: Seq<int>) -> int {
    prefix_product(s, s.len())
}

/// A prefix product only reads the prefix.
pub proof fn lemma_prefix_product_agrees(a: Seq<int>, b: Seq<int>, n: nat)
    requires
        n <= a.len(),
        n <= b.len(),
        forall|i: int| 0 <= i < n ==> a[i] == b[i],
    ensures
        prefix_product(a, n) == prefix_product(b, n),
    decreases n,
{
    if n > 0 {
        lemma_prefix_product_agrees(a, b, (n - 1) as nat);
    }
}

/// With entries of at least one, prefix products are at least one.
pub proof fn lemma_prefix_product_positive(s: Seq<int>, n: nat)
    requires
        forall|i: int| 0 <= i < s.len() ==> s[i] >= 1,
        n <= s.len(),
    ensures
        1 <= prefix_product(s, n),
    decreases n,
{
    if n > 0 {
        lemma_prefix_product_positive(s, (n - 1) as nat);
        let p = prefix_product(s, (n - 1) as nat);
        let v = s[n - 1];
        assert(1 <= p * v) by (nonlinear_arith)
            requires
                1 <= p,
                1 <= v,
        ;
    }
}

proof fn lemma_prefix_product_concat(a: Seq<int>, b: Seq<int>, m: nat)
    requires
        m <= b.len(),
    ensures
        prefix_product(a + b, a.len() + m) == product_of(a) * prefix_product(b, m),
    decreases m,
{
    if m == 0 {
        lemma_prefix_product_agrees(a + b, a, a.len());
    } else {
        lemma_prefix_product_concat(a, b, (m - 1) as nat);
        assert((a + b)[a.len() + m - 1] == b[m - 1]);
        let pa = product_of(a);
        let pb = prefix_product(b, (m - 1) as nat);
        let v = b[m - 1];
        assert((pa * pb) * v == pa * (pb * v)) by (nonlinear_arith);
    }
}

/// The product of a concatenation is the product of the products.
pub proof fn lemma_product_of_concat(a: Seq<int>, b: Seq<int>)
    ensures
        product_of(a + b) == product_of(a) * product_of(b),
{
    lemma_prefix_product_concat(a, b, b.len());
}

/// Appending one entry multiplies the product by it.
pub proof fn lemma_product_of_push(s: Seq<int>, v: int)
    ensures
        product_of(s.push(v)) == product_of(s) * v,
{
    lemma_prefix_product_agrees(s.push(v), s, s.len());
}

/// Removing entry `j` divides it out of the product.
pub proof fn lemma_product_of_remove(s: Seq<int>, j: int)
    requires
        0 <= j < s.len(),
    ensures
        product_of(s) == product_of(s.remove(j)) * s[j],
{
    let head = s.subrange(0, j);
    let tail = s.subrange(j + 1, s.len() as int);
    assert(s =~= head.push(s[j]) + tail);
    assert(s.remove(j) =~= head + tail);
    lemma_product_of_push(head, s[j]);
    lemma_product_of_concat(head.push(s[j]), tail);
    lemma_product_of_concat(head, tail);
    let ph = product_of(head);
    let pt = product_of(tail);
    let v = s[j];
    assert((ph * v) * pt == (ph * pt) * v) by (nonlinear_arith);
}

/// Picking distinct entries of a sequence of entries of at least one never
/// multiplies to more than the whole, and to exactly the whole when every
/// entry is picked.
pub proof fn lemma_picked_product(s: Seq<int>, picks: Seq<int>)
    requires
        forall|i: int| 0 <= i < s.len() ==> s[i] >= 1,
        distinct_indices(picks, s.len()),
    ensures
        picks.len() <= s.len(),
        1 <= product_of(picked(s, picks)) <= product_of(s),
        picks.len() == s.len() ==> product_of(picked(s, picks)) == product_of(s),
    decreases s.len(),
{
    lemma_prefix_product_positive(picked(s, picks), picks.len());
    if s.len() == 0 {
        if picks.len() > 0 {
            let first = picks[0];
            assert(0 <= first < s.len());
        }
    } else {
        let m = s.len() - 1;
        let rest = s.drop_last();
        assert(s =~= rest.push(s[m]));
        lemma_product_of_push(rest, s[m]);
        lemma_prefix_product_positive(rest, rest.len());
        let pr = product_of(rest);
        let v = s[m];
        if exists|k: int| 0 <= k < picks.len() && picks[k] == m {
            let at = choose|k: int| 0 <= k < picks.len() && picks[k] == m;
            let others = picks.remove(at);
            lemma_distinct_indices_remove(picks, s.len(), at);
            lemma_picked_product(rest, others);
            assert(picked(s, picks).remove(at) =~= picked(rest, others));
            lemma_product_of_remove(picked(s, picks), at);
            let po = product_of(picked(rest, others));
            assert(po * v <= pr * v) by (nonlinear_arith)
                requires
                    po <= pr,
                    1 <= v,
            ;
        } else {
            assert(distinct_indices(picks, rest.len()));
            lemma_picked_product(rest, picks);
            assert(picked(s, picks) =~= picked(rest, picks));
            assert(pr <= pr * v) by (nonlinear_arith)
                requires
                    1 <= pr,
                    1 <= v,
            ;
        }
    }
}

} // verus!
