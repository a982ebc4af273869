//! Sums of integer sequences.

use vstd::prelude::*;

verus! {

/// Sum of the first `n` entries.
pub open spec fn prefix_sum(s: Seq<int>, n: nat) -> int
    decreases n,
{
    if n == 0 || n > s.len() {
        0
    } else {
        prefix_sum(s, (n - 1) as nat) + s[n - 1]
    }
}

/// Sum of all entries.
pub open spec fn sum_of(s: Seq<int>) -> int {
    prefix_sum(s, s.len())
}

/// A prefix sum only reads the prefix.
pub proof fn lemma_prefix_sum_agrees(a: Seq<int>, b: Seq<int>, n: nat)
    requires
        n <= a.len(),
        n <= b.len(),
        forall|i: int| 0 <= i < n ==> a[i] == b[i],
    ensures
        prefix_sum(a, n) == prefix_sum(b, n),
    decreases n,
{
    if n > 0 {
        lemma_prefix_sum_agrees(a, b, (n - 1) as nat);
    }
}

proof fn lemma_prefix_sum_concat(a: Seq<int>, b: Seq<int>, m: nat)
    requires
        m <= b.len(),
    ensures
        prefix_sum(a + b, a.len() + m) == sum_of(a) + prefix_sum(b, m),
    decreases m,
{
    if m == 0 {
        lemma_prefix_sum_agrees(a + b, a, a.len());
    } else {
        lemma_prefix_sum_concat(a, b, (m - 1) as nat);
        assert((a + b)[a.len() + m - 1] == b[m - 1]);
    }
}

/// The sum of a concatenation is the sum of the sums.
pub proof fn lemma_sum_of_concat(a: Seq<int>, b: Seq<int>)
    ensures
        sum_of(a + b) == sum_of(a) + sum_of(b),
{
    lemma_prefix_sum_concat(a, b, b.len());
}

/// Appending one entry adds it to the sum.
pub proof fn lemma_sum_of_push(s: Seq<int>, v: int)
    ensures
        sum_of(s.push(v)) == sum_of(s) + v,
{
    lemma_prefix_sum_agrees(s.push(v), s, s.len());
}

/// Removing entry `j` takes it out of the sum.
pub proof fn lemma_sum_of_remove(s: Seq<int>, j: int)
    requires
        0 <= j < s.len(),
    ensures
        sum_of(s.remove(j)) == sum_of(s) - s[j],
{
    let head = s.subrange(0, j);
    let tail = s.subrange(j + 1, s.len() as int);
    assert(s =~= head.push(s[j]) + tail);
    assert(s.remove(j) =~= head + tail);
    lemma_sum_of_push(head, s[j]);
    lemma_sum_of_concat(head.push(s[j]), tail);
    lemma_sum_of_concat(head, tail);
}

/// Replacing entry `i` exchanges it in the sum.
pub proof fn lemma_sum_of_update(s: Seq<int>, i: int, v: int)
    requires
        0 <= i < s.len(),
    ensures
        sum_of(s.update(i, v)) == sum_of(s) - s[i] + v,
{
    let head = s.subrange(0, i);
    let tail = s.subrange(i + 1, s.len() as int);
    assert(s =~= head.push(s[i]) + tail);
    assert(s.update(i, v) =~= head.push(v) + tail);
    lemma_sum_of_push(head, s[i]);
    lemma_sum_of_push(head, v);
    lemma_sum_of_concat(head.push(s[i]), tail);
    lemma_sum_of_concat(head.push(v), tail);
}

/// With non-negative entries, prefix sums grow with the prefix.
pub proof fn lemma_prefix_sum_monotone(s: Seq<int>, m: nat, n: nat)
    requires
        forall|i: int| 0 <= i < s.len() ==> s[i] >= 0,
        m <= n <= s.len(),
    ensures
        0 <= prefix_sum(s, m) <= prefix_sum(s, n),
    decreases n,
{
    if n == 0 {
    } else if m == n {
        lemma_prefix_sum_monotone(s, (m - 1) as nat, (n - 1) as nat);
    } else {
        lemma_prefix_sum_monotone(s, m, (n - 1) as nat);
    }
}

/// With non-negative entries, no entry exceeds the sum.
pub proof fn lemma_entry_at_most_sum(s: Seq<int>, i: int)
    requires
        forall|k: int| 0 <= k < s.len() ==> s[k] >= 0,
        0 <= i < s.len(),
    ensures
        0 <= s[i] <= sum_of(s),
{
    lemma_prefix_sum_monotone(s, (i + 1) as nat, s.len());
    lemma_prefix_sum_monotone(s, i as nat, (i + 1) as nat);
}

/// With non-negative entries, two distinct entries together do not exceed the
/// sum.
pub proof fn lemma_two_entries_at_most_sum(s: Seq<int>, i: int, j: int)
    requires
        forall|k: int| 0 <= k < s.len() ==> s[k] >= 0,
        0 <= i < s.len(),
        0 <= j < s.len(),
        i != j,
    ensures
        s[i] + s[j] <= sum_of(s),
{
    lemma_sum_of_remove(s, j);
    let rest = s.remove(j);
    let k = if i < j {
        i
    } else {
        i - 1
    };
    assert(rest[k] == s[i]);
    lemma_entry_at_most_sum(rest, k);
}

/// Scaling every entry scales the sum.
pub proof fn lemma_prefix_sum_scaled(s: Seq<int>, t: Seq<int>, c: int, n: nat)
    requires
        n <= s.len(),
        n <= t.len(),
        forall|i: int| 0 <= i < n ==> t[i] == s[i] * c,
    ensures
        prefix_sum(t, n) == prefix_sum(s, n) * c,
    decreases n,
{
    if n > 0 {
        lemma_prefix_sum_scaled(s, t, c, (n - 1) as nat);
        assert((prefix_sum(s, (n - 1) as nat) + s[n - 1]) * c == prefix_sum(s, (n - 1) as nat) * c
            + s[n - 1] * c) by (nonlinear_arith);
    }
}

/// The entries of `s` at the indices `picks`, in the order of `picks`.
pub open spec fn picked(s: Seq<int>, picks: Seq<int>) -> Seq<int> {
    Seq::new(picks.len(), |k: int| s[picks[k]])
}

/// `picks` names indices of a sequence of length `n`, none of them twice.
pub open spec fn distinct_indices(picks: Seq<int>, n: nat) -> bool {
    &&& forall|k: int| 0 <= k < picks.len() ==> 0 <= #[trigger] picks[k] < n
    &&& forall|k: int, l: int|
        0 <= k < picks.len() && 0 <= l < picks.len() && k != l ==> #[trigger] picks[k]
            != #[trigger] picks[l]
}

/// Dropping one pick leaves distinct indices; if it was the only one that
/// could name the last index, the others name indices of the shorter
/// sequence.
pub proof fn lemma_distinct_indices_remove(picks: Seq<int>, n: nat, at: int)
    requires
        distinct_indices(picks, n),
        0 <= at < picks.len(),
        n > 0,
        picks[at] == n - 1,
    ensures
        distinct_indices(picks.remove(at), (n - 1) as nat),
{
    let others = picks.remove(at);
    assert forall|k: int| 0 <= k < others.len() implies 0 <= #[trigger] others[k] < n - 1 by {
        let from = if k < at {
            k
        } else {
            k + 1
        };
        assert(others[k] == picks[from]);
        assert(picks[from] != picks[at]);
    }
    assert forall|k: int, l: int|
        0 <= k < others.len() && 0 <= l < others.len() && k != l implies #[trigger] others[k]
        != #[trigger] others[l] by {
        let fk = if k < at {
            k
        } else {
            k + 1
        };
        let fl = if l < at {
            l
        } else {
            l + 1
        };
        assert(others[k] == picks[fk]);
        assert(others[l] == picks[fl]);
    }
}

/// Picking distinct entries of a non-negative sequence never adds up to more
/// than the whole, and to exactly the whole when every entry is picked.
pub proof fn lemma_picked_sum(s: Seq<int>, picks: Seq<int>)
    requires
        forall|i: int| 0 <= i < s.len() ==> s[i] >= 0,
        distinct_indices(picks, s.len()),
    ensures
        picks.len() <= s.len(),
        sum_of(picked(s, picks)) <= sum_of(s),
        picks.len() == s.len() ==> sum_of(picked(s, picks)) == sum_of(s),
    decreases s.len(),
{
    if s.len() == 0 {
        if picks.len() > 0 {
            let first = picks[0];
            assert(0 <= first < s.len());
        }
    } else {
        let m = s.len() - 1;
        let rest = s.drop_last();
        assert(s =~= rest.push(s[m]));
        lemma_sum_of_push(rest, s[m]);
        if exists|k: int| 0 <= k < picks.len() && picks[k] == m {
            let at = choose|k: int| 0 <= k < picks.len() && picks[k] == m;
            let others = picks.remove(at);
            lemma_distinct_indices_remove(picks, s.len(), at);
            lemma_picked_sum(rest, others);
            assert(picked(s, picks).remove(at) =~= picked(rest, others));
            lemma_sum_of_remove(picked(s, picks), at);
        } else {
            assert(distinct_indices(picks, rest.len()));
            lemma_picked_sum(rest, picks);
            assert(picked(s, picks) =~= picked(rest, picks));
        }
    }
}

/// A sequence that is entry by entry at most another adds up to at most as
/// much.
pub proof fn lemma_prefix_sum_pointwise(a: Seq<int>, b: Seq<int>, n: nat)
    requires
        n <= a.len(),
        n <= b.len(),
        forall|i: int| 0 <= i < n ==> a[i] <= b[i],
    ensures
        prefix_sum(a, n) <= prefix_sum(b, n),
    decreases n,
{
    if n > 0 {
        lemma_prefix_sum_pointwise(a, b, (n - 1) as nat);
    }
}

/// Dividing `q * c + r` by `c` gives `q` more than dividing `r`, and leaves
/// the remainder of `r`.
pub proof fn lemma_split_division(q: int, r: int, c: int)
    requires
        1 <= c,
    ensures
        (q * c + r) / c == q + r / c,
        (q * c + r) % c == r % c,
{
    vstd::arithmetic::div_mod::lemma_hoist_over_denominator(r, q, c as nat);
    vstd::arithmetic::div_mod::lemma_mod_multiples_vanish(q, r, c);
    assert(q * c == c * q) by (nonlinear_arith);
}

} // verus!
