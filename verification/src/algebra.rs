//! Simplifying constructors of the expression algebra, as functions on the
//! mathematical model, with the facts that keep them inside the 32-bit range.

use crate::expr::{
    all_wf, lemma_upper_range, lemma_upper_sum_is_sum, lemma_uppers_nonneg, terms_wf, upper, uppers,
    wf, Expr, Op,
};
use crate::sums::{
    lemma_entry_at_most_sum, lemma_prefix_sum_scaled, lemma_sum_of_concat, lemma_sum_of_remove,
    lemma_sum_of_update, lemma_two_entries_at_most_sum, prefix_sum, sum_of,
};
use vstd::prelude::*;

verus! {

/// What a term contributes to a flattened sum: the children of a nested sum,
/// nothing for the literal zero, the term itself otherwise.
pub open spec fn pieces(e: Expr) -> Seq<Expr> {
    match e {
        Expr::Sum(inner) => inner,
        Expr::Num(c) => if c == 0 {
            Seq::empty()
        } else {
            seq![e]
        },
        _ => seq![e],
    }
}

/// The pieces of the first `n` terms, in order.
pub open spec fn flat_terms(terms: Seq<Expr>, n: nat) -> Seq<Expr>
    decreases n,
{
    if n == 0 || n > terms.len() {
        Seq::empty()
    } else {
        flat_terms(terms, (n - 1) as nat) + pieces(terms[n - 1])
    }
}

/// A list of terms as one expression: zero for none, the term itself for one,
/// a sum node otherwise.
pub open spec fn wrap(terms: Seq<Expr>) -> Expr {
    if terms.len() == 0 {
        Expr::Num(0)
    } else if terms.len() == 1 {
        terms[0]
    } else {
        Expr::Sum(terms)
    }
}

/// The flattened sum of `terms`, without any further rewriting.
pub open spec fn assembled(terms: Seq<Expr>) -> Expr {
    wrap(flat_terms(terms, terms.len()))
}

/// `e * c` for a term that is not distributed over: zero collapses, one is
/// dropped, literals fold, and nested multiplications merge.
pub open spec fn piece_scaled(e: Expr, c: int) -> Expr {
    if c == 0 || upper(e) == 0 {
        Expr::Num(0)
    } else if c == 1 {
        e
    } else {
        match e {
            Expr::Num(k) => Expr::Num(k * c),
            Expr::Op(Op::Mul, child, k) => Expr::Op(Op::Mul, child, k * c),
            _ => Expr::Op(Op::Mul, Box::new(e), c),
        }
    }
}

/// The terms of a sum, each multiplied by `c`.
pub open spec fn pieces_scaled(terms: Seq<Expr>, c: int) -> Seq<Expr> {
    Seq::new(terms.len(), |i: int| piece_scaled(terms[i], c))
}

/// `e * c`, distributed over the terms of a sum.
pub open spec fn scaled(e: Expr, c: int) -> Expr {
    if c == 0 || upper(e) == 0 {
        Expr::Num(0)
    } else if c == 1 {
        e
    } else {
        match e {
            Expr::Sum(terms) => assembled(pieces_scaled(terms, c)),
            _ => piece_scaled(e, c),
        }
    }
}

/// `e / c`: division by one is dropped, an expression below `c` gives zero,
/// literals fold, and nested divisions merge.
pub open spec fn whole_quotient(e: Expr, c: int) -> Expr {
    if c == 1 {
        e
    } else if upper(e) < c {
        Expr::Num(0)
    } else {
        match e {
            Expr::Num(k) => Expr::Num(k / c),
            Expr::Op(Op::Div, child, k) => Expr::Op(Op::Div, child, k * c),
            _ => Expr::Op(Op::Div, Box::new(e), c),
        }
    }
}

/// `e % c`: everything is zero modulo one, an expression below `c` is left
/// alone, and literals fold.
pub open spec fn whole_remainder(e: Expr, c: int) -> Expr {
    if c == 1 {
        Expr::Num(0)
    } else if upper(e) < c {
        e
    } else {
        match e {
            Expr::Num(k) => Expr::Num(k % c),
            _ => Expr::Op(Op::Mod, Box::new(e), c),
        }
    }
}

/// The term is `child * k` with `k` a multiple of `c`.
pub open spec fn is_multiple(t: Expr, c: int) -> bool {
    match t {
        Expr::Op(Op::Mul, _, k) => k % c == 0,
        _ => false,
    }
}

/// A multiple of `c`, divided by `c`: `child * (k / c)`.
pub open spec fn multiple_divided(t: Expr, c: int) -> Expr {
    match t {
        Expr::Op(Op::Mul, child, k) => piece_scaled(*child, k / c),
        _ => t,
    }
}

/// Those of the first `n` terms that are multiples of `c`, each divided by
/// `c`, in order.
pub open spec fn multiples_divided(terms: Seq<Expr>, c: int, n: nat) -> Seq<Expr>
    decreases n,
{
    if n == 0 || n > terms.len() {
        Seq::empty()
    } else {
        let before = multiples_divided(terms, c, (n - 1) as nat);
        if is_multiple(terms[n - 1], c) {
            before.push(multiple_divided(terms[n - 1], c))
        } else {
            before
        }
    }
}

/// Those of the first `n` terms that are no multiples of `c`, in order.
pub open spec fn non_multiples(terms: Seq<Expr>, c: int, n: nat) -> Seq<Expr>
    decreases n,
{
    if n == 0 || n > terms.len() {
        Seq::empty()
    } else {
        let before = non_multiples(terms, c, (n - 1) as nat);
        if is_multiple(terms[n - 1], c) {
            before
        } else {
            before.push(terms[n - 1])
        }
    }
}

/// `e / c`. A sum is divided term by term: the terms that are multiples of
/// `c` have their factor divided, and the others are divided together. A
/// product by a multiple of `c` has its factor divided. Any other expression
/// is divided as a whole.
pub open spec fn quotient(e: Expr, c: int) -> Expr {
    if c == 1 {
        e
    } else if upper(e) < c {
        Expr::Num(0)
    } else {
        match e {
            Expr::Sum(terms) => {
                let rest = assembled(non_multiples(terms, c, terms.len()));
                assembled(multiples_divided(terms, c, terms.len()).push(whole_quotient(rest, c)))
            },
            Expr::Op(Op::Mul, child, k) => if k % c == 0 {
                piece_scaled(*child, k / c)
            } else {
                whole_quotient(e, c)
            },
            _ => whole_quotient(e, c),
        }
    }
}

/// `e % c`. A sum loses the terms that are multiples of `c`, and the
/// remainder is taken of the others together. A product by a multiple of `c`
/// leaves nothing. Any other expression is taken as a whole.
pub open spec fn remainder(e: Expr, c: int) -> Expr {
    if c == 1 {
        Expr::Num(0)
    } else if upper(e) < c {
        e
    } else {
        match e {
            Expr::Sum(terms) => whole_remainder(
                assembled(non_multiples(terms, c, terms.len())),
                c,
            ),
            Expr::Op(Op::Mul, child, k) => if k % c == 0 {
                Expr::Num(0)
            } else {
                whole_remainder(e, c)
            },
            _ => whole_remainder(e, c),
        }
    }
}

/// The expression with every operator applied anew, from the leaves up, now
/// looking into the sums that it meets.
pub open spec fn distributed(t: Expr) -> Expr
    decreases t,
{
    match t {
        Expr::Op(op, child, imm) => {
            let inner = distributed(*child);
            match op {
                Op::Mul => scaled(inner, imm),
                Op::Div => quotient(inner, imm),
                Op::Mod => remainder(inner, imm),
            }
        },
        _ => t,
    }
}

/// Every term distributed.
pub open spec fn all_distributed(terms: Seq<Expr>) -> Seq<Expr> {
    Seq::new(terms.len(), |i: int| distributed(terms[i]))
}

/// A term of the form `(inner % radix) * weight`.
pub struct Digit {
    pub inner: Expr,
    pub radix: int,
    pub weight: int,
}

/// Reads a term as a digit, if it has that form; a bare whole_remainder has weight
/// one.
pub open spec fn low_digit(e: Expr) -> Option<Digit> {
    match e {
        Expr::Op(Op::Mod, inner, radix) => Some(Digit { inner: *inner, radix, weight: 1 }),
        Expr::Op(Op::Mul, factor, weight) => match *factor {
            Expr::Op(Op::Mod, inner, radix) => Some(Digit { inner: *inner, radix, weight }),
            _ => None,
        },
        _ => None,
    }
}

/// `high` is what lies above the digit: `(inner / radix) * (radix * weight)`.
pub open spec fn carries(high: Expr, digit: Digit) -> bool {
    match high {
        Expr::Op(Op::Mul, rest, k) => k == digit.radix * digit.weight && *rest == whole_quotient(
            digit.inner,
            digit.radix,
        ),
        _ => false,
    }
}

/// The first index below `n`, other than `i`, whose term carries the digit.
pub open spec fn partner(terms: Seq<Expr>, digit: Digit, i: int, n: nat) -> Option<int>
    decreases n,
{
    if n == 0 || n > terms.len() {
        None
    } else {
        match partner(terms, digit, i, (n - 1) as nat) {
            Some(j) => Some(j),
            None => if n - 1 != i && carries(terms[n - 1], digit) {
                Some(n - 1)
            } else {
                None
            },
        }
    }
}

/// The first digit among the first `n` terms that has a partner anywhere in
/// the list, with that partner.
pub open spec fn first_pair(terms: Seq<Expr>, n: nat) -> Option<(int, int)>
    decreases n,
{
    if n == 0 || n > terms.len() {
        None
    } else {
        match first_pair(terms, (n - 1) as nat) {
            Some(pair) => Some(pair),
            None => match low_digit(terms[n - 1]) {
                Some(digit) => match partner(terms, digit, n - 1, terms.len()) {
                    Some(j) => Some((n - 1, j)),
                    None => None,
                },
                None => None,
            },
        }
    }
}

/// Replaces the digit at `i` and its partner at `j` by the one term
/// `inner * weight` that the two add up to.
pub open spec fn fused(terms: Seq<Expr>, i: int, j: int) -> Seq<Expr> {
    let digit = low_digit(terms[i])->Some_0;
    terms.update(i, scaled(digit.inner, digit.weight)).remove(j)
}

/// Fuses digit pairs, first pair first, at most `rounds` times.
pub open spec fn recombined(terms: Seq<Expr>, rounds: nat) -> Seq<Expr>
    decreases rounds,
{
    if rounds == 0 {
        terms
    } else {
        match first_pair(terms, terms.len()) {
            Some((i, j)) => recombined(fused(terms, i, j), (rounds - 1) as nat),
            None => terms,
        }
    }
}

/// The sum of `terms`. The terms are flattened, and every pair `(x % n) * w`
/// and `(x / n) * (n * w)` is fused back into `x * w`. What is left is
/// distributed over the sums inside it, flattened and fused once more.
pub open spec fn summed(terms: Seq<Expr>) -> Expr {
    let flat = flat_terms(terms, terms.len());
    let spread = all_distributed(recombined(flat, flat.len()));
    let again = flat_terms(spread, spread.len());
    assembled(recombined(again, again.len()))
}

/// Flattening keeps the terms well formed and their bounds' total.
pub proof fn lemma_flat_terms_wf(terms: Seq<Expr>, n: nat)
    requires
        all_wf(terms),
        n <= terms.len(),
    ensures
        all_wf(flat_terms(terms, n)),
        sum_of(uppers(flat_terms(terms, n))) == prefix_sum(uppers(terms), n),
    decreases n,
{
    if n > 0 {
        lemma_flat_terms_wf(terms, (n - 1) as nat);
        let before = flat_terms(terms, (n - 1) as nat);
        let last = terms[n - 1];
        let added = pieces(last);
        assert(wf(last));
        assert(all_wf(added));
        assert(sum_of(uppers(added)) == upper(last)) by {
            match last {
                Expr::Sum(inner) => {
                    lemma_upper_sum_is_sum(inner, inner.len());
                },
                _ => {
                    reveal_with_fuel(prefix_sum, 2);
                },
            }
        }
        assert(uppers(before + added) =~= uppers(before) + uppers(added));
        lemma_sum_of_concat(uppers(before), uppers(added));
    }
}

/// Wrapping a well-formed list gives a well-formed expression with the same
/// total bound.
pub proof fn lemma_wrap_wf(terms: Seq<Expr>)
    requires
        terms_wf(terms),
    ensures
        wf(wrap(terms)),
        upper(wrap(terms)) == sum_of(uppers(terms)),
{
    lemma_upper_sum_is_sum(terms, terms.len());
    if terms.len() == 1 {
        reveal_with_fuel(prefix_sum, 2);
    }
}

/// The flattened sum of well-formed terms is well formed, and bounded by the
/// total of their bounds.
pub proof fn lemma_assembled_wf(terms: Seq<Expr>)
    requires
        terms_wf(terms),
    ensures
        wf(assembled(terms)),
        upper(assembled(terms)) == sum_of(uppers(terms)),
{
    lemma_flat_terms_wf(terms, terms.len());
    lemma_wrap_wf(flat_terms(terms, terms.len()));
}

/// Multiplying a single term keeps it well formed and multiplies its bound.
pub proof fn lemma_piece_scaled_wf(e: Expr, c: int)
    requires
        wf(e),
        0 <= c <= i32::MAX,
        upper(e) * c <= i32::MAX,
    ensures
        wf(piece_scaled(e, c)),
        upper(piece_scaled(e, c)) == upper(e) * c,
{
    lemma_upper_range(e);
    let u = upper(e);
    if c == 0 || u == 0 {
        assert(u * c == 0) by (nonlinear_arith)
            requires
                c == 0 || u == 0,
        ;
    } else if c == 1 {
    } else {
        match e {
            Expr::Num(k) => {
                assert(0 <= k * c) by (nonlinear_arith)
                    requires
                        0 <= k,
                        0 <= c,
                ;
            },
            Expr::Op(Op::Mul, child, k) => {
                let a = upper(*child);
                lemma_upper_range(*child);
                assert(a * (k * c) == (a * k) * c && 0 <= k * c <= (a * k) * c) by (nonlinear_arith)
                    requires
                        0 <= a,
                        0 <= k,
                        0 <= c,
                        a * k > 0,
                ;
            },
            _ => {},
        }
    }
}

/// Multiplication keeps an expression well formed and multiplies its bound.
pub proof fn lemma_scaled_wf(e: Expr, c: int)
    requires
        wf(e),
        0 <= c <= i32::MAX,
        upper(e) * c <= i32::MAX,
    ensures
        wf(scaled(e, c)),
        upper(scaled(e, c)) == upper(e) * c,
{
    lemma_upper_range(e);
    let u = upper(e);
    if c == 0 || u == 0 || c == 1 {
        lemma_piece_scaled_wf(e, c);
    } else {
        match e {
            Expr::Sum(terms) => {
                let out = pieces_scaled(terms, c);
                lemma_uppers_nonneg(terms);
                lemma_upper_sum_is_sum(terms, terms.len());
                assert forall|i: int| 0 <= i < terms.len() implies wf(#[trigger] out[i])
                    && uppers(out)[i] == uppers(terms)[i] * c by {
                    assert(all_wf(terms));
                    assert(wf(terms[i]));
                    lemma_entry_at_most_sum(uppers(terms), i);
                    let ui = upper(terms[i]);
                    assert(ui * c <= u * c) by (nonlinear_arith)
                        requires
                            0 <= ui <= u,
                            0 <= c,
                    ;
                    lemma_piece_scaled_wf(terms[i], c);
                }
                lemma_prefix_sum_scaled(uppers(terms), uppers(out), c, terms.len());
                lemma_assembled_wf(out);
            },
            _ => {
                lemma_piece_scaled_wf(e, c);
            },
        }
    }
}

/// Division keeps an expression well formed and divides its bound.
pub proof fn lemma_whole_quotient_wf(e: Expr, c: int)
    requires
        wf(e),
        1 <= c,
    ensures
        wf(whole_quotient(e, c)),
        upper(whole_quotient(e, c)) == upper(e) / c,
{
    lemma_upper_range(e);
    let u = upper(e);
    if c == 1 {
    } else if u < c {
        assert(u / c == 0) by (nonlinear_arith)
            requires
                0 <= u < c,
        ;
    } else {
        match e {
            Expr::Num(k) => {
                assert(0 <= k / c <= k) by (nonlinear_arith)
                    requires
                        0 <= k,
                        1 <= c,
                ;
            },
            Expr::Op(Op::Div, child, k) => {
                let a = upper(*child);
                lemma_upper_range(*child);
                assert(1 <= k * c <= a) by (nonlinear_arith)
                    requires
                        0 <= a,
                        1 <= k,
                        1 <= c,
                        a / k >= c,
                ;
                vstd::arithmetic::div_mod::lemma_div_denominator(a, k, c);
            },
            _ => {},
        }
    }
}

/// The whole_remainder is well formed, below the modulus and never above the
/// operand.
pub proof fn lemma_whole_remainder_wf(e: Expr, c: int)
    requires
        wf(e),
        1 <= c <= i32::MAX,
    ensures
        wf(whole_remainder(e, c)),
        upper(whole_remainder(e, c)) <= c - 1,
        upper(whole_remainder(e, c)) <= upper(e),
{
    lemma_upper_range(e);
    if c == 1 {
    } else if upper(e) < c {
    } else {
        match e {
            Expr::Num(k) => {
                assert(0 <= k % c <= c - 1) by (nonlinear_arith)
                    requires
                        1 <= c,
                ;
            },
            _ => {},
        }
    }
}

/// What `partner` finds is the first term, other than the digit itself, that
/// carries the digit; it finds nothing only if there is none.
pub proof fn lemma_partner(terms: Seq<Expr>, digit: Digit, i: int, n: nat)
    requires
        n <= terms.len(),
    ensures
        match partner(terms, digit, i, n) {
            Some(j) => 0 <= j < n && j != i && carries(terms[j], digit) && forall|k: int|
                0 <= k < j && k != i ==> !carries(terms[k], digit),
            None => forall|k: int| 0 <= k < n && k != i ==> !carries(terms[k], digit),
        },
    decreases n,
{
    if n > 0 {
        lemma_partner(terms, digit, i, (n - 1) as nat);
    }
}

/// A partner found among the first `m` terms is the partner in every longer
/// prefix.
pub proof fn lemma_partner_stable(terms: Seq<Expr>, digit: Digit, i: int, m: nat, n: nat)
    requires
        m <= n <= terms.len(),
        partner(terms, digit, i, m) is Some,
    ensures
        partner(terms, digit, i, n) == partner(terms, digit, i, m),
    decreases n,
{
    if m < n {
        lemma_partner_stable(terms, digit, i, m, (n - 1) as nat);
    }
}

/// What `first_pair` finds is a digit and a different term that carries it.
pub proof fn lemma_first_pair(terms: Seq<Expr>, n: nat)
    requires
        n <= terms.len(),
    ensures
        match first_pair(terms, n) {
            Some((i, j)) => 0 <= i < n && 0 <= j < terms.len() && i != j && low_digit(
                terms[i],
            ) is Some && carries(terms[j], low_digit(terms[i])->Some_0),
            None => true,
        },
    decreases n,
{
    if n > 0 {
        lemma_first_pair(terms, (n - 1) as nat);
        if let Some(digit) = low_digit(terms[n - 1]) {
            lemma_partner(terms, digit, n - 1, terms.len());
        }
    }
}

/// A pair found among the first `m` terms is the pair in every longer prefix.
pub proof fn lemma_first_pair_stable(terms: Seq<Expr>, m: nat, n: nat)
    requires
        m <= n <= terms.len(),
        first_pair(terms, m) is Some,
    ensures
        first_pair(terms, n) == first_pair(terms, m),
    decreases n,
{
    if m < n {
        lemma_first_pair_stable(terms, m, (n - 1) as nat);
    }
}

/// The parts of a digit read from a well-formed term are themselves in range.
pub proof fn lemma_low_digit_wf(e: Expr)
    requires
        wf(e),
        low_digit(e) is Some,
    ensures
        wf(low_digit(e)->Some_0.inner),
        1 <= low_digit(e)->Some_0.radix <= i32::MAX,
        0 <= low_digit(e)->Some_0.weight <= i32::MAX,
        upper(e) == (low_digit(e)->Some_0.radix - 1) * low_digit(e)->Some_0.weight,
{
    match e {
        Expr::Op(Op::Mod, inner, radix) => {},
        Expr::Op(Op::Mul, factor, weight) => {
            assert(wf(*factor));
        },
        _ => {},
    }
}

/// Fusing a digit with the term that carries it keeps the list well formed
/// and does not raise the total of the bounds.
pub proof fn lemma_fused_wf(terms: Seq<Expr>, i: int, j: int)
    requires
        terms_wf(terms),
        0 <= i < terms.len(),
        0 <= j < terms.len(),
        i != j,
        low_digit(terms[i]) is Some,
        carries(terms[j], low_digit(terms[i])->Some_0),
    ensures
        wf(low_digit(terms[i])->Some_0.inner),
        1 <= low_digit(terms[i])->Some_0.radix <= i32::MAX,
        0 <= low_digit(terms[i])->Some_0.weight <= i32::MAX,
        upper(low_digit(terms[i])->Some_0.inner) * low_digit(terms[i])->Some_0.weight <= i32::MAX,
        terms_wf(fused(terms, i, j)),
        sum_of(uppers(fused(terms, i, j))) <= sum_of(uppers(terms)),
        fused(terms, i, j).len() == terms.len() - 1,
{
    let low = terms[i];
    let high = terms[j];
    let digit = low_digit(low)->Some_0;
    let y = digit.inner;
    let n = digit.radix;
    let w = digit.weight;
    assert(wf(low) && wf(high));
    lemma_low_digit_wf(low);
    lemma_whole_quotient_wf(y, n);
    lemma_upper_range(y);
    let uy = upper(y);
    lemma_uppers_nonneg(terms);
    lemma_two_entries_at_most_sum(uppers(terms), i, j);
    assert(upper(high) == (uy / n) * (n * w));
    assert(uy * w <= (n - 1) * w + (uy / n) * (n * w)) by (nonlinear_arith)
        requires
            0 <= uy,
            1 <= n,
            0 <= w,
    {
        assert(uy == n * (uy / n) + uy % n);
        assert(uy % n <= n - 1);
        assert((uy % n) * w <= (n - 1) * w);
        assert(uy * w == (n * (uy / n)) * w + (uy % n) * w);
        assert((n * (uy / n)) * w == (uy / n) * (n * w));
    }
    lemma_scaled_wf(y, w);
    let merged = scaled(y, w);
    let updated = terms.update(i, merged);
    let out = fused(terms, i, j);
    assert(out == updated.remove(j));
    assert(uppers(updated) =~= uppers(terms).update(i, upper(merged)));
    assert(uppers(out) =~= uppers(updated).remove(j));
    lemma_sum_of_update(uppers(terms), i, upper(merged));
    lemma_sum_of_remove(uppers(updated), j);
    assert forall|k: int| 0 <= k < out.len() implies wf(#[trigger] out[k]) by {
        let from = if k < j {
            k
        } else {
            k + 1
        };
        assert(out[k] == updated[from]);
        if from != i {
            assert(wf(terms[from]));
        }
    }
}

/// Fusing digit pairs keeps the list well formed and does not raise the total
/// of the bounds.
pub proof fn lemma_recombined_wf(terms: Seq<Expr>, rounds: nat)
    requires
        terms_wf(terms),
    ensures
        terms_wf(recombined(terms, rounds)),
        sum_of(uppers(recombined(terms, rounds))) <= sum_of(uppers(terms)),
    decreases rounds,
{
    if rounds > 0 {
        lemma_first_pair(terms, terms.len());
        if let Some((i, j)) = first_pair(terms, terms.len()) {
            lemma_fused_wf(terms, i, j);
            lemma_recombined_wf(fused(terms, i, j), (rounds - 1) as nat);
        }
    }
}

/// Splitting a sum by a divisor keeps the terms well formed; `c` times the
/// bounds of the divided multiples, with the bounds of the others, make up
/// the bounds of the terms.
pub proof fn lemma_split_wf(terms: Seq<Expr>, c: int, n: nat)
    requires
        all_wf(terms),
        1 <= c,
        n <= terms.len(),
    ensures
        all_wf(multiples_divided(terms, c, n)),
        all_wf(non_multiples(terms, c, n)),
        sum_of(uppers(multiples_divided(terms, c, n))) * c + sum_of(
            uppers(non_multiples(terms, c, n)),
        ) == prefix_sum(uppers(terms), n),
    decreases n,
{
    if n > 0 {
        let m = (n - 1) as nat;
        lemma_split_wf(terms, c, m);
        let t = terms[n - 1];
        assert(wf(t));
        let ms = multiples_divided(terms, c, m);
        let os = non_multiples(terms, c, m);
        if is_multiple(t, c) {
            match t {
                Expr::Op(Op::Mul, child, k) => {
                    lemma_upper_range(*child);
                    let u = upper(*child);
                    let f = k / c;
                    assert(k == c * f && 0 <= f <= k && u * f <= u * k && (u * f) * c == u * k)
                        by (nonlinear_arith)
                        requires
                            k % c == 0,
                            f == k / c,
                            1 <= c,
                            0 <= k,
                            0 <= u,
                    ;
                    lemma_piece_scaled_wf(*child, f);
                    let d = multiple_divided(t, c);
                    let after = multiples_divided(terms, c, n);
                    assert(after == ms.push(d));
                    assert(uppers(after) =~= uppers(ms).push(upper(d)));
                    crate::sums::lemma_sum_of_push(uppers(ms), upper(d));
                    let s = sum_of(uppers(ms));
                    assert((s + u * f) * c == s * c + (u * f) * c) by (nonlinear_arith);
                    assert forall|i: int| 0 <= i < after.len() implies wf(#[trigger] after[i]) by {
                        if i < ms.len() {
                            assert(after[i] == ms[i]);
                        }
                    }
                },
                _ => {},
            }
        } else {
            let after = non_multiples(terms, c, n);
            assert(after == os.push(t));
            assert(uppers(after) =~= uppers(os).push(upper(t)));
            crate::sums::lemma_sum_of_push(uppers(os), upper(t));
            assert forall|i: int| 0 <= i < after.len() implies wf(#[trigger] after[i]) by {
                if i < os.len() {
                    assert(after[i] == os[i]);
                }
            }
        }
    }
}

/// The parts that a sum of at least `c` is divided into are well-formed
/// lists: the terms that are no multiples of `c`, and the divided multiples
/// together with the quotient of the others. The bounds of the latter add up
/// to the bound of the sum divided by `c`.
pub proof fn lemma_split_parts_wf(terms: Seq<Expr>, c: int)
    requires
        wf(Expr::Sum(terms)),
        1 <= c,
    ensures
        terms_wf(non_multiples(terms, c, terms.len())),
        terms_wf(
            multiples_divided(terms, c, terms.len()).push(
                whole_quotient(assembled(non_multiples(terms, c, terms.len())), c),
            ),
        ),
        sum_of(
            uppers(
                multiples_divided(terms, c, terms.len()).push(
                    whole_quotient(assembled(non_multiples(terms, c, terms.len())), c),
                ),
            ),
        ) == upper(Expr::Sum(terms)) / c,
{
    lemma_upper_range(Expr::Sum(terms));
    lemma_upper_sum_is_sum(terms, terms.len());
    lemma_split_wf(terms, c, terms.len());
    let ms = multiples_divided(terms, c, terms.len());
    let os = non_multiples(terms, c, terms.len());
    lemma_uppers_nonneg(ms);
    lemma_uppers_nonneg(os);
    let q = sum_of(uppers(ms));
    let r = sum_of(uppers(os));
    assert(q <= q * c) by (nonlinear_arith)
        requires
            0 <= q,
            1 <= c,
    ;
    lemma_assembled_wf(os);
    let rest = assembled(os);
    lemma_whole_quotient_wf(rest, c);
    let last = whole_quotient(rest, c);
    let list = ms.push(last);
    assert(uppers(list) =~= uppers(ms).push(upper(last)));
    crate::sums::lemma_sum_of_push(uppers(ms), upper(last));
    crate::sums::lemma_split_division(q, r, c);
    assert(r / c <= r) by (nonlinear_arith)
        requires
            0 <= r,
            1 <= c,
    ;
    assert forall|i: int| 0 <= i < list.len() implies wf(#[trigger] list[i]) by {
        if i < ms.len() {
            assert(list[i] == ms[i]);
        }
    }
}

/// Dividing the factor of a product by a multiple of `c` divides its bound
/// by `c`.
pub proof fn lemma_multiple_divided_wf(child: Expr, k: int, c: int)
    requires
        wf(Expr::Op(Op::Mul, Box::new(child), k)),
        1 <= c,
        k % c == 0,
    ensures
        wf(piece_scaled(child, k / c)),
        upper(piece_scaled(child, k / c)) == (upper(child) * k) / c,
        upper(piece_scaled(child, k / c)) * c == upper(child) * k,
{
    lemma_upper_range(child);
    let u = upper(child);
    let f = k / c;
    assert(k == c * f && 0 <= f <= k && u * f <= u * k && (u * f) * c == u * k) by (nonlinear_arith)
        requires
            k % c == 0,
            f == k / c,
            1 <= c,
            0 <= k,
            0 <= u,
    ;
    lemma_piece_scaled_wf(child, f);
    crate::sums::lemma_split_division(u * f, 0, c);
}

/// Division keeps an expression well formed and divides its bound.
pub proof fn lemma_quotient_wf(e: Expr, c: int)
    requires
        wf(e),
        1 <= c,
    ensures
        wf(quotient(e, c)),
        upper(quotient(e, c)) == upper(e) / c,
{
    lemma_upper_range(e);
    lemma_whole_quotient_wf(e, c);
    let u = upper(e);
    if c != 1 && u >= c {
        match e {
            Expr::Sum(terms) => {
                lemma_split_parts_wf(terms, c);
                let ms = multiples_divided(terms, c, terms.len());
                let os = non_multiples(terms, c, terms.len());
                lemma_assembled_wf(ms.push(whole_quotient(assembled(os), c)));
            },
            Expr::Op(Op::Mul, child, k) => {
                if k % c == 0 {
                    lemma_multiple_divided_wf(*child, k, c);
                }
            },
            _ => {},
        }
    }
}

/// The remainder is well formed, below the modulus and never above the
/// operand.
pub proof fn lemma_remainder_wf(e: Expr, c: int)
    requires
        wf(e),
        1 <= c <= i32::MAX,
    ensures
        wf(remainder(e, c)),
        upper(remainder(e, c)) <= c - 1,
        upper(remainder(e, c)) <= upper(e),
{
    lemma_upper_range(e);
    lemma_whole_remainder_wf(e, c);
    if c != 1 && upper(e) >= c {
        match e {
            Expr::Sum(terms) => {
                lemma_split_parts_wf(terms, c);
                let os = non_multiples(terms, c, terms.len());
                lemma_upper_sum_is_sum(terms, terms.len());
                lemma_split_wf(terms, c, terms.len());
                let ms = multiples_divided(terms, c, terms.len());
                lemma_uppers_nonneg(ms);
                let q = sum_of(uppers(ms));
                assert(0 <= q * c) by (nonlinear_arith)
                    requires
                        0 <= q,
                        1 <= c,
                ;
                lemma_assembled_wf(os);
                lemma_whole_remainder_wf(assembled(os), c);
            },
            _ => {},
        }
    }
}

/// Distributing keeps an expression well formed and does not raise its
/// bound.
pub proof fn lemma_distributed_wf(t: Expr)
    requires
        wf(t),
    ensures
        wf(distributed(t)),
        upper(distributed(t)) <= upper(t),
    decreases t,
{
    match t {
        Expr::Op(op, child, imm) => {
            lemma_distributed_wf(*child);
            let inner = distributed(*child);
            lemma_upper_range(inner);
            lemma_upper_range(*child);
            let a = upper(inner);
            let b = upper(*child);
            match op {
                Op::Mul => {
                    assert(a * imm <= b * imm) by (nonlinear_arith)
                        requires
                            0 <= a <= b,
                            0 <= imm,
                    ;
                    lemma_scaled_wf(inner, imm);
                },
                Op::Div => {
                    lemma_quotient_wf(inner, imm);
                    vstd::arithmetic::div_mod::lemma_div_is_ordered(a, b, imm);
                },
                Op::Mod => {
                    lemma_remainder_wf(inner, imm);
                },
            }
        },
        _ => {},
    }
}

/// Distributing every term keeps the list well formed and does not raise the
/// total of the bounds.
pub proof fn lemma_all_distributed_wf(terms: Seq<Expr>)
    requires
        terms_wf(terms),
    ensures
        terms_wf(all_distributed(terms)),
        sum_of(uppers(all_distributed(terms))) <= sum_of(uppers(terms)),
{
    let out = all_distributed(terms);
    assert forall|i: int| 0 <= i < terms.len() implies wf(#[trigger] out[i]) && uppers(out)[i]
        <= uppers(terms)[i] by {
        assert(wf(terms[i]));
        lemma_distributed_wf(terms[i]);
    }
    crate::sums::lemma_prefix_sum_pointwise(uppers(out), uppers(terms), terms.len());
}

/// The sum of a well-formed list is well formed, and bounded by the total of
/// the terms' bounds.
pub proof fn lemma_summed_wf(terms: Seq<Expr>)
    requires
        terms_wf(terms),
    ensures
        wf(summed(terms)),
        upper(summed(terms)) <= sum_of(uppers(terms)),
{
    let flat = flat_terms(terms, terms.len());
    lemma_flat_terms_wf(terms, terms.len());
    lemma_recombined_wf(flat, flat.len());
    let first = recombined(flat, flat.len());
    lemma_all_distributed_wf(first);
    let spread = all_distributed(first);
    lemma_flat_terms_wf(spread, spread.len());
    let again = flat_terms(spread, spread.len());
    lemma_recombined_wf(again, again.len());
    lemma_assembled_wf(recombined(again, again.len()));
}

} // verus!
