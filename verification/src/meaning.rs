//! What the simplifying constructors mean: each gives an expression with the
//! value of the operation it stands for.

use crate::algebra::{
    all_distributed, assembled, carries, distributed, first_pair, flat_terms, fused, is_multiple,
    lemma_all_distributed_wf, lemma_assembled_wf, lemma_distributed_wf, lemma_first_pair,
    lemma_flat_terms_wf, lemma_fused_wf, lemma_low_digit_wf, lemma_recombined_wf,
    lemma_split_parts_wf, lemma_split_wf, low_digit, multiple_divided, multiples_divided,
    non_multiples, piece_scaled, pieces, pieces_scaled, quotient, recombined, remainder, scaled,
    summed, whole_quotient, whole_remainder, wrap,
};
use crate::expr::{
    all_respect, all_wf, eval, evals, lemma_eval_range, lemma_eval_sum_is_sum, respects, terms_wf,
    upper, wf, Expr, Op,
};
use crate::sums::{
    lemma_prefix_sum_scaled, lemma_split_division, lemma_sum_of_concat, lemma_sum_of_push,
    lemma_sum_of_remove, lemma_sum_of_update, prefix_sum, sum_of,
};
use vstd::prelude::*;

verus! {

/// Flattening keeps the total value of the terms.
pub proof fn lemma_flat_terms_eval(terms: Seq<Expr>, n: nat, env: Seq<int>)
    requires
        all_respect(terms, env),
        n <= terms.len(),
    ensures
        all_respect(flat_terms(terms, n), env),
        sum_of(evals(flat_terms(terms, n), env)) == prefix_sum(evals(terms, env), n),
    decreases n,
{
    if n > 0 {
        lemma_flat_terms_eval(terms, (n - 1) as nat, env);
        let before = flat_terms(terms, (n - 1) as nat);
        let last = terms[n - 1];
        let added = pieces(last);
        assert(respects(last, env));
        assert(all_respect(added, env));
        assert(sum_of(evals(added, env)) == eval(last, env)) by {
            match last {
                Expr::Sum(inner) => {
                    lemma_eval_sum_is_sum(inner, inner.len(), env);
                },
                _ => {
                    reveal_with_fuel(prefix_sum, 2);
                },
            }
        }
        assert(evals(before + added, env) =~= evals(before, env) + evals(added, env));
        lemma_sum_of_concat(evals(before, env), evals(added, env));
    }
}

/// A wrapped list has the total value of its terms.
pub proof fn lemma_wrap_eval(terms: Seq<Expr>, env: Seq<int>)
    requires
        all_respect(terms, env),
    ensures
        respects(wrap(terms), env),
        eval(wrap(terms), env) == sum_of(evals(terms, env)),
{
    lemma_eval_sum_is_sum(terms, terms.len(), env);
    if terms.len() == 1 {
        reveal_with_fuel(prefix_sum, 2);
        assert(respects(terms[0], env));
    }
}

/// A flattened sum has the total value of its terms.
pub proof fn lemma_assembled_eval(terms: Seq<Expr>, env: Seq<int>)
    requires
        all_respect(terms, env),
    ensures
        respects(assembled(terms), env),
        eval(assembled(terms), env) == sum_of(evals(terms, env)),
{
    lemma_flat_terms_eval(terms, terms.len(), env);
    lemma_wrap_eval(flat_terms(terms, terms.len()), env);
}

/// The product of a single term by `c` has `c` times its value.
pub proof fn lemma_piece_scaled_eval(e: Expr, c: int, env: Seq<int>)
    requires
        wf(e),
        respects(e, env),
        0 <= c,
    ensures
        respects(piece_scaled(e, c), env),
        eval(piece_scaled(e, c), env) == eval(e, env) * c,
{
    lemma_eval_range(e, env);
    let x = eval(e, env);
    if c == 0 || upper(e) == 0 {
        assert(x * c == 0) by (nonlinear_arith)
            requires
                c == 0 || x == 0,
        ;
    } else if c == 1 {
    } else {
        match e {
            Expr::Op(Op::Mul, child, k) => {
                let a = eval(*child, env);
                assert(a * (k * c) == (a * k) * c) by (nonlinear_arith);
            },
            _ => {},
        }
    }
}

/// `scaled(e, c)` has `c` times the value of `e`.
pub proof fn lemma_scaled_eval(e: Expr, c: int, env: Seq<int>)
    requires
        wf(e),
        respects(e, env),
        0 <= c,
    ensures
        respects(scaled(e, c), env),
        eval(scaled(e, c), env) == eval(e, env) * c,
{
    if c == 0 || upper(e) == 0 || c == 1 {
        lemma_piece_scaled_eval(e, c, env);
    } else {
        match e {
            Expr::Sum(terms) => {
                let out = pieces_scaled(terms, c);
                assert forall|i: int| 0 <= i < terms.len() implies respects(#[trigger] out[i], env)
                    && evals(out, env)[i] == evals(terms, env)[i] * c by {
                    assert(all_wf(terms));
                    assert(wf(terms[i]));
                    assert(all_respect(terms, env));
                    assert(respects(terms[i], env));
                    lemma_piece_scaled_eval(terms[i], c, env);
                }
                lemma_prefix_sum_scaled(evals(terms, env), evals(out, env), c, terms.len());
                lemma_eval_sum_is_sum(terms, terms.len(), env);
                lemma_assembled_eval(out, env);
            },
            _ => {
                lemma_piece_scaled_eval(e, c, env);
            },
        }
    }
}

/// `whole_quotient(e, c)` has the value of `e` divided by `c`.
pub proof fn lemma_whole_quotient_eval(e: Expr, c: int, env: Seq<int>)
    requires
        wf(e),
        respects(e, env),
        1 <= c,
    ensures
        respects(whole_quotient(e, c), env),
        eval(whole_quotient(e, c), env) == eval(e, env) / c,
{
    lemma_eval_range(e, env);
    let x = eval(e, env);
    if c == 1 {
    } else if upper(e) < c {
        assert(x / c == 0) by (nonlinear_arith)
            requires
                0 <= x < c,
        ;
    } else {
        match e {
            Expr::Op(Op::Div, child, k) => {
                let a = eval(*child, env);
                lemma_eval_range(*child, env);
                vstd::arithmetic::div_mod::lemma_div_denominator(a, k, c);
            },
            _ => {},
        }
    }
}

/// `whole_remainder(e, c)` has the value of `e` modulo `c`.
pub proof fn lemma_whole_remainder_eval(e: Expr, c: int, env: Seq<int>)
    requires
        wf(e),
        respects(e, env),
        1 <= c,
    ensures
        respects(whole_remainder(e, c), env),
        eval(whole_remainder(e, c), env) == eval(e, env) % c,
{
    lemma_eval_range(e, env);
    let x = eval(e, env);
    if c == 1 {
        assert(x % 1 == 0);
    } else if upper(e) < c {
        assert(x % c == x) by (nonlinear_arith)
            requires
                0 <= x < c,
        ;
    } else {
    }
}

/// Fusing a digit with the term that carries it keeps the total value.
pub proof fn lemma_fused_eval(terms: Seq<Expr>, i: int, j: int, env: Seq<int>)
    requires
        terms_wf(terms),
        all_respect(terms, env),
        0 <= i < terms.len(),
        0 <= j < terms.len(),
        i != j,
        low_digit(terms[i]) is Some,
        carries(terms[j], low_digit(terms[i])->Some_0),
    ensures
        all_respect(fused(terms, i, j), env),
        sum_of(evals(fused(terms, i, j), env)) == sum_of(evals(terms, env)),
{
    let low = terms[i];
    let high = terms[j];
    let digit = low_digit(low)->Some_0;
    let y = digit.inner;
    let n = digit.radix;
    let w = digit.weight;
    assert(wf(low) && wf(high));
    assert(respects(low, env) && respects(high, env));
    lemma_low_digit_wf(low);
    assert(respects(y, env)) by {
        match low {
            Expr::Op(Op::Mul, factor, _) => {
                assert(respects(*factor, env));
            },
            _ => {},
        }
    }
    let x = eval(y, env);
    assert(eval(low, env) == (x % n) * w) by {
        match low {
            Expr::Op(Op::Mod, _, _) => {
                assert((x % n) * 1 == x % n);
            },
            Expr::Op(Op::Mul, factor, _) => {
                assert(eval(*factor, env) == x % n);
            },
            _ => {},
        }
    }
    lemma_whole_quotient_eval(y, n, env);
    assert(eval(high, env) == (x / n) * (n * w));
    lemma_scaled_eval(y, w, env);
    let merged = scaled(y, w);
    assert(x * w == (x % n) * w + (x / n) * (n * w)) by (nonlinear_arith)
        requires
            1 <= n,
    {
        assert(x == n * (x / n) + x % n);
        assert(x * w == (n * (x / n)) * w + (x % n) * w);
        assert((n * (x / n)) * w == (x / n) * (n * w));
    }
    let updated = terms.update(i, merged);
    let out = fused(terms, i, j);
    assert(out == updated.remove(j));
    assert(evals(updated, env) =~= evals(terms, env).update(i, eval(merged, env)));
    assert(evals(out, env) =~= evals(updated, env).remove(j));
    lemma_sum_of_update(evals(terms, env), i, eval(merged, env));
    lemma_sum_of_remove(evals(updated, env), j);
    assert forall|k: int| 0 <= k < out.len() implies respects(#[trigger] out[k], env) by {
        let from = if k < j {
            k
        } else {
            k + 1
        };
        assert(out[k] == updated[from]);
        if from != i {
            assert(respects(terms[from], env));
        }
    }
}

/// Fusing digit pairs keeps the total value.
pub proof fn lemma_recombined_eval(terms: Seq<Expr>, rounds: nat, env: Seq<int>)
    requires
        terms_wf(terms),
        all_respect(terms, env),
    ensures
        all_respect(recombined(terms, rounds), env),
        sum_of(evals(recombined(terms, rounds), env)) == sum_of(evals(terms, env)),
    decreases rounds,
{
    if rounds > 0 {
        lemma_first_pair(terms, terms.len());
        if let Some((i, j)) = first_pair(terms, terms.len()) {
            lemma_fused_wf(terms, i, j);
            lemma_fused_eval(terms, i, j, env);
            lemma_recombined_eval(fused(terms, i, j), (rounds - 1) as nat, env);
        }
    }
}

/// Splitting a sum by a divisor keeps its value: `c` times the divided
/// multiples, with the others, make up the terms.
pub proof fn lemma_split_eval(terms: Seq<Expr>, c: int, n: nat, env: Seq<int>)
    requires
        all_wf(terms),
        all_respect(terms, env),
        1 <= c,
        n <= terms.len(),
    ensures
        all_respect(multiples_divided(terms, c, n), env),
        all_respect(non_multiples(terms, c, n), env),
        sum_of(evals(multiples_divided(terms, c, n), env)) * c + sum_of(
            evals(non_multiples(terms, c, n), env),
        ) == prefix_sum(evals(terms, env), n),
    decreases n,
{
    if n > 0 {
        let m = (n - 1) as nat;
        lemma_split_eval(terms, c, m, env);
        let t = terms[n - 1];
        assert(wf(t));
        assert(respects(t, env));
        let ms = multiples_divided(terms, c, m);
        let os = non_multiples(terms, c, m);
        if is_multiple(t, c) {
            match t {
                Expr::Op(Op::Mul, child, k) => {
                    let x = eval(*child, env);
                    let f = k / c;
                    assert(k == c * f && 0 <= f && (x * f) * c == x * k) by (nonlinear_arith)
                        requires
                            k % c == 0,
                            f == k / c,
                            1 <= c,
                            0 <= k,
                    ;
                    lemma_piece_scaled_eval(*child, f, env);
                    let d = multiple_divided(t, c);
                    let after = multiples_divided(terms, c, n);
                    assert(after == ms.push(d));
                    assert(evals(after, env) =~= evals(ms, env).push(eval(d, env)));
                    lemma_sum_of_push(evals(ms, env), eval(d, env));
                    let s = sum_of(evals(ms, env));
                    assert((s + x * f) * c == s * c + (x * f) * c) by (nonlinear_arith);
                    assert forall|i: int| 0 <= i < after.len() implies respects(
                        #[trigger] after[i],
                        env,
                    ) by {
                        if i < ms.len() {
                            assert(after[i] == ms[i]);
                        }
                    }
                },
                _ => {},
            }
        } else {
            let after = non_multiples(terms, c, n);
            assert(after == os.push(t));
            assert(evals(after, env) =~= evals(os, env).push(eval(t, env)));
            lemma_sum_of_push(evals(os, env), eval(t, env));
            assert forall|i: int| 0 <= i < after.len() implies respects(
                #[trigger] after[i],
                env,
            ) by {
                if i < os.len() {
                    assert(after[i] == os[i]);
                }
            }
        }
    }
}

/// `quotient(e, c)` has the value of `e` divided by `c`.
pub proof fn lemma_quotient_eval(e: Expr, c: int, env: Seq<int>)
    requires
        wf(e),
        respects(e, env),
        1 <= c,
    ensures
        respects(quotient(e, c), env),
        eval(quotient(e, c), env) == eval(e, env) / c,
{
    lemma_eval_range(e, env);
    lemma_whole_quotient_eval(e, c, env);
    if c != 1 && upper(e) >= c {
        match e {
            Expr::Sum(terms) => {
                lemma_eval_sum_is_sum(terms, terms.len(), env);
                lemma_split_parts_wf(terms, c);
                lemma_split_wf(terms, c, terms.len());
                lemma_split_eval(terms, c, terms.len(), env);
                let ms = multiples_divided(terms, c, terms.len());
                let os = non_multiples(terms, c, terms.len());
                lemma_assembled_wf(os);
                lemma_assembled_eval(os, env);
                let rest = assembled(os);
                lemma_whole_quotient_eval(rest, c, env);
                let last = whole_quotient(rest, c);
                let list = ms.push(last);
                assert(evals(list, env) =~= evals(ms, env).push(eval(last, env)));
                lemma_sum_of_push(evals(ms, env), eval(last, env));
                lemma_split_division(sum_of(evals(ms, env)), sum_of(evals(os, env)), c);
                assert forall|i: int| 0 <= i < list.len() implies respects(
                    #[trigger] list[i],
                    env,
                ) by {
                    if i < ms.len() {
                        assert(list[i] == ms[i]);
                    }
                }
                lemma_assembled_eval(list, env);
            },
            Expr::Op(Op::Mul, child, k) => {
                if k % c == 0 {
                    let x = eval(*child, env);
                    let f = k / c;
                    assert(k == c * f && 0 <= f && (x * f) * c == x * k) by (nonlinear_arith)
                        requires
                            k % c == 0,
                            f == k / c,
                            1 <= c,
                            0 <= k,
                    ;
                    lemma_piece_scaled_eval(*child, f, env);
                    lemma_split_division(x * f, 0, c);
                }
            },
            _ => {},
        }
    }
}

/// `remainder(e, c)` has the value of `e` modulo `c`.
pub proof fn lemma_remainder_eval(e: Expr, c: int, env: Seq<int>)
    requires
        wf(e),
        respects(e, env),
        1 <= c,
    ensures
        respects(remainder(e, c), env),
        eval(remainder(e, c), env) == eval(e, env) % c,
{
    lemma_eval_range(e, env);
    lemma_whole_remainder_eval(e, c, env);
    if c != 1 && upper(e) >= c {
        match e {
            Expr::Sum(terms) => {
                lemma_eval_sum_is_sum(terms, terms.len(), env);
                lemma_split_parts_wf(terms, c);
                lemma_split_wf(terms, c, terms.len());
                lemma_split_eval(terms, c, terms.len(), env);
                let ms = multiples_divided(terms, c, terms.len());
                let os = non_multiples(terms, c, terms.len());
                lemma_assembled_wf(os);
                lemma_assembled_eval(os, env);
                lemma_whole_remainder_eval(assembled(os), c, env);
                lemma_split_division(sum_of(evals(ms, env)), sum_of(evals(os, env)), c);
            },
            Expr::Op(Op::Mul, child, k) => {
                if k % c == 0 {
                    let x = eval(*child, env);
                    let f = k / c;
                    assert(x * k == (x * f) * c) by (nonlinear_arith)
                        requires
                            k % c == 0,
                            f == k / c,
                            1 <= c,
                    ;
                    lemma_split_division(x * f, 0, c);
                }
            },
            _ => {},
        }
    }
}

/// Distributing keeps the value of an expression.
pub proof fn lemma_distributed_eval(t: Expr, env: Seq<int>)
    requires
        wf(t),
        respects(t, env),
    ensures
        respects(distributed(t), env),
        eval(distributed(t), env) == eval(t, env),
    decreases t,
{
    match t {
        Expr::Op(op, child, imm) => {
            lemma_distributed_eval(*child, env);
            lemma_distributed_wf(*child);
            let inner = distributed(*child);
            match op {
                Op::Mul => {
                    lemma_scaled_eval(inner, imm, env);
                },
                Op::Div => {
                    lemma_quotient_eval(inner, imm, env);
                },
                Op::Mod => {
                    lemma_remainder_eval(inner, imm, env);
                },
            }
        },
        _ => {},
    }
}

/// Distributing every term keeps the total value.
pub proof fn lemma_all_distributed_eval(terms: Seq<Expr>, env: Seq<int>)
    requires
        all_wf(terms),
        all_respect(terms, env),
    ensures
        all_respect(all_distributed(terms), env),
        sum_of(evals(all_distributed(terms), env)) == sum_of(evals(terms, env)),
{
    let out = all_distributed(terms);
    assert forall|i: int| 0 <= i < terms.len() implies respects(#[trigger] out[i], env)
        && evals(out, env)[i] == evals(terms, env)[i] by {
        assert(wf(terms[i]));
        assert(respects(terms[i], env));
        lemma_distributed_eval(terms[i], env);
    }
    assert(evals(out, env) =~= evals(terms, env));
}

/// `summed(terms)` has the total value of the terms.
pub proof fn lemma_summed_eval(terms: Seq<Expr>, env: Seq<int>)
    requires
        terms_wf(terms),
        all_respect(terms, env),
    ensures
        respects(summed(terms), env),
        eval(summed(terms), env) == sum_of(evals(terms, env)),
{
    let flat = flat_terms(terms, terms.len());
    lemma_flat_terms_wf(terms, terms.len());
    lemma_flat_terms_eval(terms, terms.len(), env);
    lemma_recombined_wf(flat, flat.len());
    lemma_recombined_eval(flat, flat.len(), env);
    let first = recombined(flat, flat.len());
    lemma_all_distributed_wf(first);
    lemma_all_distributed_eval(first, env);
    let spread = all_distributed(first);
    lemma_flat_terms_wf(spread, spread.len());
    lemma_flat_terms_eval(spread, spread.len(), env);
    let again = flat_terms(spread, spread.len());
    lemma_recombined_wf(again, again.len());
    lemma_recombined_eval(again, again.len(), env);
    lemma_assembled_eval(recombined(again, again.len()), env);
}

} // verus!
