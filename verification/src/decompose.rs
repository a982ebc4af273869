//! Rewriting a flat index into the offset it has under a layout.

use crate::algebra::{lemma_summed_wf, scaled, summed, whole_quotient, whole_remainder};
use crate::expr::{
    all_respect, all_wf, eval, evals, lemma_upper_range, respects, upper, uppers, views_of, wf,
    Expr, Node,
};
use crate::layout::{
    extent, extent_from, flat_offset, lemma_dimension_bounds, lemma_extent_monotone, offset_from,
    suffix_product, Layout,
};
use crate::meaning::{
    lemma_scaled_eval, lemma_summed_eval, lemma_whole_quotient_eval, lemma_whole_remainder_eval,
};
use crate::sums::{lemma_sum_of_push, prefix_sum, sum_of};
use vstd::prelude::*;

verus! {

/// What dimension `i` contributes to the offset of the flat index `e`:
/// `((e / inner) % size) * stride`, where `inner` is the number of elements
/// that one step along the dimension skips.
pub open spec fn digit_term(e: Expr, shape: Seq<usize>, strides: Seq<usize>, i: int) -> Expr {
    scaled(
        whole_remainder(whole_quotient(e, suffix_product(shape, i + 1)), shape[i] as int),
        strides[i] as int,
    )
}

/// The contributions of the last `n` dimensions, innermost first.
pub open spec fn digit_terms(e: Expr, shape: Seq<usize>, strides: Seq<usize>, n: nat) -> Seq<
    Expr,
> {
    Seq::new(n, |j: int| digit_term(e, shape, strides, shape.len() - 1 - j))
}

/// The offset of the flat index `e` under the layout, as one expression.
pub open spec fn decomposed(e: Expr, shape: Seq<usize>, strides: Seq<usize>) -> Expr {
    summed(digit_terms(e, shape, strides, shape.len()))
}

/// Every contribution is well formed and bounded by the largest offset along
/// its dimension.
pub proof fn lemma_digit_term_wf(e: Expr, shape: Seq<usize>, strides: Seq<usize>, i: int)
    requires
        wf(e),
        (Layout { shape, strides }).addressable(),
        0 <= i < shape.len(),
    ensures
        wf(digit_term(e, shape, strides, i)),
        upper(digit_term(e, shape, strides, i)) <= (shape[i] - 1) * strides[i],
{
    lemma_dimension_bounds(Layout { shape, strides }, i);
    let inner = suffix_product(shape, i + 1);
    let d = shape[i] as int;
    let s = strides[i] as int;
    crate::algebra::lemma_whole_quotient_wf(e, inner);
    let q = whole_quotient(e, inner);
    crate::algebra::lemma_whole_remainder_wf(q, d);
    let r = whole_remainder(q, d);
    lemma_upper_range(r);
    assert(upper(r) * s <= (d - 1) * s) by (nonlinear_arith)
        requires
            0 <= upper(r) <= d - 1,
            0 <= s,
    ;
    crate::algebra::lemma_scaled_wf(r, s);
}

/// The contributions are well formed, and their bounds add up to no more than
/// the reach of the dimensions they stand for.
pub proof fn lemma_digit_terms_wf(e: Expr, shape: Seq<usize>, strides: Seq<usize>, n: nat)
    requires
        wf(e),
        (Layout { shape, strides }).addressable(),
        n <= shape.len(),
    ensures
        all_wf(digit_terms(e, shape, strides, n)),
        sum_of(uppers(digit_terms(e, shape, strides, n))) <= extent_from(
            shape,
            strides,
            shape.len() - n,
        ),
    decreases n,
{
    let terms = digit_terms(e, shape, strides, n);
    if n > 0 {
        let before = digit_terms(e, shape, strides, (n - 1) as nat);
        lemma_digit_terms_wf(e, shape, strides, (n - 1) as nat);
        let i = shape.len() - n;
        lemma_dimension_bounds(Layout { shape, strides }, i);
        lemma_digit_term_wf(e, shape, strides, i);
        let term = digit_term(e, shape, strides, i);
        assert(terms =~= before.push(term));
        assert(uppers(terms) =~= uppers(before).push(upper(term)));
        lemma_sum_of_push(uppers(before), upper(term));
        assert forall|k: int| 0 <= k < terms.len() implies wf(#[trigger] terms[k]) by {
            if k < n - 1 {
                assert(terms[k] == before[k]);
            }
        }
    } else {
        lemma_extent_monotone(shape, strides, 0, shape.len() as int);
    }
}

/// The decomposition is well formed and reaches no further than the layout.
pub proof fn lemma_decomposed_wf(e: Expr, shape: Seq<usize>, strides: Seq<usize>)
    requires
        wf(e),
        (Layout { shape, strides }).addressable(),
    ensures
        wf(decomposed(e, shape, strides)),
        upper(decomposed(e, shape, strides)) <= extent(shape, strides),
{
    lemma_digit_terms_wf(e, shape, strides, shape.len());
    lemma_summed_wf(digit_terms(e, shape, strides, shape.len()));
}

/// Every contribution has the value `((x / inner) % size) * stride`, where
/// `x` is the value of the flat index.
pub proof fn lemma_digit_term_eval(
    e: Expr,
    shape: Seq<usize>,
    strides: Seq<usize>,
    i: int,
    env: Seq<int>,
)
    requires
        wf(e),
        respects(e, env),
        (Layout { shape, strides }).addressable(),
        0 <= i < shape.len(),
    ensures
        respects(digit_term(e, shape, strides, i), env),
        eval(digit_term(e, shape, strides, i), env) == ((eval(e, env) / suffix_product(
            shape,
            i + 1,
        )) % (shape[i] as int)) * strides[i],
{
    lemma_dimension_bounds(Layout { shape, strides }, i);
    let inner = suffix_product(shape, i + 1);
    crate::algebra::lemma_whole_quotient_wf(e, inner);
    lemma_whole_quotient_eval(e, inner, env);
    let q = whole_quotient(e, inner);
    crate::algebra::lemma_whole_remainder_wf(q, shape[i] as int);
    lemma_whole_remainder_eval(q, shape[i] as int, env);
    lemma_scaled_eval(whole_remainder(q, shape[i] as int), strides[i] as int, env);
}

proof fn lemma_digit_terms_eval(
    e: Expr,
    shape: Seq<usize>,
    strides: Seq<usize>,
    n: nat,
    env: Seq<int>,
)
    requires
        wf(e),
        respects(e, env),
        (Layout { shape, strides }).addressable(),
        n <= shape.len(),
    ensures
        all_respect(digit_terms(e, shape, strides, shape.len()), env),
        prefix_sum(evals(digit_terms(e, shape, strides, shape.len()), env), n) == offset_from(
            eval(e, env),
            shape,
            strides,
            shape.len() - n,
        ),
    decreases n,
{
    let terms = digit_terms(e, shape, strides, shape.len());
    assert forall|k: int| 0 <= k < terms.len() implies respects(#[trigger] terms[k], env) by {
        lemma_digit_term_eval(e, shape, strides, shape.len() - 1 - k, env);
    }
    if n > 0 {
        lemma_digit_terms_eval(e, shape, strides, (n - 1) as nat, env);
        lemma_digit_term_eval(e, shape, strides, shape.len() - n, env);
    }
}

/// The decomposition has the value of the offset that the layout gives the
/// flat index.
pub proof fn lemma_decomposed_eval(e: Expr, shape: Seq<usize>, strides: Seq<usize>, env: Seq<int>)
    requires
        wf(e),
        respects(e, env),
        (Layout { shape, strides }).addressable(),
    ensures
        respects(decomposed(e, shape, strides), env),
        eval(decomposed(e, shape, strides), env) == flat_offset(eval(e, env), shape, strides),
{
    lemma_digit_terms_wf(e, shape, strides, shape.len());
    lemma_digit_terms_eval(e, shape, strides, shape.len(), env);
    lemma_summed_eval(digit_terms(e, shape, strides, shape.len()), env);
}

/// Rewrites the flat index `idx` into its offset under `(shape, strides)`:
/// the sum, over the dimensions from the last to the first, of
/// `((idx / inner) % size) * stride`.
pub fn expr_node(idx: Node, shape: &[usize], strides: &[usize]) -> (r: Node)
    requires
        wf(idx@),
        (Layout { shape: shape@, strides: strides@ }).addressable(),
    ensures
        r@ == decomposed(idx@, shape@, strides@),
        wf(r@),
        upper(r@) <= extent(shape@, strides@),
        forall|env: Seq<int>|
            respects(idx@, env) ==> #[trigger] eval(r@, env) == flat_offset(
                eval(idx@, env),
                shape@,
                strides@,
            ),
{
    proof {
        assert forall|env: Seq<int>| respects(idx@, env) implies #[trigger] eval(
            decomposed(idx@, shape@, strides@),
            env,
        ) == flat_offset(eval(idx@, env), shape@, strides@) by {
            lemma_decomposed_eval(idx@, shape@, strides@, env);
        }
    }
    let n = shape.len();
    let mut acc: i32 = 1;
    let mut ret: Vec<Node> = Vec::new();
    let mut i: usize = n;
    while i > 0
        invariant
            wf(idx@),
            (Layout { shape: shape@, strides: strides@ }).addressable(),
            n == shape@.len(),
            i <= n,
            acc == suffix_product(shape@, i as int),
            ret@.len() == n - i,
            views_of(ret@) == digit_terms(idx@, shape@, strides@, (n - i) as nat),
            all_wf(views_of(ret@)),
            sum_of(uppers(views_of(ret@))) <= extent_from(shape@, strides@, i as int),
        decreases i,
    {
        i -= 1;
        proof {
            lemma_dimension_bounds(Layout { shape: shape@, strides: strides@ }, i as int);
            lemma_digit_term_wf(idx@, shape@, strides@, i as int);
        }
        let d: i32 = shape[i] as i32;
        let s: i32 = strides[i] as i32;
        let q = idx.clone().divide_whole(acc);
        let m = q.modulo_whole(d);
        proof {
            lemma_upper_range(m@);
            assert(upper(m@) * s <= (d - 1) * s) by (nonlinear_arith)
                requires
                    0 <= upper(m@) <= d - 1,
                    0 <= s,
            ;
        }
        let term = m.scale(s);
        let ghost before = views_of(ret@);
        ret.push(term);
        proof {
            assert(views_of(ret@) =~= before.push(term@));
            assert(views_of(ret@) =~= digit_terms(idx@, shape@, strides@, (n - i) as nat));
            assert(uppers(views_of(ret@)) =~= uppers(before).push(upper(term@)));
            lemma_sum_of_push(uppers(before), upper(term@));
        }
        acc = acc * d;
    }
    proof {
        lemma_summed_wf(views_of(ret@));
    }
    Node::sum(ret)
}

} // verus!
