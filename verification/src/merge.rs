//! Fusing two chained layouts into one.

use crate::algebra::{lemma_scaled_wf, lemma_summed_wf, scaled, summed};
use crate::construct::collect_vec;
use crate::decompose::{decomposed, expr_node};
use crate::expr::{all_wf, model, upper, uppers, views_of, wf, Expr, Node, Op};
use crate::layout::{
    flat_offset, lemma_dimension_bounds, lemma_extent_is_sum, reach_terms, Layout, View,
};
use crate::sums::{lemma_sum_of_push, prefix_sum, sum_of};
use vstd::prelude::*;
use vstd::view::View as _;

verus! {

/// The variable that stands for the coordinate along dimension `i`.
pub open spec fn index_var(shape: Seq<usize>, i: int) -> Expr {
    Expr::Var(i, 0, shape[i] - 1)
}

/// One coordinate variable per dimension.
pub open spec fn index_vars(shape: Seq<usize>) -> Seq<Expr> {
    Seq::new(shape.len(), |i: int| index_var(shape, i))
}

/// A dimension of size one or of stride zero adds nothing to the offset.
pub open spec fn contributes(layout: Layout, i: int) -> bool {
    layout.shape[i] != 1 && layout.strides[i] != 0
}

/// `coordinate * stride` for each of the first `n` dimensions that
/// contributes.
pub open spec fn linear_terms(layout: Layout, n: nat) -> Seq<Expr>
    decreases n,
{
    if n == 0 || n > layout.shape.len() {
        Seq::empty()
    } else {
        let before = linear_terms(layout, (n - 1) as nat);
        if contributes(layout, n - 1) {
            before.push(scaled(index_var(layout.shape, n - 1), layout.strides[n - 1] as int))
        } else {
            before
        }
    }
}

/// The offset of a coordinate under the layout, as an expression over the
/// coordinate variables.
pub open spec fn linear_index(layout: Layout) -> Expr {
    summed(linear_terms(layout, layout.shape.len()))
}

/// The terms that an expression adds up: the children of a sum, or the
/// expression alone.
pub open spec fn top_terms(e: Expr) -> Seq<Expr> {
    match e {
        Expr::Sum(terms) => terms,
        _ => seq![e],
    }
}

/// Reads a term as `variable * coefficient`; a bare variable has coefficient
/// one.
pub open spec fn affine_part(term: Expr) -> Option<(Expr, int)> {
    match term {
        Expr::Op(Op::Mul, child, coefficient) => if *child is Var {
            Some((*child, coefficient))
        } else {
            None
        },
        Expr::Var(_, _, _) => Some((term, 1)),
        _ => None,
    }
}

/// The first index below `n` at which `vars` holds `v`.
pub open spec fn position(vars: Seq<Expr>, v: Expr, n: nat) -> Option<int>
    decreases n,
{
    if n == 0 || n > vars.len() {
        None
    } else {
        match position(vars, v, (n - 1) as nat) {
            Some(p) => Some(p),
            None => if vars[n - 1] == v {
                Some(n - 1)
            } else {
                None
            },
        }
    }
}

/// The strides after one more term: a term `variable * c` whose variable is
/// one of `vars` sets that dimension's stride to `c`; any other term changes
/// nothing.
pub open spec fn recorded(strides: Seq<usize>, term: Expr, vars: Seq<Expr>) -> Seq<usize> {
    match affine_part(term) {
        Some((v, c)) => match position(vars, v, vars.len()) {
            Some(p) => strides.update(p, c as usize),
            None => strides,
        },
        None => strides,
    }
}

/// The strides read off the first `n` terms, starting from all zero.
pub open spec fn coefficients(terms: Seq<Expr>, vars: Seq<Expr>, n: nat) -> Seq<usize>
    decreases n,
{
    if n == 0 || n > terms.len() {
        Seq::new(vars.len(), |i: int| 0usize)
    } else {
        recorded(coefficients(terms, vars, (n - 1) as nat), terms[n - 1], vars)
    }
}

/// The offset that `inner` gives a coordinate, pushed through `outer` as a
/// flat index.
pub open spec fn composed(outer: Layout, inner: Layout) -> Expr {
    decomposed(linear_index(inner), outer.shape, outer.strides)
}

/// The strides that the composition of the two layouts shows for each
/// dimension of `inner`; zero where it shows none.
pub open spec fn derived_strides(outer: Layout, inner: Layout) -> Seq<usize> {
    let terms = top_terms(composed(outer, inner));
    coefficients(terms, index_vars(inner.shape), terms.len())
}

/// The single layout that stands for `inner` replayed through `outer`: the
/// shape of `inner` with the derived strides, provided every dimension got
/// one and the composed offset has no term beyond those.
pub open spec fn merged(outer: Layout, inner: Layout) -> Option<Layout> {
    let strides = derived_strides(outer, inner);
    if fuses_exactly(outer, inner) && forall|i: int|
        0 <= i < strides.len() ==> strides[i] != 0 {
        Some(Layout { shape: inner.shape, strides })
    } else {
        None
    }
}

/// The composed offset of the two layouts has exactly one term for each
/// dimension of `inner`, and is zero where `inner` has no dimension. Strides
/// read off such an offset account for all of it.
pub open spec fn fuses_exactly(outer: Layout, inner: Layout) -> bool {
    if inner.shape.len() == 0 {
        composed(outer, inner) == Expr::Num(0)
    } else {
        top_terms(composed(outer, inner)).len() == inner.shape.len()
    }
}

/// A position found among the first `m` variables is the position in every
/// longer prefix, and it holds the variable looked for.
pub proof fn lemma_position(vars: Seq<Expr>, v: Expr, m: nat, n: nat)
    requires
        m <= n <= vars.len(),
        position(vars, v, m) is Some,
    ensures
        position(vars, v, n) == position(vars, v, m),
        0 <= position(vars, v, m)->Some_0 < m,
        vars[position(vars, v, m)->Some_0] == v,
    decreases n + m,
{
    if m < n {
        lemma_position(vars, v, m, (n - 1) as nat);
    } else if m > 0 {
        if position(vars, v, (m - 1) as nat) is Some {
            lemma_position(vars, v, (m - 1) as nat, (m - 1) as nat);
        }
    }
}

/// One coordinate variable per dimension, named by the dimension.
fn index_variables(shape: &Vec<usize>, Ghost(layout): Ghost<Layout>) -> (vars: Vec<Node>)
    requires
        layout.addressable(),
        layout.shape == shape@,
    ensures
        views_of(vars@) == index_vars(shape@),
{
    let mut vars: Vec<Node> = Vec::new();
    let mut i: usize = 0;
    while i < shape.len()
        invariant
            layout.addressable(),
            layout.shape == shape@,
            i <= shape.len(),
            vars@.len() == i,
            forall|j: int| 0 <= j < i ==> (#[trigger] vars@[j])@ == index_var(shape@, j),
        decreases shape.len() - i,
    {
        proof {
            lemma_dimension_bounds(layout, i as int);
        }
        vars.push(Node::variable(i, 0, (shape[i] - 1) as i32));
        i += 1;
    }
    assert(views_of(vars@) =~= index_vars(shape@));
    vars
}

/// The linear index of a layout over the given coordinate variables.
fn linear_index_node(view: &View, vars: &Vec<Node>) -> (r: Node)
    requires
        view@.addressable(),
        views_of(vars@) == index_vars(view@.shape),
    ensures
        r@ == linear_index(view@),
        wf(r@),
{
    let shape = view.shape();
    let strides = view.strides();
    let ghost layout = view@;
    let ghost reach = reach_terms(layout.shape, layout.strides);
    let mut terms: Vec<Node> = Vec::new();
    let mut i: usize = 0;
    proof {
        lemma_extent_is_sum(layout.shape, layout.strides);
        assert(views_of(vars@).len() == vars@.len());
    }
    while i < shape.len()
        invariant
            vars@.len() == shape@.len(),
            layout == view@,
            layout.addressable(),
            shape@ == layout.shape,
            strides@ == layout.strides,
            reach == reach_terms(layout.shape, layout.strides),
            views_of(vars@) == index_vars(layout.shape),
            i <= shape.len(),
            views_of(terms@) == linear_terms(layout, i as nat),
            all_wf(views_of(terms@)),
            sum_of(uppers(views_of(terms@))) <= prefix_sum(reach, i as nat),
        decreases shape.len() - i,
    {
        proof {
            lemma_dimension_bounds(layout, i as int);
            assert(reach[i as int] >= 0);
        }
        if shape[i] != 1 && strides[i] != 0 {
            let ghost before = views_of(terms@);
            assert(views_of(vars@)[i as int] == vars@[i as int]@);
            let var = vars[i].clone();
            proof {
                lemma_scaled_wf(var@, strides[i as int] as int);
            }
            let term = var.scale(strides[i] as i32);
            terms.push(term);
            proof {
                assert(views_of(terms@) =~= before.push(term@));
                assert(uppers(views_of(terms@)) =~= uppers(before).push(upper(term@)));
                lemma_sum_of_push(uppers(before), upper(term@));
            }
        }
        i += 1;
    }
    proof {
        lemma_summed_wf(views_of(terms@));
    }
    let terms = collect_vec(terms);
    Node::sum(terms)
}

/// The first index at which `vars` holds a node equal to `v`.
fn position_of(vars: &Vec<Node>, v: &Node) -> (r: Option<usize>)
    ensures
        match r {
            Some(p) => position(views_of(vars@), v@, vars@.len()) == Some(p as int) && p
                < vars@.len(),
            None => position(views_of(vars@), v@, vars@.len()) is None,
        },
{
    let ghost exprs = views_of(vars@);
    let mut p: usize = 0;
    while p < vars.len()
        invariant
            p <= vars.len(),
            exprs == views_of(vars@),
            position(exprs, v@, p as nat) is None,
        decreases vars.len() - p,
    {
        if vars[p].equals(v) {
            proof {
                assert(exprs[p as int] == v@);
                assert(position(exprs, v@, (p + 1) as nat) == Some(p as int));
                lemma_position(exprs, v@, (p + 1) as nat, vars@.len());
            }
            return Some(p);
        }
        p += 1;
    }
    None
}

/// Reads a term as `variable * coefficient`.
fn as_affine(term: &Node) -> (r: Option<(&Node, i32)>)
    ensures
        match r {
            Some((v, c)) => affine_part(term@) == Some((v@, c as int)),
            None => affine_part(term@) is None,
        },
{
    proof {
        reveal_with_fuel(model, 2);
    }
    match term {
        Node::Op(Op::Mul, child, coefficient) => match &**child {
            Node::Variable { .. } => Some((&**child, *coefficient)),
            _ => None,
        },
        Node::Variable { .. } => Some((term, 1)),
        _ => None,
    }
}

/// Records the stride that one term shows, if it shows any.
fn record(term: &Node, vars: &Vec<Node>, strides: &mut Vec<usize>)
    requires
        wf(term@),
        old(strides)@.len() == vars@.len(),
    ensures
        final(strides)@ == recorded(old(strides)@, term@, views_of(vars@)),
        final(strides)@.len() == vars@.len(),
{
    match as_affine(term) {
        Some((v, c)) => match position_of(vars, v) {
            Some(p) => {
                proof {
                    reveal_with_fuel(model, 2);
                    assert(0 <= c);
                }
                strides.set(p, c as usize);
            },
            None => {},
        },
        None => {},
    }
}

/// Tries to replace two chained layouts, `v2` the earlier and `v1` the later,
/// by one layout with the shape of `v1`.
///
/// Succeeds exactly when the composed offset consists of one term
/// `coordinate * stride`, with a non-zero stride, for every dimension of `v1`.
/// The result then takes every flat index to the offset that `v1` and then
/// `v2` take it to.
pub fn merge_views(v2: &View, v1: &View) -> (r: Option<View>)
    requires
        v2@.addressable(),
        v1@.addressable(),
    ensures
        match r {
            Some(view) => merged(v2@, v1@) == Some(view@) && view@.addressable(),
            None => merged(v2@, v1@) is None,
        },
        forall|x: int|
            r is Some ==> #[trigger] flat_offset(
                x,
                r->Some_0@.shape,
                r->Some_0@.strides,
            ) == flat_offset(
                flat_offset(x, v1@.shape, v1@.strides),
                v2@.shape,
                v2@.strides,
            ),
{
    let ghost inner = v1@;
    let ghost outer = v2@;
    let shape = v1.shape();
    let rank = shape.len();
    let vars = index_variables(shape, Ghost(inner));
    let idx = linear_index_node(v1, &vars);
    let whole = expr_node(idx, v2.shape().as_slice(), v2.strides().as_slice());
    assert(whole@ == composed(outer, inner));
    let ghost terms = top_terms(whole@);
    let ghost var_exprs = index_vars(inner.shape);
    let mut strides: Vec<usize> = Vec::new();
    let mut k: usize = 0;
    while k < rank
        invariant
            k <= rank,
            strides@.len() == k,
            forall|i: int| 0 <= i < k ==> strides@[i] == 0,
        decreases rank - k,
    {
        strides.push(0);
        k += 1;
    }
    assert(strides@ =~= coefficients(terms, var_exprs, 0));
    assert(vars@.len() == views_of(vars@).len());
    match &whole {
        Node::Sum(children) => {
            proof {
                crate::expr::lemma_sum_view(*children);
            }
            let mut n: usize = 0;
            while n < children.len()
                invariant
                    n <= children.len(),
                    terms == views_of(children@),
                    all_wf(terms),
                    views_of(vars@) == var_exprs,
                    strides@.len() == vars@.len(),
                    strides@ == coefficients(terms, var_exprs, n as nat),
                decreases children.len() - n,
            {
                proof {
                    assert(terms[n as int] == children@[n as int]@);
                    assert(wf(terms[n as int]));
                }
                record(&children[n], &vars, &mut strides);
                n += 1;
            }
        },
        other => {
            proof {
                reveal_with_fuel(coefficients, 2);
                assert(terms =~= seq![whole@]);
            }
            record(other, &vars, &mut strides);
        },
    }
    assert(strides@ == derived_strides(outer, inner));
    let exact = if rank == 0 {
        match &whole {
            Node::Num(c) => *c == 0,
            _ => false,
        }
    } else {
        match &whole {
            Node::Sum(children) => {
                proof {
                    crate::expr::lemma_sum_view(*children);
                }
                children.len() == rank
            },
            _ => rank == 1,
        }
    };
    assert(exact == fuses_exactly(outer, inner));
    if !exact {
        return None;
    }
    let mut i: usize = 0;
    while i < rank
        invariant
            i <= rank,
            rank == strides@.len(),
            strides@ == derived_strides(outer, inner),
            fuses_exactly(outer, inner),
            inner == v1@,
            outer == v2@,
            forall|j: int| 0 <= j < i ==> strides@[j] != 0,
        decreases rank - i,
    {
        if strides[i] == 0 {
            return None;
        }
        i += 1;
    }
    proof {
        crate::fusion::lemma_merged_addressable(outer, inner);
    }
    let view = View::new(shape.clone(), strides);
    proof {
        assert forall|x: int|
            #[trigger] flat_offset(x, view@.shape, view@.strides) == flat_offset(
                flat_offset(x, v1@.shape, v1@.strides),
                v2@.shape,
                v2@.strides,
            ) by {
            crate::fusion::lemma_merged_offsets(v2@, v1@, x);
        }
    }
    Some(view)
}

} // verus!
