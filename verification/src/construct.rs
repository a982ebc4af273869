//! The executable constructors of the expression algebra.

use crate::algebra::{
    all_distributed, assembled, carries, distributed, first_pair, flat_terms, fused,
    lemma_all_distributed_wf, lemma_assembled_wf, lemma_distributed_wf, lemma_first_pair,
    lemma_first_pair_stable, lemma_flat_terms_wf, lemma_fused_wf, lemma_low_digit_wf,
    lemma_partner_stable, lemma_piece_scaled_wf, lemma_quotient_wf, lemma_recombined_wf,
    lemma_remainder_wf, lemma_scaled_wf, lemma_split_parts_wf, lemma_summed_wf,
    lemma_whole_quotient_wf, lemma_whole_remainder_wf, low_digit, multiples_divided, non_multiples,
    partner, piece_scaled, pieces_scaled, quotient, recombined, remainder, scaled, summed,
    whole_quotient, whole_remainder, wrap, Digit,
};
use crate::expr::{
    all_respect, all_wf, eval, evals, lemma_sum_view, lemma_upper_range, lemma_upper_sum_is_sum,
    lemma_uppers_nonneg, model, respects, terms_wf, upper, uppers, views_of, wf, Expr, Node, Op,
};
use crate::meaning::{
    lemma_assembled_eval, lemma_distributed_eval, lemma_quotient_eval, lemma_remainder_eval,
    lemma_scaled_eval, lemma_summed_eval, lemma_whole_quotient_eval, lemma_whole_remainder_eval,
};
use crate::sums::{lemma_entry_at_most_sum, sum_of};
use itertools::Itertools;
use vstd::prelude::*;

verus! {

/// `Itertools::collect_vec` on the owning iterator of `terms`. It is
/// `Iterator::collect` into a `Vec`, so the result holds the same nodes in the
/// same order.
#[verifier::external_body]
pub(crate) fn collect_vec(terms: Vec<Node>) -> (out: Vec<Node>)
    ensures
        out@ == terms@,
{
    terms.into_iter().collect_vec()
}

/// Moves the pieces of every term into one flat list.
fn flatten(terms: Vec<Node>) -> (flat: Vec<Node>)
    ensures
        views_of(flat@) == flat_terms(views_of(terms@), terms@.len()),
{
    let ghost source = views_of(terms@);
    let mut flat: Vec<Node> = Vec::new();
    for term in it: terms.into_iter()
        invariant
            it.seq() == terms@,
            source == views_of(terms@),
            views_of(flat@) == flat_terms(source, it.index() as nat),
    {
        let ghost before = views_of(flat@);
        let ghost at = it.index();
        assert(source[at] == term@);
        match term {
            Node::Sum(mut inner) => {
                proof {
                    lemma_sum_view(inner);
                }
                let ghost moved = views_of(inner@);
                flat.append(&mut inner);
                assert(views_of(flat@) =~= before + moved);
            },
            Node::Num(c) => {
                if c != 0 {
                    flat.push(Node::Num(c));
                    assert(views_of(flat@) =~= before + seq![Expr::Num(c as int)]);
                } else {
                    assert(views_of(flat@) =~= before + Seq::<Expr>::empty());
                }
            },
            other => {
                let ghost piece = other@;
                flat.push(other);
                assert(views_of(flat@) =~= before + seq![piece]);
            },
        }
    }
    flat
}

/// Turns a flat list into one node.
fn wrap_terms(terms: Vec<Node>) -> (r: Node)
    ensures
        r@ == wrap(views_of(terms@)),
{
    let mut terms = terms;
    if terms.len() == 0 {
        Node::Num(0)
    } else if terms.len() == 1 {
        let last = terms.pop();
        last.unwrap()
    } else {
        proof {
            lemma_sum_view(terms);
        }
        Node::Sum(terms)
    }
}

impl Node {
    /// The literal `c`.
    pub fn num(c: i32) -> (r: Node)
        ensures
            r@ == Expr::Num(c as int),
    {
        Node::Num(c)
    }

    /// A variable named `name` that ranges over `min..=max`.
    pub fn variable(name: usize, min: i32, max: i32) -> (r: Node)
        ensures
            r@ == Expr::Var(name as int, min as int, max as int),
    {
        Node::Variable { name, min, max }
    }

    /// The flattened sum of `terms`: nested sums are spliced in, literal
    /// zeros are dropped, and a single remaining term stands for itself.
    pub fn assemble(terms: Vec<Node>) -> (r: Node)
        requires
            terms_wf(views_of(terms@)),
        ensures
            r@ == assembled(views_of(terms@)),
            wf(r@),
            upper(r@) == sum_of(uppers(views_of(terms@))),
            forall|env: Seq<int>|
                all_respect(views_of(terms@), env) ==> #[trigger] eval(r@, env) == sum_of(
                    evals(views_of(terms@), env),
                ),
    {
        proof {
            lemma_assembled_wf(views_of(terms@));
            assert forall|env: Seq<int>| all_respect(views_of(terms@), env) implies #[trigger] eval(
                assembled(views_of(terms@)),
                env,
            ) == sum_of(evals(views_of(terms@), env)) by {
                lemma_assembled_eval(views_of(terms@), env);
            }
        }
        wrap_terms(flatten(terms))
    }

    /// `self * c` for a term that is not distributed over.
    fn scale_piece(self, c: i32) -> (r: Node)
        requires
            wf(self@),
            0 <= c,
            upper(self@) * c <= i32::MAX,
        ensures
            r@ == piece_scaled(self@, c as int),
            wf(r@),
            upper(r@) == upper(self@) * c,
    {
        proof {
            lemma_piece_scaled_wf(self@, c as int);
            lemma_upper_range(self@);
        }
        if c == 0 || self.bound() == 0 {
            return Node::Num(0);
        }
        if c == 1 {
            return self;
        }
        let ghost u = upper(self@);
        match self {
            Node::Num(k) => {
                assert(k * c <= u * c);
                Node::Num(k * c)
            },
            Node::Op(Op::Mul, child, k) => {
                proof {
                    let a = upper(child@);
                    lemma_upper_range(child@);
                    assert(0 <= k * c <= (a * k) * c) by (nonlinear_arith)
                        requires
                            0 <= a,
                            0 <= k,
                            0 <= c,
                            a * k > 0,
                    ;
                }
                Node::Op(Op::Mul, child, k * c)
            },
            other => Node::Op(Op::Mul, Box::new(other), c),
        }
    }

    /// `self * c`. Multiplication by zero gives the literal zero and by one
    /// the operand itself; otherwise literals fold, nested multiplications
    /// merge, and a sum is multiplied term by term.
    pub fn scale(self, c: i32) -> (r: Node)
        requires
            wf(self@),
            0 <= c,
            upper(self@) * c <= i32::MAX,
        ensures
            r@ == scaled(self@, c as int),
            wf(r@),
            upper(r@) == upper(self@) * c,
            forall|env: Seq<int>|
                respects(self@, env) ==> #[trigger] eval(r@, env) == eval(self@, env) * c,
    {
        proof {
            lemma_scaled_wf(self@, c as int);
            lemma_upper_range(self@);
            assert forall|env: Seq<int>| respects(self@, env) implies #[trigger] eval(
                scaled(self@, c as int),
                env,
            ) == eval(self@, env) * c by {
                lemma_scaled_eval(self@, c as int, env);
            }
        }
        if c == 0 || self.bound() == 0 {
            return Node::Num(0);
        }
        if c == 1 {
            return self;
        }
        match self {
            Node::Sum(terms) => {
                let ghost source = views_of(terms@);
                proof {
                    lemma_sum_view(terms);
                    lemma_uppers_nonneg(source);
                    lemma_upper_sum_is_sum(source, source.len());
                }
                let ghost u = upper(Expr::Sum(source));
                let mut out: Vec<Node> = Vec::new();
                for term in it: terms.into_iter()
                    invariant
                        it.seq() == terms@,
                        source == views_of(terms@),
                        all_wf(source),
                        forall|i: int| 0 <= i < source.len() ==> 0 <= #[trigger] uppers(source)[i],
                        u == sum_of(uppers(source)),
                        0 <= c,
                        u * c <= i32::MAX,
                        out@.len() == it.index(),
                        forall|i: int|
                            0 <= i < it.index() ==> (#[trigger] out@[i])@ == piece_scaled(
                                source[i],
                                c as int,
                            ),
                {
                    let ghost at = it.index();
                    proof {
                        assert(source[at] == term@);
                        assert(wf(source[at]));
                        lemma_entry_at_most_sum(uppers(source), at);
                        let ui = upper(term@);
                        assert(ui * c <= u * c) by (nonlinear_arith)
                            requires
                                0 <= ui <= u,
                                0 <= c,
                        ;
                    }
                    out.push(term.scale_piece(c));
                }
                assert(views_of(out@) =~= pieces_scaled(source, c as int));
                proof {
                    assert(wf(assembled(pieces_scaled(source, c as int))));
                }
                wrap_terms(flatten(out))
            },
            other => other.scale_piece(c),
        }
    }

    /// `self / c`, with the operand taken as a whole. Division by one gives
    /// the operand itself and an operand below `c` the literal zero;
    /// otherwise literals fold and nested divisions merge.
    pub fn divide_whole(self, c: i32) -> (r: Node)
        requires
            wf(self@),
            1 <= c,
        ensures
            r@ == whole_quotient(self@, c as int),
            wf(r@),
            upper(r@) == upper(self@) / (c as int),
            forall|env: Seq<int>|
                respects(self@, env) ==> #[trigger] eval(r@, env) == eval(self@, env) / (c as int),
    {
        proof {
            lemma_whole_quotient_wf(self@, c as int);
            lemma_upper_range(self@);
            assert forall|env: Seq<int>| respects(self@, env) implies #[trigger] eval(
                whole_quotient(self@, c as int),
                env,
            ) == eval(self@, env) / (c as int) by {
                lemma_whole_quotient_eval(self@, c as int, env);
            }
        }
        if c == 1 {
            return self;
        }
        if self.bound() < c {
            return Node::Num(0);
        }
        match self {
            Node::Num(k) => Node::Num(k / c),
            Node::Op(Op::Div, child, k) => {
                proof {
                    let a = upper(child@);
                    lemma_upper_range(child@);
                    assert(k * c <= a) by (nonlinear_arith)
                        requires
                            0 <= a,
                            1 <= k,
                            1 <= c,
                            a / (k as int) >= c,
                    ;
                }
                Node::Op(Op::Div, child, k * c)
            },
            other => Node::Op(Op::Div, Box::new(other), c),
        }
    }

    /// `self % c`, with the operand taken as a whole. Modulo one gives the
    /// literal zero and an operand below `c` the operand itself; otherwise
    /// literals fold.
    pub fn modulo_whole(self, c: i32) -> (r: Node)
        requires
            wf(self@),
            1 <= c,
        ensures
            r@ == whole_remainder(self@, c as int),
            wf(r@),
            upper(r@) <= c - 1,
            upper(r@) <= upper(self@),
            forall|env: Seq<int>|
                respects(self@, env) ==> #[trigger] eval(r@, env) == eval(self@, env) % (c as int),
    {
        proof {
            lemma_whole_remainder_wf(self@, c as int);
            lemma_upper_range(self@);
            assert forall|env: Seq<int>| respects(self@, env) implies #[trigger] eval(
                whole_remainder(self@, c as int),
                env,
            ) == eval(self@, env) % (c as int) by {
                lemma_whole_remainder_eval(self@, c as int, env);
            }
        }
        if c == 1 {
            return Node::Num(0);
        }
        if self.bound() < c {
            return self;
        }
        match self {
            Node::Num(k) => Node::Num(k % c),
            other => Node::Op(Op::Mod, Box::new(other), c),
        }
    }
}

/// Splits the terms of a sum by a divisor: the multiples of `c`, each divided
/// by `c`, and the other terms.
fn split(terms: Vec<Node>, c: i32) -> (parts: (Vec<Node>, Vec<Node>))
    requires
        all_wf(views_of(terms@)),
        1 <= c,
    ensures
        views_of(parts.0@) == multiples_divided(views_of(terms@), c as int, terms@.len()),
        views_of(parts.1@) == non_multiples(views_of(terms@), c as int, terms@.len()),
{
    let ghost source = views_of(terms@);
    let mut multiples: Vec<Node> = Vec::new();
    let mut others: Vec<Node> = Vec::new();
    for term in it: terms.into_iter()
        invariant
            it.seq() == terms@,
            source == views_of(terms@),
            all_wf(source),
            1 <= c,
            views_of(multiples@) == multiples_divided(source, c as int, it.index() as nat),
            views_of(others@) == non_multiples(source, c as int, it.index() as nat),
    {
        let ghost at = it.index();
        let ghost whole = term@;
        let ghost ms = views_of(multiples@);
        let ghost os = views_of(others@);
        assert(source[at] == whole);
        assert(wf(whole));
        match term {
            Node::Op(Op::Mul, child, k) => {
                if k % c == 0 {
                    proof {
                        lemma_upper_range(child@);
                        let u = upper(child@);
                        let f = k as int / c as int;
                        assert(0 <= f <= k && u * f <= u * k) by (nonlinear_arith)
                            requires
                                f == k as int / c as int,
                                1 <= c,
                                0 <= k,
                                0 <= u,
                        ;
                    }
                    let divided = (*child).scale_piece(k / c);
                    multiples.push(divided);
                    assert(views_of(multiples@) =~= ms.push(divided@));
                } else {
                    others.push(Node::Op(Op::Mul, child, k));
                    assert(views_of(others@) =~= os.push(whole));
                }
            },
            other => {
                others.push(other);
                assert(views_of(others@) =~= os.push(whole));
            },
        }
    }
    (multiples, others)
}

/// Distributes every term.
fn distribute_all(terms: Vec<Node>) -> (out: Vec<Node>)
    requires
        all_wf(views_of(terms@)),
    ensures
        views_of(out@) == all_distributed(views_of(terms@)),
{
    let ghost source = views_of(terms@);
    let mut out: Vec<Node> = Vec::new();
    for term in it: terms.into_iter()
        invariant
            it.seq() == terms@,
            source == views_of(terms@),
            all_wf(source),
            out@.len() == it.index(),
            forall|i: int| 0 <= i < it.index() ==> (#[trigger] out@[i])@ == distributed(source[i]),
    {
        let ghost at = it.index();
        assert(source[at] == term@);
        assert(wf(source[at]));
        out.push(term.distribute());
    }
    assert(views_of(out@) =~= all_distributed(source));
    out
}

impl Node {
    /// `self / c`. A sum is divided term by term: the terms that are
    /// multiples of `c` have their factor divided, and the others are divided
    /// together. A product by a multiple of `c` has its factor divided. Any
    /// other expression is divided as a whole.
    pub fn divide(self, c: i32) -> (r: Node)
        requires
            wf(self@),
            1 <= c,
        ensures
            r@ == quotient(self@, c as int),
            wf(r@),
            upper(r@) == upper(self@) / (c as int),
            forall|env: Seq<int>|
                respects(self@, env) ==> #[trigger] eval(r@, env) == eval(self@, env) / (c as int),
    {
        proof {
            lemma_quotient_wf(self@, c as int);
            lemma_upper_range(self@);
            assert forall|env: Seq<int>| respects(self@, env) implies #[trigger] eval(
                quotient(self@, c as int),
                env,
            ) == eval(self@, env) / (c as int) by {
                lemma_quotient_eval(self@, c as int, env);
            }
        }
        if c == 1 {
            return self;
        }
        if self.bound() < c {
            return Node::Num(0);
        }
        match self {
            Node::Sum(terms) => {
                proof {
                    lemma_sum_view(terms);
                    lemma_split_parts_wf(views_of(terms@), c as int);
                }
                let (multiples, others) = split(terms, c);
                let rest = Node::assemble(others);
                let mut list = multiples;
                let ghost before = views_of(list@);
                let last = rest.divide_whole(c);
                list.push(last);
                assert(views_of(list@) =~= before.push(last@));
                Node::assemble(list)
            },
            Node::Op(Op::Mul, child, k) => {
                if k % c == 0 {
                    proof {
                        crate::algebra::lemma_multiple_divided_wf(child@, k as int, c as int);
                        lemma_upper_range(child@);
                        let u = upper(child@);
                        let f = k as int / c as int;
                        assert(0 <= f <= k && u * f <= u * k) by (nonlinear_arith)
                            requires
                                f == k as int / c as int,
                                1 <= c,
                                0 <= k,
                                0 <= u,
                        ;
                    }
                    (*child).scale_piece(k / c)
                } else {
                    Node::Op(Op::Mul, child, k).divide_whole(c)
                }
            },
            other => other.divide_whole(c),
        }
    }

    /// `self % c`. A sum loses the terms that are multiples of `c`, and the
    /// remainder is taken of the others together. A product by a multiple of
    /// `c` leaves nothing. Any other expression is taken as a whole.
    pub fn modulo(self, c: i32) -> (r: Node)
        requires
            wf(self@),
            1 <= c,
        ensures
            r@ == remainder(self@, c as int),
            wf(r@),
            upper(r@) <= c - 1,
            upper(r@) <= upper(self@),
            forall|env: Seq<int>|
                respects(self@, env) ==> #[trigger] eval(r@, env) == eval(self@, env) % (c as int),
    {
        proof {
            lemma_remainder_wf(self@, c as int);
            lemma_upper_range(self@);
            assert forall|env: Seq<int>| respects(self@, env) implies #[trigger] eval(
                remainder(self@, c as int),
                env,
            ) == eval(self@, env) % (c as int) by {
                lemma_remainder_eval(self@, c as int, env);
            }
        }
        if c == 1 {
            return Node::Num(0);
        }
        if self.bound() < c {
            return self;
        }
        match self {
            Node::Sum(terms) => {
                proof {
                    lemma_sum_view(terms);
                    lemma_split_parts_wf(views_of(terms@), c as int);
                }
                let (_, others) = split(terms, c);
                Node::assemble(others).modulo_whole(c)
            },
            Node::Op(Op::Mul, child, k) => {
                if k % c == 0 {
                    Node::Num(0)
                } else {
                    Node::Op(Op::Mul, child, k).modulo_whole(c)
                }
            },
            other => other.modulo_whole(c),
        }
    }

    /// The expression with every operator applied anew, from the leaves up,
    /// looking into the sums that it meets.
    pub fn distribute(self) -> (r: Node)
        requires
            wf(self@),
        ensures
            r@ == distributed(self@),
            wf(r@),
            upper(r@) <= upper(self@),
            forall|env: Seq<int>|
                respects(self@, env) ==> #[trigger] eval(r@, env) == eval(self@, env),
        decreases self,
    {
        proof {
            lemma_distributed_wf(self@);
            assert forall|env: Seq<int>| respects(self@, env) implies #[trigger] eval(
                distributed(self@),
                env,
            ) == eval(self@, env) by {
                lemma_distributed_eval(self@, env);
            }
        }
        match self {
            Node::Op(op, child, imm) => {
                proof {
                    lemma_distributed_wf(child@);
                    lemma_upper_range(child@);
                    lemma_upper_range(distributed(child@));
                    let a = upper(distributed(child@));
                    let b = upper(child@);
                    if op == Op::Mul {
                        assert(a * imm <= b * imm) by (nonlinear_arith)
                            requires
                                0 <= a <= b,
                                0 <= imm,
                        ;
                    }
                }
                let inner = (*child).distribute();
                match op {
                    Op::Mul => inner.scale(imm),
                    Op::Div => inner.divide(imm),
                    Op::Mod => inner.modulo(imm),
                }
            },
            other => other,
        }
    }
}

/// Reads a term as a digit `(inner % radix) * weight`.
fn as_digit(node: &Node) -> (r: Option<(&Node, i32, i32)>)
    ensures
        match r {
            Some((inner, radix, weight)) => low_digit(node@) == Some(
                Digit { inner: inner@, radix: radix as int, weight: weight as int },
            ),
            None => low_digit(node@) is None,
        },
{
    proof {
        reveal_with_fuel(model, 2);
    }
    match node {
        Node::Op(Op::Mod, inner, radix) => Some((&**inner, *radix, 1)),
        Node::Op(Op::Mul, factor, weight) => match &**factor {
            Node::Op(Op::Mod, inner, radix) => Some((&**inner, *radix, *weight)),
            _ => None,
        },
        _ => None,
    }
}

/// Whether `node` is `rest * (radix * weight)` for the given `rest`.
fn carries_digit(node: &Node, rest: &Node, radix: i32, weight: i32) -> (b: bool)
    ensures
        b == match node@ {
            Expr::Op(Op::Mul, found, k) => k == radix * weight && *found == rest@,
            _ => false,
        },
{
    match node {
        Node::Op(Op::Mul, found, k) => {
            assert(-0x4000_0000_0000_0000 <= radix * weight <= 0x4000_0000_0000_0000)
                by (nonlinear_arith)
                requires
                    -0x8000_0000 <= radix <= 0x7fff_ffff,
                    -0x8000_0000 <= weight <= 0x7fff_ffff,
            ;
            let wanted: i64 = (radix as i64) * (weight as i64);
            (*k as i64) == wanted && found.equals(rest)
        },
        _ => false,
    }
}

/// The first term, other than the one at `i`, that carries the digit.
fn find_partner(terms: &Vec<Node>, inner: &Node, radix: i32, weight: i32, i: usize) -> (r: Option<
    usize,
>)
    requires
        wf(inner@),
        1 <= radix,
    ensures
        match r {
            Some(j) => partner(
                views_of(terms@),
                Digit { inner: inner@, radix: radix as int, weight: weight as int },
                i as int,
                terms@.len(),
            ) == Some(j as int),
            None => partner(
                views_of(terms@),
                Digit { inner: inner@, radix: radix as int, weight: weight as int },
                i as int,
                terms@.len(),
            ) is None,
        },
{
    let ghost digit = Digit { inner: inner@, radix: radix as int, weight: weight as int };
    let ghost exprs = views_of(terms@);
    let rest = inner.clone().divide_whole(radix);
    let mut j: usize = 0;
    while j < terms.len()
        invariant
            j <= terms.len(),
            exprs == views_of(terms@),
            digit == (Digit { inner: inner@, radix: radix as int, weight: weight as int }),
            rest@ == whole_quotient(inner@, radix as int),
            partner(exprs, digit, i as int, j as nat) is None,
        decreases terms.len() - j,
    {
        if j != i && carries_digit(&terms[j], &rest, radix, weight) {
            proof {
                assert(carries(exprs[j as int], digit));
                assert(partner(exprs, digit, i as int, (j + 1) as nat) == Some(j as int));
                lemma_partner_stable(exprs, digit, i as int, (j + 1) as nat, terms@.len());
            }
            return Some(j);
        }
        assert(!(j != i && carries(exprs[j as int], digit)));
        j += 1;
    }
    None
}

/// The first digit that has a partner, with that partner.
fn find_pair(terms: &Vec<Node>) -> (r: Option<(usize, usize)>)
    requires
        all_wf(views_of(terms@)),
    ensures
        match r {
            Some((i, j)) => first_pair(views_of(terms@), terms@.len()) == Some(
                (i as int, j as int),
            ),
            None => first_pair(views_of(terms@), terms@.len()) is None,
        },
{
    let ghost exprs = views_of(terms@);
    let mut i: usize = 0;
    while i < terms.len()
        invariant
            i <= terms.len(),
            exprs == views_of(terms@),
            all_wf(exprs),
            first_pair(exprs, i as nat) is None,
        decreases terms.len() - i,
    {
        match as_digit(&terms[i]) {
            Some((inner, radix, weight)) => {
                proof {
                    assert(wf(exprs[i as int]));
                    lemma_low_digit_wf(exprs[i as int]);
                }
                match find_partner(terms, inner, radix, weight, i) {
                    Some(j) => {
                        proof {
                            assert(first_pair(exprs, (i + 1) as nat) == Some((i as int, j as int)));
                            lemma_first_pair_stable(exprs, (i + 1) as nat, terms@.len());
                        }
                        return Some((i, j));
                    },
                    None => {},
                }
            },
            None => {},
        }
        i += 1;
    }
    None
}

/// Fuses digit pairs until none is left.
fn recombine(terms: Vec<Node>) -> (out: Vec<Node>)
    requires
        terms_wf(views_of(terms@)),
    ensures
        views_of(out@) == recombined(views_of(terms@), terms@.len()),
{
    let ghost start = views_of(terms@);
    let mut out = terms;
    let mut rounds: usize = out.len();
    while rounds > 0
        invariant
            terms_wf(views_of(out@)),
            recombined(start, start.len()) == recombined(views_of(out@), rounds as nat),
        decreases rounds,
    {
        let ghost before = views_of(out@);
        match find_pair(&out) {
            Some((i, j)) => {
                proof {
                    lemma_first_pair(before, before.len());
                    lemma_fused_wf(before, i as int, j as int);
                }
                let merged = match as_digit(&out[i]) {
                    Some((inner, _, weight)) => inner.clone().scale(weight),
                    None => Node::Num(0),
                };
                out.set(i, merged);
                out.remove(j);
                assert(views_of(out@) =~= fused(before, i as int, j as int));
                rounds -= 1;
            },
            None => {
                assert(recombined(before, rounds as nat) == before);
                rounds = 0;
            },
        }
    }
    out
}

impl Node {
    /// The sum of `terms`. Nested sums are spliced in, literal zeros are
    /// dropped, and a term `(x % n) * w` next to `(x / n) * (n * w)` is fused
    /// with it into `x * w`. What is left is distributed over the sums inside
    /// it and fused once more; a single remaining term stands for itself.
    pub fn sum(terms: Vec<Node>) -> (r: Node)
        requires
            terms_wf(views_of(terms@)),
        ensures
            r@ == summed(views_of(terms@)),
            wf(r@),
            upper(r@) <= sum_of(uppers(views_of(terms@))),
            forall|env: Seq<int>|
                all_respect(views_of(terms@), env) ==> #[trigger] eval(r@, env) == sum_of(
                    evals(views_of(terms@), env),
                ),
    {
        let ghost exprs = views_of(terms@);
        proof {
            lemma_summed_wf(exprs);
            lemma_flat_terms_wf(exprs, exprs.len());
            assert forall|env: Seq<int>| all_respect(exprs, env) implies #[trigger] eval(
                summed(exprs),
                env,
            ) == sum_of(evals(exprs, env)) by {
                lemma_summed_eval(exprs, env);
            }
        }
        let flat = flatten(terms);
        let ghost flat_exprs = views_of(flat@);
        proof {
            lemma_recombined_wf(flat_exprs, flat_exprs.len());
            lemma_all_distributed_wf(recombined(flat_exprs, flat_exprs.len()));
        }
        let spread = distribute_all(recombine(flat));
        let ghost spread_exprs = views_of(spread@);
        proof {
            lemma_flat_terms_wf(spread_exprs, spread_exprs.len());
        }
        let again = flatten(spread);
        let ghost again_exprs = views_of(again@);
        proof {
            crate::expr::lemma_uppers_nonneg(spread_exprs);
            crate::expr::lemma_upper_sum_is_sum(spread_exprs, spread_exprs.len());
            lemma_recombined_wf(again_exprs, again_exprs.len());
        }
        let fused = recombine(again);
        wrap_terms(flatten(fused))
    }
}

} // verus!
