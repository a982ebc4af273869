//! Integer expressions over bounded index variables.
//!
//! Every value that an expression takes is a non-negative 32-bit integer, so
//! truncating and Euclidean division agree on it.

use crate::sums::{prefix_sum, sum_of};
use vstd::prelude::*;

verus! {

/// The operators that combine one expression with an immediate constant.
#[derive(Clone, Copy, PartialEq, Eq, Structural, Debug)]
pub enum Op {
    Div,
    Mul,
    Mod,
}

/// An expression tree. Operator nodes own exactly one child; only a sum has
/// several.
#[derive(Debug)]
pub enum Node {
    /// An integer literal.
    Num(i32),
    /// A placeholder named `name` whose value lies in `min..=max`.
    Variable { name: usize, min: i32, max: i32 },
    /// The child combined with an immediate by the operator.
    Op(Op, Box<Node>, i32),
    /// The sum of all children.
    Sum(Vec<Node>),
}

/// The mathematical content of a [`Node`].
pub enum Expr {
    Num(int),
    Var(int, int, int),
    Op(Op, Box<Expr>, int),
    Sum(Seq<Expr>),
}

/// The expression that a node stands for.
pub open spec fn model(node: Node) -> Expr
    decreases node,
{
    match node {
        Node::Num(c) => Expr::Num(c as int),
        Node::Variable { name, min, max } => Expr::Var(name as int, min as int, max as int),
        Node::Op(op, child, imm) => Expr::Op(op, Box::new(model(*child)), imm as int),
        Node::Sum(terms) => Expr::Sum(
            Seq::new(
                terms@.len(),
                |i: int|
                    if 0 <= i < terms@.len() {
                        model(terms@[i])
                    } else {
                        Expr::Num(0)
                    },
            ),
        ),
    }
}

impl View for Node {
    type V = Expr;

    open spec fn view(&self) -> Expr {
        model(*self)
    }
}

/// The views of a vector of nodes, in order.
pub open spec fn views_of(nodes: Seq<Node>) -> Seq<Expr> {
    Seq::new(nodes.len(), |i: int| nodes[i]@)
}

/// Largest value that interval arithmetic allows an expression to take.
pub open spec fn upper(e: Expr) -> int
    decreases e, 0nat,
{
    match e {
        Expr::Num(c) => c,
        Expr::Var(_, _, hi) => hi,
        Expr::Op(op, child, imm) => match op {
            Op::Div => upper(*child) / imm,
            Op::Mul => upper(*child) * imm,
            Op::Mod => imm - 1,
        },
        Expr::Sum(terms) => upper_sum(terms, terms.len()),
    }
}

/// Sum of the upper bounds of the first `n` terms.
pub open spec fn upper_sum(terms: Seq<Expr>, n: nat) -> int
    decreases terms, n,
{
    if n == 0 || n > terms.len() {
        0
    } else {
        upper_sum(terms, (n - 1) as nat) + upper(terms[n - 1])
    }
}

/// Value of an expression when variable `name` holds `env[name]`.
pub open spec fn eval(e: Expr, env: Seq<int>) -> int
    decreases e, 0nat,
{
    match e {
        Expr::Num(c) => c,
        Expr::Var(name, _, _) => if 0 <= name < env.len() {
            env[name]
        } else {
            0
        },
        Expr::Op(op, child, imm) => match op {
            Op::Div => eval(*child, env) / imm,
            Op::Mul => eval(*child, env) * imm,
            Op::Mod => eval(*child, env) % imm,
        },
        Expr::Sum(terms) => eval_sum(terms, terms.len(), env),
    }
}

/// Sum of the values of the first `n` terms.
pub open spec fn eval_sum(terms: Seq<Expr>, n: nat, env: Seq<int>) -> int
    decreases terms, n,
{
    if n == 0 || n > terms.len() {
        0
    } else {
        eval_sum(terms, (n - 1) as nat, env) + eval(terms[n - 1], env)
    }
}

/// Well-formed expressions stay within the non-negative 32-bit range: bounds
/// and immediates are non-negative `i32` values, divisors are positive, and
/// no upper bound exceeds `i32::MAX`.
pub open spec fn wf(e: Expr) -> bool
    decreases e,
{
    match e {
        Expr::Num(c) => 0 <= c <= i32::MAX,
        Expr::Var(name, lo, hi) => 0 <= name && 0 <= lo <= hi <= i32::MAX,
        Expr::Op(op, child, imm) => wf(*child) && match op {
            Op::Div => 1 <= imm <= i32::MAX,
            Op::Mod => 1 <= imm <= i32::MAX,
            Op::Mul => 0 <= imm <= i32::MAX && upper(*child) * imm <= i32::MAX,
        },
        Expr::Sum(terms) => all_wf(terms) && upper_sum(terms, terms.len()) <= i32::MAX,
    }
}

/// Every term is well formed.
pub open spec fn all_wf(terms: Seq<Expr>) -> bool
    decreases terms,
{
    forall|i: int| 0 <= i < terms.len() ==> wf(#[trigger] terms[i])
}

/// The environment gives every variable of the expression a value within its
/// bounds.
pub open spec fn respects(e: Expr, env: Seq<int>) -> bool
    decreases e,
{
    match e {
        Expr::Num(_) => true,
        Expr::Var(name, lo, hi) => 0 <= name < env.len() && lo <= env[name] <= hi,
        Expr::Op(_, child, _) => respects(*child, env),
        Expr::Sum(terms) => all_respect(terms, env),
    }
}

/// The environment suits every term.
pub open spec fn all_respect(terms: Seq<Expr>, env: Seq<int>) -> bool
    decreases terms,
{
    forall|i: int| 0 <= i < terms.len() ==> respects(#[trigger] terms[i], env)
}

/// Upper bounds of well-formed terms are non-negative, so partial sums of
/// them only grow.
pub proof fn lemma_upper_sum_monotone(terms: Seq<Expr>, m: nat, n: nat)
    requires
        all_wf(terms),
        m <= n <= terms.len(),
    ensures
        0 <= upper_sum(terms, m) <= upper_sum(terms, n),
    decreases terms, n,
{
    if n == 0 {
    } else if m == n {
        lemma_upper_sum_monotone(terms, (m - 1) as nat, (n - 1) as nat);
        lemma_upper_range(terms[n - 1]);
    } else {
        lemma_upper_sum_monotone(terms, m, (n - 1) as nat);
        lemma_upper_range(terms[n - 1]);
    }
}

/// The upper bound of a well-formed expression is a non-negative `i32`.
pub proof fn lemma_upper_range(e: Expr)
    requires
        wf(e),
    ensures
        0 <= upper(e) <= i32::MAX,
    decreases e, 0nat,
{
    match e {
        Expr::Num(_) => {},
        Expr::Var(_, _, _) => {},
        Expr::Op(op, child, imm) => {
            lemma_upper_range(*child);
            let u = upper(*child);
            match op {
                Op::Div => {
                    assert(0 <= u / imm <= u) by (nonlinear_arith)
                        requires
                            0 <= u,
                            1 <= imm,
                    ;
                },
                Op::Mul => {
                    assert(0 <= u * imm) by (nonlinear_arith)
                        requires
                            0 <= u,
                            0 <= imm,
                    ;
                },
                Op::Mod => {},
            }
        },
        Expr::Sum(terms) => {
            lemma_upper_sum_monotone(terms, 0, terms.len());
        },
    }
}

/// Under an environment that respects the variables' bounds, the first `n`
/// terms add up to a value between zero and the sum of their upper bounds.
pub proof fn lemma_eval_sum_range(terms: Seq<Expr>, n: nat, env: Seq<int>)
    requires
        all_wf(terms),
        all_respect(terms, env),
        n <= terms.len(),
    ensures
        0 <= eval_sum(terms, n, env) <= upper_sum(terms, n),
    decreases terms, n,
{
    if n > 0 {
        lemma_eval_sum_range(terms, (n - 1) as nat, env);
        lemma_eval_range(terms[n - 1], env);
    }
}

/// Under an environment that respects the variables' bounds, a well-formed
/// expression evaluates to a value between zero and its upper bound.
pub proof fn lemma_eval_range(e: Expr, env: Seq<int>)
    requires
        wf(e),
        respects(e, env),
    ensures
        0 <= eval(e, env) <= upper(e),
    decreases e, 0nat,
{
    match e {
        Expr::Num(_) => {},
        Expr::Var(_, _, _) => {},
        Expr::Op(op, child, imm) => {
            lemma_eval_range(*child, env);
            let x = eval(*child, env);
            let u = upper(*child);
            match op {
                Op::Div => {
                    assert(0 <= x / imm <= u / imm) by (nonlinear_arith)
                        requires
                            0 <= x <= u,
                            1 <= imm,
                    ;
                },
                Op::Mul => {
                    assert(0 <= x * imm <= u * imm) by (nonlinear_arith)
                        requires
                            0 <= x <= u,
                            0 <= imm,
                    ;
                },
                Op::Mod => {
                    assert(0 <= x % imm <= imm - 1) by (nonlinear_arith)
                        requires
                            1 <= imm,
                    ;
                },
            }
        },
        Expr::Sum(terms) => {
            lemma_eval_sum_range(terms, terms.len(), env);
        },
    }
}

/// The upper bound of every term, in order.
pub open spec fn uppers(terms: Seq<Expr>) -> Seq<int> {
    Seq::new(terms.len(), |i: int| upper(terms[i]))
}

/// The value of every term, in order.
pub open spec fn evals(terms: Seq<Expr>, env: Seq<int>) -> Seq<int> {
    Seq::new(terms.len(), |i: int| eval(terms[i], env))
}

/// The bound of a sum is the sum of the bounds of its terms.
pub proof fn lemma_upper_sum_is_sum(terms: Seq<Expr>, n: nat)
    requires
        n <= terms.len(),
    ensures
        upper_sum(terms, n) == prefix_sum(uppers(terms), n),
    decreases n,
{
    if n > 0 {
        lemma_upper_sum_is_sum(terms, (n - 1) as nat);
    }
}

/// The value of a sum is the sum of the values of its terms.
pub proof fn lemma_eval_sum_is_sum(terms: Seq<Expr>, n: nat, env: Seq<int>)
    requires
        n <= terms.len(),
    ensures
        eval_sum(terms, n, env) == prefix_sum(evals(terms, env), n),
    decreases n,
{
    if n > 0 {
        lemma_eval_sum_is_sum(terms, (n - 1) as nat, env);
    }
}

/// A list of well-formed terms whose bounds add up within `i32`.
pub open spec fn terms_wf(terms: Seq<Expr>) -> bool {
    all_wf(terms) && sum_of(uppers(terms)) <= i32::MAX
}

/// The bounds of well-formed terms are non-negative.
pub proof fn lemma_uppers_nonneg(terms: Seq<Expr>)
    requires
        all_wf(terms),
    ensures
        forall|i: int| 0 <= i < terms.len() ==> 0 <= #[trigger] uppers(terms)[i] <= i32::MAX,
        0 <= sum_of(uppers(terms)),
{
    assert forall|i: int| 0 <= i < terms.len() implies 0 <= #[trigger] uppers(terms)[i]
        <= i32::MAX by {
        lemma_upper_range(terms[i]);
    }
    crate::sums::lemma_prefix_sum_monotone(uppers(terms), 0, terms.len());
}

/// The view of a sum node lists the views of its children.
pub proof fn lemma_sum_view(terms: Vec<Node>)
    ensures
        (Node::Sum(terms))@ == Expr::Sum(views_of(terms@)),
{
    assert((Node::Sum(terms))@->Sum_0 =~= views_of(terms@));
}

/// The integers of a slice, as an environment.
pub open spec fn env_of(values: Seq<i32>) -> Seq<int> {
    Seq::new(values.len(), |i: int| values[i] as int)
}

impl Node {
    /// The largest value the expression can take, by interval arithmetic.
    pub fn bound(&self) -> (r: i32)
        requires
            wf(self@),
        ensures
            r == upper(self@),
        decreases self,
    {
        proof {
            lemma_upper_range(self@);
        }
        match self {
            Node::Num(c) => *c,
            Node::Variable { max, .. } => *max,
            Node::Op(op, child, imm) => {
                proof {
                    lemma_upper_range(child@);
                }
                match op {
                    Op::Div => child.bound() / *imm,
                    Op::Mul => child.bound() * *imm,
                    Op::Mod => *imm - 1,
                }
            },
            Node::Sum(terms) => {
                let ghost exprs = self@->Sum_0;
                let mut total: i32 = 0;
                let mut i: usize = 0;
                while i < terms.len()
                    invariant
                        forall|j: int|
                            0 <= j < terms.len() ==> decreases_to!(*self => #[trigger] terms@[j]),
                        i <= terms.len(),
                        exprs.len() == terms.len(),
                        forall|j: int| 0 <= j < terms.len() ==> exprs[j] == terms@[j]@,
                        all_wf(exprs),
                        upper_sum(exprs, exprs.len()) <= i32::MAX,
                        total == upper_sum(exprs, i as nat),
                    decreases terms.len() - i,
                {
                    proof {
                        lemma_upper_sum_monotone(exprs, (i + 1) as nat, exprs.len());
                        lemma_upper_range(exprs[i as int]);
                    }
                    total = total + terms[i].bound();
                    i += 1;
                }
                total
            },
        }
    }

    /// Evaluates the expression with variable `name` set to `env[name]`.
    pub fn eval(&self, env: &[i32]) -> (r: i32)
        requires
            wf(self@),
            respects(self@, env_of(env@)),
        ensures
            r == eval(self@, env_of(env@)),
        decreases self,
    {
        proof {
            lemma_eval_range(self@, env_of(env@));
            lemma_upper_range(self@);
        }
        match self {
            Node::Num(c) => *c,
            Node::Variable { name, .. } => env[*name],
            Node::Op(op, child, imm) => {
                proof {
                    lemma_eval_range(child@, env_of(env@));
                    lemma_upper_range(child@);
                }
                let x = child.eval(env);
                match op {
                    Op::Div => x / *imm,
                    Op::Mul => x * *imm,
                    Op::Mod => x % *imm,
                }
            },
            Node::Sum(terms) => {
                let ghost exprs = self@->Sum_0;
                let mut total: i32 = 0;
                let mut i: usize = 0;
                while i < terms.len()
                    invariant
                        forall|j: int|
                            0 <= j < terms.len() ==> decreases_to!(*self => #[trigger] terms@[j]),
                        i <= terms.len(),
                        exprs.len() == terms.len(),
                        forall|j: int| 0 <= j < terms.len() ==> exprs[j] == terms@[j]@,
                        all_wf(exprs),
                        all_respect(exprs, env_of(env@)),
                        upper_sum(exprs, exprs.len()) <= i32::MAX,
                        total == eval_sum(exprs, i as nat, env_of(env@)),
                    decreases terms.len() - i,
                {
                    proof {
                        lemma_upper_sum_monotone(exprs, (i + 1) as nat, exprs.len());
                        lemma_eval_sum_range(exprs, (i + 1) as nat, env_of(env@));
                    }
                    total = total + terms[i].eval(env);
                    i += 1;
                }
                total
            },
        }
    }

    /// Structural equality: same tags, names, bounds, immediates and children,
    /// in the same order.
    pub fn equals(&self, other: &Node) -> (b: bool)
        ensures
            b == (self@ == other@),
        decreases self,
    {
        match (self, other) {
            (Node::Num(a), Node::Num(b)) => *a == *b,
            (
                Node::Variable { name: n1, min: lo1, max: hi1 },
                Node::Variable { name: n2, min: lo2, max: hi2 },
            ) => *n1 == *n2 && *lo1 == *lo2 && *hi1 == *hi2,
            (Node::Op(op1, c1, i1), Node::Op(op2, c2, i2)) => {
                *op1 == *op2 && *i1 == *i2 && c1.equals(c2)
            },
            (Node::Sum(t1), Node::Sum(t2)) => {
                let ghost e1 = self@->Sum_0;
                let ghost e2 = other@->Sum_0;
                if t1.len() != t2.len() {
                    assert(e1.len() != e2.len());
                    return false;
                }
                let mut i: usize = 0;
                while i < t1.len()
                    invariant
                        forall|j: int|
                            0 <= j < t1.len() ==> decreases_to!(*self => #[trigger] t1@[j]),
                        self@ == Expr::Sum(e1),
                        other@ == Expr::Sum(e2),
                        i <= t1.len(),
                        t1.len() == t2.len(),
                        e1.len() == t1.len(),
                        e2.len() == t2.len(),
                        forall|j: int| 0 <= j < t1.len() ==> e1[j] == t1@[j]@,
                        forall|j: int| 0 <= j < t2.len() ==> e2[j] == t2@[j]@,
                        forall|j: int| 0 <= j < i ==> e1[j] == e2[j],
                    decreases t1.len() - i,
                {
                    if !t1[i].equals(&t2[i]) {
                        assert(e1[i as int] != e2[i as int]);
                        return false;
                    }
                    i += 1;
                }
                assert(e1 =~= e2);
                true
            },
            _ => false,
        }
    }
}

impl Clone for Node {
    /// A deep copy.
    fn clone(&self) -> (copy: Node)
        ensures
            copy@ == self@,
        decreases self,
    {
        match self {
            Node::Num(c) => Node::Num(*c),
            Node::Variable { name, min, max } => Node::Variable {
                name: *name,
                min: *min,
                max: *max,
            },
            Node::Op(op, child, imm) => Node::Op(*op, Box::new((**child).clone()), *imm),
            Node::Sum(terms) => {
                let ghost exprs = self@->Sum_0;
                let mut copies: Vec<Node> = Vec::new();
                let mut i: usize = 0;
                while i < terms.len()
                    invariant
                        forall|j: int|
                            0 <= j < terms.len() ==> decreases_to!(*self => #[trigger] terms@[j]),
                        i <= terms.len(),
                        copies@.len() == i,
                        forall|j: int| 0 <= j < i ==> copies@[j]@ == terms@[j]@,
                    decreases terms.len() - i,
                {
                    copies.push(terms[i].clone());
                    i += 1;
                }
                let copy = Node::Sum(copies);
                assert(copy@->Sum_0 =~= exprs);
                copy
            },
        }
    }
}

} // verus!
