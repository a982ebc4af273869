//! Index expressions compiled into a sequence of steps.

use crate::expr::{eval, lemma_upper_range, upper, wf, Expr, Node, Op};
use vstd::prelude::*;

verus! {

/// One step of a compiled evaluator: an operator and its immediate.
#[derive(Clone, Copy, Debug)]
pub struct Step {
    pub op: Op,
    pub imm: i32,
}

/// The mathematical content of an [`IndexFn`].
pub struct IndexMap {
    /// The steps, in the order in which they are applied.
    pub steps: Seq<(Op, int)>,
    /// The largest input that the evaluator is meant for.
    pub limit: int,
}

/// A compiled evaluator: the steps that take a logical index to its
/// physical offset.
#[derive(Clone, Debug)]
pub struct IndexFn {
    steps: Vec<Step>,
    limit: i32,
}

/// The result of one step on the value `x`.
pub open spec fn step_value(step: (Op, int), x: int) -> int {
    match step.0 {
        Op::Div => x / step.1,
        Op::Mul => x * step.1,
        Op::Mod => x % step.1,
    }
}

/// The largest result of one step on a value of at most `u`.
pub open spec fn step_upper(step: (Op, int), u: int) -> int {
    match step.0 {
        Op::Div => u / step.1,
        Op::Mul => u * step.1,
        Op::Mod => step.1 - 1,
    }
}

/// The step can be taken on every value from zero to `u` within `i32`.
pub open spec fn step_fits(step: (Op, int), u: int) -> bool {
    match step.0 {
        Op::Div => 1 <= step.1,
        Op::Mul => 0 <= step.1 && u * step.1 <= i32::MAX,
        Op::Mod => 1 <= step.1 <= i32::MAX,
    }
}

/// The value after the first `n` steps on the input `x`.
pub open spec fn run(steps: Seq<(Op, int)>, n: nat, x: int) -> int
    decreases n,
{
    if n == 0 || n > steps.len() {
        x
    } else {
        step_value(steps[n - 1], run(steps, (n - 1) as nat, x))
    }
}

/// The largest value after the first `n` steps on an input of at most
/// `limit`.
pub open spec fn run_upper(steps: Seq<(Op, int)>, n: nat, limit: int) -> int
    decreases n,
{
    if n == 0 || n > steps.len() {
        limit
    } else {
        step_upper(steps[n - 1], run_upper(steps, (n - 1) as nat, limit))
    }
}

impl IndexMap {
    /// Every step can be taken, on every input from zero to the limit,
    /// within `i32`.
    pub open spec fn wf(self) -> bool {
        &&& 0 <= self.limit <= i32::MAX
        &&& forall|n: int|
            0 <= n < self.steps.len() ==> step_fits(
                #[trigger] self.steps[n],
                run_upper(self.steps, n as nat, self.limit),
            )
    }

    /// The output for the input `x`.
    pub open spec fn output(self, x: int) -> int {
        run(self.steps, self.steps.len(), x)
    }
}

/// The expression is a chain of operator nodes that ends in a variable.
pub open spec fn is_chain(e: Expr) -> bool
    decreases e,
{
    match e {
        Expr::Var(_, _, _) => true,
        Expr::Op(_, child, _) => is_chain(*child),
        _ => false,
    }
}

/// The operators and immediates along a chain, innermost first.
pub open spec fn chain_steps(e: Expr) -> Seq<(Op, int)>
    decreases e,
{
    match e {
        Expr::Op(op, child, imm) => chain_steps(*child).push((op, imm)),
        _ => Seq::empty(),
    }
}

/// The upper bound of the variable in which a chain ends.
pub open spec fn chain_limit(e: Expr) -> int
    decreases e,
{
    match e {
        Expr::Var(_, _, hi) => hi,
        Expr::Op(_, child, _) => chain_limit(*child),
        _ => 0,
    }
}

/// The name of the variable in which a chain ends.
pub open spec fn chain_name(e: Expr) -> int
    decreases e,
{
    match e {
        Expr::Var(name, _, _) => name,
        Expr::Op(_, child, _) => chain_name(*child),
        _ => 0,
    }
}

/// What a chain compiles to.
pub open spec fn compiled(e: Expr) -> IndexMap {
    IndexMap { steps: chain_steps(e), limit: chain_limit(e) }
}

/// Steps beyond the first `n` do not matter to the first `n`.
pub proof fn lemma_run_agrees(a: Seq<(Op, int)>, b: Seq<(Op, int)>, n: nat, x: int)
    requires
        n <= a.len(),
        n <= b.len(),
        forall|i: int| 0 <= i < n ==> a[i] == b[i],
    ensures
        run(a, n, x) == run(b, n, x),
        run_upper(a, n, x) == run_upper(b, n, x),
    decreases n,
{
    if n > 0 {
        lemma_run_agrees(a, b, (n - 1) as nat, x);
    }
}

/// A well-formed chain compiles to steps that fit, and the bound that the
/// steps reach is the bound of the expression.
pub proof fn lemma_compiled_wf(e: Expr)
    requires
        wf(e),
        is_chain(e),
    ensures
        compiled(e).wf(),
        run_upper(chain_steps(e), chain_steps(e).len(), chain_limit(e)) == upper(e),
    decreases e,
{
    match e {
        Expr::Op(op, child, imm) => {
            lemma_compiled_wf(*child);
            lemma_upper_range(*child);
            let inner = chain_steps(*child);
            let steps = chain_steps(e);
            let limit = chain_limit(e);
            lemma_run_agrees(steps, inner, inner.len(), limit);
            assert(compiled(*child).wf());
            assert forall|n: int| 0 <= n < steps.len() implies step_fits(
                #[trigger] steps[n],
                run_upper(steps, n as nat, limit),
            ) by {
                if n < inner.len() {
                    lemma_run_agrees(steps, inner, n as nat, limit);
                    assert(steps[n] == inner[n]);
                    let below = compiled(*child);
                    assert(below.limit == limit);
                    assert(step_fits(
                        below.steps[n],
                        run_upper(below.steps, n as nat, below.limit),
                    ));
                } else {
                    assert(steps[n] == (op, imm));
                    assert(run_upper(steps, n as nat, limit) == upper(*child));
                }
            }
        },
        _ => {},
    }
}

/// The compiled steps compute the value of the chain: on an input `x`, they
/// give what the expression evaluates to when its variable holds `x`.
pub proof fn lemma_compiled_value(e: Expr, env: Seq<int>)
    requires
        is_chain(e),
        0 <= chain_name(e) < env.len(),
    ensures
        compiled(e).output(env[chain_name(e)]) == eval(e, env),
    decreases e,
{
    match e {
        Expr::Op(op, child, imm) => {
            lemma_compiled_value(*child, env);
            let inner = chain_steps(*child);
            let steps = chain_steps(e);
            lemma_run_agrees(steps, inner, inner.len(), env[chain_name(e)]);
        },
        _ => {},
    }
}

/// The steps of an evaluator as pairs of operator and immediate.
pub open spec fn steps_of(steps: Seq<Step>) -> Seq<(Op, int)> {
    Seq::new(steps.len(), |i: int| (steps[i].op, steps[i].imm as int))
}

impl View for IndexFn {
    type V = IndexMap;

    closed spec fn view(&self) -> IndexMap {
        IndexMap { steps: steps_of(self.steps@), limit: self.limit as int }
    }
}

/// Appends the steps of a chain to `out`, innermost first, and returns the
/// upper bound of its variable.
fn collect_steps(node: &Node, out: &mut Vec<Step>) -> (limit: i32)
    requires
        is_chain(node@),
    ensures
        limit == chain_limit(node@),
        steps_of(final(out)@) == steps_of(old(out)@) + chain_steps(node@),
    decreases node,
{
    match node {
        Node::Variable { max, .. } => {
            assert(steps_of(out@) =~= steps_of(out@) + chain_steps(node@));
            *max
        },
        Node::Op(op, child, imm) => {
            let limit = collect_steps(child, out);
            let ghost before = steps_of(out@);
            out.push(Step { op: *op, imm: *imm });
            assert(steps_of(out@) =~= before.push((*op, *imm as int)));
            assert(steps_of(out@) =~= steps_of(old(out)@) + chain_steps(node@));
            limit
        },
        _ => vstd::pervasive::unreached(),
    }
}

impl Node {
    /// Whether the expression is a chain of operator nodes over one variable,
    /// which is what an evaluator can be compiled from.
    pub fn is_chain(&self) -> (b: bool)
        ensures
            b == is_chain(self@),
        decreases self,
    {
        match self {
            Node::Variable { .. } => true,
            Node::Op(_, child, _) => child.is_chain(),
            _ => false,
        }
    }
}

impl IndexFn {
    /// Compiles a chain of operator nodes over one variable into the steps
    /// that compute it, innermost operator first.
    pub fn compile(expr: &Node) -> (f: IndexFn)
        requires
            wf(expr@),
            is_chain(expr@),
        ensures
            f@ == compiled(expr@),
            f@.wf(),
    {
        let mut steps: Vec<Step> = Vec::new();
        let limit = collect_steps(expr, &mut steps);
        let f = IndexFn { steps, limit };
        proof {
            lemma_compiled_wf(expr@);
            assert(f@.steps =~= chain_steps(expr@));
            assert(steps_of(Seq::<Step>::empty()) =~= Seq::<(Op, int)>::empty());
        }
        f
    }

    /// The steps, in the order in which they are applied.
    pub fn steps(&self) -> (steps: &Vec<Step>)
        ensures
            steps_of(steps@) == self@.steps,
    {
        &self.steps
    }

    /// The largest input that the evaluator is meant for.
    pub fn limit(&self) -> (limit: i32)
        ensures
            limit == self@.limit,
    {
        self.limit
    }

    /// Applies the steps, in order, to the logical index `i`.
    pub fn apply(&self, i: usize) -> (offset: usize)
        requires
            self@.wf(),
            i <= self@.limit,
        ensures
            offset == self@.output(i as int),
    {
        let ghost map = self@;
        let mut x: i32 = i as i32;
        let mut k: usize = 0;
        while k < self.steps.len()
            invariant
                map == self@,
                map.wf(),
                k <= self.steps.len(),
                map.steps.len() == self.steps@.len(),
                x == run(map.steps, k as nat, i as int),
                0 <= x <= run_upper(map.steps, k as nat, map.limit),
                run_upper(map.steps, k as nat, map.limit) <= i32::MAX,
            decreases self.steps.len() - k,
        {
            let step = self.steps[k];
            let ghost u = run_upper(map.steps, k as nat, map.limit);
            proof {
                assert(map.steps[k as int] == (step.op, step.imm as int));
                assert(step_fits(map.steps[k as int], u));
                let c = step.imm as int;
                let v = x as int;
                match step.op {
                    Op::Div => {
                        assert(0 <= v / c <= u / c <= u) by (nonlinear_arith)
                            requires
                                0 <= v <= u,
                                1 <= c,
                        ;
                    },
                    Op::Mul => {
                        assert(0 <= v * c <= u * c) by (nonlinear_arith)
                            requires
                                0 <= v <= u,
                                0 <= c,
                        ;
                    },
                    Op::Mod => {
                        assert(0 <= v % c <= c - 1) by (nonlinear_arith)
                            requires
                                1 <= c,
                        ;
                    },
                }
            }
            x = match step.op {
                Op::Div => x / step.imm,
                Op::Mul => x * step.imm,
                Op::Mod => x % step.imm,
            };
            k += 1;
        }
        x as usize
    }
}

/// Applying a compiled evaluator is a function of the evaluator and the
/// input alone: equal inputs give equal outputs, however often it is
/// applied.
pub proof fn lemma_apply_is_pure(f: IndexMap, i: int, j: int)
    requires
        i == j,
    ensures
        f.output(i) == f.output(j),
{
}

} // verus!
