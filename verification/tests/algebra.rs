use shape_tracker::{expr_node, IndexFn, Node, Op};

fn x(max: i32) -> Node {
    Node::variable(0, 0, max)
}

fn op(op: Op, child: Node, imm: i32) -> Node {
    Node::Op(op, Box::new(child), imm)
}

#[test]
fn scale_by_zero_is_zero() {
    assert!(x(9).scale(0).equals(&Node::num(0)));
}

#[test]
fn scale_by_one_is_identity() {
    assert!(x(9).scale(1).equals(&x(9)));
}

#[test]
fn scale_builds_a_product() {
    assert!(x(9).scale(4).equals(&op(Op::Mul, x(9), 4)));
}

#[test]
fn scale_merges_nested_products() {
    assert!(x(9).scale(4).scale(3).equals(&op(Op::Mul, x(9), 12)));
}

#[test]
fn scale_folds_literals() {
    assert!(Node::num(5).scale(3).equals(&Node::num(15)));
}

#[test]
fn scale_of_a_pinned_variable_is_zero() {
    assert!(x(0).scale(7).equals(&Node::num(0)));
}

#[test]
fn scale_distributes_over_a_sum() {
    let y = Node::variable(1, 0, 3);
    let sum = Node::sum(vec![x(5).scale(4), y.clone()]);
    let expected = Node::Sum(vec![op(Op::Mul, x(5), 12), op(Op::Mul, y, 3)]);
    assert!(sum.scale(3).equals(&expected));
}

#[test]
fn divide_by_one_is_identity() {
    assert!(x(9).divide(1).equals(&x(9)));
}

#[test]
fn divide_of_a_small_operand_is_zero() {
    assert!(x(3).divide(4).equals(&Node::num(0)));
}

#[test]
fn divide_builds_a_quotient() {
    assert!(x(15).divide(4).equals(&op(Op::Div, x(15), 4)));
}

#[test]
fn divide_merges_nested_quotients() {
    assert!(x(23).divide(4).divide(3).equals(&op(Op::Div, x(23), 12)));
}

#[test]
fn divide_folds_literals() {
    assert!(Node::num(17).divide(5).equals(&Node::num(3)));
}

#[test]
fn modulo_one_is_zero() {
    assert!(x(9).modulo(1).equals(&Node::num(0)));
}

#[test]
fn modulo_of_a_small_operand_is_identity() {
    assert!(x(3).modulo(4).equals(&x(3)));
}

#[test]
fn modulo_builds_a_remainder() {
    assert!(x(15).modulo(4).equals(&op(Op::Mod, x(15), 4)));
}

#[test]
fn modulo_folds_literals() {
    assert!(Node::num(17).modulo(5).equals(&Node::num(2)));
}

#[test]
fn bound_follows_interval_arithmetic() {
    assert_eq!(x(15).bound(), 15);
    assert_eq!(x(15).divide(4).bound(), 3);
    assert_eq!(x(15).modulo(4).bound(), 3);
    assert_eq!(x(15).scale(4).bound(), 60);
    assert_eq!(Node::sum(vec![x(15).scale(4), Node::variable(1, 0, 3)]).bound(), 63);
}

#[test]
fn sum_of_nothing_is_zero() {
    assert!(Node::sum(vec![]).equals(&Node::num(0)));
}

#[test]
fn sum_of_one_term_is_the_term() {
    assert!(Node::sum(vec![x(9)]).equals(&x(9)));
}

#[test]
fn sum_drops_zeros_and_flattens() {
    let y = Node::variable(1, 0, 3);
    let z = Node::variable(2, 0, 5);
    let inner = Node::sum(vec![x(9), y.clone()]);
    let sum = Node::sum(vec![Node::num(0), inner, z.clone()]);
    assert!(sum.equals(&Node::Sum(vec![x(9), y, z])));
}

#[test]
fn assemble_does_not_fuse_digits() {
    let low = x(15).modulo(4);
    let high = x(15).divide(4).scale(4);
    let sum = Node::assemble(vec![low.clone(), high.clone()]);
    assert!(sum.equals(&Node::Sum(vec![low, high])));
}

#[test]
fn sum_fuses_a_digit_with_what_lies_above_it() {
    let low = x(15).modulo(4);
    let high = x(15).divide(4).scale(4);
    assert!(Node::sum(vec![low, high]).equals(&x(15)));
}

#[test]
fn sum_fuses_in_either_order() {
    let low = x(15).modulo(4);
    let high = x(15).divide(4).scale(4);
    assert!(Node::sum(vec![high, low]).equals(&x(15)));
}

#[test]
fn sum_fuses_weighted_digits() {
    let low = x(5).modulo(3).scale(4);
    let high = x(5).divide(3).scale(12);
    assert!(Node::sum(vec![low, high]).equals(&op(Op::Mul, x(5), 4)));
}

#[test]
fn sum_fuses_three_digits() {
    let d0 = x(63).modulo(4);
    let d1 = x(63).divide(4).modulo(4).scale(4);
    let d2 = x(63).divide(16).scale(16);
    assert!(Node::sum(vec![d0, d1, d2]).equals(&x(63)));
}

#[test]
fn sum_keeps_digits_whose_weights_do_not_match() {
    let low = x(5).modulo(2).scale(3);
    let high = x(5).divide(2);
    let sum = Node::sum(vec![low.clone(), high.clone()]);
    assert!(sum.equals(&Node::Sum(vec![low, high])));
}

#[test]
fn equals_tells_names_and_bounds_apart() {
    assert!(x(9).equals(&Node::variable(0, 0, 9)));
    assert!(!x(9).equals(&Node::variable(1, 0, 9)));
    assert!(!x(9).equals(&Node::variable(0, 0, 8)));
    assert!(!x(9).equals(&Node::variable(0, 1, 9)));
    assert!(!x(9).equals(&Node::num(9)));
}

#[test]
fn equals_compares_children_in_order() {
    let y = Node::variable(1, 0, 3);
    let a = Node::Sum(vec![x(9), y.clone()]);
    let b = Node::Sum(vec![y.clone(), x(9)]);
    assert!(a.equals(&a.clone()));
    assert!(!a.equals(&b));
    assert!(!a.equals(&Node::Sum(vec![x(9)])));
    assert!(!op(Op::Mul, x(9), 2).equals(&op(Op::Div, x(9), 2)));
    assert!(!op(Op::Mul, x(9), 2).equals(&op(Op::Mul, x(9), 3)));
}

#[test]
fn eval_follows_the_operators() {
    let e = op(Op::Mul, op(Op::Mod, op(Op::Div, x(23), 4), 3), 5);
    assert_eq!(e.eval(&[23]), 10);
    assert_eq!(e.eval(&[7]), 5);
    let y = Node::variable(1, 0, 3);
    let sum = Node::Sum(vec![op(Op::Mul, x(5), 4), y]);
    assert_eq!(sum.eval(&[5, 3]), 23);
}

#[test]
fn expr_node_of_a_contiguous_layout_is_the_index() {
    let e = expr_node(x(23), &[2, 3, 4], &[12, 4, 1]);
    assert!(e.equals(&x(23)));
}

#[test]
fn expr_node_of_a_transposed_layout_is_a_sum() {
    let e = expr_node(x(5), &[3, 2], &[1, 3]);
    let expected = Node::Sum(vec![op(Op::Mul, op(Op::Mod, x(5), 2), 3), op(Op::Div, x(5), 2)]);
    assert!(e.equals(&expected));
    let outputs: Vec<i32> = (0..6).map(|i| e.eval(&[i])).collect();
    assert_eq!(outputs, vec![0, 3, 1, 4, 2, 5]);
}

#[test]
fn expr_node_skips_unit_dimensions() {
    let e = expr_node(x(15), &[4, 1, 4], &[4, 4, 1]);
    assert!(e.equals(&x(15)));
}

#[test]
fn expr_node_with_a_zero_stride_drops_the_dimension() {
    let e = expr_node(x(5), &[2, 3], &[0, 1]);
    assert!(e.equals(&op(Op::Mod, x(5), 3)));
}

#[test]
fn expr_node_of_one_strided_dimension() {
    let e = expr_node(x(5), &[6], &[4]);
    assert!(e.equals(&op(Op::Mul, x(5), 4)));
}

#[test]
fn is_chain_accepts_operator_chains_only() {
    assert!(x(5).is_chain());
    assert!(op(Op::Mul, op(Op::Mod, x(5), 3), 2).is_chain());
    assert!(!Node::num(3).is_chain());
    assert!(!Node::Sum(vec![x(5), Node::variable(1, 0, 2)]).is_chain());
    assert!(!op(Op::Mul, Node::num(3), 2).is_chain());
}

#[test]
fn compile_lists_the_steps_innermost_first() {
    let e = op(Op::Mul, op(Op::Mod, op(Op::Div, x(23), 4), 3), 5);
    let f = IndexFn::compile(&e);
    let steps: Vec<(Op, i32)> = f.steps().iter().map(|s| (s.op, s.imm)).collect();
    assert_eq!(steps, vec![(Op::Div, 4), (Op::Mod, 3), (Op::Mul, 5)]);
    assert_eq!(f.limit(), 23);
}

#[test]
fn apply_runs_the_steps_in_order() {
    let e = op(Op::Mul, op(Op::Mod, op(Op::Div, x(23), 4), 3), 5);
    let f = IndexFn::compile(&e);
    assert_eq!(f.apply(23), 10);
    assert_eq!(f.apply(7), 5);
    assert_eq!(f.apply(0), 0);
    for i in 0..24usize {
        assert_eq!(f.apply(i) as i32, e.eval(&[i as i32]));
    }
}

#[test]
fn apply_of_a_bare_variable_is_the_identity() {
    let f = IndexFn::compile(&x(15));
    assert!(f.steps().is_empty());
    assert_eq!(f.apply(5), 5);
}

#[test]
fn constructors_keep_the_value() {
    let y = Node::variable(1, 0, 3);
    let e = Node::sum(vec![x(5).scale(4), y]);
    for a in 0..6 {
        for b in 0..4 {
            let v = 4 * a + b;
            assert_eq!(e.eval(&[a, b]), v);
            assert_eq!(e.clone().scale(3).eval(&[a, b]), v * 3);
            assert_eq!(e.clone().divide(5).eval(&[a, b]), v / 5);
            assert_eq!(e.clone().modulo(7).eval(&[a, b]), v % 7);
            let digits = vec![
                e.clone().modulo(4),
                e.clone().divide(4).modulo(3).scale(4),
                e.clone().divide(12).scale(12),
            ];
            assert_eq!(Node::sum(digits).eval(&[a, b]), v);
        }
    }
}

#[test]
fn expr_node_has_the_value_of_the_offset() {
    let e = expr_node(x(23), &[2, 3, 4], &[1, 2, 6]);
    for i in 0..24 {
        let expected = (i / 12) % 2 + ((i / 4) % 3) * 2 + (i % 4) * 6;
        assert_eq!(e.eval(&[i]), expected);
    }
}

#[test]
fn clone_is_a_deep_copy() {
    let e = Node::Sum(vec![op(Op::Mul, op(Op::Mod, x(5), 2), 3), op(Op::Div, x(5), 2)]);
    let copy = e.clone();
    assert!(copy.equals(&e));
    assert_eq!(copy.eval(&[5]), e.eval(&[5]));
}

#[test]
fn divide_looks_into_a_sum() {
    let y = Node::variable(1, 0, 3);
    let e = Node::sum(vec![x(5).scale(4), y.clone()]);
    assert!(e.clone().divide(4).equals(&x(5)));
    assert!(e.clone().divide(2).equals(&Node::Sum(vec![op(Op::Mul, x(5), 2), op(Op::Div, y, 2)])));
    assert!(e.clone().divide(12).equals(&op(Op::Div, e.clone(), 12)));
    assert!(e.clone().divide(1).equals(&e));
    assert!(e.clone().divide(24).equals(&Node::num(0)));
}

#[test]
fn modulo_looks_into_a_sum() {
    let y = Node::variable(1, 0, 3);
    let e = Node::sum(vec![x(5).scale(4), y.clone()]);
    assert!(e.clone().modulo(4).equals(&y));
    assert!(e.clone().modulo(2).equals(&op(Op::Mod, y, 2)));
    assert!(e.clone().modulo(3).equals(&op(Op::Mod, e.clone(), 3)));
    assert!(e.clone().modulo(1).equals(&Node::num(0)));
    assert!(e.clone().modulo(24).equals(&e));
}

#[test]
fn whole_division_does_not_look_into_a_sum() {
    let y = Node::variable(1, 0, 3);
    let e = Node::sum(vec![x(5).scale(4), y]);
    assert!(e.clone().divide_whole(4).equals(&op(Op::Div, e.clone(), 4)));
    assert!(e.clone().modulo_whole(4).equals(&op(Op::Mod, e.clone(), 4)));
    assert!(x(15).divide_whole(4).equals(&x(15).divide(4)));
    assert!(x(15).modulo_whole(4).equals(&x(15).modulo(4)));
}

#[test]
fn distribute_applies_the_operators_anew() {
    let y = Node::variable(1, 0, 1);
    let e = Node::sum(vec![x(2).scale(2), y.clone()]);
    let low = op(Op::Mul, op(Op::Mod, e.clone(), 2), 3);
    let high = op(Op::Div, e.clone(), 2);
    assert!(low.clone().distribute().equals(&op(Op::Mul, y, 3)));
    assert!(high.clone().distribute().equals(&x(2)));
    assert!(x(5).distribute().equals(&x(5)));
    for a in 0..3 {
        for b in 0..2 {
            assert_eq!(low.clone().distribute().eval(&[a, b]), low.eval(&[a, b]));
            assert_eq!(high.clone().distribute().eval(&[a, b]), high.eval(&[a, b]));
        }
    }
}

#[test]
fn sum_distributes_what_does_not_fuse() {
    let y = Node::variable(1, 0, 1);
    let e = Node::sum(vec![x(2).scale(2), y.clone()]);
    let low = e.clone().modulo_whole(2).scale(3);
    let high = e.clone().divide_whole(2);
    let expected = Node::Sum(vec![op(Op::Mul, y, 3), x(2)]);
    assert!(Node::sum(vec![low, high]).equals(&expected));
}

#[test]
fn divide_and_modulo_look_into_a_product() {
    let e = x(5).scale(12);
    assert!(e.clone().divide(4).equals(&op(Op::Mul, x(5), 3)));
    assert!(e.clone().divide(12).equals(&x(5)));
    assert!(e.clone().divide(5).equals(&op(Op::Div, e.clone(), 5)));
    assert!(e.clone().modulo(4).equals(&Node::num(0)));
    assert!(e.clone().modulo(5).equals(&op(Op::Mod, e.clone(), 5)));
    for a in 0..6 {
        assert_eq!(e.clone().divide(4).eval(&[a]), 12 * a / 4);
        assert_eq!(e.clone().modulo(4).eval(&[a]), 12 * a % 4);
    }
}
