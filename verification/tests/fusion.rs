use shape_tracker::{expr_node, merge_views, Node, Op, View};

/// All lists of `rank` entries drawn from `choices`.
fn lists(rank: usize, choices: &[usize]) -> Vec<Vec<usize>> {
    let mut out = vec![vec![]];
    for _ in 0..rank {
        let mut next = Vec::new();
        for list in &out {
            for c in choices {
                let mut longer = list.clone();
                longer.push(*c);
                next.push(longer);
            }
        }
        out = next;
    }
    out
}

fn offset(coords: &[usize], strides: &[usize]) -> usize {
    coords.iter().zip(strides).map(|(c, s)| c * s).sum()
}

fn flat_offset(x: usize, shape: &[usize], strides: &[usize]) -> usize {
    let mut acc = 1;
    let mut total = 0;
    for (d, s) in shape.iter().zip(strides).rev() {
        total += ((x / acc) % d) * s;
        acc *= d;
    }
    total
}

fn coordinates(shape: &[usize]) -> Vec<Vec<usize>> {
    let mut out = vec![vec![]];
    for d in shape {
        let mut next = Vec::new();
        for list in &out {
            for c in 0..*d {
                let mut longer = list.clone();
                longer.push(c);
                next.push(longer);
            }
        }
        out = next;
    }
    out
}

/// The composed offset of the two layouts, as a list of terms.
fn composed_terms(s2: &[usize], t2: &[usize], s1: &[usize], t1: &[usize]) -> Vec<Node> {
    let mut terms = Vec::new();
    for i in 0..s1.len() {
        if s1[i] != 1 && t1[i] != 0 {
            terms.push(Node::variable(i, 0, s1[i] as i32 - 1).scale(t1[i] as i32));
        }
    }
    match expr_node(Node::sum(terms), s2, t2) {
        Node::Sum(terms) => terms,
        Node::Num(0) => vec![],
        other => vec![other],
    }
}

/// The strides that the terms show, dimension by dimension; zero where they
/// show none.
fn shown_strides(terms: &[Node], rank: usize) -> Vec<i32> {
    let mut strides = vec![0; rank];
    for term in terms {
        match term {
            Node::Variable { name, .. } => strides[*name] = 1,
            Node::Op(Op::Mul, child, c) => {
                if let Node::Variable { name, .. } = &**child {
                    strides[*name] = *c;
                }
            }
            _ => {}
        }
    }
    strides
}

/// Fuses every later layout with every earlier one and, where they fuse,
/// compares the fused layout with the chain on every coordinate. Returns the
/// number of fusions.
fn compare(
    outer_shapes: &[Vec<usize>],
    outer_strides: &[usize],
    inner_shapes: &[Vec<usize>],
    inner_strides: &[usize],
) -> usize {
    let mut fusions = 0;
    for s2 in outer_shapes {
        for t2 in lists(s2.len(), outer_strides) {
            let v2 = View::new(s2.clone(), t2.clone());
            for s1 in inner_shapes {
                let all = coordinates(s1);
                for t1 in lists(s1.len(), inner_strides) {
                    let v1 = View::new(s1.clone(), t1.clone());
                    let terms = composed_terms(s2, &t2, s1, &t1);
                    let shown = shown_strides(&terms, s1.len());
                    let fusion = merge_views(&v2, &v1);
                    assert_eq!(
                        fusion.is_some(),
                        shown.iter().all(|c| *c != 0),
                        "{s2:?}/{t2:?} after {s1:?}/{t1:?}",
                    );
                    if let Some(fusion) = fusion {
                        fusions += 1;
                        assert_eq!(fusion.shape(), s1);
                        assert_eq!(terms.len(), s1.len());
                        for coords in &all {
                            assert_eq!(
                                offset(coords, fusion.strides()),
                                flat_offset(offset(coords, &t1), s2, &t2),
                                "{s2:?}/{t2:?} after {s1:?}/{t1:?} at {coords:?}",
                            );
                        }
                    }
                }
            }
        }
    }
    fusions
}

#[test]
fn fusion_agrees_with_the_chain_below_one_dimension() {
    let outer = lists(1, &[1, 2, 3, 4, 6, 8, 12, 24]);
    let mut inner = lists(1, &[1, 2, 3, 4, 6, 12]);
    inner.extend(lists(2, &[1, 2, 3, 4, 6]));
    inner.extend(lists(3, &[1, 2, 3]));
    inner.push(vec![]);
    assert!(compare(&outer, &[0, 1, 2, 3, 5], &inner, &[0, 1, 2, 3, 4, 6]) > 0);
}

#[test]
fn fusion_agrees_with_the_chain_below_two_dimensions() {
    let outer = lists(2, &[1, 2, 3, 4, 6]);
    let mut inner = lists(1, &[1, 2, 3, 4, 6, 12]);
    inner.extend(lists(2, &[1, 2, 3, 4]));
    inner.extend(lists(3, &[2, 3]));
    assert!(compare(&outer, &[0, 1, 2, 3, 4, 6, 8], &inner, &[0, 1, 2, 3, 4]) > 0);
}

#[test]
fn fusion_agrees_with_the_chain_below_three_dimensions() {
    let outer = lists(3, &[1, 2, 3, 4]);
    let mut inner = lists(1, &[2, 4, 6, 12, 24]);
    inner.extend(lists(2, &[2, 3, 4]));
    assert!(compare(&outer, &[1, 2, 3, 4, 12], &inner, &[1, 2, 4]) > 0);
}

#[test]
fn fusion_agrees_with_the_chain_below_four_dimensions() {
    let outer = lists(4, &[2, 3]);
    let inner = lists(2, &[2, 3, 4, 6]);
    assert!(compare(&outer, &[1, 2, 3, 6, 18], &inner, &[1, 2]) > 0);
}
