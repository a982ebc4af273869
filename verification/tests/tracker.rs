use shape_tracker::{merge_views, Node, ShapeTracker, View};

fn layouts(tracker: &ShapeTracker) -> Vec<(Vec<usize>, Vec<usize>)> {
    tracker.views().iter().map(|v| (v.shape().clone(), v.strides().clone())).collect()
}

#[test]
fn new_tracker_is_row_major() {
    let tracker = ShapeTracker::new(vec![2, 3, 4]);
    assert_eq!(tracker.shape(), &vec![2, 3, 4]);
    assert_eq!(layouts(&tracker), vec![(vec![2, 3, 4], vec![12, 4, 1])]);
}

#[test]
fn reshape_square_to_flat_fuses() {
    let mut tracker = ShapeTracker::new(vec![4, 4]);
    tracker.reshape(vec![16]);
    assert_eq!(layouts(&tracker), vec![(vec![16], vec![1])]);
    assert_eq!(tracker.index_fn().apply(5), 5);
}

#[test]
fn merge_square_with_flat() {
    let merged = merge_views(&View::new(vec![4, 4], vec![4, 1]), &View::new(vec![16], vec![1]));
    let merged = merged.unwrap();
    assert_eq!(merged.shape(), &vec![16]);
    assert_eq!(merged.strides(), &vec![1]);
}

#[test]
fn reshape_fuses_contiguous_dimensions() {
    let mut tracker = ShapeTracker::new(vec![2, 3, 4]);
    tracker.reshape(vec![6, 4]);
    assert_eq!(layouts(&tracker), vec![(vec![6, 4], vec![4, 1])]);
}

#[test]
fn merge_fuses_contiguous_dimensions() {
    let merged = merge_views(
        &View::new(vec![2, 3, 4], vec![12, 4, 1]),
        &View::new(vec![6, 4], vec![4, 1]),
    );
    let merged = merged.unwrap();
    assert_eq!(merged.shape(), &vec![6, 4]);
    assert_eq!(merged.strides(), &vec![4, 1]);
}

#[test]
fn merge_splits_dimensions_across_their_boundaries() {
    let merged = merge_views(
        &View::new(vec![2, 3, 4], vec![12, 4, 1]),
        &View::new(vec![4, 6], vec![6, 1]),
    );
    let merged = merged.unwrap();
    assert_eq!(merged.strides(), &vec![6, 1]);
}

#[test]
fn merge_through_a_strided_layout() {
    let merged = merge_views(&View::new(vec![6], vec![4]), &View::new(vec![2, 3], vec![3, 1]));
    let merged = merged.unwrap();
    assert_eq!(merged.shape(), &vec![2, 3]);
    assert_eq!(merged.strides(), &vec![12, 4]);
}

#[test]
fn permute_swaps_shape_and_strides() {
    let mut tracker = ShapeTracker::new(vec![2, 3]);
    tracker.permute(&[1, 0]);
    assert_eq!(tracker.shape(), &vec![3, 2]);
    assert_eq!(layouts(&tracker), vec![(vec![3, 2], vec![1, 3])]);
}

#[test]
fn permuted_offsets_walk_the_columns() {
    let mut tracker = ShapeTracker::new(vec![2, 3]);
    tracker.permute(&[1, 0]);
    let expr = tracker.index_expr();
    let outputs: Vec<i32> = (0..6).map(|i| expr.eval(&[i])).collect();
    assert_eq!(outputs, vec![0, 3, 1, 4, 2, 5]);
    assert!(matches!(expr, Node::Sum(_)));
    assert!(!expr.is_chain());
}

#[test]
fn permute_of_three_dimensions() {
    let mut tracker = ShapeTracker::new(vec![2, 3, 4]);
    tracker.permute(&[2, 0, 1]);
    assert_eq!(layouts(&tracker), vec![(vec![4, 2, 3], vec![1, 12, 4])]);
}

#[test]
fn permute_does_not_fuse() {
    let mut tracker = ShapeTracker::new(vec![2, 3]);
    tracker.permute(&[1, 0]);
    tracker.reshape(vec![6]);
    assert_eq!(tracker.views().len(), 2);
    tracker.permute(&[0]);
    assert_eq!(tracker.views().len(), 2);
}

#[test]
fn shape_after_reshape_is_the_new_shape_when_fused() {
    let mut tracker = ShapeTracker::new(vec![2, 3, 4]);
    tracker.reshape(vec![4, 6]);
    assert_eq!(tracker.views().len(), 1);
    assert_eq!(tracker.shape(), &vec![4, 6]);
}

#[test]
fn shape_after_reshape_is_the_new_shape_when_not_fused() {
    let mut tracker = ShapeTracker::new(vec![2, 3]);
    tracker.permute(&[1, 0]);
    tracker.reshape(vec![6]);
    assert_eq!(tracker.views().len(), 2);
    assert_eq!(tracker.shape(), &vec![6]);
}

#[test]
fn merge_fails_across_a_transposition() {
    let merged = merge_views(&View::new(vec![3, 2], vec![1, 3]), &View::new(vec![6], vec![1]));
    assert!(merged.is_none());
}

#[test]
fn reshape_after_permute_keeps_both_layouts() {
    let mut tracker = ShapeTracker::new(vec![2, 3]);
    tracker.permute(&[1, 0]);
    tracker.reshape(vec![6]);
    assert_eq!(layouts(&tracker), vec![(vec![3, 2], vec![1, 3]), (vec![6], vec![1])]);
    let expr = tracker.index_expr();
    let outputs: Vec<i32> = (0..6).map(|i| expr.eval(&[i])).collect();
    assert_eq!(outputs, vec![0, 3, 1, 4, 2, 5]);
}

#[test]
fn merge_fails_on_a_unit_dimension() {
    let merged =
        merge_views(&View::new(vec![4, 4], vec![4, 1]), &View::new(vec![16, 1], vec![1, 1]));
    assert!(merged.is_none());
}

#[test]
fn merge_fails_on_a_zero_stride() {
    let merged =
        merge_views(&View::new(vec![4, 4], vec![4, 1]), &View::new(vec![4, 4], vec![0, 1]));
    assert!(merged.is_none());
}

#[test]
fn reshape_fuses_repeatedly() {
    let mut tracker = ShapeTracker::new(vec![24]);
    tracker.reshape(vec![2, 12]);
    tracker.reshape(vec![2, 3, 4]);
    tracker.reshape(vec![6, 4]);
    assert_eq!(layouts(&tracker), vec![(vec![6, 4], vec![4, 1])]);
}

#[test]
fn reshape_back_to_the_transposed_shape_leaves_one_layout() {
    let mut tracker = ShapeTracker::new(vec![2, 3]);
    tracker.permute(&[1, 0]);
    tracker.reshape(vec![6]);
    assert_eq!(tracker.views().len(), 2);
    tracker.reshape(vec![3, 2]);
    assert_eq!(layouts(&tracker), vec![(vec![3, 2], vec![1, 3])]);
}

#[test]
fn merge_through_a_transposed_layout_of_the_same_shape() {
    let merged =
        merge_views(&View::new(vec![3, 2], vec![1, 3]), &View::new(vec![3, 2], vec![2, 1]));
    let merged = merged.unwrap();
    assert_eq!(merged.shape(), &vec![3, 2]);
    assert_eq!(merged.strides(), &vec![1, 3]);
}

#[test]
fn merge_through_a_permuted_layout() {
    let merged = merge_views(
        &View::new(vec![4, 2, 3], vec![1, 12, 4]),
        &View::new(vec![4, 6], vec![6, 1]),
    );
    let merged = merged.unwrap();
    assert_eq!(merged.shape(), &vec![4, 6]);
    assert_eq!(merged.strides(), &vec![1, 4]);
}

#[test]
fn row_major_reading_of_the_same_shape_leaves_the_layout_as_it_was() {
    let layouts = [
        (vec![3, 2], vec![1, 3]),
        (vec![2, 3, 4], vec![1, 2, 6]),
        (vec![2, 3, 4], vec![4, 8, 1]),
        (vec![4, 2, 3], vec![1, 12, 4]),
        (vec![2, 2, 2, 2], vec![2, 8, 1, 4]),
        (vec![5, 7], vec![9, 100]),
        (vec![6], vec![5]),
        (vec![3, 4], vec![4, 1]),
    ];
    for (shape, strides) in layouts {
        let outer = View::new(shape.clone(), strides.clone());
        let inner = View::contiguous(shape.clone());
        let merged = merge_views(&outer, &inner).unwrap();
        assert_eq!(merged.shape(), &shape);
        assert_eq!(merged.strides(), &strides);
    }
}

#[test]
fn reshape_of_a_fresh_tracker_to_its_own_shape_changes_nothing() {
    let mut tracker = ShapeTracker::new(vec![2, 3, 4]);
    tracker.reshape(vec![2, 3, 4]);
    assert_eq!(layouts(&tracker), vec![(vec![2, 3, 4], vec![12, 4, 1])]);
}

#[test]
fn index_fn_of_a_fresh_tracker_is_the_identity() {
    let tracker = ShapeTracker::new(vec![2, 3, 4]);
    let f = tracker.index_fn();
    for i in 0..24 {
        assert_eq!(f.apply(i), i);
    }
}

#[test]
fn index_fn_gives_the_same_output_every_time() {
    let mut tracker = ShapeTracker::new(vec![4, 4]);
    tracker.reshape(vec![16]);
    let f = tracker.index_fn();
    let first: Vec<usize> = (0..16).map(|i| f.apply(i)).collect();
    let second: Vec<usize> = (0..16).map(|i| f.apply(i)).collect();
    assert_eq!(first, second);
    assert_eq!(f.apply(5), f.apply(5));
}

#[test]
fn index_fn_of_a_transposed_row_is_the_identity() {
    let mut tracker = ShapeTracker::new(vec![1, 5]);
    tracker.permute(&[1, 0]);
    assert_eq!(layouts(&tracker), vec![(vec![5, 1], vec![1, 5])]);
    let f = tracker.index_fn();
    assert_eq!(f.apply(3), 3);
}

fn offsets(tracker: &ShapeTracker, count: i32) -> Vec<i32> {
    let expr = tracker.index_expr();
    (0..count).map(|x| expr.eval(&[x])).collect()
}

#[test]
fn reshape_keeps_physical_offsets_when_it_fuses() {
    let mut tracker = ShapeTracker::new(vec![4, 6]);
    let before = offsets(&tracker, 24);
    tracker.reshape(vec![2, 3, 4]);
    assert_eq!(tracker.views().len(), 1);
    assert_eq!(offsets(&tracker, 24), before);
    assert_eq!(before, (0..24).collect::<Vec<i32>>());
}

#[test]
fn reshape_keeps_physical_offsets_after_a_permute() {
    let mut tracker = ShapeTracker::new(vec![2, 3, 4]);
    tracker.permute(&[2, 0, 1]);
    let before = offsets(&tracker, 24);
    tracker.reshape(vec![4, 6]);
    assert_eq!(layouts(&tracker), vec![(vec![4, 6], vec![1, 4])]);
    assert_eq!(offsets(&tracker, 24), before);
    tracker.reshape(vec![24]);
    assert_eq!(tracker.views().len(), 2);
    assert_eq!(offsets(&tracker, 24), before);
    assert_eq!(&before[..6], &[0, 4, 8, 12, 16, 20]);
}

#[test]
fn permute_moves_the_coordinates_with_the_dimensions() {
    let mut tracker = ShapeTracker::new(vec![2, 3]);
    let before = offsets(&tracker, 6);
    tracker.permute(&[1, 0]);
    let after = offsets(&tracker, 6);
    for i in 0..2 {
        for j in 0..3 {
            assert_eq!(after[j * 2 + i], before[i * 3 + j]);
        }
    }
}

#[test]
fn permute_keeps_the_element_count() {
    let mut tracker = ShapeTracker::new(vec![2, 3, 4]);
    tracker.permute(&[1, 2, 0]);
    assert_eq!(tracker.shape(), &vec![3, 4, 2]);
    assert_eq!(tracker.shape().iter().product::<usize>(), 24);
    tracker.reshape(vec![24]);
    assert_eq!(tracker.shape(), &vec![24]);
}

#[test]
fn simplified_stacks_do_not_fuse_further() {
    let mut tracker = ShapeTracker::new(vec![2, 3]);
    tracker.permute(&[1, 0]);
    tracker.reshape(vec![6]);
    let views = tracker.views();
    assert_eq!(views.len(), 2);
    assert!(merge_views(&views[0], &views[1]).is_none());
}

#[test]
fn clones_are_independent() {
    let mut tracker = ShapeTracker::new(vec![2, 3]);
    let copy = tracker.clone();
    tracker.permute(&[1, 0]);
    assert_eq!(layouts(&copy), vec![(vec![2, 3], vec![3, 1])]);
    assert_eq!(layouts(&tracker), vec![(vec![3, 2], vec![1, 3])]);
    let view = View::new(vec![3, 2], vec![1, 3]);
    let same = view.clone();
    assert_eq!(same.shape(), view.shape());
    assert_eq!(same.strides(), view.strides());
}

#[test]
fn merge_of_a_strided_dimension_through_mismatched_strides() {
    let merged = merge_views(&View::new(vec![4, 4], vec![7, 1]), &View::new(vec![3], vec![4]));
    let merged = merged.unwrap();
    assert_eq!(merged.shape(), &vec![3]);
    assert_eq!(merged.strides(), &vec![7]);
}

#[test]
fn index_expr_of_a_fresh_tracker_is_the_identity() {
    let tracker = ShapeTracker::new(vec![3, 5]);
    assert_eq!(offsets(&tracker, 15), (0..15).collect::<Vec<i32>>());
    let single = ShapeTracker::new(vec![1, 1]);
    assert_eq!(offsets(&single, 1), vec![0]);
    assert!(!single.index_expr().is_chain());
}
