use shape_tracker::{default_strides, View};

#[test]
fn default_strides_of_three_dimensions() {
    assert_eq!(default_strides(&[2, 3, 4]), vec![12, 4, 1]);
}

#[test]
fn default_strides_of_one_dimension() {
    assert_eq!(default_strides(&[7]), vec![1]);
}

#[test]
fn default_strides_of_no_dimension() {
    assert_eq!(default_strides(&[]), Vec::<usize>::new());
}

#[test]
fn default_strides_with_unit_sizes() {
    assert_eq!(default_strides(&[5, 1, 3, 1]), vec![3, 3, 1, 1]);
}

#[test]
fn default_strides_need_only_the_strides_to_fit() {
    assert_eq!(default_strides(&[usize::MAX, 2]), vec![2, 1]);
}

#[test]
fn contiguous_view_has_default_strides() {
    let view = View::contiguous(vec![2, 3, 4]);
    assert_eq!(view.shape(), &vec![2, 3, 4]);
    assert_eq!(view.strides(), &vec![12, 4, 1]);
}

#[test]
fn view_keeps_what_it_was_given() {
    let view = View::new(vec![3, 2], vec![1, 3]);
    assert_eq!(view.shape(), &vec![3, 2]);
    assert_eq!(view.strides(), &vec![1, 3]);
}
