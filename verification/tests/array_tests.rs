use ndarr::array::Array;
use ndarr::array::checked_product;
use ndarr::errors::ArrayError;

fn arr_from(shape: Vec<usize>, values: Vec<f32>) -> Array<f32> {
    let mut a = Array::new(&shape, 0.0f32);
    a.from_values(&values).unwrap();
    a
}

#[test]
fn new_zero_fills_and_derives_layout() {
    let a = Array::new(&vec![2, 3], 0.0f32);
    assert_eq!(a.shape, vec![2, 3]);
    assert_eq!(a.ndim, 2);
    assert_eq!(a.totalsize, 6);
    assert_eq!(a.strides, vec![3, 1]);
    assert_eq!(a.backstrides, vec![3, 2]);
    assert!(a.c_order);
    assert!(!a.f_order);
    assert_eq!(a.data, vec![0.0; 6]);
}

#[test]
fn one_dimensional_array_is_both_orders() {
    let a = Array::new(&vec![5], 1.5f32);
    assert!(a.c_order);
    assert!(a.f_order);
    assert_eq!(a.strides, vec![1]);
    assert_eq!(a.backstrides, vec![4]);
    assert_eq!(a.data, vec![1.5; 5]);
}

#[test]
fn shape_as_vec_returns_the_shape() {
    let a = Array::new(&vec![4, 2, 3], 0.0f32);
    assert_eq!(a.shape_as_vec(), vec![4, 2, 3]);
}

#[test]
fn checked_product_handles_zero_and_overflow() {
    assert_eq!(checked_product(&vec![3, 4]), Some(12));
    assert_eq!(checked_product(&vec![3, 0, 4]), Some(0));
    assert_eq!(checked_product(&vec![usize::MAX, 2]), None);
}

#[test]
fn final_shape_broadcasts_trailing_axes() {
    // final_shape((3,3),(3,)) = (3,3)
    let a = Array::new(&vec![3, 3], 0.0f32);
    let b = Array::new(&vec![3], 0.0f32);
    assert_eq!(a.final_shape(&b), Some(vec![3, 3]));
    assert_eq!(b.final_shape(&a), Some(vec![3, 3]));
}

#[test]
fn final_shape_rejects_incompatible_extents() {
    // final_shape((2,3),(4,5)) has no value
    let a = Array::new(&vec![2, 3], 0.0f32);
    let b = Array::new(&vec![4, 5], 0.0f32);
    assert_eq!(a.final_shape(&b), None);
}

#[test]
fn final_shape_takes_larger_of_one_extents() {
    let a = Array::new(&vec![2, 1, 4], 0.0f32);
    let b = Array::new(&vec![3, 1], 0.0f32);
    assert_eq!(a.final_shape(&b), Some(vec![2, 3, 4]));
}

#[test]
fn add_same_shape_adds_position_by_position() {
    // add on two (3,3) arrays: result.data[i] == a.data[i] + b.data[i]
    let a = arr_from(vec![3, 3], (0..9).map(|i| i as f32).collect());
    let b = arr_from(vec![3, 3], (0..9).map(|i| (10 * i) as f32).collect());
    let sum = a.broadcast_op(&b, &|x: f32, y: f32| x + y).unwrap();
    assert_eq!(sum.shape, vec![3, 3]);
    for i in 0..9 {
        assert_eq!(sum.data[i], a.data[i] + b.data[i]);
    }
}

#[test]
fn add_broadcasts_a_row_over_a_matrix() {
    let a = arr_from(vec![3, 3], (0..9).map(|i| i as f32).collect());
    let b = arr_from(vec![3], vec![100.0, 200.0, 300.0]);
    let sum = a.broadcast_op(&b, &|x: f32, y: f32| x + y).unwrap();
    assert_eq!(sum.shape, vec![3, 3]);
    for i in 0..9 {
        assert_eq!(sum.data[i], a.data[i] + b.data[i % 3]);
    }
}

#[test]
fn mul_incompatible_shapes_fails_and_leaves_operands_alone() {
    // mul of (2,3) and (4,5) fails with BroadcastIncompatible
    let a = arr_from(vec![2, 3], (0..6).map(|i| i as f32).collect());
    let b = arr_from(vec![4, 5], (0..20).map(|i| i as f32).collect());
    let a_data = a.data.clone();
    let b_data = b.data.clone();
    let r = a.broadcast_op(&b, &|x: f32, y: f32| x * y);
    assert_eq!(r.unwrap_err(), ArrayError::BroadcastIncompatible);
    assert_eq!(a.data, a_data);
    assert_eq!(b.data, b_data);
    assert_eq!(a.shape, vec![2, 3]);
    assert_eq!(b.shape, vec![4, 5]);
}

#[test]
fn elementwise_op_requires_identical_shapes() {
    let a = Array::new(&vec![2, 3], 1.0f32);
    let b = Array::new(&vec![3, 2], 1.0f32);
    let r = a.elementwise_op(&b, &|x: f32, y: f32| x + y);
    assert_eq!(r.unwrap_err(), ArrayError::ShapeMismatch);
}

#[test]
fn arrange_produces_the_arithmetic_range() {
    // arrange(0.0, 5.0, 1.0): length ceil((5-0)/1) = 5, data[i] = 0 + i*1
    let (start, end, step) = (0.0f32, 5.0f32, 1.0f32);
    let len = ((end - start) / step).ceil() as usize;
    assert_eq!(len, 5);
    let a = Array::arrange_with(len, |i: usize| start + (i as f32) * step).unwrap();
    assert_eq!(a.shape, vec![5]);
    assert_eq!(a.data, vec![0.0, 1.0, 2.0, 3.0, 4.0]);
}

#[test]
fn arrange_with_fractional_step_rounds_up() {
    let (start, end, step) = (1.0f32, 2.0f32, 0.4f32);
    let len = ((end - start) / step).ceil() as usize;
    assert_eq!(len, 3);
    let a = Array::arrange_with(len, |i: usize| start + (i as f32) * step).unwrap();
    assert_eq!(a.data.len(), 3);
    assert_eq!(a.data[0], 1.0);
}

#[test]
fn arrange_rejects_an_empty_range() {
    let r = Array::<f32>::arrange_with(0, |i: usize| i as f32);
    assert_eq!(r.unwrap_err(), ArrayError::InvalidRangeArguments);
}

#[test]
fn from_values_with_wrong_count_is_a_size_mismatch() {
    let mut a = Array::new(&vec![2, 2], 0.0f32);
    let before = a.data.clone();
    let r = a.from_values(&vec![1.0f32, 2.0, 3.0]);
    assert_eq!(r.unwrap_err(), ArrayError::SizeMismatch);
    assert_eq!(a.data, before);
}

#[test]
fn reshape_to_a_different_count_is_a_size_mismatch() {
    let mut a = arr_from(vec![2, 2], vec![1.0, 2.0, 3.0, 4.0]);
    let r = a.reshape(&vec![3, 1]);
    assert_eq!(r.unwrap_err(), ArrayError::SizeMismatch);
    assert_eq!(a.shape, vec![2, 2]);
    assert_eq!(a.data, vec![1.0, 2.0, 3.0, 4.0]);
}

#[test]
fn reshape_keeps_count_and_buffer_order() {
    let mut a = arr_from(vec![2, 3], (0..6).map(|i| i as f32).collect());
    a.reshape(&vec![3, 2]).unwrap();
    assert_eq!(a.shape, vec![3, 2]);
    assert_eq!(a.totalsize, 6);
    assert_eq!(a.strides, vec![2, 1]);
    assert_eq!(a.data, (0..6).map(|i| i as f32).collect::<Vec<f32>>());
}

#[test]
fn reshape_round_trip_restores_shape_and_data() {
    let original: Vec<f32> = (0..6).map(|i| i as f32).collect();
    let mut a = arr_from(vec![2, 3], original.clone());
    a.reshape(&vec![6]).unwrap();
    a.reshape(&vec![2, 3]).unwrap();
    assert_eq!(a.shape, vec![2, 3]);
    assert_eq!(a.data, original);
}

#[test]
fn transpose_without_axes_reverses_the_axis_order() {
    let a = Array::new(&vec![2, 3, 4], 0.0f32);
    let t = a.transpose(None).unwrap();
    assert_eq!(t.shape, vec![4, 3, 2]);
    assert_eq!(t.strides, vec![1, 4, 12]);
    assert_eq!(t.backstrides, vec![3, 8, 12]);
    assert!(!t.c_order);
    assert!(t.f_order);
}

#[test]
fn transpose_round_trip_restores_the_original() {
    let a = arr_from(vec![2, 3], (0..6).map(|i| i as f32).collect());
    let axes = vec![1, 0];
    let t = a.transpose(Some(&axes)).unwrap();
    assert_eq!(t.shape, vec![3, 2]);
    let back = t.transpose(Some(&axes)).unwrap();
    assert_eq!(back.shape, a.shape);
    assert_eq!(back.strides, a.strides);
    assert_eq!(back.data, a.data);
}

#[test]
fn transpose_of_one_dimension_is_a_plain_copy() {
    let a = arr_from(vec![4], vec![1.0, 2.0, 3.0, 4.0]);
    let t = a.transpose(None).unwrap();
    assert_eq!(t.shape, a.shape);
    assert_eq!(t.strides, a.strides);
    assert_eq!(t.data, a.data);
}

#[test]
fn transpose_rejects_non_permutations() {
    let a = Array::new(&vec![2, 3], 0.0f32);
    assert!(a.transpose(Some(&vec![0, 0])).is_none());
    assert!(a.transpose(Some(&vec![0, 2])).is_none());
    assert!(a.transpose(Some(&vec![0])).is_none());
}

#[test]
fn broadcast_repeats_the_buffer() {
    let a = arr_from(vec![3], vec![1.0, 2.0, 3.0]);
    let b = a.broadcast(&vec![3, 3]);
    assert_eq!(b.shape, vec![3, 3]);
    assert_eq!(b.data, vec![1.0, 2.0, 3.0, 1.0, 2.0, 3.0, 1.0, 2.0, 3.0]);
}

#[test]
fn broadcast_of_same_count_copies_verbatim() {
    let a = arr_from(vec![3], vec![1.0, 2.0, 3.0]);
    let b = a.broadcast(&vec![1, 3]);
    assert_eq!(b.shape, vec![1, 3]);
    assert_eq!(b.data, vec![1.0, 2.0, 3.0]);
}

#[test]
fn apply_inplace_maps_every_element() {
    let mut a = arr_from(vec![2, 2], vec![1.0, 2.0, 3.0, 4.0]);
    a.apply_inplace(&|x: f32| x * x);
    assert_eq!(a.data, vec![1.0, 4.0, 9.0, 16.0]);
    assert_eq!(a.shape, vec![2, 2]);
}

#[test]
fn fill_with_replaces_every_element() {
    let mut a = Array::new(&vec![2, 3], 0.0f32);
    a.fill_with(|| 7.5f32);
    assert_eq!(a.data, vec![7.5; 6]);
    assert_eq!(a.shape, vec![2, 3]);
    assert_eq!(a.strides, vec![3, 1]);
}

#[test]
fn check_shape_equal_compares_exactly() {
    let a = Array::new(&vec![2, 3], 0.0f32);
    let b = Array::new(&vec![2, 3], 1.0f32);
    let c = Array::new(&vec![3, 2], 0.0f32);
    let d = Array::new(&vec![2, 3, 1], 0.0f32);
    assert!(a.check_shape_equal(&b));
    assert!(!a.check_shape_equal(&c));
    assert!(!a.check_shape_equal(&d));
}

#[test]
fn traversal_of_a_fresh_array_is_in_buffer_order() {
    let a = Array::new(&vec![2, 3], 0.0f32);
    assert_eq!(a.traversal_indices(), vec![0, 1, 2, 3, 4, 5]);
}

#[test]
fn traversal_of_a_transposed_array_walks_columns() {
    let a = arr_from(vec![2, 3], (0..6).map(|i| i as f32).collect());
    let t = a.transpose(None).unwrap();
    // the transposed view walks the original buffer column by column
    assert_eq!(t.traversal_indices(), vec![0, 3, 1, 4, 2, 5]);
}

#[test]
fn single_element_arrays_broadcast_with_anything() {
    let a = arr_from(vec![1], vec![10.0]);
    let b = arr_from(vec![2, 2], vec![1.0, 2.0, 3.0, 4.0]);
    let sum = a.broadcast_op(&b, &|x: f32, y: f32| x + y).unwrap();
    assert_eq!(sum.shape, vec![2, 2]);
    assert_eq!(sum.data, vec![11.0, 12.0, 13.0, 14.0]);
}
