use ruzero::graph::to_vec;
use ruzero::shape::{
    all_axes, check_permutation, contains, count_elements, inverse_permutation,
    is_strictly_increasing, same_shape, sum_axes_to_desire,
};

#[test]
fn axes_to_sum_for_a_broadcast_value() {
    assert_eq!(sum_axes_to_desire(&[2, 3], &[3]), vec![0]);
    assert_eq!(sum_axes_to_desire(&[2, 3], &[1, 3]), vec![0]);
    assert_eq!(sum_axes_to_desire(&[2, 3], &[2, 1]), vec![1]);
    assert_eq!(sum_axes_to_desire(&[2, 3], &[2, 3]), Vec::<usize>::new());
    assert_eq!(sum_axes_to_desire(&[2, 3], &[]), vec![0, 1]);
    assert_eq!(sum_axes_to_desire(&[4, 2, 3], &[2, 1]), vec![0, 2]);
    assert_eq!(sum_axes_to_desire(&[3, 2, 3], &[3]), vec![0, 1]);
    assert_eq!(sum_axes_to_desire(&[5, 1, 4], &[1, 1]), vec![0, 2]);
    assert_eq!(sum_axes_to_desire(&[], &[]), Vec::<usize>::new());
    // A destination with more axes than the source: aligned at the last axes.
    assert_eq!(sum_axes_to_desire(&[3], &[2, 3]), Vec::<usize>::new());
    assert_eq!(sum_axes_to_desire(&[3], &[3, 2]), vec![0]);
    assert_eq!(sum_axes_to_desire(&[], &[2]), Vec::<usize>::new());
}

#[test]
fn permutations() {
    assert!(check_permutation(&[]));
    assert!(check_permutation(&[0]));
    assert!(check_permutation(&[1, 2, 0]));
    assert!(check_permutation(&[0, 3, 1, 2]));
    assert!(!check_permutation(&[1]));
    assert!(!check_permutation(&[0, 0]));
    assert!(!check_permutation(&[0, 2]));
    assert!(!check_permutation(&[1, 1, 2]));
    assert!(!check_permutation(&[usize::MAX, 0]));

    assert_eq!(inverse_permutation(&[1, 2, 0]), vec![2, 0, 1]);
    assert_eq!(inverse_permutation(&[0, 3, 1, 2]), vec![0, 2, 3, 1]);
    assert_eq!(inverse_permutation(&[0, 1]), vec![0, 1]);
    assert_eq!(inverse_permutation(&[]), Vec::<usize>::new());
    let axes = [3, 0, 2, 1];
    let inverse = inverse_permutation(&axes);
    for i in 0..axes.len() {
        assert_eq!(inverse[axes[i]], i);
        assert_eq!(axes[inverse[i]], i);
    }
}

#[test]
fn increasing_axes() {
    assert!(is_strictly_increasing(&[]));
    assert!(is_strictly_increasing(&[5]));
    assert!(is_strictly_increasing(&[0, 2, 3]));
    assert!(!is_strictly_increasing(&[0, 0]));
    assert!(!is_strictly_increasing(&[1, 0]));
    assert!(!is_strictly_increasing(&[0, 2, 1]));
    assert_eq!(all_axes(0), Vec::<usize>::new());
    assert_eq!(all_axes(3), vec![0, 1, 2]);
    assert!(is_strictly_increasing(&all_axes(4)));
}

#[test]
fn element_counts() {
    assert_eq!(count_elements(&[]), Some(1));
    assert_eq!(count_elements(&[2, 3]), Some(6));
    assert_eq!(count_elements(&[2, 0, 3]), Some(0));
    assert_eq!(count_elements(&[4, 5, 6]), Some(120));
    assert_eq!(count_elements(&[usize::MAX]), Some(usize::MAX));
    assert_eq!(count_elements(&[usize::MAX, 2]), None);
    assert_eq!(count_elements(&[usize::MAX, 2, 0]), Some(0));
    assert_eq!(count_elements(&[0, usize::MAX, 2]), Some(0));
    assert_eq!(count_elements(&[1 << 40, 1 << 40]), None);
}

#[test]
fn slices_of_handles() {
    assert!(same_shape(&[], &[]));
    assert!(same_shape(&[2, 3], &[2, 3]));
    assert!(!same_shape(&[2, 3], &[3, 2]));
    assert!(!same_shape(&[2, 3], &[2]));
    assert!(!same_shape(&[2], &[2, 3]));
    assert!(contains(&[1, 2, 3], 3));
    assert!(contains(&[1, 2, 3], 1));
    assert!(!contains(&[1, 2, 3], 4));
    assert!(!contains(&[], 0));
    assert_eq!(to_vec(&[4, 5, 6]), vec![4, 5, 6]);
    assert_eq!(to_vec(&[]), Vec::<usize>::new());
}
