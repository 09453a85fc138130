use binah_core::tensor::shape::BroadcastError;
use binah_core::Shape;

#[test]
fn num_elements_product() {
    assert_eq!(Shape::new(vec![2, 3, 4]).num_elements(), 24);
    assert_eq!(Shape::new(vec![7]).num_elements(), 7);
    assert_eq!(Shape::new(vec![]).num_elements(), 1);
    assert_eq!(Shape::new(vec![3, 0, 5]).num_elements(), 0);
}

#[test]
fn scalar_shapes() {
    assert!(Shape::new(vec![]).is_scalar());
    assert!(Shape::new(vec![1]).is_scalar());
    assert!(!Shape::new(vec![2]).is_scalar());
    assert!(!Shape::new(vec![1, 1]).is_scalar());
}

#[test]
fn contiguous_strides_row_major() {
    assert_eq!(Shape::new(vec![2, 3, 4]).contiguous_strides(), vec![12, 4, 1]);
    assert_eq!(Shape::new(vec![5]).contiguous_strides(), vec![1]);
    assert_eq!(Shape::new(vec![]).contiguous_strides(), Vec::<usize>::new());
}

#[test]
fn broadcast_equal_shapes() {
    let a = Shape::new(vec![2, 3]);
    let b = Shape::new(vec![2, 3]);
    assert!(a.can_broadcast_with(&b));
    assert_eq!(a.broadcast_with(&b).unwrap().dims(), &vec![2, 3]);
}

#[test]
fn broadcast_pads_left_with_ones() {
    let a = Shape::new(vec![3, 1]);
    let b = Shape::new(vec![2]);
    assert_eq!(a.broadcast_with(&b).unwrap().dims(), &vec![3, 2]);
}

#[test]
fn broadcast_with_scalar() {
    let a = Shape::new(vec![]);
    let b = Shape::new(vec![4, 2]);
    assert_eq!(a.broadcast_with(&b).unwrap().dims(), &vec![4, 2]);
}

#[test]
fn broadcast_commutes_on_examples() {
    let pairs: Vec<(Vec<usize>, Vec<usize>)> = vec![
        (vec![3, 1], vec![2]),
        (vec![1, 4], vec![5, 1]),
        (vec![2, 3], vec![2, 3]),
        (vec![], vec![7]),
        (vec![6, 1, 2], vec![1, 5, 2]),
    ];
    for (da, db) in pairs {
        let a = Shape::new(da);
        let b = Shape::new(db);
        assert_eq!(a.can_broadcast_with(&b), b.can_broadcast_with(&a));
        assert_eq!(
            a.broadcast_with(&b).unwrap().dims(),
            b.broadcast_with(&a).unwrap().dims()
        );
    }
}

#[test]
fn broadcast_incompatible_pairs_fail() {
    let a = Shape::new(vec![2]);
    let b = Shape::new(vec![3]);
    assert!(!a.can_broadcast_with(&b));
    assert_eq!(
        a.broadcast_with(&b).unwrap_err(),
        BroadcastError::IncompatibleShapes(2, 3)
    );
    let c = Shape::new(vec![4, 2]);
    let d = Shape::new(vec![3, 2]);
    assert!(c.broadcast_with(&d).is_err());
}

#[test]
fn broadcast_error_names_first_offending_pair_from_right() {
    // aligned from the right: (4,5) offends before (2,3) is reached
    let a = Shape::new(vec![2, 4]);
    let b = Shape::new(vec![3, 5]);
    assert_eq!(
        a.broadcast_with(&b).unwrap_err(),
        BroadcastError::IncompatibleShapes(4, 5)
    );
}

#[test]
fn broadcast_strides_zero_repeated_dims() {
    // a size-1 dimension broadcast against a larger target gets stride 0
    let src = Shape::new(vec![3, 1]);
    let tgt = Shape::new(vec![3, 2]);
    assert_eq!(src.compute_broadcast_strides(&tgt).unwrap(), vec![1, 0]);
}

#[test]
fn broadcast_strides_keep_contiguous_for_equal_dims() {
    let src = Shape::new(vec![3, 2]);
    let tgt = Shape::new(vec![3, 2]);
    assert_eq!(
        src.compute_broadcast_strides(&tgt).unwrap(),
        src.contiguous_strides()
    );
}

#[test]
fn broadcast_strides_missing_leading_dims_are_zero() {
    let src = Shape::new(vec![2]);
    let tgt = Shape::new(vec![3, 2]);
    assert_eq!(src.compute_broadcast_strides(&tgt).unwrap(), vec![0, 1]);
}

#[test]
fn broadcast_strides_incompatible_is_mismatch() {
    let src = Shape::new(vec![3]);
    let tgt = Shape::new(vec![4]);
    assert_eq!(
        src.compute_broadcast_strides(&tgt).unwrap_err(),
        BroadcastError::DimensionMismatch
    );
}

#[test]
fn shape_accessors() {
    let s = Shape::new(vec![4, 5]);
    assert_eq!(s.dims(), &vec![4, 5]);
    assert_eq!(s.clone().into_dims(), vec![4, 5]);
    assert_eq!(s, s.clone());
}
