use binah_core::graph::StorageMap;
use binah_core::tensor::storage::{IntoStorage, TensorStorage};
use binah_core::tensor::Tensor;
use binah_core::Shape;

#[test]
fn tensor_zeros_and_ones() {
    let z: Tensor<i32> = Tensor::zeros(Shape::new(vec![2, 2]));
    assert_eq!(z.data, vec![0, 0, 0, 0]);
    assert_eq!(z.shape.dims(), &vec![2, 2]);
    let o: Tensor<u8> = Tensor::ones(Shape::new(vec![3]));
    assert_eq!(o.data, vec![1, 1, 1]);
}

#[test]
fn tensor_with_capacity_is_empty() {
    let t: Tensor<i64> = Tensor::with_capacity(Shape::new(vec![4]));
    assert_eq!(t.data.len(), 0);
    assert_eq!(t.shape.dims(), &vec![4]);
}

#[test]
fn tensor_from_data_into_storage() {
    let t = Tensor::from_data(vec![1i32, 2, 3], Shape::new(vec![3]));
    match t.into_storage() {
        TensorStorage::I32 { data, shape } => {
            assert_eq!(data, vec![1, 2, 3]);
            assert_eq!(shape, vec![3]);
        }
        _ => panic!("wrong storage variant"),
    }
}

#[test]
fn into_storage_picks_matching_variant() {
    match bool::into_storage(vec![true, false], vec![2]) {
        TensorStorage::Bool { data, .. } => assert_eq!(data, vec![true, false]),
        _ => panic!("wrong storage variant"),
    }
    match u64::into_storage(vec![7, 8], vec![2]) {
        TensorStorage::U64 { data, .. } => assert_eq!(data, vec![7, 8]),
        _ => panic!("wrong storage variant"),
    }
    match i128::into_storage(vec![-1], vec![1]) {
        TensorStorage::I128 { data, .. } => assert_eq!(data, vec![-1]),
        _ => panic!("wrong storage variant"),
    }
}

#[test]
fn storage_shape_accessor() {
    let st = TensorStorage::U16 {
        data: vec![1, 2, 3, 4, 5, 6],
        shape: vec![2, 3],
    };
    assert_eq!(st.shape(), &vec![2, 3]);
}

#[test]
fn storage_clone_is_deep() {
    let st = TensorStorage::I8 {
        data: vec![1, 2],
        shape: vec![2],
    };
    let cl = st.clone();
    match (st, cl) {
        (
            TensorStorage::I8 { data: d1, shape: s1 },
            TensorStorage::I8 { data: d2, shape: s2 },
        ) => {
            assert_eq!(d1, d2);
            assert_eq!(s1, s2);
        }
        _ => panic!("clone changed the variant"),
    }
}

#[test]
fn storage_map_insert_and_get() {
    let mut m = StorageMap::new();
    assert!(m.get(0).is_none());
    m.insert(
        3,
        TensorStorage::U8 {
            data: vec![1],
            shape: vec![1],
        },
    );
    assert!(m.get(0).is_none());
    assert!(m.get(2).is_none());
    match m.get(3).unwrap() {
        TensorStorage::U8 { data, .. } => assert_eq!(data, &vec![1]),
        _ => panic!("wrong storage variant"),
    }
    // replacing a binding keeps the newest value
    m.insert(
        3,
        TensorStorage::U8 {
            data: vec![9],
            shape: vec![1],
        },
    );
    match m.get(3).unwrap() {
        TensorStorage::U8 { data, .. } => assert_eq!(data, &vec![9]),
        _ => panic!("wrong storage variant"),
    }
}
