use binah_core::cpu::{compute_index, cpu_add, cpu_div, cpu_mul, cpu_sub, ElementKernel, WrappingKernel};
use binah_core::op::Operation;
use binah_core::tensor::storage::TensorStorage;
use binah_core::Shape;

struct F32Kernel;

impl ElementKernel for F32Kernel {
    fn combine_spec(&self, op: Operation, a: u32, b: u32) -> u32 {
        // the mathematical reading coincides with the computation itself
        self.combine(op, a, b)
    }

    fn combine(&self, op: Operation, a: u32, b: u32) -> u32 {
        let x = f32::from_bits(a);
        let y = f32::from_bits(b);
        let r = match op {
            Operation::Add => x + y,
            Operation::Sub => x - y,
            Operation::Mul => x * y,
            Operation::Div => x / y,
            _ => panic!("leaf kind handed to the scalar kernel"),
        };
        r.to_bits()
    }
}

fn f32_storage(vals: &[f32], shape: &[usize]) -> TensorStorage {
    TensorStorage::F32 {
        data: vals.iter().map(|v| v.to_bits()).collect(),
        shape: shape.to_vec(),
    }
}

fn floats(st: &TensorStorage) -> Vec<f32> {
    match st {
        TensorStorage::F32 { data, .. } => data.iter().map(|b| f32::from_bits(*b)).collect(),
        _ => panic!("not a 32-bit floating-point storage"),
    }
}

#[test]
fn compute_index_identity_strides() {
    // shape [2,2], contiguous strides [2,1]: the offset is the index itself
    assert_eq!(compute_index(3, &vec![2, 1], &vec![2, 2]), 3);
    assert_eq!(compute_index(2, &vec![2, 1], &vec![2, 2]), 2);
}

#[test]
fn compute_index_zero_strides_repeat() {
    // shape [3,2] read through strides [0,1]: only the column survives
    assert_eq!(compute_index(4, &vec![0, 1], &vec![3, 2]), 0);
    assert_eq!(compute_index(5, &vec![0, 1], &vec![3, 2]), 1);
    // strides [1,0]: only the row survives
    assert_eq!(compute_index(5, &vec![1, 0], &vec![3, 2]), 2);
}

#[test]
fn cpu_add_same_shape() {
    let lhs = f32_storage(&[1.0, 2.0], &[2]);
    let rhs = f32_storage(&[3.0, 4.0], &[2]);
    let out = cpu_add(&F32Kernel, &lhs, &rhs, &Shape::new(vec![2]));
    assert_eq!(floats(&out), vec![4.0, 6.0]);
    assert_eq!(out.shape(), &vec![2]);
}

#[test]
fn cpu_sub_keeps_operand_order() {
    let lhs = f32_storage(&[5.0, 3.0], &[2]);
    let rhs = f32_storage(&[2.0, 1.0], &[2]);
    let out = cpu_sub(&F32Kernel, &lhs, &rhs, &Shape::new(vec![2]));
    assert_eq!(floats(&out), vec![3.0, 2.0]);
}

#[test]
fn cpu_mul_broadcast_scalar() {
    let lhs = f32_storage(&[2.0, 3.0], &[2]);
    let rhs = f32_storage(&[10.0], &[1]);
    let out = cpu_mul(&F32Kernel, &lhs, &rhs, &Shape::new(vec![2]));
    assert_eq!(floats(&out), vec![20.0, 30.0]);
}

#[test]
fn cpu_add_broadcast_matrix() {
    // [3,1] against [2] broadcasts to [3,2]
    let lhs = f32_storage(&[1.0, 2.0, 3.0], &[3, 1]);
    let rhs = f32_storage(&[10.0, 20.0], &[2]);
    let out = cpu_add(&F32Kernel, &lhs, &rhs, &Shape::new(vec![3, 2]));
    assert_eq!(floats(&out), vec![11.0, 21.0, 12.0, 22.0, 13.0, 23.0]);
    assert_eq!(out.shape(), &vec![3, 2]);
}

#[test]
fn cpu_div_by_zero_is_not_a_fault() {
    let lhs = f32_storage(&[1.0, -1.0, 0.0], &[3]);
    let rhs = f32_storage(&[0.0, 0.0, 0.0], &[3]);
    let out = cpu_div(&F32Kernel, &lhs, &rhs, &Shape::new(vec![3]));
    let vals = floats(&out);
    assert!(vals[0].is_infinite() && vals[0] > 0.0);
    assert!(vals[1].is_infinite() && vals[1] < 0.0);
    assert!(vals[2].is_nan());
}

#[test]
fn wrapping_kernel_exact_semantics() {
    let k = WrappingKernel;
    assert_eq!(k.combine(Operation::Add, u32::MAX, 1), 0);
    assert_eq!(k.combine(Operation::Sub, 0, 1), u32::MAX);
    assert_eq!(k.combine(Operation::Mul, 1 << 16, 1 << 16), 0);
    assert_eq!(k.combine(Operation::Div, 9, 2), 4);
    assert_eq!(k.combine(Operation::Div, 9, 0), 0);
}

#[test]
fn cpu_add_with_wrapping_kernel() {
    let lhs = TensorStorage::F32 { data: vec![1, 2, 3], shape: vec![3, 1] };
    let rhs = TensorStorage::F32 { data: vec![10, 20], shape: vec![2] };
    let out = cpu_add(&WrappingKernel, &lhs, &rhs, &Shape::new(vec![3, 2]));
    match out {
        TensorStorage::F32 { data, shape } => {
            assert_eq!(data, vec![11, 21, 12, 22, 13, 23]);
            assert_eq!(shape, vec![3, 2]);
        }
        _ => panic!("wrong storage variant"),
    }
}
