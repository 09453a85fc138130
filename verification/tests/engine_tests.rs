use binah_core::cpu::ElementKernel;
use binah_core::op::Operation;
use binah_core::tensor::storage::TensorStorage;
use binah_core::{ExecutionError, Graph, GraphExecutable, GraphInner, Shape, StorageMap};

struct F32Kernel;

impl ElementKernel for F32Kernel {
    fn combine_spec(&self, op: Operation, a: u32, b: u32) -> u32 {
        // the mathematical reading coincides with the computation itself
        self.combine(op, a, b)
    }

    fn combine(&self, op: Operation, a: u32, b: u32) -> u32 {
        let x = f32::from_bits(a);
        let y = f32::from_bits(b);
        let r = match op {
            Operation::Add => x + y,
            Operation::Sub => x - y,
            Operation::Mul => x * y,
            Operation::Div => x / y,
            _ => panic!("leaf kind handed to the scalar kernel"),
        };
        r.to_bits()
    }
}

fn f32_storage(vals: &[f32], shape: &[usize]) -> TensorStorage {
    TensorStorage::F32 {
        data: vals.iter().map(|v| v.to_bits()).collect(),
        shape: shape.to_vec(),
    }
}

fn floats(st: &TensorStorage) -> Vec<f32> {
    match st {
        TensorStorage::F32 { data, .. } => data.iter().map(|b| f32::from_bits(*b)).collect(),
        _ => panic!("not a 32-bit floating-point storage"),
    }
}

#[test]
fn round_trip_add_two_constants() {
    let mut g = Graph::new();
    let a = g.constant_storage(f32_storage(&[1.0, 2.0], &[2]));
    let b = g.constant_storage(f32_storage(&[3.0, 4.0], &[2]));
    let t = g.binary_op(&a, &b, Operation::Add);
    let tid = t.node_id();
    let mut exe = g.compile(&vec![t]).unwrap();
    let out = exe.execute(&StorageMap::new(), &F32Kernel).unwrap();
    let st = out.get(tid).unwrap();
    assert_eq!(floats(st), vec![4.0, 6.0]);
    assert_eq!(st.shape(), &vec![2]);
}

#[test]
fn round_trip_broadcast_add() {
    let mut g = Graph::new();
    let a = g.constant_storage(f32_storage(&[1.0, 2.0, 3.0], &[3, 1]));
    let b = g.constant_storage(f32_storage(&[10.0, 20.0], &[2]));
    let t = g.binary_op(&a, &b, Operation::Add);
    let tid = t.node_id();
    assert_eq!(t.shape().dims(), &vec![3, 2]);
    let mut exe = g.compile(&vec![t]).unwrap();
    let out = exe.execute(&StorageMap::new(), &F32Kernel).unwrap();
    let st = out.get(tid).unwrap();
    assert_eq!(st.shape(), &vec![3, 2]);
    assert_eq!(floats(st), vec![11.0, 21.0, 12.0, 22.0, 13.0, 23.0]);
}

#[test]
fn round_trip_placeholder_binding() {
    let mut g = Graph::new();
    let ph = g.placeholder(Shape::new(vec![2]));
    let phid = ph.node_id();
    let c = g.constant_storage(f32_storage(&[1.0, 1.0], &[2]));
    let t = g.binary_op(&ph, &c, Operation::Add);
    let tid = t.node_id();
    let mut exe = g.compile(&vec![t]).unwrap();
    assert_eq!(exe.inputs(), &vec![phid]);
    // omitting the binding is a fault naming the placeholder node
    let missing = exe.execute(&StorageMap::new(), &F32Kernel).unwrap_err();
    assert_eq!(missing, ExecutionError::MissingInput(phid));
    // supplying it succeeds
    let mut inputs = StorageMap::new();
    inputs.insert(phid, f32_storage(&[5.0, 5.0], &[2]));
    let out = exe.execute(&inputs, &F32Kernel).unwrap();
    assert_eq!(floats(out.get(tid).unwrap()), vec![6.0, 6.0]);
}

#[test]
fn round_trip_division_by_zero_element() {
    let mut g = Graph::new();
    let a = g.constant_storage(f32_storage(&[1.0, 0.0], &[2]));
    let b = g.constant_storage(f32_storage(&[0.0, 0.0], &[2]));
    let t = g.binary_op(&a, &b, Operation::Div);
    let tid = t.node_id();
    let mut exe = g.compile(&vec![t]).unwrap();
    let out = exe.execute(&StorageMap::new(), &F32Kernel).unwrap();
    let vals = floats(out.get(tid).unwrap());
    assert!(vals[0].is_infinite() && vals[0] > 0.0);
    assert!(vals[1].is_nan());
}

#[test]
fn cyclic_graph_fails_compilation() {
    let inner = GraphInner {
        ops: vec![Operation::Add, Operation::Add],
        edges: vec![(0, 1), (1, 0)],
        tensor_map: StorageMap::new(),
    };
    let res = GraphExecutable::new(&inner, StorageMap::new(), &vec![]);
    assert_eq!(res.unwrap_err(), ExecutionError::CyclicGraph);
}

#[test]
fn self_loop_fails_compilation() {
    let inner = GraphInner {
        ops: vec![Operation::Mul],
        edges: vec![(0, 0)],
        tensor_map: StorageMap::new(),
    };
    let res = GraphExecutable::new(&inner, StorageMap::new(), &vec![]);
    assert_eq!(res.unwrap_err(), ExecutionError::CyclicGraph);
}

#[test]
fn empty_target_list_executes_whole_graph() {
    let mut g = Graph::new();
    let a = g.constant_storage(f32_storage(&[1.0], &[1]));
    let b = g.constant_storage(f32_storage(&[2.0], &[1]));
    let s = g.binary_op(&a, &b, Operation::Add);
    let lone = g.constant_storage(f32_storage(&[9.0], &[1]));
    let (aid, bid, sid, lid) = (a.node_id(), b.node_id(), s.node_id(), lone.node_id());
    let mut exe = g.compile(&vec![]).unwrap();
    // every sink appears among the outputs, non-sinks do not
    assert!(exe.outputs().contains(&sid));
    assert!(exe.outputs().contains(&lid));
    assert!(!exe.outputs().contains(&aid));
    assert!(!exe.outputs().contains(&bid));
    let out = exe.execute(&StorageMap::new(), &F32Kernel).unwrap();
    assert_eq!(floats(out.get(sid).unwrap()), vec![3.0]);
    assert_eq!(floats(out.get(lid).unwrap()), vec![9.0]);
}

#[test]
fn pruning_drops_nodes_outside_target_ancestry() {
    let mut g = Graph::new();
    let a = g.constant_storage(f32_storage(&[1.0], &[1]));
    let b = g.constant_storage(f32_storage(&[2.0], &[1]));
    let s = g.binary_op(&a, &b, Operation::Add);
    let unused = g.constant_storage(f32_storage(&[7.0], &[1]));
    let (sid, uid) = (s.node_id(), unused.node_id());
    let mut exe = g.compile(&vec![s]).unwrap();
    // the unused constant is absent from the compiled storage table,
    // the execution plan and the outputs
    assert!(exe.tensor_storage.get(uid).is_none());
    assert!(!exe.execution_plan.contains(&uid));
    assert_eq!(exe.outputs(), &vec![sid]);
    let out = exe.execute(&StorageMap::new(), &F32Kernel).unwrap();
    assert!(out.get(uid).is_none());
    assert_eq!(floats(out.get(sid).unwrap()), vec![3.0]);
}

#[test]
fn plan_is_topological_for_nested_expression() {
    // d = (a + b) * c must see the sum before the product
    let mut g = Graph::new();
    let a = g.constant_storage(f32_storage(&[1.0, 2.0], &[2]));
    let b = g.constant_storage(f32_storage(&[3.0, 4.0], &[2]));
    let c = g.constant_storage(f32_storage(&[2.0, 2.0], &[2]));
    let s = g.binary_op(&a, &b, Operation::Add);
    let d = g.binary_op(&s, &c, Operation::Mul);
    let (sid, did) = (s.node_id(), d.node_id());
    let mut exe = g.compile(&vec![d]).unwrap();
    let pos_s = exe.execution_plan.iter().position(|v| *v == sid).unwrap();
    let pos_d = exe.execution_plan.iter().position(|v| *v == did).unwrap();
    assert!(pos_s < pos_d);
    let out = exe.execute(&StorageMap::new(), &F32Kernel).unwrap();
    assert_eq!(floats(out.get(did).unwrap()), vec![8.0, 12.0]);
}

#[test]
fn non_commutative_operand_order_is_kept() {
    let mut g = Graph::new();
    let a = g.constant_storage(f32_storage(&[5.0, 3.0], &[2]));
    let b = g.constant_storage(f32_storage(&[2.0, 1.0], &[2]));
    let t = g.binary_op(&a, &b, Operation::Sub);
    let tid = t.node_id();
    let mut exe = g.compile(&vec![t]).unwrap();
    let out = exe.execute(&StorageMap::new(), &F32Kernel).unwrap();
    assert_eq!(floats(out.get(tid).unwrap()), vec![3.0, 2.0]);
}

#[test]
fn reexecution_with_same_inputs_is_idempotent() {
    let mut g = Graph::new();
    let ph = g.placeholder(Shape::new(vec![2]));
    let phid = ph.node_id();
    let c = g.constant_storage(f32_storage(&[10.0, 20.0], &[2]));
    let t = g.binary_op(&ph, &c, Operation::Mul);
    let tid = t.node_id();
    let mut exe = g.compile(&vec![t]).unwrap();
    let mut inputs = StorageMap::new();
    inputs.insert(phid, f32_storage(&[3.0, 4.0], &[2]));
    let out1 = exe.execute(&inputs, &F32Kernel).unwrap();
    let out2 = exe.execute(&inputs, &F32Kernel).unwrap();
    assert_eq!(floats(out1.get(tid).unwrap()), vec![30.0, 80.0]);
    assert_eq!(
        floats(out1.get(tid).unwrap()),
        floats(out2.get(tid).unwrap())
    );
    assert_eq!(
        out1.get(tid).unwrap().shape(),
        out2.get(tid).unwrap().shape()
    );
}

#[test]
fn binary_node_with_one_edge_is_invalid() {
    let mut store = StorageMap::new();
    store.insert(0, f32_storage(&[1.0], &[1]));
    let inner = GraphInner {
        ops: vec![Operation::Constant, Operation::Add],
        edges: vec![(0, 1)],
        tensor_map: StorageMap::new(),
    };
    let mut exe = GraphExecutable::new(&inner, store, &vec![]).unwrap();
    let res = exe.execute(&StorageMap::new(), &F32Kernel);
    assert_eq!(res.unwrap_err(), ExecutionError::InvalidOperation);
}

#[test]
fn unresolved_dependency_is_invalid() {
    let inner = GraphInner {
        ops: vec![Operation::Constant, Operation::Constant, Operation::Add],
        edges: vec![(0, 2), (1, 2)],
        tensor_map: StorageMap::new(),
    };
    // no storage was ever materialized for the two constants
    let mut exe = GraphExecutable::new(&inner, StorageMap::new(), &vec![]).unwrap();
    let res = exe.execute(&StorageMap::new(), &F32Kernel);
    assert_eq!(res.unwrap_err(), ExecutionError::InvalidOperation);
}

#[test]
fn incompatible_shapes_at_execution_are_invalid() {
    let mut store = StorageMap::new();
    store.insert(0, f32_storage(&[1.0, 2.0], &[2]));
    store.insert(1, f32_storage(&[1.0, 2.0, 3.0], &[3]));
    let inner = GraphInner {
        ops: vec![Operation::Constant, Operation::Constant, Operation::Add],
        edges: vec![(0, 2), (1, 2)],
        tensor_map: StorageMap::new(),
    };
    let mut exe = GraphExecutable::new(&inner, store, &vec![]).unwrap();
    let res = exe.execute(&StorageMap::new(), &F32Kernel);
    assert_eq!(res.unwrap_err(), ExecutionError::InvalidOperation);
}

#[test]
fn placeholder_that_is_its_own_target_is_input_and_output() {
    let mut g = Graph::new();
    let ph = g.placeholder(Shape::new(vec![1]));
    let phid = ph.node_id();
    let mut exe = g.compile(&vec![ph]).unwrap();
    assert_eq!(exe.inputs(), &vec![phid]);
    assert_eq!(exe.outputs(), &vec![phid]);
    let mut inputs = StorageMap::new();
    inputs.insert(phid, f32_storage(&[42.0], &[1]));
    let out = exe.execute(&inputs, &F32Kernel).unwrap();
    assert_eq!(floats(out.get(phid).unwrap()), vec![42.0]);
}

#[test]
fn graph_with_capacity_behaves_like_new() {
    let mut g = Graph::with_capacity(16);
    let a = g.constant_storage(f32_storage(&[2.0], &[1]));
    let b = g.constant_storage(f32_storage(&[8.0], &[1]));
    let t = g.binary_op(&a, &b, Operation::Div);
    let tid = t.node_id();
    let mut exe = g.compile(&vec![t]).unwrap();
    let out = exe.execute(&StorageMap::new(), &F32Kernel).unwrap();
    assert_eq!(floats(out.get(tid).unwrap()), vec![0.25]);
}

#[test]
fn storage_only_element_kinds_flow_through_unexecuted() {
    // integer constants have no kernel support, but as leaves they compile
    // and are handed back unchanged
    let mut g = Graph::new();
    let c = g.constant(vec![4i32, 5, 6], Shape::new(vec![3]));
    let cid = c.node_id();
    let mut exe = g.compile(&vec![c]).unwrap();
    let out = exe.execute(&StorageMap::new(), &F32Kernel).unwrap();
    match out.get(cid).unwrap() {
        TensorStorage::I32 { data, shape } => {
            assert_eq!(data, &vec![4, 5, 6]);
            assert_eq!(shape, &vec![3]);
        }
        _ => panic!("wrong storage variant"),
    }
}

#[test]
fn variable_behaves_as_constant() {
    let mut g = Graph::new();
    let v = g.variable(vec![2u8, 3], Shape::new(vec![2]));
    let vid = v.node_id();
    let mut exe = g.compile(&vec![v]).unwrap();
    assert_eq!(exe.inputs().len(), 0);
    let out = exe.execute(&StorageMap::new(), &F32Kernel).unwrap();
    match out.get(vid).unwrap() {
        TensorStorage::U8 { data, .. } => assert_eq!(data, &vec![2, 3]),
        _ => panic!("wrong storage variant"),
    }
}
