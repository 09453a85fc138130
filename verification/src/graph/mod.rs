pub mod execute;
pub mod inner;
pub mod tensor;

pub use execute::{ExecutionError, GraphExecutable};
pub use inner::{GraphInner, StorageMap};
pub use tensor::GraphTensor;

use vstd::prelude::*;
use vstd::pervasive::unreached;
use crate::graph::execute::{acyclic, closed_under_deps, storage_ok};
use crate::op::{is_binary_op, Operation};
use crate::tensor::shape::{bcast_compat, bcast_dims, dims_wf, prod_of, Shape};
use crate::tensor::shape::clone_dims;
use crate::tensor::storage::{model_len, model_shape, model_wf, IntoStorage, StorageModel, TensorStorage};

verus! {

/// The front door: owns the graph intermediate representation and offers
/// the node-creation entry points and compilation. Node creation is cheap —
/// one appended node, at most two appended edges.
#[derive(Debug)]
pub struct Graph {
    pub inner: GraphInner,
}

impl Graph {
    pub fn new() -> (r: Graph)
        ensures
            r.inner.wf(),
            r.inner.ops@.len() == 0,
            r.inner.edges@.len() == 0,
            r.inner.tensor_map@ == Map::<int, StorageModel>::empty(),
    {
        Graph { inner: GraphInner::new() }
    }

    /// As `new`; the capacity is a pre-allocation hint only.
    pub fn with_capacity(capacity: usize) -> (r: Graph)
        ensures
            r.inner.wf(),
            r.inner.ops@.len() == 0,
            r.inner.edges@.len() == 0,
            r.inner.tensor_map@ == Map::<int, StorageModel>::empty(),
    {
        Graph { inner: GraphInner::with_capacity(capacity) }
    }

    /// Append a constant node and materialize its data at once. The data
    /// must hold exactly one element per position of the shape.
    pub fn constant<T: IntoStorage>(&mut self, data: Vec<T>, shape: Shape) -> (r: GraphTensor)
        requires
            old(self).inner.wf(),
            dims_wf(shape@),
            data@.len() == prod_of(shape@),
        ensures
            final(self).inner.wf(),
            r.node_id == old(self).inner.ops@.len(),
            r.shape@ == shape@,
            final(self).inner.ops@ == old(self).inner.ops@.push(Operation::Constant),
            final(self).inner.edges@ == old(self).inner.edges@,
            exists|m: StorageModel|
                #[trigger] T::models(m, data@, shape@) && model_shape(m) == shape@ && model_len(m)
                    == data@.len() && final(self).inner.tensor_map@
                    == old(self).inner.tensor_map@.insert(r.node_id as int, m),
    {
        self.node_with_data(data, shape, Operation::Constant)
    }

    /// Append a variable node; in this core a variable behaves as a
    /// constant, the distinct kind being reserved for future mutability.
    pub fn variable<T: IntoStorage>(&mut self, data: Vec<T>, shape: Shape) -> (r: GraphTensor)
        requires
            old(self).inner.wf(),
            dims_wf(shape@),
            data@.len() == prod_of(shape@),
        ensures
            final(self).inner.wf(),
            r.node_id == old(self).inner.ops@.len(),
            r.shape@ == shape@,
            final(self).inner.ops@ == old(self).inner.ops@.push(Operation::Variable),
            final(self).inner.edges@ == old(self).inner.edges@,
            exists|m: StorageModel|
                #[trigger] T::models(m, data@, shape@) && model_shape(m) == shape@ && model_len(m)
                    == data@.len() && final(self).inner.tensor_map@
                    == old(self).inner.tensor_map@.insert(r.node_id as int, m),
    {
        self.node_with_data(data, shape, Operation::Variable)
    }

    fn node_with_data<T: IntoStorage>(&mut self, data: Vec<T>, shape: Shape, op: Operation) -> (r:
        GraphTensor)
        requires
            old(self).inner.wf(),
            dims_wf(shape@),
            data@.len() == prod_of(shape@),
        ensures
            final(self).inner.wf(),
            r.node_id == old(self).inner.ops@.len(),
            r.shape@ == shape@,
            final(self).inner.ops@ == old(self).inner.ops@.push(op),
            final(self).inner.edges@ == old(self).inner.edges@,
            exists|m: StorageModel|
                #[trigger] T::models(m, data@, shape@) && model_shape(m) == shape@ && model_len(m)
                    == data@.len() && final(self).inner.tensor_map@
                    == old(self).inner.tensor_map@.insert(r.node_id as int, m),
    {
        let node_id = self.inner.add_op(op);
        let tensor = crate::tensor::Tensor::from_data(data, shape.clone());
        let storage = tensor.into_storage();
        self.inner.add_storage(node_id, storage);
        GraphTensor::new(node_id, shape)
    }

    /// Append a placeholder node: it carries a shape but no data; a value
    /// must be supplied at execution time.
    pub fn placeholder(&mut self, shape: Shape) -> (r: GraphTensor)
        requires
            old(self).inner.wf(),
        ensures
            final(self).inner.wf(),
            r.node_id == old(self).inner.ops@.len(),
            r.shape@ == shape@,
            final(self).inner.ops@ == old(self).inner.ops@.push(Operation::Placeholder),
            final(self).inner.edges@ == old(self).inner.edges@,
            final(self).inner.tensor_map@ == old(self).inner.tensor_map@,
    {
        let node_id = self.inner.add_op(Operation::Placeholder);
        GraphTensor::new(node_id, shape)
    }

    /// Append a constant node from an already-packed storage value, under
    /// the shape the storage carries. This is the entry point for element
    /// kinds that only exist in packed form, such as the floating-point
    /// variants holding raw bit patterns.
    pub fn constant_storage(&mut self, storage: TensorStorage) -> (r: GraphTensor)
        requires
            old(self).inner.wf(),
            model_wf(storage@),
        ensures
            final(self).inner.wf(),
            r.node_id == old(self).inner.ops@.len(),
            r.shape@ == model_shape(storage@),
            final(self).inner.ops@ == old(self).inner.ops@.push(Operation::Constant),
            final(self).inner.edges@ == old(self).inner.edges@,
            final(self).inner.tensor_map@ == old(self).inner.tensor_map@.insert(
                r.node_id as int,
                storage@,
            ),
    {
        let shape = Shape::new(clone_dims(storage.shape()));
        let node_id = self.inner.add_op(Operation::Constant);
        self.inner.add_storage(node_id, storage);
        GraphTensor::new(node_id, shape)
    }

    /// Append a binary arithmetic node over two handles of this graph. The
    /// handles' shapes must be broadcast-compatible; the result handle
    /// carries their broadcast shape.
    pub fn binary_op(&mut self, lhs: &GraphTensor, rhs: &GraphTensor, op: Operation) -> (r:
        GraphTensor)
        requires
            old(self).inner.wf(),
            is_binary_op(op),
            lhs.node_id < old(self).inner.ops@.len(),
            rhs.node_id < old(self).inner.ops@.len(),
            bcast_compat(lhs.shape@, rhs.shape@),
        ensures
            final(self).inner.wf(),
            r.node_id == old(self).inner.ops@.len(),
            r.shape@ == bcast_dims(lhs.shape@, rhs.shape@),
            final(self).inner.ops@ == old(self).inner.ops@.push(op),
            final(self).inner.edges@ == old(self).inner.edges@.push(
                (lhs.node_id, r.node_id),
            ).push((rhs.node_id, r.node_id)),
            final(self).inner.tensor_map@ == old(self).inner.tensor_map@,
    {
        let result_shape = match lhs.shape.broadcast_with(&rhs.shape) {
            Ok(s) => s,
            Err(_) => unreached(),
        };
        let node_id = self.inner.add_binary_op(lhs.node_id, rhs.node_id, op);
        GraphTensor::new(node_id, result_shape)
    }

    /// Compile the graph for the given targets; see `GraphExecutable::new`.
    /// The graph itself is left as it stands — the executable works on a
    /// snapshot.
    pub fn compile(&self, target_tensors: &Vec<GraphTensor>) -> (res: Result<
        GraphExecutable,
        ExecutionError,
    >)
        requires
            self.inner.wf(),
            forall|t: int|
                0 <= t < target_tensors@.len() ==> (#[trigger] target_tensors@[t]).node_id
                    < self.inner.ops@.len(),
        ensures
            res is Ok <==> acyclic(self.inner.edges@),
            res matches Err(e) ==> e == ExecutionError::CyclicGraph,
            res matches Ok(exe) ==> {
                &&& exe.wf()
                &&& exe.ops@ == self.inner.ops@
                &&& exe.edges@ == self.inner.edges@
                &&& target_tensors@.len() == 0 ==> exe.req() == Set::new(
                    |v: int| 0 <= v < self.inner.ops@.len(),
                )
                &&& forall|t: int|
                    0 <= t < target_tensors@.len() ==> exe.req().contains(
                        (#[trigger] target_tensors@[t]).node_id as int,
                    )
                &&& closed_under_deps(self.inner.edges@, exe.req())
                &&& target_tensors@.len() > 0 ==> (forall|s: Set<int>|
                    ((forall|t: int|
                        0 <= t < target_tensors@.len() ==> s.contains(
                            (#[trigger] target_tensors@[t]).node_id as int,
                        )) && #[trigger] closed_under_deps(self.inner.edges@, s))
                        ==> exe.req().subset_of(s))
                &&& forall|v: int|
                    #[trigger] exe.tensor_storage@.dom().contains(v)
                        ==> self.inner.tensor_map@.dom().contains(v) && exe.req().contains(v)
                        && exe.tensor_storage@[v] == self.inner.tensor_map@[v]
                &&& forall|v: int|
                    #[trigger] self.inner.tensor_map@.dom().contains(v) && exe.req().contains(v)
                        ==> exe.tensor_storage@.dom().contains(v)
            },
    {
        proof {
            assert(storage_ok(self.inner.tensor_map@, self.inner.ops@.len() as int));
        }
        GraphExecutable::new(&self.inner, self.inner.tensor_map.clone(), target_tensors)
    }
}

} // verus!
