use vstd::prelude::*;
use crate::tensor::shape::Shape;

verus! {

/// A lightweight handle bound to one graph node: the node's identifier and
/// the shape its value will have. Handles carry no ownership of the graph;
/// relating a handle to the graph that produced it is the caller's duty.
#[derive(Debug)]
pub struct GraphTensor {
    pub node_id: usize,
    pub shape: Shape,
}

impl GraphTensor {
    pub fn new(node_id: usize, shape: Shape) -> (r: GraphTensor)
        ensures
            r.node_id == node_id,
            r.shape@ == shape@,
    {
        GraphTensor { node_id, shape }
    }

    pub fn node_id(&self) -> (r: usize)
        ensures
            r == self.node_id,
    {
        self.node_id
    }

    pub fn shape(&self) -> (r: Shape)
        ensures
            r@ == self.shape@,
    {
        self.shape.clone()
    }
}

} // verus!
