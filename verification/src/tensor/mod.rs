pub mod shape;
pub mod storage;

use vstd::prelude::*;
use crate::tensor::shape::{dims_wf, prod_of, Shape};
use crate::tensor::storage::{model_len, model_shape, IntoStorage, TensorStorage};

verus! {

/// A typed dense buffer paired with a shape, before it is packed into a
/// tagged storage value.
#[derive(Debug)]
pub struct Tensor<T> where T: IntoStorage {
    pub data: Vec<T>,
    pub shape: Shape,
}

impl<T> Tensor<T> where T: IntoStorage {
    /// An empty tensor that has room reserved for its shape's elements;
    /// the reservation is a performance hint only.
    pub fn with_capacity(shape: Shape) -> (r: Tensor<T>)
        requires
            dims_wf(shape@),
        ensures
            r.data@.len() == 0,
            r.shape@ == shape@,
    {
        let n = shape.num_elements();
        Tensor { data: Vec::with_capacity(n), shape }
    }

    pub fn zeros(shape: Shape) -> (r: Tensor<T>)
        requires
            dims_wf(shape@),
        ensures
            r.data@ == Seq::new(prod_of(shape@) as nat, |i: int| T::zero_spec()),
            r.shape@ == shape@,
    {
        let n = shape.num_elements();
        let mut data: Vec<T> = Vec::with_capacity(n);
        let mut i: usize = 0;
        while i < n
            invariant
                i <= n,
                data@.len() == i,
                forall|j: int| 0 <= j < i ==> data@[j] == T::zero_spec(),
            decreases n - i,
        {
            data.push(T::zero_value());
            i = i + 1;
        }
        proof {
            assert(data@ =~= Seq::new(prod_of(shape@) as nat, |i: int| T::zero_spec()));
        }
        Tensor { data, shape }
    }

    pub fn ones(shape: Shape) -> (r: Tensor<T>)
        requires
            dims_wf(shape@),
        ensures
            r.data@ == Seq::new(prod_of(shape@) as nat, |i: int| T::one_spec()),
            r.shape@ == shape@,
    {
        let n = shape.num_elements();
        let mut data: Vec<T> = Vec::with_capacity(n);
        let mut i: usize = 0;
        while i < n
            invariant
                i <= n,
                data@.len() == i,
                forall|j: int| 0 <= j < i ==> data@[j] == T::one_spec(),
            decreases n - i,
        {
            data.push(T::one_value());
            i = i + 1;
        }
        proof {
            assert(data@ =~= Seq::new(prod_of(shape@) as nat, |i: int| T::one_spec()));
        }
        Tensor { data, shape }
    }

    pub fn from_data(data: Vec<T>, shape: Shape) -> (r: Tensor<T>)
        ensures
            r.data@ == data@,
            r.shape@ == shape@,
    {
        Tensor { data, shape }
    }

    /// Pack the buffer into the tagged storage variant of its element type.
    pub fn into_storage(self) -> (r: TensorStorage)
        ensures
            T::models(r@, self.data@, self.shape@),
            model_shape(r@) == self.shape@,
            model_len(r@) == self.data@.len(),
    {
        T::into_storage(self.data, self.shape.into_dims())
    }
}

} // verus!
