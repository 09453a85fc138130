use vstd::prelude::*;
use crate::tensor::shape::{dims_wf, prod_of};

verus! {

/// Ghost image of a storage value: the same tagged union read as
/// mathematical sequences. The two floating-point variants carry raw
/// IEEE-754 bit patterns; their numeric reading belongs to the element
/// kernel a caller supplies, not to this crate.
#[verifier::ext_equal]
pub enum StorageModel {
    Bool { data: Seq<bool>, shape: Seq<usize> },
    U8 { data: Seq<u8>, shape: Seq<usize> },
    U16 { data: Seq<u16>, shape: Seq<usize> },
    U32 { data: Seq<u32>, shape: Seq<usize> },
    U64 { data: Seq<u64>, shape: Seq<usize> },
    U128 { data: Seq<u128>, shape: Seq<usize> },
    I8 { data: Seq<i8>, shape: Seq<usize> },
    I16 { data: Seq<i16>, shape: Seq<usize> },
    I32 { data: Seq<i32>, shape: Seq<usize> },
    I64 { data: Seq<i64>, shape: Seq<usize> },
    I128 { data: Seq<i128>, shape: Seq<usize> },
    F32 { data: Seq<u32>, shape: Seq<usize> },
    F64 { data: Seq<u64>, shape: Seq<usize> },
}

/// A dense row-major buffer tagged by element kind, carrying its own shape.
/// The 32- and 64-bit floating-point variants hold each element as its raw
/// IEEE-754 bit pattern; only the 32-bit floating-point variant has kernel
/// support in this core, the other variants are storage-only.
#[derive(Debug)]
pub enum TensorStorage {
    Bool { data: Vec<bool>, shape: Vec<usize> },
    U8 { data: Vec<u8>, shape: Vec<usize> },
    U16 { data: Vec<u16>, shape: Vec<usize> },
    U32 { data: Vec<u32>, shape: Vec<usize> },
    U64 { data: Vec<u64>, shape: Vec<usize> },
    U128 { data: Vec<u128>, shape: Vec<usize> },
    I8 { data: Vec<i8>, shape: Vec<usize> },
    I16 { data: Vec<i16>, shape: Vec<usize> },
    I32 { data: Vec<i32>, shape: Vec<usize> },
    I64 { data: Vec<i64>, shape: Vec<usize> },
    I128 { data: Vec<i128>, shape: Vec<usize> },
    F32 { data: Vec<u32>, shape: Vec<usize> },
    F64 { data: Vec<u64>, shape: Vec<usize> },
}

impl View for TensorStorage {
    type V = StorageModel;

    open spec fn view(&self) -> StorageModel {
        match self {
            TensorStorage::Bool { data, shape } => StorageModel::Bool { data: data@, shape: shape@ },
            TensorStorage::U8 { data, shape } => StorageModel::U8 { data: data@, shape: shape@ },
            TensorStorage::U16 { data, shape } => StorageModel::U16 { data: data@, shape: shape@ },
            TensorStorage::U32 { data, shape } => StorageModel::U32 { data: data@, shape: shape@ },
            TensorStorage::U64 { data, shape } => StorageModel::U64 { data: data@, shape: shape@ },
            TensorStorage::U128 { data, shape } => StorageModel::U128 { data: data@, shape: shape@ },
            TensorStorage::I8 { data, shape } => StorageModel::I8 { data: data@, shape: shape@ },
            TensorStorage::I16 { data, shape } => StorageModel::I16 { data: data@, shape: shape@ },
            TensorStorage::I32 { data, shape } => StorageModel::I32 { data: data@, shape: shape@ },
            TensorStorage::I64 { data, shape } => StorageModel::I64 { data: data@, shape: shape@ },
            TensorStorage::I128 { data, shape } => StorageModel::I128 { data: data@, shape: shape@ },
            TensorStorage::F32 { data, shape } => StorageModel::F32 { data: data@, shape: shape@ },
            TensorStorage::F64 { data, shape } => StorageModel::F64 { data: data@, shape: shape@ },
        }
    }
}

/// The shape a storage value carries, whatever its element kind.
pub open spec fn model_shape(m: StorageModel) -> Seq<usize> {
    match m {
        StorageModel::Bool { shape, .. } => shape,
        StorageModel::U8 { shape, .. } => shape,
        StorageModel::U16 { shape, .. } => shape,
        StorageModel::U32 { shape, .. } => shape,
        StorageModel::U64 { shape, .. } => shape,
        StorageModel::U128 { shape, .. } => shape,
        StorageModel::I8 { shape, .. } => shape,
        StorageModel::I16 { shape, .. } => shape,
        StorageModel::I32 { shape, .. } => shape,
        StorageModel::I64 { shape, .. } => shape,
        StorageModel::I128 { shape, .. } => shape,
        StorageModel::F32 { shape, .. } => shape,
        StorageModel::F64 { shape, .. } => shape,
    }
}

/// The number of elements the buffer of a storage value holds.
pub open spec fn model_len(m: StorageModel) -> nat {
    match m {
        StorageModel::Bool { data, .. } => data.len(),
        StorageModel::U8 { data, .. } => data.len(),
        StorageModel::U16 { data, .. } => data.len(),
        StorageModel::U32 { data, .. } => data.len(),
        StorageModel::U64 { data, .. } => data.len(),
        StorageModel::U128 { data, .. } => data.len(),
        StorageModel::I8 { data, .. } => data.len(),
        StorageModel::I16 { data, .. } => data.len(),
        StorageModel::I32 { data, .. } => data.len(),
        StorageModel::I64 { data, .. } => data.len(),
        StorageModel::I128 { data, .. } => data.len(),
        StorageModel::F32 { data, .. } => data.len(),
        StorageModel::F64 { data, .. } => data.len(),
    }
}

/// The bit-pattern buffer of a 32-bit floating-point storage value.
pub open spec fn model_f32_data(m: StorageModel) -> Seq<u32> {
    m->F32_data
}

/// The storage invariant: the buffer holds exactly one element per position
/// of the shape, and the shape's suffix products fit the machine.
pub open spec fn model_wf(m: StorageModel) -> bool {
    &&& model_len(m) == prod_of(model_shape(m))
    &&& dims_wf(model_shape(m))
}

impl TensorStorage {
    pub fn shape(&self) -> (r: &Vec<usize>)
        ensures
            r@ == model_shape(self@),
    {
        match self {
            TensorStorage::Bool { shape, .. } => shape,
            TensorStorage::U8 { shape, .. } => shape,
            TensorStorage::U16 { shape, .. } => shape,
            TensorStorage::U32 { shape, .. } => shape,
            TensorStorage::U64 { shape, .. } => shape,
            TensorStorage::U128 { shape, .. } => shape,
            TensorStorage::I8 { shape, .. } => shape,
            TensorStorage::I16 { shape, .. } => shape,
            TensorStorage::I32 { shape, .. } => shape,
            TensorStorage::I64 { shape, .. } => shape,
            TensorStorage::I128 { shape, .. } => shape,
            TensorStorage::F32 { shape, .. } => shape,
            TensorStorage::F64 { shape, .. } => shape,
        }
    }
}

pub(crate) fn clone_vec_copy<T: Copy>(v: &Vec<T>) -> (r: Vec<T>)
    ensures
        r@ == v@,
{
    let mut r: Vec<T> = Vec::new();
    let mut i: usize = 0;
    while i < v.len()
        invariant
            i <= v@.len(),
            r@ == v@.take(i as int),
        decreases v@.len() - i,
    {
        r.push(v[i]);
        assert(r@ =~= v@.take(i + 1));
        i = i + 1;
    }
    assert(r@ =~= v@);
    r
}

impl Clone for TensorStorage {
    /// A deep copy holding the same model.
    fn clone(&self) -> (r: TensorStorage)
        ensures
            r@ == self@,
    {
        match self {
            TensorStorage::Bool { data, shape } => TensorStorage::Bool {
                data: clone_vec_copy(data),
                shape: clone_vec_copy(shape),
            },
            TensorStorage::U8 { data, shape } => TensorStorage::U8 {
                data: clone_vec_copy(data),
                shape: clone_vec_copy(shape),
            },
            TensorStorage::U16 { data, shape } => TensorStorage::U16 {
                data: clone_vec_copy(data),
                shape: clone_vec_copy(shape),
            },
            TensorStorage::U32 { data, shape } => TensorStorage::U32 {
                data: clone_vec_copy(data),
                shape: clone_vec_copy(shape),
            },
            TensorStorage::U64 { data, shape } => TensorStorage::U64 {
                data: clone_vec_copy(data),
                shape: clone_vec_copy(shape),
            },
            TensorStorage::U128 { data, shape } => TensorStorage::U128 {
                data: clone_vec_copy(data),
                shape: clone_vec_copy(shape),
            },
            TensorStorage::I8 { data, shape } => TensorStorage::I8 {
                data: clone_vec_copy(data),
                shape: clone_vec_copy(shape),
            },
            TensorStorage::I16 { data, shape } => TensorStorage::I16 {
                data: clone_vec_copy(data),
                shape: clone_vec_copy(shape),
            },
            TensorStorage::I32 { data, shape } => TensorStorage::I32 {
                data: clone_vec_copy(data),
                shape: clone_vec_copy(shape),
            },
            TensorStorage::I64 { data, shape } => TensorStorage::I64 {
                data: clone_vec_copy(data),
                shape: clone_vec_copy(shape),
            },
            TensorStorage::I128 { data, shape } => TensorStorage::I128 {
                data: clone_vec_copy(data),
                shape: clone_vec_copy(shape),
            },
            TensorStorage::F32 { data, shape } => TensorStorage::F32 {
                data: clone_vec_copy(data),
                shape: clone_vec_copy(shape),
            },
            TensorStorage::F64 { data, shape } => TensorStorage::F64 {
                data: clone_vec_copy(data),
                shape: clone_vec_copy(shape),
            },
        }
    }
}

/// An element type that can be packed into a tagged storage buffer.
/// `models` says which storage variant a packing lands in; the zero and one
/// values serve the tensor convenience constructors.
pub trait IntoStorage: Sized {
    spec fn models(m: StorageModel, data: Seq<Self>, shape: Seq<usize>) -> bool;

    spec fn zero_spec() -> Self;

    spec fn one_spec() -> Self;

    fn into_storage(data: Vec<Self>, shape: Vec<usize>) -> (r: TensorStorage)
        ensures
            Self::models(r@, data@, shape@),
            model_shape(r@) == shape@,
            model_len(r@) == data@.len(),
    ;

    fn zero_value() -> (r: Self)
        ensures
            r == Self::zero_spec(),
    ;

    fn one_value() -> (r: Self)
        ensures
            r == Self::one_spec(),
    ;
}

impl IntoStorage for bool {
    open spec fn models(m: StorageModel, data: Seq<bool>, shape: Seq<usize>) -> bool {
        m == (StorageModel::Bool { data, shape })
    }

    fn into_storage(data: Vec<bool>, shape: Vec<usize>) -> (r: TensorStorage)
    {
        TensorStorage::Bool { data, shape }
    }

    open spec fn zero_spec() -> bool {
        false
    }

    open spec fn one_spec() -> bool {
        true
    }

    fn zero_value() -> bool {
        false
    }

    fn one_value() -> bool {
        true
    }
}

impl IntoStorage for u8 {
    open spec fn models(m: StorageModel, data: Seq<u8>, shape: Seq<usize>) -> bool {
        m == (StorageModel::U8 { data, shape })
    }

    fn into_storage(data: Vec<u8>, shape: Vec<usize>) -> (r: TensorStorage)
    {
        TensorStorage::U8 { data, shape }
    }

    open spec fn zero_spec() -> u8 {
        0
    }

    open spec fn one_spec() -> u8 {
        1
    }

    fn zero_value() -> u8 {
        0
    }

    fn one_value() -> u8 {
        1
    }
}

impl IntoStorage for u16 {
    open spec fn models(m: StorageModel, data: Seq<u16>, shape: Seq<usize>) -> bool {
        m == (StorageModel::U16 { data, shape })
    }

    fn into_storage(data: Vec<u16>, shape: Vec<usize>) -> (r: TensorStorage)
    {
        TensorStorage::U16 { data, shape }
    }

    open spec fn zero_spec() -> u16 {
        0
    }

    open spec fn one_spec() -> u16 {
        1
    }

    fn zero_value() -> u16 {
        0
    }

    fn one_value() -> u16 {
        1
    }
}

impl IntoStorage for u32 {
    open spec fn models(m: StorageModel, data: Seq<u32>, shape: Seq<usize>) -> bool {
        m == (StorageModel::U32 { data, shape })
    }

    fn into_storage(data: Vec<u32>, shape: Vec<usize>) -> (r: TensorStorage)
    {
        TensorStorage::U32 { data, shape }
    }

    open spec fn zero_spec() -> u32 {
        0
    }

    open spec fn one_spec() -> u32 {
        1
    }

    fn zero_value() -> u32 {
        0
    }

    fn one_value() -> u32 {
        1
    }
}

impl IntoStorage for u64 {
    open spec fn models(m: StorageModel, data: Seq<u64>, shape: Seq<usize>) -> bool {
        m == (StorageModel::U64 { data, shape })
    }

    fn into_storage(data: Vec<u64>, shape: Vec<usize>) -> (r: TensorStorage)
    {
        TensorStorage::U64 { data, shape }
    }

    open spec fn zero_spec() -> u64 {
        0
    }

    open spec fn one_spec() -> u64 {
        1
    }

    fn zero_value() -> u64 {
        0
    }

    fn one_value() -> u64 {
        1
    }
}

impl IntoStorage for u128 {
    open spec fn models(m: StorageModel, data: Seq<u128>, shape: Seq<usize>) -> bool {
        m == (StorageModel::U128 { data, shape })
    }

    fn into_storage(data: Vec<u128>, shape: Vec<usize>) -> (r: TensorStorage)
    {
        TensorStorage::U128 { data, shape }
    }

    open spec fn zero_spec() -> u128 {
        0
    }

    open spec fn one_spec() -> u128 {
        1
    }

    fn zero_value() -> u128 {
        0
    }

    fn one_value() -> u128 {
        1
    }
}

impl IntoStorage for i8 {
    open spec fn models(m: StorageModel, data: Seq<i8>, shape: Seq<usize>) -> bool {
        m == (StorageModel::I8 { data, shape })
    }

    fn into_storage(data: Vec<i8>, shape: Vec<usize>) -> (r: TensorStorage)
    {
        TensorStorage::I8 { data, shape }
    }

    open spec fn zero_spec() -> i8 {
        0
    }

    open spec fn one_spec() -> i8 {
        1
    }

    fn zero_value() -> i8 {
        0
    }

    fn one_value() -> i8 {
        1
    }
}

impl IntoStorage for i16 {
    open spec fn models(m: StorageModel, data: Seq<i16>, shape: Seq<usize>) -> bool {
        m == (StorageModel::I16 { data, shape })
    }

    fn into_storage(data: Vec<i16>, shape: Vec<usize>) -> (r: TensorStorage)
    {
        TensorStorage::I16 { data, shape }
    }

    open spec fn zero_spec() -> i16 {
        0
    }

    open spec fn one_spec() -> i16 {
        1
    }

    fn zero_value() -> i16 {
        0
    }

    fn one_value() -> i16 {
        1
    }
}

impl IntoStorage for i32 {
    open spec fn models(m: StorageModel, data: Seq<i32>, shape: Seq<usize>) -> bool {
        m == (StorageModel::I32 { data, shape })
    }

    fn into_storage(data: Vec<i32>, shape: Vec<usize>) -> (r: TensorStorage)
    {
        TensorStorage::I32 { data, shape }
    }

    open spec fn zero_spec() -> i32 {
        0
    }

    open spec fn one_spec() -> i32 {
        1
    }

    fn zero_value() -> i32 {
        0
    }

    fn one_value() -> i32 {
        1
    }
}

impl IntoStorage for i64 {
    open spec fn models(m: StorageModel, data: Seq<i64>, shape: Seq<usize>) -> bool {
        m == (StorageModel::I64 { data, shape })
    }

    fn into_storage(data: Vec<i64>, shape: Vec<usize>) -> (r: TensorStorage)
    {
        TensorStorage::I64 { data, shape }
    }

    open spec fn zero_spec() -> i64 {
        0
    }

    open spec fn one_spec() -> i64 {
        1
    }

    fn zero_value() -> i64 {
        0
    }

    fn one_value() -> i64 {
        1
    }
}

impl IntoStorage for i128 {
    open spec fn models(m: StorageModel, data: Seq<i128>, shape: Seq<usize>) -> bool {
        m == (StorageModel::I128 { data, shape })
    }

    fn into_storage(data: Vec<i128>, shape: Vec<usize>) -> (r: TensorStorage)
    {
        TensorStorage::I128 { data, shape }
    }

    open spec fn zero_spec() -> i128 {
        0
    }

    open spec fn one_spec() -> i128 {
        1
    }

    fn zero_value() -> i128 {
        0
    }

    fn one_value() -> i128 {
        1
    }
}

} // verus!
