//! Handles to tensors that live on a device.
use crate::base::dtype::DType;
use crate::base::error::{FractureError, Result};
use crate::base::text::{bracketed, bracketed_text, decimal, push_decimal};
use vstd::prelude::*;
use vstd::string::StringExecFns;

verus! {

/// Opaque identifier for a tensor stored on a device.
/// Only the backend knows how to resolve this to actual device memory.
#[derive(Debug, Clone, Copy, PartialEq, Eq, Hash, Structural)]
pub struct TensorId(pub u64);

/// An opaque handle to a tensor on a device.
///
/// Contains metadata (shape, dtype) but no device pointers. Only the backend
/// that created the tensor can operate on it.
#[derive(Debug, Clone)]
pub struct DeviceTensor {
    pub id: TensorId,
    pub shape: Vec<usize>,
    pub dtype: DType,
}

/// What a [`DeviceTensor`] says: which tensor, and how it is laid out.
#[verifier::ext_equal]
pub struct TensorInfo {
    pub id: TensorId,
    pub shape: Seq<usize>,
    pub dtype: DType,
}

impl View for DeviceTensor {
    type V = TensorInfo;

    open spec fn view(&self) -> TensorInfo {
        TensorInfo { id: self.id, shape: self.shape@, dtype: self.dtype }
    }
}

/// The product of all dimensions; 1 for no dimensions.
pub open spec fn elements(shape: Seq<usize>) -> nat
    decreases shape.len(),
{
    if shape.len() == 0 {
        1
    } else {
        elements(shape.drop_last()) * (shape.last() as nat)
    }
}

/// Multiplying the dimensions from the left never leaves `usize`.
pub open spec fn countable(shape: Seq<usize>) -> bool {
    forall|k: int| 0 <= k <= shape.len() ==> #[trigger] elements(shape.take(k)) <= usize::MAX
}

/// The bytes that `n` elements of a type occupy; packed elements share a byte in pairs.
pub open spec fn storage_bytes(n: nat, dtype: DType) -> nat {
    if dtype is INT4 {
        (n + 1) / 2
    } else {
        n * dtype.element_bytes()
    }
}

fn count_elements(shape: &Vec<usize>) -> (res: usize)
    requires
        countable(shape@),
    ensures
        res == elements(shape@),
{
    let mut n: usize = 1;
    let mut i: usize = 0;
    assert(shape@.take(0) =~= Seq::<usize>::empty());
    while i < shape.len()
        invariant
            i <= shape@.len(),
            n == elements(shape@.take(i as int)),
            countable(shape@),
        decreases shape@.len() - i,
    {
        assert(shape@.take(i + 1).drop_last() =~= shape@.take(i as int));
        assert(elements(shape@.take(i + 1)) <= usize::MAX);
        n = n * shape[i];
        i = i + 1;
    }
    assert(shape@.take(i as int) =~= shape@);
    n
}

impl DeviceTensor {
    pub fn new(id: TensorId, shape: Vec<usize>, dtype: DType) -> (res: Self)
        ensures
            res@ == (TensorInfo { id, shape: shape@, dtype }),
            res.shape == shape,
    {
        DeviceTensor { id, shape, dtype }
    }

    /// Validated constructor that rejects invalid shapes.
    /// Returns an error for an empty shape, and for the first dimension that is zero.
    pub fn try_new(id: TensorId, shape: Vec<usize>, dtype: DType) -> (res: Result<Self>)
        ensures
            res is Ok <==> shape@.len() > 0 && forall|i: int|
                0 <= i < shape@.len() ==> shape@[i] != 0,
            res matches Ok(t) ==> t@ == (TensorInfo { id, shape: shape@, dtype }),
            res matches Err(e) ==> if shape@.len() == 0 {
                e.is_invalid_shape("shape must have at least one dimension"@)
            } else {
                exists|i: int|
                    0 <= i < shape@.len() && #[trigger] shape@[i] == 0 && (forall|j: int|
                        0 <= j < i ==> shape@[j] != 0) && e.is_invalid_shape(
                        "dimension "@ + decimal(i as nat) + " is zero in shape "@ + bracketed(
                            shape@,
                        ),
                    )
            },
    {
        if shape.is_empty() {
            return Err(
                FractureError::InvalidShape("shape must have at least one dimension".to_owned()),
            );
        }
        let mut i: usize = 0;
        while i < shape.len()
            invariant
                i <= shape@.len(),
                shape@.len() > 0,
                forall|j: int| 0 <= j < i ==> shape@[j] != 0,
            decreases shape@.len() - i,
        {
            if shape[i] == 0 {
                let mut m: String = "dimension ".to_owned();
                push_decimal(&mut m, i as u64);
                m.append(" is zero in shape ");
                m.append(bracketed_text(shape.as_slice()).as_str());
                assert(shape@[i as int] == 0);
                return Err(FractureError::InvalidShape(m));
            }
            i = i + 1;
        }
        Ok(DeviceTensor { id, shape, dtype })
    }

    /// Total number of elements in the tensor.
    pub fn numel(&self) -> (res: usize)
        requires
            countable(self@.shape),
        ensures
            res == elements(self@.shape),
    {
        count_elements(&self.shape)
    }

    /// Total size in bytes on device.
    pub fn size_bytes(&self) -> (res: usize)
        requires
            countable(self@.shape),
            storage_bytes(elements(self@.shape), self.dtype) <= usize::MAX,
        ensures
            res == storage_bytes(elements(self@.shape), self.dtype),
    {
        let n: usize = self.numel();
        if self.dtype.is_packed() {
            n / 2 + n % 2
        } else {
            n * self.dtype.size_bytes()
        }
    }

    /// Reshape this tensor to a new shape, validating that the total element
    /// count is preserved. Returns an error if the count differs.
    pub fn reshape(&self, new_shape: Vec<usize>) -> (res: Result<Self>)
        requires
            countable(self@.shape),
            countable(new_shape@),
        ensures
            res is Ok <==> elements(new_shape@) == elements(self@.shape),
            res matches Ok(t) ==> t@ == (TensorInfo { shape: new_shape@, ..self@ }),
            res matches Err(e) ==> e.is_invalid_shape(
                "cannot reshape tensor with "@ + decimal(elements(self@.shape))
                    + " elements to shape "@ + bracketed(new_shape@) + " ("@ + decimal(
                    elements(new_shape@),
                ) + " elements)"@,
            ),
    {
        let new_numel: usize = count_elements(&new_shape);
        let numel: usize = self.numel();
        if new_numel != numel {
            let mut m: String = "cannot reshape tensor with ".to_owned();
            push_decimal(&mut m, numel as u64);
            m.append(" elements to shape ");
            m.append(bracketed_text(new_shape.as_slice()).as_str());
            m.append(" (");
            push_decimal(&mut m, new_numel as u64);
            m.append(" elements)");
            return Err(FractureError::InvalidShape(m));
        }
        Ok(DeviceTensor { id: self.id, shape: new_shape, dtype: self.dtype })
    }
}

/// Reshaping keeps the storage: the same tensor, type, element count and bytes.
pub proof fn reshape_keeps_storage(t: TensorInfo, new_shape: Seq<usize>)
    requires
        elements(new_shape) == elements(t.shape),
    ensures
        ({
            let r = TensorInfo { shape: new_shape, ..t };
            &&& r.id == t.id
            &&& r.dtype == t.dtype
            &&& elements(r.shape) == elements(t.shape)
            &&& storage_bytes(elements(r.shape), r.dtype) == storage_bytes(
                elements(t.shape),
                t.dtype,
            )
        }),
{
}

} // verus!
