//! Element types of tensors.
use vstd::prelude::*;

verus! {

/// Supported data types for tensors.
#[derive(Debug, Clone, Copy, PartialEq, Eq, Hash, Structural)]
pub enum DType {
    FP16,
    FP32,
    BF16,
    INT8,
    INT4,
}

impl DType {
    /// The size in bytes of a single element.
    ///
    /// `INT4` counts as 1: its elements are packed in pairs, and the least
    /// addressable unit is one byte per pair.
    pub open spec fn element_bytes(self) -> nat {
        match self {
            DType::FP32 => 4,
            DType::FP16 | DType::BF16 => 2,
            DType::INT8 | DType::INT4 => 1,
        }
    }

    /// The name that [`DType::to_string`] writes.
    pub open spec fn name(self) -> Seq<char> {
        match self {
            DType::FP16 => "fp16"@,
            DType::FP32 => "fp32"@,
            DType::BF16 => "bf16"@,
            DType::INT8 => "int8"@,
            DType::INT4 => "int4"@,
        }
    }

    /// Returns the size in bytes of a single element.
    pub fn size_bytes(&self) -> (res: usize)
        ensures
            res == self.element_bytes(),
    {
        match self {
            DType::FP16 => 2,
            DType::FP32 => 4,
            DType::BF16 => 2,
            DType::INT8 => 1,
            DType::INT4 => 1,
        }
    }

    /// Returns true if this type stores two elements per byte.
    pub fn is_packed(&self) -> (res: bool)
        ensures
            res == (self is INT4),
    {
        matches!(self, DType::INT4)
    }

    /// The lower-case name of the type.
    pub fn to_string(&self) -> (res: String)
        ensures
            res@ == self.name(),
    {
        match self {
            DType::FP16 => "fp16".to_owned(),
            DType::FP32 => "fp32".to_owned(),
            DType::BF16 => "bf16".to_owned(),
            DType::INT8 => "int8".to_owned(),
            DType::INT4 => "int4".to_owned(),
        }
    }
}

} // verus!
