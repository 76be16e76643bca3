//! What the coordinator and its workers tell each other, once a message is decoded.
use crate::base::error::FractureError;
use vstd::prelude::*;

verus! {

/// The description of a tensor that is sent.
#[derive(Debug)]
pub struct TensorWireHeader {
    pub ndim: u8,
    pub shape: Vec<u32>,
    pub dtype: u8,
    pub compression: u8,
    pub data_len: u32,
}

/// What a worker is to work on.
#[derive(Debug)]
pub enum ForwardInputWire {
    /// Token IDs, for the first worker.
    TokenIds { ids: Vec<u32> },
    /// What the worker before gave.
    Activations { tensor_header: TensorWireHeader, tensor_data: Vec<u8> },
}

/// What a worker gives.
#[derive(Debug)]
pub enum ForwardOutputWire {
    /// Numbers in single precision, low byte first, from the last worker.
    Logits { data: Vec<u8> },
    /// What the next worker is to work on.
    Activations { tensor_header: TensorWireHeader, tensor_data: Vec<u8> },
}

/// What a worker gives for a batch.
#[derive(Debug)]
pub struct BatchedOutputWire {
    pub output: ForwardOutputWire,
    /// Where the logits of each sequence begin, in bytes. None where the worker answered as
    /// for a single sequence: then each sequence has an equal part.
    pub logit_offsets: Option<Vec<usize>>,
}

/// What came of asking a worker.
#[derive(Debug)]
pub enum WorkerReply<T> {
    /// There is no such worker.
    Missing,
    /// The connection failed, or what came could not be read.
    Broken(FractureError),
    /// The worker reported an error, with this code.
    Failed { message: String, code: String },
    /// The worker sent a message of another type.
    Unexpected { got: String },
    /// The worker answered.
    Answer(T),
}

} // verus!
