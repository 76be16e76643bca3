//! The place of a compute node in a pipeline, and what flows between nodes.
use crate::base::error::{FractureError, Result};
use crate::base::numeric::Half;
use crate::base::tensor::{DeviceTensor, TensorInfo};
use crate::base::text::{decimal, numbered, push_decimal};
use std::ops::Range;
use vstd::prelude::*;
use vstd::string::StringExecFns;

verus! {

/// The layers that a node executes, out of how many.
#[derive(Debug)]
pub struct NodeConfig {
    pub layer_range: Range<usize>,
    pub total_layers: usize,
}

impl NodeConfig {
    /// The first layer of the node.
    pub open spec fn start(&self) -> usize {
        self.layer_range.start
    }

    /// The layer after the last one of the node.
    pub open spec fn end(&self) -> usize {
        self.layer_range.end
    }

    /// The node begins at the first layer: it takes token ids.
    pub open spec fn head(&self) -> bool {
        self.start() == 0
    }

    /// The node ends at the last layer: it gives logits.
    pub open spec fn tail(&self) -> bool {
        self.end() == self.total_layers
    }

    /// The range is not empty and lies within the model.
    pub open spec fn valid(&self) -> bool {
        self.start() < self.end() && self.end() <= self.total_layers
    }

    /// The error that says what is wrong with the range.
    pub open spec fn is_invalid(&self, e: FractureError) -> bool {
        e.is_pipeline(
            if self.start() >= self.end() {
                "empty layer range: "@ + decimal(self.start() as nat) + ".."@ + decimal(
                    self.end() as nat,
                )
            } else {
                "layer range end "@ + decimal(self.end() as nat) + " exceeds total layers "@
                    + decimal(self.total_layers as nat)
            },
        )
    }

    /// A node for these layers. The range is not empty and lies within the model.
    pub fn new(layer_range: Range<usize>, total_layers: usize) -> (res: Result<Self>)
        ensures
            ({
                let c = NodeConfig { layer_range, total_layers };
                &&& res is Ok <==> c.valid()
                &&& res matches Ok(r) ==> r == c
                &&& res matches Err(e) ==> c.is_invalid(e)
            }),
    {
        if layer_range.start >= layer_range.end {
            let mut m: String = numbered("empty layer range: ", layer_range.start as u64);
            m.append("..");
            push_decimal(&mut m, layer_range.end as u64);
            return Err(FractureError::Pipeline(m));
        }
        if layer_range.end > total_layers {
            let mut m: String = numbered("layer range end ", layer_range.end as u64);
            m.append(" exceeds total layers ");
            push_decimal(&mut m, total_layers as u64);
            return Err(FractureError::Pipeline(m));
        }
        Ok(NodeConfig { layer_range, total_layers })
    }

    /// Whether the node takes token ids.
    pub fn is_head(&self) -> (res: bool)
        ensures
            res == self.head(),
    {
        self.layer_range.start == 0
    }

    /// Whether the node gives logits.
    pub fn is_tail(&self) -> (res: bool)
        ensures
            res == self.tail(),
    {
        self.layer_range.end == self.total_layers
    }

    /// Whether the node executes the whole model.
    pub fn is_full(&self) -> (res: bool)
        ensures
            res == (self.head() && self.tail()),
    {
        self.is_head() && self.is_tail()
    }
}

/// What a node takes.
#[derive(Debug)]
pub enum NodeInput {
    /// Token ids, for the first node.
    TokenIds { ids: Vec<u32>, positions: Vec<u32> },
    /// The output of the node before.
    Activations { hidden_states: DeviceTensor, positions: Vec<u32> },
}

/// What a node gives.
#[derive(Debug)]
pub enum NodeOutput {
    /// One number per entry of the vocabulary, from the last node.
    Logits(Vec<Half>),
    /// The input of the node after.
    Activations(DeviceTensor),
}

/// What a node takes, as mathematical values.
#[verifier::ext_equal]
pub enum NodeInputInfo {
    TokenIds { ids: Seq<u32>, positions: Seq<u32> },
    Activations { hidden_states: TensorInfo, positions: Seq<u32> },
}

/// What a node gives, as mathematical values.
#[verifier::ext_equal]
pub enum NodeOutputInfo {
    Logits(Seq<Half>),
    Activations(TensorInfo),
}

impl View for NodeInput {
    type V = NodeInputInfo;

    open spec fn view(&self) -> NodeInputInfo {
        match self {
            NodeInput::TokenIds { ids, positions } => NodeInputInfo::TokenIds {
                ids: ids@,
                positions: positions@,
            },
            NodeInput::Activations { hidden_states, positions } => NodeInputInfo::Activations {
                hidden_states: hidden_states@,
                positions: positions@,
            },
        }
    }
}

impl View for NodeOutput {
    type V = NodeOutputInfo;

    open spec fn view(&self) -> NodeOutputInfo {
        match self {
            NodeOutput::Logits(l) => NodeOutputInfo::Logits(l@),
            NodeOutput::Activations(t) => NodeOutputInfo::Activations(t@),
        }
    }
}

impl NodeInputInfo {
    /// The position of each token.
    pub open spec fn positions(self) -> Seq<u32> {
        match self {
            NodeInputInfo::TokenIds { positions, .. } => positions,
            NodeInputInfo::Activations { positions, .. } => positions,
        }
    }
}

} // verus!
