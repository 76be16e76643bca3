//! Weight tensors of a model, as loaded on a device.
use crate::base::model_config::ModelConfig;
use crate::base::tensor::{DeviceTensor, TensorInfo};
use vstd::prelude::*;

verus! {

/// The weights of one transformer layer.
#[derive(Debug)]
pub struct LayerWeights {
    pub q_proj: DeviceTensor,
    pub k_proj: DeviceTensor,
    pub v_proj: DeviceTensor,
    pub o_proj: DeviceTensor,
    pub gate_proj: DeviceTensor,
    pub up_proj: DeviceTensor,
    pub down_proj: DeviceTensor,
    pub attn_norm: DeviceTensor,
    pub ffn_norm: DeviceTensor,
}

/// The weights of a model, or of a run of its layers.
#[derive(Debug)]
pub struct WeightStore {
    pub config: ModelConfig,
    pub token_embedding: DeviceTensor,
    pub layers: Vec<LayerWeights>,
    pub output_norm: DeviceTensor,
    pub lm_head: DeviceTensor,
}

/// Which tensors the weights of a layer are.
#[verifier::ext_equal]
pub struct LayerWeightsInfo {
    pub q_proj: TensorInfo,
    pub k_proj: TensorInfo,
    pub v_proj: TensorInfo,
    pub o_proj: TensorInfo,
    pub gate_proj: TensorInfo,
    pub up_proj: TensorInfo,
    pub down_proj: TensorInfo,
    pub attn_norm: TensorInfo,
    pub ffn_norm: TensorInfo,
}

impl View for LayerWeights {
    type V = LayerWeightsInfo;

    open spec fn view(&self) -> LayerWeightsInfo {
        LayerWeightsInfo {
            q_proj: self.q_proj@,
            k_proj: self.k_proj@,
            v_proj: self.v_proj@,
            o_proj: self.o_proj@,
            gate_proj: self.gate_proj@,
            up_proj: self.up_proj@,
            down_proj: self.down_proj@,
            attn_norm: self.attn_norm@,
            ffn_norm: self.ffn_norm@,
        }
    }
}

} // verus!
