//! Model architecture configuration.
use crate::base::error::{FractureError, Result};
use crate::base::numeric::Double;
use crate::base::text::{decimal, push_decimal};
use vstd::prelude::*;
use vstd::string::StringExecFns;

verus! {

/// Model architecture configuration extracted from model metadata.
#[derive(Debug, Clone, Copy, PartialEq, Eq, Structural)]
pub struct ModelConfig {
    pub hidden_size: usize,
    pub num_layers: usize,
    pub num_q_heads: usize,
    pub num_kv_heads: usize,
    pub head_dim: usize,
    pub intermediate_size: usize,
    pub vocab_size: usize,
    pub rope_theta: Double,
    pub rms_norm_eps: Double,
    pub max_seq_len: usize,
}

impl ModelConfig {
    /// The first thing that is wrong with the config, in the order of the checks.
    pub open spec fn complaint(self) -> Option<Seq<char>> {
        if self.hidden_size == 0 {
            Some("hidden_size must be > 0"@)
        } else if self.num_layers == 0 {
            Some("num_layers must be > 0"@)
        } else if self.num_q_heads == 0 {
            Some("num_q_heads must be > 0"@)
        } else if self.num_kv_heads == 0 {
            Some("num_kv_heads must be > 0"@)
        } else if self.vocab_size == 0 {
            Some("vocab_size must be > 0"@)
        } else if self.head_dim as int != self.hidden_size as int / self.num_q_heads as int {
            Some(
                "head_dim ("@ + decimal(self.head_dim as nat) + ") != hidden_size ("@ + decimal(
                    self.hidden_size as nat,
                ) + ") / num_q_heads ("@ + decimal(self.num_q_heads as nat) + ")"@,
            )
        } else if self.intermediate_size == 0 {
            Some("intermediate_size must be > 0"@)
        } else if self.max_seq_len == 0 {
            Some("max_seq_len must be > 0"@)
        } else if self.rope_theta.at_most_zero() {
            Some("rope_theta must be > 0.0"@)
        } else if self.rms_norm_eps.at_most_zero() {
            Some("rms_norm_eps must be > 0.0"@)
        } else if self.num_q_heads as int % self.num_kv_heads as int != 0 {
            Some(
                "num_q_heads ("@ + decimal(self.num_q_heads as nat)
                    + ") must be divisible by num_kv_heads ("@ + decimal(self.num_kv_heads as nat)
                    + ")"@,
            )
        } else {
            None
        }
    }

    /// Validates that the config is internally consistent.
    pub fn validate(&self) -> (res: Result<()>)
        ensures
            res is Ok <==> self.complaint() is None,
            res matches Err(e) ==> e.is_model_config(self.complaint()->0),
    {
        if self.hidden_size == 0 {
            return Err(FractureError::ModelConfig("hidden_size must be > 0".to_owned()));
        }
        if self.num_layers == 0 {
            return Err(FractureError::ModelConfig("num_layers must be > 0".to_owned()));
        }
        if self.num_q_heads == 0 {
            return Err(FractureError::ModelConfig("num_q_heads must be > 0".to_owned()));
        }
        if self.num_kv_heads == 0 {
            return Err(FractureError::ModelConfig("num_kv_heads must be > 0".to_owned()));
        }
        if self.vocab_size == 0 {
            return Err(FractureError::ModelConfig("vocab_size must be > 0".to_owned()));
        }
        if self.head_dim != self.hidden_size / self.num_q_heads {
            let mut m: String = "head_dim (".to_owned();
            push_decimal(&mut m, self.head_dim as u64);
            m.append(") != hidden_size (");
            push_decimal(&mut m, self.hidden_size as u64);
            m.append(") / num_q_heads (");
            push_decimal(&mut m, self.num_q_heads as u64);
            m.append(")");
            return Err(FractureError::ModelConfig(m));
        }
        if self.intermediate_size == 0 {
            return Err(FractureError::ModelConfig("intermediate_size must be > 0".to_owned()));
        }
        if self.max_seq_len == 0 {
            return Err(FractureError::ModelConfig("max_seq_len must be > 0".to_owned()));
        }
        if self.rope_theta.is_at_most_zero() {
            return Err(FractureError::ModelConfig("rope_theta must be > 0.0".to_owned()));
        }
        if self.rms_norm_eps.is_at_most_zero() {
            return Err(FractureError::ModelConfig("rms_norm_eps must be > 0.0".to_owned()));
        }
        if self.num_q_heads % self.num_kv_heads != 0 {
            let mut m: String = "num_q_heads (".to_owned();
            push_decimal(&mut m, self.num_q_heads as u64);
            m.append(") must be divisible by num_kv_heads (");
            push_decimal(&mut m, self.num_kv_heads as u64);
            m.append(")");
            return Err(FractureError::ModelConfig(m));
        }
        Ok(())
    }

    /// Number of query heads per KV head (GQA group size).
    pub fn gqa_group_size(&self) -> (res: usize)
        requires
            self.num_kv_heads != 0,
        ensures
            res as int == self.num_q_heads as int / self.num_kv_heads as int,
    {
        self.num_q_heads / self.num_kv_heads
    }
}

/// In a valid config every query head belongs to exactly one group of a KV head:
/// the groups cover all query heads.
pub proof fn valid_groups_cover_heads(c: ModelConfig)
    requires
        c.complaint() is None,
    ensures
        (c.num_q_heads as int / c.num_kv_heads as int) * c.num_kv_heads == c.num_q_heads,
        c.num_q_heads as int / c.num_kv_heads as int >= 1,
{
    vstd::arithmetic::div_mod::lemma_fundamental_div_mod(
        c.num_q_heads as int,
        c.num_kv_heads as int,
    );
    assert((c.num_q_heads as int / c.num_kv_heads as int) * c.num_kv_heads
        == c.num_kv_heads * (c.num_q_heads as int / c.num_kv_heads as int)) by (nonlinear_arith);
    assert(c.num_q_heads as int / c.num_kv_heads as int >= 1) by (nonlinear_arith)
        requires
            (c.num_q_heads as int / c.num_kv_heads as int) * c.num_kv_heads == c.num_q_heads,
            c.num_q_heads > 0,
            c.num_kv_heads > 0,
    ;
}

} // verus!
