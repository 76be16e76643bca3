//! Model configurations.
use fracture::base::model_config::ModelConfig;
use fracture::base::numeric::Double;

fn d(x: f64) -> Double {
    Double::from_bits(x.to_bits())
}

fn llama3_8b_config() -> ModelConfig {
    ModelConfig {
        hidden_size: 4096,
        num_layers: 32,
        num_q_heads: 32,
        num_kv_heads: 8,
        head_dim: 128,
        intermediate_size: 14336,
        vocab_size: 128256,
        rope_theta: d(500000.0),
        rms_norm_eps: d(1e-5),
        max_seq_len: 8192,
    }
}

#[test]
fn test_valid_llama3_8b_config() {
    assert!(llama3_8b_config().validate().is_ok());
}

#[test]
fn test_head_dim_mismatch_fails() {
    let mut cfg = llama3_8b_config();
    cfg.head_dim = 64; // should be 4096/32 = 128
    assert!(cfg.validate().is_err());
}

#[test]
fn test_gqa_divisibility_fails() {
    let mut cfg = llama3_8b_config();
    cfg.num_kv_heads = 7; // 32 % 7 != 0
    // head_dim would also be wrong, fix it to isolate the GQA check
    // Actually head_dim check comes first, so we need valid head_dim.
    // 32 heads, hidden=4096 => head_dim=128, that's fine.
    // But 32 % 7 != 0 should fail after head_dim passes.
    let result = cfg.validate();
    assert!(result.is_err());
    let msg = result.unwrap_err().to_string();
    assert!(msg.contains("divisible"));
}

#[test]
fn test_zero_hidden_size_fails() {
    let mut cfg = llama3_8b_config();
    cfg.hidden_size = 0;
    assert!(cfg.validate().is_err());
}

#[test]
fn test_gqa_group_size() {
    let cfg = llama3_8b_config();
    assert_eq!(cfg.gqa_group_size(), 4);
}

#[test]
fn test_zero_num_layers_fails() {
    let mut cfg = llama3_8b_config();
    cfg.num_layers = 0;
    let err = cfg.validate().unwrap_err();
    assert!(err.to_string().contains("num_layers"));
}

#[test]
fn test_zero_num_q_heads_fails() {
    let mut cfg = llama3_8b_config();
    cfg.num_q_heads = 0;
    let err = cfg.validate().unwrap_err();
    assert!(err.to_string().contains("num_q_heads"));
}

#[test]
fn test_zero_num_kv_heads_fails() {
    let mut cfg = llama3_8b_config();
    cfg.num_kv_heads = 0;
    let err = cfg.validate().unwrap_err();
    assert!(err.to_string().contains("num_kv_heads"));
}

#[test]
fn test_zero_vocab_size_fails() {
    let mut cfg = llama3_8b_config();
    cfg.vocab_size = 0;
    let err = cfg.validate().unwrap_err();
    assert!(err.to_string().contains("vocab_size"));
}

#[test]
fn test_zero_intermediate_size_fails() {
    let mut cfg = llama3_8b_config();
    cfg.intermediate_size = 0;
    let err = cfg.validate().unwrap_err();
    assert!(err.to_string().contains("intermediate_size"));
}

#[test]
fn test_invalid_rope_theta_fails() {
    let mut cfg = llama3_8b_config();

    // Zero should fail
    cfg.rope_theta = d(0.0);
    let err = cfg.validate().unwrap_err();
    assert!(err.to_string().contains("rope_theta"));

    // Negative should fail
    cfg.rope_theta = d(-1.0);
    let err = cfg.validate().unwrap_err();
    assert!(err.to_string().contains("rope_theta"));
}

#[test]
fn test_invalid_rms_norm_eps_fails() {
    let mut cfg = llama3_8b_config();

    // Zero should fail
    cfg.rms_norm_eps = d(0.0);
    let err = cfg.validate().unwrap_err();
    assert!(err.to_string().contains("rms_norm_eps"));

    // Negative should fail
    cfg.rms_norm_eps = d(-1e-5);
    let err = cfg.validate().unwrap_err();
    assert!(err.to_string().contains("rms_norm_eps"));
}

#[test]
fn test_zero_max_seq_len_fails() {
    let mut cfg = llama3_8b_config();
    cfg.max_seq_len = 0;
    let err = cfg.validate().unwrap_err();
    assert!(err.to_string().contains("max_seq_len"));
}
