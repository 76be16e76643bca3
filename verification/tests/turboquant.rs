//! Quantization settings.
use fracture::base::turboquant::{rotation_seeds, TurboQuantConfig, Xoshiro256};

#[test]
fn test_config_default() {
    let cfg = TurboQuantConfig::default();
    assert_eq!(cfg.key_bits, 4);
    assert_eq!(cfg.value_bits, 2);
    assert_eq!(cfg.protected_bits, 8);
    assert_eq!(cfg.protected_layers, 0);
    assert_eq!(cfg.residual_tokens, 0);
    assert_eq!(cfg.seed, 42);
}

#[test]
fn test_config_validate() {
    let mut cfg = TurboQuantConfig::default();
    assert!(cfg.validate().is_ok());

    cfg.key_bits = 3;
    assert!(cfg.validate().is_err());

    cfg.key_bits = 4;
    cfg.value_bits = 5;
    assert!(cfg.validate().is_err());
}

#[test]
fn test_config_layer_bits() {
    let cfg = TurboQuantConfig {
        key_bits: 4,
        value_bits: 2,
        protected_bits: 8,
        protected_layers: 2,
        ..Default::default()
    };

    let num_layers = 32;
    // First 2 layers protected
    assert_eq!(cfg.key_bits_for_layer(0, num_layers), 8);
    assert_eq!(cfg.key_bits_for_layer(1, num_layers), 8);
    // Middle layers normal
    assert_eq!(cfg.key_bits_for_layer(2, num_layers), 4);
    assert_eq!(cfg.key_bits_for_layer(15, num_layers), 4);
    assert_eq!(cfg.key_bits_for_layer(29, num_layers), 4);
    // Last 2 layers protected
    assert_eq!(cfg.key_bits_for_layer(30, num_layers), 8);
    assert_eq!(cfg.key_bits_for_layer(31, num_layers), 8);

    // Values
    assert_eq!(cfg.value_bits_for_layer(0, num_layers), 8);
    assert_eq!(cfg.value_bits_for_layer(15, num_layers), 2);
    assert_eq!(cfg.value_bits_for_layer(31, num_layers), 8);
}

#[test]
fn test_config_no_protection() {
    let cfg = TurboQuantConfig::default();
    for layer in 0..32 {
        assert_eq!(cfg.key_bits_for_layer(layer, 32), 4);
        assert_eq!(cfg.value_bits_for_layer(layer, 32), 2);
    }
}

#[test]
fn test_packed_dim_per_head() {
    assert_eq!(TurboQuantConfig::packed_dim_per_head(128, 4), 64);
    assert_eq!(TurboQuantConfig::packed_dim_per_head(128, 2), 32);
    assert_eq!(TurboQuantConfig::packed_dim_per_head(128, 8), 128);
    // Non-power-of-2 head_dim
    assert_eq!(TurboQuantConfig::packed_dim_per_head(96, 4), 48);
    assert_eq!(TurboQuantConfig::packed_dim_per_head(96, 2), 24);
}

#[test]
fn test_bytes_per_block_layer() {
    // K4/V2, 8 heads, d=128
    let bytes = TurboQuantConfig::bytes_per_block_layer(8, 128, 4, 2);
    // K: 16 * 8 * (64 + 2) = 8448 packed + norms, but let's compute:
    // k_packed = 16 * 8 * 64 = 8192
    // v_packed = 16 * 8 * 32 = 4096
    // k_norms = 16 * 8 * 2 = 256
    // v_norms = 16 * 8 * 2 = 256
    // Total = 8192 + 4096 + 256 + 256 = 12800
    assert_eq!(bytes, 12800);
}

#[test]
fn test_bytes_per_block_total_uniform() {
    let cfg = TurboQuantConfig::default(); // K4/V2, no protection
    let total = cfg.bytes_per_block_total(32, 8, 128);
    assert_eq!(total, 12800 * 32);
}

#[test]
fn test_bytes_per_block_total_with_protection() {
    let cfg = TurboQuantConfig {
        key_bits: 4,
        value_bits: 2,
        protected_bits: 8,
        protected_layers: 4,
        ..Default::default()
    };
    let total = cfg.bytes_per_block_total(32, 8, 128);

    // 8 protected layers (first 4 + last 4): K8/V8
    let protected = TurboQuantConfig::bytes_per_block_layer(8, 128, 8, 8);
    // 24 normal layers: K4/V2
    let normal = TurboQuantConfig::bytes_per_block_layer(8, 128, 4, 2);
    assert_eq!(total, 8 * protected + 24 * normal);
}

#[test]
fn test_distinct_bit_widths() {
    let cfg = TurboQuantConfig::default();
    let bits = cfg.distinct_bit_widths();
    assert_eq!(bits, vec![2, 4]); // K4/V2, no protection

    let cfg = TurboQuantConfig {
        protected_layers: 2,
        ..Default::default()
    };
    let bits = cfg.distinct_bit_widths();
    assert_eq!(bits, vec![2, 4, 8]);
}

#[test]
fn test_rotation_seeds() {
    let (k, v) = rotation_seeds(42, 0);
    assert_eq!(k, 42);
    assert_eq!(v, 542);

    let (k, v) = rotation_seeds(42, 5);
    assert_eq!(k, 5042);
    assert_eq!(v, 5542);

    // K and V seeds should always differ
    for layer in 0..32 {
        let (k, v) = rotation_seeds(42, layer);
        assert_ne!(k, v);
    }
}

#[test]
fn the_generator_is_deterministic() {
    let mut rng = Xoshiro256::new(42);
    assert_eq!(rng.s0, 0xbdd732262feb6e95);
    assert_eq!(rng.next_u64(), 1546998764402558742);
    assert_eq!(rng.next_u64(), 6990951692964543102);
    assert_eq!(rng.next_u64(), 12544586762248559009);
    let mut zero = Xoshiro256::new(0);
    assert_eq!(zero.next_u64(), 11091344671253066420);
}

#[test]
fn widths_that_no_layer_has_do_not_matter() {
    // No layer is protected: the protected width is not multiplied with the head size.
    let huge = usize::MAX / 4;
    let cfg = TurboQuantConfig { key_bits: 2, value_bits: 2, ..Default::default() };
    assert_eq!(cfg.compute_num_blocks(1000, 0, 0, 8, huge), 0);
    assert_eq!(cfg.bytes_per_block_total(2, 0, huge), 0);
    // As many blocks as fit, and no more: 1 head of 8 numbers in one layer.
    let bytes = cfg.bytes_per_block_total(1, 1, 8);
    assert_eq!(bytes, 16 * 2 + 16 * 2 + 2 * 16 * 2);
    assert_eq!(cfg.compute_num_blocks(3 * bytes + 5, 5, 1, 1, 8), 3);
    assert_eq!(cfg.compute_num_blocks(3 * bytes + 4, 5, 1, 1, 8), 2);
    assert_eq!(cfg.compute_num_blocks(5, 5, 1, 1, 8), 0);
}
