//! Data types.
use fracture::base::dtype::DType;

#[test]
fn test_size_bytes() {
    assert_eq!(DType::FP16.size_bytes(), 2);
    assert_eq!(DType::FP32.size_bytes(), 4);
    assert_eq!(DType::BF16.size_bytes(), 2);
    assert_eq!(DType::INT8.size_bytes(), 1);
    assert_eq!(DType::INT4.size_bytes(), 1);
}

#[test]
fn test_is_packed() {
    assert!(!DType::FP16.is_packed());
    assert!(!DType::FP32.is_packed());
    assert!(!DType::BF16.is_packed());
    assert!(!DType::INT8.is_packed());
    assert!(DType::INT4.is_packed());
}

#[test]
fn test_dtype_display() {
    assert_eq!(DType::FP16.to_string(), "fp16");
    assert_eq!(DType::FP32.to_string(), "fp32");
    assert_eq!(DType::BF16.to_string(), "bf16");
    assert_eq!(DType::INT8.to_string(), "int8");
    assert_eq!(DType::INT4.to_string(), "int4");
}
