use llmfast::backend::Net;
use llmfast::config::Config;
use llmfast::device::{
    after_attempt, choose_device, ignore_adapter, int8_gemm_min, is_set_to, parse_ids, pool_size,
    kv_int8, read_tokens, refuse_quant, simd_level, size_or, switched_on, Attempt, Decision, Features,
    Outcome,
};
use llmfast::json::read;
use llmfast::kv::{gpu_layer_size, GpuKv, Kv};

#[test]
fn settings_that_switch() {
    assert!(switched_on(None, true) && !switched_on(None, false));
    assert!(!switched_on(Some("0"), true) && switched_on(Some(""), false));
    assert!(kv_int8(None) && kv_int8(Some("1")) && !kv_int8(Some("0")));
    assert!(is_set_to(Some("gpu"), "gpu") && !is_set_to(None, "gpu"));
    assert_eq!((size_or(Some("7"), 3), size_or(Some("x"), 3), size_or(None, 3)), (7, 3, 3));
    assert_eq!((pool_size(Some("6"), 2), pool_size(Some("-1"), 2)), (6, 2));
    assert_eq!(int8_gemm_min(None), usize::MAX);
    assert_eq!(int8_gemm_min(Some("0")), usize::MAX);
    assert_eq!(int8_gemm_min(Some("16")), 16);
    assert_eq!(int8_gemm_min(Some("yes")), 4);
}

#[test]
fn levels_of_instructions() {
    let f = |avx2, fma, avx, sse41| Features { avx2, fma, avx, sse41 };
    assert_eq!(simd_level(f(true, true, true, true), None), 2);
    assert_eq!(simd_level(f(true, false, true, true), None), 1);
    assert_eq!(simd_level(f(false, false, true, false), None), 0);
    assert_eq!(simd_level(f(true, true, true, true), Some("1")), 1);
    assert_eq!(simd_level(f(false, false, true, true), Some("2")), 1);
    assert_eq!(simd_level(f(true, true, true, true), Some("256")), 2);
    assert_eq!(simd_level(f(true, true, true, true), Some("none")), 2);
}

#[test]
fn where_models_compute() {
    let gb = 1 << 30;
    assert_eq!(choose_device(None, None, gb - 1, true), (Attempt::Gpu, true));
    assert_eq!(choose_device(None, None, gb, true), (Attempt::Cpu, false));
    assert_eq!(choose_device(None, Some("4096"), gb, true), (Attempt::Gpu, true));
    assert_eq!(choose_device(Some("gpu"), None, gb, true), (Attempt::Gpu, false));
    assert_eq!(choose_device(Some("gpu"), None, gb, false), (Attempt::Cpu, false));
    assert_eq!(choose_device(Some("cpu"), None, 1, true), (Attempt::Cpu, true));
    assert_eq!(after_attempt(None, Outcome::Ready), Decision::UseGpu);
    assert_eq!(after_attempt(Some("auto"), Outcome::Failed), Decision::UseCpu);
    assert_eq!(after_attempt(None, Outcome::NoAdapter), Decision::UseCpu);
    assert_eq!(after_attempt(Some("gpu"), Outcome::NoAdapter), Decision::RefuseNoAdapter);
    assert_eq!(after_attempt(Some("gpu"), Outcome::Failed), Decision::RefuseFailed);
    assert!(refuse_quant(Some("gpu"), "q4"));
    assert!(!refuse_quant(Some("gpu"), "q8") && !refuse_quant(None, "q4"));
}

#[test]
fn adapters_in_software() {
    assert!(ignore_adapter(true, "any", None));
    assert!(ignore_adapter(false, "LLVMpipe (LLVM 15)", Some("auto")));
    assert!(ignore_adapter(false, "Google SwiftShader", None));
    assert!(!ignore_adapter(false, "llvmpipe", Some("gpu")));
    assert!(!ignore_adapter(false, "Radeon R9", None));
}

#[test]
fn token_ids_as_text() {
    assert_eq!(parse_ids("1, 2,3 "), Some(vec![1, 2, 3]));
    assert_eq!(parse_ids("7"), Some(vec![7]));
    assert_eq!(parse_ids("1,,2"), None);
    assert_eq!(parse_ids(""), None);
    assert_eq!(parse_ids("4294967296"), None);
    let j = read(br#"{"tokens": [1, 4294967297, 3], "bad": [1, "x"], "n": 1}"#).unwrap();
    assert_eq!(read_tokens(&j, "tokens"), Some(vec![1, 1, 3]));
    assert_eq!(read_tokens(&j, "bad"), None);
    assert_eq!(read_tokens(&j, "n"), None);
}

#[test]
fn one_face_for_both_devices() {
    let j = read(
        br#"{"hidden_size": 8, "intermediate_size": 16, "num_hidden_layers": 3,
             "num_attention_heads": 4, "num_key_value_heads": 2, "head_dim": 2, "vocab_size": 32}"#,
    )
    .unwrap();
    let config = |n| Config::load(&j, None, Some(n), 0, 0, 2).unwrap();
    let net: Net<u32, u8> = Net::Gpu(config(100), 9);
    assert_eq!(net.device(), "gpu");
    assert!(net.supports_rollback());
    assert_eq!(net.config().max_context, 100);
    assert_eq!(gpu_layer_size(&config(100)), 100 * 4 * 4);
    assert_eq!(gpu_layer_size(&config(5000)), 2048 * 4 * 4);
    let mut kv: Kv<u32, &str> = Kv::Gpu(GpuKv::new(&config(100), "buffers"));
    assert!(net.matches_cache(&kv));
    assert_eq!(kv.bytes(), 100 * 4 * 4 * 2 * 3);
    if let Kv::Gpu(g) = &mut kv {
        g.advance(4);
        g.advance(3);
    }
    assert!(kv.can_truncate(3));
    kv.truncate(3);
    assert_eq!(kv.len(), 3);
}
