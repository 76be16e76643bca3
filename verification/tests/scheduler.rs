//! Layer scheduling.
use fracture::base::error::FractureError;
use fracture::base::model_config::ModelConfig;
use fracture::base::numeric::{Double, Single};
use fracture::coordinator::counts::redistribute_layers;
use fracture::coordinator::memory::{
    cache_memory_per_layer, head_overhead, max_layers_for_node, role_overhead, tail_overhead,
    weight_memory_per_layer,
};
use fracture::coordinator::scheduler::schedule as plan_layers;
use fracture::coordinator::scheduler::{
    build_result, drop_slowest, estimated_layers, merge_candidates, model_fits, Estimate,
    ExclusionReason, ManualAssignment, NodeFigures, ScheduleError, SchedulerInput, SchedulerResult,
    SchedulingMode,
};
use fracture::coordinator::worker::{NodeRole, WorkerCapabilities};

fn s(x: f32) -> Single {
    Single::from_bits(x.to_bits())
}

fn f(x: Single) -> f32 {
    f32::from_bits(x.to_bits())
}

fn d(x: f64) -> Double {
    Double::from_bits(x.to_bits())
}

fn llama_8b_config() -> ModelConfig {
    ModelConfig {
        hidden_size: 4096,
        num_layers: 32,
        num_q_heads: 32,
        num_kv_heads: 8,
        head_dim: 128,
        intermediate_size: 14336,
        vocab_size: 128256,
        rope_theta: d(500000.0),
        rms_norm_eps: d(1e-5),
        max_seq_len: 8192,
    }
}

fn worker(id: &str, memory_gb: f64, decode_ms: f32) -> WorkerCapabilities {
    WorkerCapabilities {
        node_id: id.into(),
        gpu_model: "Test GPU".into(),
        gpu_memory_available: (memory_gb * 1e9) as usize,
        compute_capability: (8, 0),
        decode_ms_per_layer: s(decode_ms),
        prefill_ms_per_layer_128: s(decode_ms * 3.0),
    }
}

/// The time of some layers, as the scheduler's caller computes it.
fn estimate(nodes: &Vec<WorkerCapabilities>, input: &SchedulerInput) -> Estimate {
    let n = input.model_config.num_layers;
    let speeds: Vec<f32> = nodes.iter().map(|w| 1.0 / f(w.decode_ms_per_layer)).collect();
    let total: f32 = speeds.iter().sum();
    let ideal: Vec<usize> = speeds
        .iter()
        .map(|v| (v / total * n as f32).round() as usize)
        .collect();
    let layers = estimated_layers(nodes, &ideal, &input.model_config, input.max_seq_len);
    let mut longest: f32 = 0.0;
    for (w, l) in nodes.iter().zip(layers.iter()) {
        longest = longest.max(*l as f32 * f(w.decode_ms_per_layer));
    }
    let hops = (nodes.len() - 1) as f32;
    Estimate {
        latency_ms: s(longest + hops * f(input.hop_latency_ms)),
        ideal,
        speeds: speeds.into_iter().map(s).collect(),
    }
}

fn gb(bytes: usize) -> String {
    format!("{:.1}", bytes as f64 / 1e9)
}

/// Schedules with all figures computed.
fn schedule(input: &SchedulerInput) -> Result<SchedulerResult, FractureError> {
    let mut estimates = Vec::new();
    if matches!(input.mode, SchedulingMode::Auto) {
        let mut nodes = merge_candidates(input);
        while !nodes.is_empty() {
            estimates.push(estimate(&nodes, input));
            nodes = drop_slowest(&nodes);
        }
    }
    let plan = match plan_layers(input, &estimates) {
        Ok(plan) => plan,
        Err(ScheduleError::TooSmall { node_id, layers, max, available_bytes, needed_bytes }) => {
            let e = ScheduleError::TooSmall { node_id, layers, max, available_bytes, needed_bytes };
            return Err(e.into_error(&gb(available_bytes), &gb(needed_bytes)));
        }
        Err(e) => return Err(e.into_error("", "")),
    };
    let weight = weight_memory_per_layer(&input.model_config);
    let cache = cache_memory_per_layer(&input.model_config, input.max_seq_len);
    let mut figures = Vec::new();
    for (w, n) in plan.workers.iter().zip(plan.layer_counts.iter()) {
        figures.push(NodeFigures {
            decode_ms: s(*n as f32 * f(w.decode_ms_per_layer)),
            weight_memory_gb: s((n * weight) as f32 / 1e9),
            cache_memory_gb: s((n * cache) as f32 / 1e9),
        });
    }
    let times: Vec<f32> = figures.iter().map(|x| f(x.decode_ms)).collect();
    let max = times.iter().cloned().fold(f32::MIN, f32::max);
    let min = times.iter().cloned().filter(|t| *t > 0.0).fold(f32::MAX, f32::min);
    let hops = (times.len() - 1) as f32;
    Ok(build_result(plan, &figures, s(max + hops * f(input.hop_latency_ms)), s(max / min)))
}

#[test]
fn scheduler_test_auto_homogeneous_two_nodes() {
    let input = SchedulerInput {
        model_config: llama_8b_config(),
        workers: vec![worker("a", 22.0, 1.0), worker("b", 22.0, 1.0)],
        coordinator_compute: None,
        mode: SchedulingMode::Auto,
        max_seq_len: 4096,
        hop_latency_ms: s(2.0),
    };
    let result = schedule(&input).unwrap();

    assert_eq!(result.assignments.len(), 2);
    assert_eq!(result.assignments[0].layer_range, 0..16);
    assert_eq!(result.assignments[1].layer_range, 16..32);
    assert_eq!(result.assignments[0].role, NodeRole::Head);
    assert_eq!(result.assignments[1].role, NodeRole::Tail);
    assert!((f(result.imbalance_ratio) - 1.0).abs() < 0.01);
}

#[test]
fn scheduler_test_auto_heterogeneous_faster_gets_more() {
    let input = SchedulerInput {
        model_config: llama_8b_config(),
        workers: vec![
            worker("fast", 30.0, 0.5),
            worker("slow", 22.0, 1.1),
        ],
        coordinator_compute: None,
        mode: SchedulingMode::Auto,
        max_seq_len: 4096,
        hop_latency_ms: s(2.0),
    };
    let result = schedule(&input).unwrap();

    // Fast node should get more layers
    let fast = &result.assignments[0];
    let slow = &result.assignments[1];
    assert!(
        fast.layer_range.len() > slow.layer_range.len(),
        "fast node should get more layers: {} vs {}",
        fast.layer_range.len(),
        slow.layer_range.len()
    );

    // Total should be 32
    assert_eq!(
        fast.layer_range.len() + slow.layer_range.len(),
        32
    );

    // Imbalance should be close to 1.0
    assert!(
        f(result.imbalance_ratio) < 1.5,
        "imbalance ratio {} should be < 1.5",
        f(result.imbalance_ratio)
    );
}

#[test]
fn scheduler_test_auto_prunes_very_slow_node() {
    let input = SchedulerInput {
        model_config: llama_8b_config(),
        workers: vec![
            worker("fast1", 30.0, 0.5),
            worker("fast2", 30.0, 0.5),
            worker("turtle", 22.0, 10.0), // 20x slower
        ],
        coordinator_compute: None,
        mode: SchedulingMode::Auto,
        max_seq_len: 4096,
        hop_latency_ms: s(2.0),
    };
    let result = schedule(&input).unwrap();

    // Turtle should be excluded (2 fast nodes can hold the model)
    assert_eq!(result.assignments.len(), 2);
    assert_eq!(result.excluded_nodes.len(), 1);
    assert_eq!(result.excluded_nodes[0].node_id, "turtle");
}

#[test]
fn scheduler_test_auto_keeps_slow_node_when_memory_needed() {
    // Give fast nodes barely enough memory for ~10 layers each.
    // Model needs 32 layers, so the slow node is required.
    let per_layer = weight_memory_per_layer(&llama_8b_config())
        + cache_memory_per_layer(&llama_8b_config(), 4096);
    let small_mem = (per_layer * 11 + head_overhead(&llama_8b_config())) as f64 / 1e9;

    let input = SchedulerInput {
        model_config: llama_8b_config(),
        workers: vec![
            worker("fast1", small_mem, 0.5),
            worker("fast2", small_mem, 0.5),
            worker("slow", 30.0, 5.0),
        ],
        coordinator_compute: None,
        mode: SchedulingMode::Auto,
        max_seq_len: 4096,
        hop_latency_ms: s(2.0),
    };
    let result = schedule(&input).unwrap();

    // All 3 nodes should be assigned (slow node kept for memory)
    assert_eq!(result.assignments.len(), 3);
    assert!(result.excluded_nodes.is_empty());
}

#[test]
fn scheduler_test_auto_memory_ceiling_clamps() {
    // Fast node has limited memory, slow node has plenty
    let per_layer = weight_memory_per_layer(&llama_8b_config())
        + cache_memory_per_layer(&llama_8b_config(), 4096);
    let small_mem = (per_layer * 10 + head_overhead(&llama_8b_config())) as f64 / 1e9;

    let input = SchedulerInput {
        model_config: llama_8b_config(),
        workers: vec![
            worker("fast_small", small_mem, 0.5),
            worker("slow_big", 30.0, 1.0),
        ],
        coordinator_compute: None,
        mode: SchedulingMode::Auto,
        max_seq_len: 4096,
        hop_latency_ms: s(2.0),
    };
    let result = schedule(&input).unwrap();

    // Fast node should be clamped to ~10 layers despite wanting more
    let fast = &result.assignments[0];
    assert!(
        fast.layer_range.len() <= 10,
        "fast node should be clamped: got {}",
        fast.layer_range.len()
    );
    assert_eq!(
        result.assignments[0].layer_range.len() + result.assignments[1].layer_range.len(),
        32
    );
}

#[test]
fn scheduler_test_auto_insufficient_memory() {
    let per_layer = weight_memory_per_layer(&llama_8b_config())
        + cache_memory_per_layer(&llama_8b_config(), 4096);
    let tiny_mem = (per_layer * 5) as f64 / 1e9;

    let input = SchedulerInput {
        model_config: llama_8b_config(),
        workers: vec![worker("small1", tiny_mem, 1.0), worker("small2", tiny_mem, 1.0)],
        coordinator_compute: None,
        mode: SchedulingMode::Auto,
        max_seq_len: 4096,
        hop_latency_ms: s(2.0),
    };
    let result = schedule(&input);
    assert!(result.is_err(), "should fail: insufficient total memory");
}

#[test]
fn scheduler_test_equal_split_two_nodes() {
    let input = SchedulerInput {
        model_config: llama_8b_config(),
        workers: vec![worker("a", 22.0, 0.5), worker("b", 22.0, 1.1)],
        coordinator_compute: None,
        mode: SchedulingMode::EqualSplit,
        max_seq_len: 4096,
        hop_latency_ms: s(2.0),
    };
    let result = schedule(&input).unwrap();

    assert_eq!(result.assignments.len(), 2);
    assert_eq!(result.assignments[0].layer_range.len(), 16);
    assert_eq!(result.assignments[1].layer_range.len(), 16);
}

#[test]
fn scheduler_test_equal_split_three_nodes_remainder() {
    // 32 layers / 3 = 10 each + 2 remainder
    let input = SchedulerInput {
        model_config: llama_8b_config(),
        workers: vec![
            worker("a", 22.0, 1.0),
            worker("b", 30.0, 1.0),
            worker("c", 25.0, 1.0),
        ],
        coordinator_compute: None,
        mode: SchedulingMode::EqualSplit,
        max_seq_len: 4096,
        hop_latency_ms: s(2.0),
    };
    let result = schedule(&input).unwrap();

    let total: usize = result.assignments.iter().map(|a| a.layer_range.len()).sum();
    assert_eq!(total, 32);

    // Each node gets 10 or 11 layers
    for a in &result.assignments {
        assert!(
            a.layer_range.len() == 10 || a.layer_range.len() == 11,
            "expected 10 or 11, got {}",
            a.layer_range.len()
        );
    }
}

#[test]
fn scheduler_test_manual_valid() {
    let input = SchedulerInput {
        model_config: llama_8b_config(),
        workers: vec![worker("a", 22.0, 1.0), worker("b", 22.0, 1.0)],
        coordinator_compute: None,
        mode: SchedulingMode::Manual(vec![
            ManualAssignment {
                node_id: "a".into(),
                layer_range: 0..20,
            },
            ManualAssignment {
                node_id: "b".into(),
                layer_range: 20..32,
            },
        ]),
        max_seq_len: 4096,
        hop_latency_ms: s(2.0),
    };
    let result = schedule(&input).unwrap();

    assert_eq!(result.assignments.len(), 2);
    assert_eq!(result.assignments[0].layer_range, 0..20);
    assert_eq!(result.assignments[1].layer_range, 20..32);
}

#[test]
fn scheduler_test_manual_gap() {
    let input = SchedulerInput {
        model_config: llama_8b_config(),
        workers: vec![worker("a", 22.0, 1.0), worker("b", 22.0, 1.0)],
        coordinator_compute: None,
        mode: SchedulingMode::Manual(vec![
            ManualAssignment {
                node_id: "a".into(),
                layer_range: 0..10,
            },
            ManualAssignment {
                node_id: "b".into(),
                layer_range: 20..32, // gap at 10..20
            },
        ]),
        max_seq_len: 4096,
        hop_latency_ms: s(2.0),
    };
    assert!(schedule(&input).is_err());
}

#[test]
fn scheduler_test_manual_overlap() {
    let input = SchedulerInput {
        model_config: llama_8b_config(),
        workers: vec![worker("a", 22.0, 1.0), worker("b", 22.0, 1.0)],
        coordinator_compute: None,
        mode: SchedulingMode::Manual(vec![
            ManualAssignment {
                node_id: "a".into(),
                layer_range: 0..20,
            },
            ManualAssignment {
                node_id: "b".into(),
                layer_range: 15..32, // overlap at 15..20
            },
        ]),
        max_seq_len: 4096,
        hop_latency_ms: s(2.0),
    };
    assert!(schedule(&input).is_err());
}

#[test]
fn scheduler_test_manual_unknown_node() {
    let input = SchedulerInput {
        model_config: llama_8b_config(),
        workers: vec![worker("a", 22.0, 1.0)],
        coordinator_compute: None,
        mode: SchedulingMode::Manual(vec![
            ManualAssignment {
                node_id: "a".into(),
                layer_range: 0..16,
            },
            ManualAssignment {
                node_id: "nonexistent".into(),
                layer_range: 16..32,
            },
        ]),
        max_seq_len: 4096,
        hop_latency_ms: s(2.0),
    };
    assert!(schedule(&input).is_err());
}

#[test]
fn scheduler_test_no_workers() {
    let input = SchedulerInput {
        model_config: llama_8b_config(),
        workers: vec![],
        coordinator_compute: None,
        mode: SchedulingMode::Auto,
        max_seq_len: 4096,
        hop_latency_ms: s(2.0),
    };
    assert!(schedule(&input).is_err());
}

#[test]
fn scheduler_test_single_node() {
    let input = SchedulerInput {
        model_config: llama_8b_config(),
        workers: vec![worker("solo", 30.0, 1.0)],
        coordinator_compute: None,
        mode: SchedulingMode::Auto,
        max_seq_len: 4096,
        hop_latency_ms: s(2.0),
    };
    let result = schedule(&input).unwrap();

    assert_eq!(result.assignments.len(), 1);
    assert_eq!(result.assignments[0].layer_range, 0..32);
    assert_eq!(f(result.pipeline_decode_ms), 32.0); // no hops
}

#[test]
fn scheduler_test_coordinator_as_worker() {
    let input = SchedulerInput {
        model_config: llama_8b_config(),
        workers: vec![worker("remote", 22.0, 1.0)],
        coordinator_compute: Some(worker("coord", 30.0, 0.5)),
        mode: SchedulingMode::Auto,
        max_seq_len: 4096,
        hop_latency_ms: s(2.0),
    };
    let result = schedule(&input).unwrap();

    assert_eq!(result.assignments.len(), 2);
    // Coordinator (faster) should be first (head) and get more layers
    assert_eq!(result.assignments[0].node_id, "coord");
    assert!(result.assignments[0].layer_range.len() > result.assignments[1].layer_range.len());
}

#[test]
fn scheduler_test_imbalance_reporting() {
    let input = SchedulerInput {
        model_config: llama_8b_config(),
        workers: vec![worker("a", 22.0, 0.5), worker("b", 22.0, 1.0)],
        coordinator_compute: None,
        mode: SchedulingMode::EqualSplit, // forces imbalance
        max_seq_len: 4096,
        hop_latency_ms: s(2.0),
    };
    let result = schedule(&input).unwrap();

    // Node b is 2x slower, with equal layers imbalance should be ~2.0
    assert!(
        f(result.imbalance_ratio) > 1.5,
        "equal split with 2x speed diff should show imbalance: {}",
        f(result.imbalance_ratio)
    );
    assert_eq!(result.bottleneck_node, "b");
}

#[test]
fn scheduler_test_contiguous_ranges() {
    let input = SchedulerInput {
        model_config: llama_8b_config(),
        workers: vec![
            worker("a", 22.0, 1.0),
            worker("b", 22.0, 1.0),
            worker("c", 22.0, 1.0),
        ],
        coordinator_compute: None,
        mode: SchedulingMode::EqualSplit,
        max_seq_len: 4096,
        hop_latency_ms: s(2.0),
    };
    let result = schedule(&input).unwrap();

    // Verify ranges are contiguous
    let mut expected_start = 0;
    for a in &result.assignments {
        assert_eq!(a.layer_range.start, expected_start);
        expected_start = a.layer_range.end;
    }
    assert_eq!(expected_start, 32);
}

#[test]
fn scheduler_test_roles_assigned_correctly() {
    let input = SchedulerInput {
        model_config: llama_8b_config(),
        workers: vec![
            worker("a", 22.0, 1.0),
            worker("b", 22.0, 1.0),
            worker("c", 22.0, 1.0),
        ],
        coordinator_compute: None,
        mode: SchedulingMode::EqualSplit,
        max_seq_len: 4096,
        hop_latency_ms: s(2.0),
    };
    let result = schedule(&input).unwrap();

    assert_eq!(result.assignments[0].role, NodeRole::Head);
    assert_eq!(result.assignments[1].role, NodeRole::Middle);
    assert_eq!(result.assignments[2].role, NodeRole::Tail);
}

#[test]
fn scheduler_tests_test_auto_homogeneous_two_nodes() {
    let input = SchedulerInput {
        model_config: llama_8b_config(),
        workers: vec![worker("a", 22.0, 1.0), worker("b", 22.0, 1.0)],
        coordinator_compute: None,
        mode: SchedulingMode::Auto,
        max_seq_len: 4096,
        hop_latency_ms: s(2.0),
    };
    let result = schedule(&input).unwrap();

    assert_eq!(result.assignments.len(), 2);
    assert_eq!(result.assignments[0].layer_range, 0..16);
    assert_eq!(result.assignments[1].layer_range, 16..32);
    assert_eq!(result.assignments[0].role, NodeRole::Head);
    assert_eq!(result.assignments[1].role, NodeRole::Tail);
    assert!((f(result.imbalance_ratio) - 1.0).abs() < 0.01);
}

#[test]
fn scheduler_tests_test_auto_heterogeneous_faster_gets_more() {
    let input = SchedulerInput {
        model_config: llama_8b_config(),
        workers: vec![
            worker("fast", 30.0, 0.5),
            worker("slow", 22.0, 1.1),
        ],
        coordinator_compute: None,
        mode: SchedulingMode::Auto,
        max_seq_len: 4096,
        hop_latency_ms: s(2.0),
    };
    let result = schedule(&input).unwrap();

    // Fast node should get more layers
    let fast = &result.assignments[0];
    let slow = &result.assignments[1];
    assert!(
        fast.layer_range.len() > slow.layer_range.len(),
        "fast node should get more layers: {} vs {}",
        fast.layer_range.len(),
        slow.layer_range.len()
    );

    // Total should be 32
    assert_eq!(
        fast.layer_range.len() + slow.layer_range.len(),
        32
    );

    // Imbalance should be close to 1.0
    assert!(
        f(result.imbalance_ratio) < 1.5,
        "imbalance ratio {} should be < 1.5",
        f(result.imbalance_ratio)
    );
}

#[test]
fn scheduler_tests_test_auto_prunes_very_slow_node() {
    let input = SchedulerInput {
        model_config: llama_8b_config(),
        workers: vec![
            worker("fast1", 30.0, 0.5),
            worker("fast2", 30.0, 0.5),
            worker("turtle", 22.0, 10.0), // 20x slower
        ],
        coordinator_compute: None,
        mode: SchedulingMode::Auto,
        max_seq_len: 4096,
        hop_latency_ms: s(2.0),
    };
    let result = schedule(&input).unwrap();

    // Turtle should be excluded (2 fast nodes can hold the model)
    assert_eq!(result.assignments.len(), 2);
    assert_eq!(result.excluded_nodes.len(), 1);
    assert_eq!(result.excluded_nodes[0].node_id, "turtle");
}

#[test]
fn scheduler_tests_test_auto_keeps_slow_node_when_memory_needed() {
    // Give fast nodes barely enough memory for ~10 layers each.
    // Model needs 32 layers, so the slow node is required.
    let per_layer = weight_memory_per_layer(&llama_8b_config())
        + cache_memory_per_layer(&llama_8b_config(), 4096);
    let small_mem = (per_layer * 11 + head_overhead(&llama_8b_config())) as f64 / 1e9;

    let input = SchedulerInput {
        model_config: llama_8b_config(),
        workers: vec![
            worker("fast1", small_mem, 0.5),
            worker("fast2", small_mem, 0.5),
            worker("slow", 30.0, 5.0),
        ],
        coordinator_compute: None,
        mode: SchedulingMode::Auto,
        max_seq_len: 4096,
        hop_latency_ms: s(2.0),
    };
    let result = schedule(&input).unwrap();

    // All 3 nodes should be assigned (slow node kept for memory)
    assert_eq!(result.assignments.len(), 3);
    assert!(result.excluded_nodes.is_empty());
}

#[test]
fn scheduler_tests_test_auto_memory_ceiling_clamps() {
    // Fast node has limited memory, slow node has plenty
    let per_layer = weight_memory_per_layer(&llama_8b_config())
        + cache_memory_per_layer(&llama_8b_config(), 4096);
    let small_mem = (per_layer * 10 + head_overhead(&llama_8b_config())) as f64 / 1e9;

    let input = SchedulerInput {
        model_config: llama_8b_config(),
        workers: vec![
            worker("fast_small", small_mem, 0.5),
            worker("slow_big", 30.0, 1.0),
        ],
        coordinator_compute: None,
        mode: SchedulingMode::Auto,
        max_seq_len: 4096,
        hop_latency_ms: s(2.0),
    };
    let result = schedule(&input).unwrap();

    // Fast node should be clamped to ~10 layers despite wanting more
    let fast = &result.assignments[0];
    assert!(
        fast.layer_range.len() <= 10,
        "fast node should be clamped: got {}",
        fast.layer_range.len()
    );
    assert_eq!(
        result.assignments[0].layer_range.len() + result.assignments[1].layer_range.len(),
        32
    );
}

#[test]
fn scheduler_tests_test_auto_insufficient_memory() {
    let per_layer = weight_memory_per_layer(&llama_8b_config())
        + cache_memory_per_layer(&llama_8b_config(), 4096);
    let tiny_mem = (per_layer * 5) as f64 / 1e9;

    let input = SchedulerInput {
        model_config: llama_8b_config(),
        workers: vec![worker("small1", tiny_mem, 1.0), worker("small2", tiny_mem, 1.0)],
        coordinator_compute: None,
        mode: SchedulingMode::Auto,
        max_seq_len: 4096,
        hop_latency_ms: s(2.0),
    };
    let result = schedule(&input);
    assert!(result.is_err(), "should fail: insufficient total memory");
}

#[test]
fn scheduler_tests_test_equal_split_two_nodes() {
    let input = SchedulerInput {
        model_config: llama_8b_config(),
        workers: vec![worker("a", 22.0, 0.5), worker("b", 22.0, 1.1)],
        coordinator_compute: None,
        mode: SchedulingMode::EqualSplit,
        max_seq_len: 4096,
        hop_latency_ms: s(2.0),
    };
    let result = schedule(&input).unwrap();

    assert_eq!(result.assignments.len(), 2);
    assert_eq!(result.assignments[0].layer_range.len(), 16);
    assert_eq!(result.assignments[1].layer_range.len(), 16);
}

#[test]
fn scheduler_tests_test_equal_split_three_nodes_remainder() {
    // 32 layers / 3 = 10 each + 2 remainder
    let input = SchedulerInput {
        model_config: llama_8b_config(),
        workers: vec![
            worker("a", 22.0, 1.0),
            worker("b", 30.0, 1.0),
            worker("c", 25.0, 1.0),
        ],
        coordinator_compute: None,
        mode: SchedulingMode::EqualSplit,
        max_seq_len: 4096,
        hop_latency_ms: s(2.0),
    };
    let result = schedule(&input).unwrap();

    let total: usize = result.assignments.iter().map(|a| a.layer_range.len()).sum();
    assert_eq!(total, 32);

    // Each node gets 10 or 11 layers
    for a in &result.assignments {
        assert!(
            a.layer_range.len() == 10 || a.layer_range.len() == 11,
            "expected 10 or 11, got {}",
            a.layer_range.len()
        );
    }
}

#[test]
fn scheduler_tests_test_manual_valid() {
    let input = SchedulerInput {
        model_config: llama_8b_config(),
        workers: vec![worker("a", 22.0, 1.0), worker("b", 22.0, 1.0)],
        coordinator_compute: None,
        mode: SchedulingMode::Manual(vec![
            ManualAssignment {
                node_id: "a".into(),
                layer_range: 0..20,
            },
            ManualAssignment {
                node_id: "b".into(),
                layer_range: 20..32,
            },
        ]),
        max_seq_len: 4096,
        hop_latency_ms: s(2.0),
    };
    let result = schedule(&input).unwrap();

    assert_eq!(result.assignments.len(), 2);
    assert_eq!(result.assignments[0].layer_range, 0..20);
    assert_eq!(result.assignments[1].layer_range, 20..32);
}

#[test]
fn scheduler_tests_test_manual_gap() {
    let input = SchedulerInput {
        model_config: llama_8b_config(),
        workers: vec![worker("a", 22.0, 1.0), worker("b", 22.0, 1.0)],
        coordinator_compute: None,
        mode: SchedulingMode::Manual(vec![
            ManualAssignment {
                node_id: "a".into(),
                layer_range: 0..10,
            },
            ManualAssignment {
                node_id: "b".into(),
                layer_range: 20..32, // gap at 10..20
            },
        ]),
        max_seq_len: 4096,
        hop_latency_ms: s(2.0),
    };
    assert!(schedule(&input).is_err());
}

#[test]
fn scheduler_tests_test_manual_overlap() {
    let input = SchedulerInput {
        model_config: llama_8b_config(),
        workers: vec![worker("a", 22.0, 1.0), worker("b", 22.0, 1.0)],
        coordinator_compute: None,
        mode: SchedulingMode::Manual(vec![
            ManualAssignment {
                node_id: "a".into(),
                layer_range: 0..20,
            },
            ManualAssignment {
                node_id: "b".into(),
                layer_range: 15..32, // overlap at 15..20
            },
        ]),
        max_seq_len: 4096,
        hop_latency_ms: s(2.0),
    };
    assert!(schedule(&input).is_err());
}

#[test]
fn scheduler_tests_test_manual_unknown_node() {
    let input = SchedulerInput {
        model_config: llama_8b_config(),
        workers: vec![worker("a", 22.0, 1.0)],
        coordinator_compute: None,
        mode: SchedulingMode::Manual(vec![
            ManualAssignment {
                node_id: "a".into(),
                layer_range: 0..16,
            },
            ManualAssignment {
                node_id: "nonexistent".into(),
                layer_range: 16..32,
            },
        ]),
        max_seq_len: 4096,
        hop_latency_ms: s(2.0),
    };
    assert!(schedule(&input).is_err());
}

#[test]
fn scheduler_tests_test_no_workers() {
    let input = SchedulerInput {
        model_config: llama_8b_config(),
        workers: vec![],
        coordinator_compute: None,
        mode: SchedulingMode::Auto,
        max_seq_len: 4096,
        hop_latency_ms: s(2.0),
    };
    assert!(schedule(&input).is_err());
}

#[test]
fn scheduler_tests_test_single_node() {
    let input = SchedulerInput {
        model_config: llama_8b_config(),
        workers: vec![worker("solo", 30.0, 1.0)],
        coordinator_compute: None,
        mode: SchedulingMode::Auto,
        max_seq_len: 4096,
        hop_latency_ms: s(2.0),
    };
    let result = schedule(&input).unwrap();

    assert_eq!(result.assignments.len(), 1);
    assert_eq!(result.assignments[0].layer_range, 0..32);
    assert_eq!(f(result.pipeline_decode_ms), 32.0); // no hops
}

#[test]
fn scheduler_tests_test_coordinator_as_worker() {
    let input = SchedulerInput {
        model_config: llama_8b_config(),
        workers: vec![worker("remote", 22.0, 1.0)],
        coordinator_compute: Some(worker("coord", 30.0, 0.5)),
        mode: SchedulingMode::Auto,
        max_seq_len: 4096,
        hop_latency_ms: s(2.0),
    };
    let result = schedule(&input).unwrap();

    assert_eq!(result.assignments.len(), 2);
    // Coordinator (faster) should be first (head) and get more layers
    assert_eq!(result.assignments[0].node_id, "coord");
    assert!(result.assignments[0].layer_range.len() > result.assignments[1].layer_range.len());
}

#[test]
fn scheduler_tests_test_imbalance_reporting() {
    let input = SchedulerInput {
        model_config: llama_8b_config(),
        workers: vec![worker("a", 22.0, 0.5), worker("b", 22.0, 1.0)],
        coordinator_compute: None,
        mode: SchedulingMode::EqualSplit, // forces imbalance
        max_seq_len: 4096,
        hop_latency_ms: s(2.0),
    };
    let result = schedule(&input).unwrap();

    // Node b is 2x slower, with equal layers imbalance should be ~2.0
    assert!(
        f(result.imbalance_ratio) > 1.5,
        "equal split with 2x speed diff should show imbalance: {}",
        f(result.imbalance_ratio)
    );
    assert_eq!(result.bottleneck_node, "b");
}

#[test]
fn scheduler_tests_test_contiguous_ranges() {
    let input = SchedulerInput {
        model_config: llama_8b_config(),
        workers: vec![
            worker("a", 22.0, 1.0),
            worker("b", 22.0, 1.0),
            worker("c", 22.0, 1.0),
        ],
        coordinator_compute: None,
        mode: SchedulingMode::EqualSplit,
        max_seq_len: 4096,
        hop_latency_ms: s(2.0),
    };
    let result = schedule(&input).unwrap();

    // Verify ranges are contiguous
    let mut expected_start = 0;
    for a in &result.assignments {
        assert_eq!(a.layer_range.start, expected_start);
        expected_start = a.layer_range.end;
    }
    assert_eq!(expected_start, 32);
}

#[test]
fn scheduler_tests_test_roles_assigned_correctly() {
    let input = SchedulerInput {
        model_config: llama_8b_config(),
        workers: vec![
            worker("a", 22.0, 1.0),
            worker("b", 22.0, 1.0),
            worker("c", 22.0, 1.0),
        ],
        coordinator_compute: None,
        mode: SchedulingMode::EqualSplit,
        max_seq_len: 4096,
        hop_latency_ms: s(2.0),
    };
    let result = schedule(&input).unwrap();

    assert_eq!(result.assignments[0].role, NodeRole::Head);
    assert_eq!(result.assignments[1].role, NodeRole::Middle);
    assert_eq!(result.assignments[2].role, NodeRole::Tail);
}

#[test]
fn test_pruning_exclusion_reason_has_latency_values() {
    let input = SchedulerInput {
        model_config: llama_8b_config(),
        workers: vec![
            worker("fast1", 30.0, 0.5),
            worker("fast2", 30.0, 0.5),
            worker("turtle", 22.0, 10.0),
        ],
        coordinator_compute: None,
        mode: SchedulingMode::Auto,
        max_seq_len: 4096,
        hop_latency_ms: s(2.0),
    };
    let result = schedule(&input).unwrap();

    assert_eq!(result.excluded_nodes.len(), 1);
    match &result.excluded_nodes[0].reason {
        ExclusionReason::SlowsDownPipeline {
            latency_with_ms,
            latency_without_ms,
        } => {
            assert!(f(*latency_with_ms) > 0.0);
            assert!(f(*latency_without_ms) > 0.0);
            assert!(f(*latency_without_ms) < f(*latency_with_ms));
        }
    }
}

#[test]
fn test_equal_split_remainder_goes_to_largest_memory() {
    // 32 layers / 3 = 10 each + 2 remainder
    // Node "big" has most memory, should get a remainder layer
    let input = SchedulerInput {
        model_config: llama_8b_config(),
        workers: vec![
            worker("small", 20.0, 1.0),
            worker("big", 30.0, 1.0),
            worker("medium", 25.0, 1.0),
        ],
        coordinator_compute: None,
        mode: SchedulingMode::EqualSplit,
        max_seq_len: 4096,
        hop_latency_ms: s(2.0),
    };
    let result = schedule(&input).unwrap();

    // "big" (30 GB) should have 11 layers (got a remainder)
    let big = result.assignments.iter().find(|a| a.node_id == "big").unwrap();
    assert_eq!(big.layer_range.len(), 11);
}

#[test]
fn test_equal_split_memory_too_small_fails() {
    let per_layer = weight_memory_per_layer(&llama_8b_config())
        + cache_memory_per_layer(&llama_8b_config(), 4096);
    // Node can hold only 5 layers but equal split wants 16
    let tiny_mem = (per_layer * 5 + head_overhead(&llama_8b_config())) as f64 / 1e9;

    let input = SchedulerInput {
        model_config: llama_8b_config(),
        workers: vec![worker("small", tiny_mem, 1.0), worker("big", 30.0, 1.0)],
        coordinator_compute: None,
        mode: SchedulingMode::EqualSplit,
        max_seq_len: 4096,
        hop_latency_ms: s(2.0),
    };
    let result = schedule(&input);
    assert!(result.is_err());
    assert!(result.unwrap_err().to_string().contains("cannot hold"));
}

#[test]
fn test_manual_mode_memory_too_small_fails() {
    let per_layer = weight_memory_per_layer(&llama_8b_config())
        + cache_memory_per_layer(&llama_8b_config(), 4096);
    let tiny_mem = (per_layer * 5 + head_overhead(&llama_8b_config())) as f64 / 1e9;

    let input = SchedulerInput {
        model_config: llama_8b_config(),
        workers: vec![worker("small", tiny_mem, 1.0), worker("big", 30.0, 1.0)],
        coordinator_compute: None,
        mode: SchedulingMode::Manual(vec![
            ManualAssignment { node_id: "small".into(), layer_range: 0..20 },
            ManualAssignment { node_id: "big".into(), layer_range: 20..32 },
        ]),
        max_seq_len: 4096,
        hop_latency_ms: s(2.0),
    };
    let result = schedule(&input);
    assert!(result.is_err());
    assert!(result.unwrap_err().to_string().contains("cannot hold"));
}

#[test]
fn test_memory_estimation_sanity() {
    let config = llama_8b_config();
    let w_per_layer = weight_memory_per_layer(&config);
    let c_per_layer = cache_memory_per_layer(&config, 4096);
    let h_overhead = head_overhead(&config);
    let t_overhead = tail_overhead(&config);

    // Llama 8B: ~440 MB per layer weights (FP16)
    assert!(w_per_layer > 400_000_000, "weight/layer too small: {w_per_layer}");
    assert!(w_per_layer < 500_000_000, "weight/layer too large: {w_per_layer}");

    // KV cache at 4096 seq len: ~8 MB per layer
    assert!(c_per_layer > 4_000_000, "cache/layer too small: {c_per_layer}");
    assert!(c_per_layer < 20_000_000, "cache/layer too large: {c_per_layer}");

    // Head overhead: embedding table ~1 GB
    assert!(h_overhead > 500_000_000, "head overhead too small: {h_overhead}");
    assert!(h_overhead < 2_000_000_000, "head overhead too large: {h_overhead}");

    // Tail overhead: LM head ~1 GB + norm
    assert!(t_overhead > 500_000_000, "tail overhead too small: {t_overhead}");
    assert!(t_overhead < 2_000_000_000, "tail overhead too large: {t_overhead}");
}

#[test]
fn test_insufficient_capacity_error_message() {
    let per_layer = weight_memory_per_layer(&llama_8b_config())
        + cache_memory_per_layer(&llama_8b_config(), 4096);
    let tiny_mem = (per_layer * 5) as f64 / 1e9;

    let input = SchedulerInput {
        model_config: llama_8b_config(),
        workers: vec![worker("a", tiny_mem, 1.0), worker("b", tiny_mem, 1.0)],
        coordinator_compute: None,
        mode: SchedulingMode::Auto,
        max_seq_len: 4096,
        hop_latency_ms: s(2.0),
    };
    let err = schedule(&input).unwrap_err().to_string();
    assert!(
        err.contains("capacity") || err.contains("layers"),
        "error should mention capacity: {err}"
    );
}

#[test]
fn test_weight_and_cache_memory_in_result() {
    let input = SchedulerInput {
        model_config: llama_8b_config(),
        workers: vec![worker("a", 22.0, 1.0), worker("b", 22.0, 1.0)],
        coordinator_compute: None,
        mode: SchedulingMode::EqualSplit,
        max_seq_len: 4096,
        hop_latency_ms: s(2.0),
    };
    let result = schedule(&input).unwrap();

    for a in &result.assignments {
        assert!(f(a.weight_memory_gb) > 0.0, "weight_memory_gb should be positive");
        assert!(f(a.cache_memory_gb) > 0.0, "cache_memory_gb should be positive");
    }
}

#[test]
fn test_auto_iterative_multi_node_pruning() {
    // 2 fast nodes + 2 very slow nodes. Both slow nodes should be pruned
    // since the fast nodes have enough memory for the full model.
    let input = SchedulerInput {
        model_config: llama_8b_config(),
        workers: vec![
            worker("fast1", 30.0, 0.5),
            worker("fast2", 30.0, 0.5),
            worker("turtle1", 22.0, 10.0),
            worker("turtle2", 22.0, 15.0),
        ],
        coordinator_compute: None,
        mode: SchedulingMode::Auto,
        max_seq_len: 4096,
        hop_latency_ms: s(2.0),
    };
    let result = schedule(&input).unwrap();

    assert_eq!(result.assignments.len(), 2, "both slow nodes should be pruned");
    assert_eq!(result.excluded_nodes.len(), 2);
    let excluded_ids: Vec<&str> = result.excluded_nodes.iter().map(|e| e.node_id.as_str()).collect();
    assert!(excluded_ids.contains(&"turtle1"), "turtle1 should be excluded");
    assert!(excluded_ids.contains(&"turtle2"), "turtle2 should be excluded");
}

#[test]
fn test_auto_bottleneck_node_correct() {
    let input = SchedulerInput {
        model_config: llama_8b_config(),
        workers: vec![
            worker("fast", 30.0, 0.5),
            worker("slow", 22.0, 1.5),
        ],
        coordinator_compute: None,
        mode: SchedulingMode::Auto,
        max_seq_len: 4096,
        hop_latency_ms: s(2.0),
    };
    let result = schedule(&input).unwrap();

    // The slower node should be the bottleneck
    // (even with fewer layers, it takes longer per layer)
    let slow_assignment = result.assignments.iter().find(|a| a.node_id == "slow").unwrap();
    let fast_assignment = result.assignments.iter().find(|a| a.node_id == "fast").unwrap();

    // bottleneck is whichever has higher expected_decode_ms
    if f(slow_assignment.expected_decode_ms) >= f(fast_assignment.expected_decode_ms) {
        assert_eq!(result.bottleneck_node, "slow");
    } else {
        assert_eq!(result.bottleneck_node, "fast");
    }
}

#[test]
fn test_auto_redistribution_assigns_all_layers() {
    // 3 workers with different speeds; rounding may not sum to 32
    // Redistribution must ensure exactly 32 layers assigned.
    let input = SchedulerInput {
        model_config: llama_8b_config(),
        workers: vec![
            worker("a", 30.0, 0.7),
            worker("b", 22.0, 1.3),
            worker("c", 25.0, 1.0),
        ],
        coordinator_compute: None,
        mode: SchedulingMode::Auto,
        max_seq_len: 4096,
        hop_latency_ms: s(2.0),
    };
    let result = schedule(&input).unwrap();

    let total: usize = result.assignments.iter().map(|a| a.layer_range.len()).sum();
    assert_eq!(total, 32, "redistribution must produce exactly 32 layers");

    // Verify contiguous
    let mut start = 0;
    for a in &result.assignments {
        assert_eq!(a.layer_range.start, start);
        start = a.layer_range.end;
    }
    assert_eq!(start, 32);
}

#[test]
fn test_calibration_plausibility_valid() {
    let w = worker("ok", 22.0, 1.0);
    assert!(w.validate_calibration().is_ok());
}

#[test]
fn test_calibration_plausibility_zero_decode() {
    let mut w = worker("bad", 22.0, 0.0);
    w.decode_ms_per_layer = s(0.0);
    assert!(w.validate_calibration().is_err());
    assert!(w.validate_calibration().unwrap_err().to_string().contains("decode"));
}

#[test]
fn test_calibration_plausibility_negative_prefill() {
    let mut w = worker("bad", 22.0, 1.0);
    w.prefill_ms_per_layer_128 = s(-1.0);
    assert!(w.validate_calibration().is_err());
    assert!(w.validate_calibration().unwrap_err().to_string().contains("prefill"));
}

#[test]
fn test_calibration_plausibility_absurdly_large() {
    let mut w = worker("bad", 22.0, 1.0);
    w.decode_ms_per_layer = s(999.0);
    assert!(w.validate_calibration().is_err());
    assert!(w.validate_calibration().unwrap_err().to_string().contains("exceeds"));
}

#[test]
fn test_scheduler_rejects_implausible_calibration() {
    let mut w = worker("bad", 22.0, 0.0);
    w.decode_ms_per_layer = s(0.0);
    let input = SchedulerInput {
        model_config: llama_8b_config(),
        workers: vec![w],
        coordinator_compute: None,
        mode: SchedulingMode::Auto,
        max_seq_len: 4096,
        hop_latency_ms: s(2.0),
    };
    assert!(schedule(&input).is_err());
}

#[test]
fn test_scheduler_nan_decode_ms_rejected() {
    let mut w = worker("nan", 22.0, 1.0);
    w.decode_ms_per_layer = s(f32::NAN);
    // NaN fails the <= 0.0 check (NaN comparisons are false)
    // and also fails the > MAX check, so it should be caught
    assert!(w.validate_calibration().is_err());
}

#[test]
fn test_scheduler_inf_decode_ms_rejected() {
    let mut w = worker("inf", 22.0, 1.0);
    w.decode_ms_per_layer = s(f32::INFINITY);
    assert!(w.validate_calibration().is_err());
}

#[test]
fn test_scheduler_negative_decode_ms_rejected() {
    let mut w = worker("neg", 22.0, 1.0);
    w.decode_ms_per_layer = s(-0.5);
    assert!(w.validate_calibration().is_err());
}

#[test]
fn test_scheduler_zero_max_seq_len() {
    // Zero max_seq_len means no KV cache needed — should still work
    let input = SchedulerInput {
        model_config: llama_8b_config(),
        workers: vec![worker("a", 22.0, 1.0)],
        coordinator_compute: None,
        mode: SchedulingMode::Auto,
        max_seq_len: 0,
        hop_latency_ms: s(2.0),
    };
    let result = schedule(&input).unwrap();
    assert_eq!(result.assignments[0].layer_range, 0..32);
}

#[test]
fn test_manual_duplicate_node_ids() {
    let input = SchedulerInput {
        model_config: llama_8b_config(),
        workers: vec![worker("a", 22.0, 1.0)],
        coordinator_compute: None,
        mode: SchedulingMode::Manual(vec![
            ManualAssignment {
                node_id: "a".into(),
                layer_range: 0..16,
            },
            ManualAssignment {
                node_id: "a".into(),
                layer_range: 16..32,
            },
        ]),
        max_seq_len: 4096,
        hop_latency_ms: s(2.0),
    };
    let err = schedule(&input).unwrap_err().to_string();
    assert!(
        err.contains("duplicate"),
        "error should mention duplicate: {err}"
    );
}

#[test]
fn test_zero_workers_all_modes() {
    // Auto mode
    let input = SchedulerInput {
        model_config: llama_8b_config(),
        workers: vec![],
        coordinator_compute: None,
        mode: SchedulingMode::Auto,
        max_seq_len: 4096,
        hop_latency_ms: s(2.0),
    };
    assert!(schedule(&input).is_err());

    // EqualSplit mode
    let input = SchedulerInput {
        model_config: llama_8b_config(),
        workers: vec![],
        coordinator_compute: None,
        mode: SchedulingMode::EqualSplit,
        max_seq_len: 4096,
        hop_latency_ms: s(2.0),
    };
    assert!(schedule(&input).is_err());

    // Manual mode
    let input = SchedulerInput {
        model_config: llama_8b_config(),
        workers: vec![],
        coordinator_compute: None,
        mode: SchedulingMode::Manual(vec![]),
        max_seq_len: 4096,
        hop_latency_ms: s(2.0),
    };
    assert!(schedule(&input).is_err());
}

#[test]
fn test_auto_mode_invalid_metrics_rejected_by_scheduler() {
    // Negative decode_ms_per_layer
    let mut w = worker("bad", 22.0, 1.0);
    w.decode_ms_per_layer = s(-1.0);
    let input = SchedulerInput {
        model_config: llama_8b_config(),
        workers: vec![w],
        coordinator_compute: None,
        mode: SchedulingMode::Auto,
        max_seq_len: 4096,
        hop_latency_ms: s(2.0),
    };
    assert!(schedule(&input).is_err());

    // Zero decode_ms_per_layer
    let mut w = worker("bad", 22.0, 1.0);
    w.decode_ms_per_layer = s(0.0);
    let input = SchedulerInput {
        model_config: llama_8b_config(),
        workers: vec![worker("good", 22.0, 1.0), w],
        coordinator_compute: None,
        mode: SchedulingMode::Auto,
        max_seq_len: 4096,
        hop_latency_ms: s(2.0),
    };
    assert!(schedule(&input).is_err());
}

#[test]
fn test_scheduler_single_node_all_modes() {
    // Auto mode: single node gets all layers, no pruning
    let input = SchedulerInput {
        model_config: llama_8b_config(),
        workers: vec![worker("solo", 30.0, 1.0)],
        coordinator_compute: None,
        mode: SchedulingMode::Auto,
        max_seq_len: 4096,
        hop_latency_ms: s(2.0),
    };
    let result = schedule(&input).unwrap();
    assert_eq!(result.assignments.len(), 1);
    assert_eq!(result.assignments[0].layer_range, 0..32);
    assert!(result.excluded_nodes.is_empty(), "Auto should not prune the only node");

    // EqualSplit mode: single node gets all layers
    let input = SchedulerInput {
        model_config: llama_8b_config(),
        workers: vec![worker("solo", 30.0, 1.0)],
        coordinator_compute: None,
        mode: SchedulingMode::EqualSplit,
        max_seq_len: 4096,
        hop_latency_ms: s(2.0),
    };
    let result = schedule(&input).unwrap();
    assert_eq!(result.assignments.len(), 1);
    assert_eq!(result.assignments[0].layer_range, 0..32);

    // Manual mode: single node gets all layers
    let input = SchedulerInput {
        model_config: llama_8b_config(),
        workers: vec![worker("solo", 30.0, 1.0)],
        coordinator_compute: None,
        mode: SchedulingMode::Manual(vec![ManualAssignment {
            node_id: "solo".into(),
            layer_range: 0..32,
        }]),
        max_seq_len: 4096,
        hop_latency_ms: s(2.0),
    };
    let result = schedule(&input).unwrap();
    assert_eq!(result.assignments.len(), 1);
    assert_eq!(result.assignments[0].layer_range, 0..32);
}

#[test]
fn test_scheduler_contiguous_layer_ranges_auto_and_equal() {
    // Auto mode: 3 heterogeneous workers
    let input = SchedulerInput {
        model_config: llama_8b_config(),
        workers: vec![
            worker("a", 30.0, 0.7),
            worker("b", 22.0, 1.3),
            worker("c", 25.0, 1.0),
        ],
        coordinator_compute: None,
        mode: SchedulingMode::Auto,
        max_seq_len: 4096,
        hop_latency_ms: s(2.0),
    };
    let result = schedule(&input).unwrap();

    // Verify sorted, adjacent, no gaps
    let mut expected_start = 0;
    for a in &result.assignments {
        assert_eq!(
            a.layer_range.start, expected_start,
            "Auto: gap detected at layer {} (expected {})",
            a.layer_range.start, expected_start
        );
        assert!(
            a.layer_range.start < a.layer_range.end,
            "Auto: empty range for node {}",
            a.node_id
        );
        expected_start = a.layer_range.end;
    }
    assert_eq!(expected_start, 32, "Auto: ranges must cover all 32 layers");

    // EqualSplit mode: 3 equal workers
    let input = SchedulerInput {
        model_config: llama_8b_config(),
        workers: vec![
            worker("a", 22.0, 1.0),
            worker("b", 22.0, 1.0),
            worker("c", 22.0, 1.0),
        ],
        coordinator_compute: None,
        mode: SchedulingMode::EqualSplit,
        max_seq_len: 4096,
        hop_latency_ms: s(2.0),
    };
    let result = schedule(&input).unwrap();

    let mut expected_start = 0;
    for a in &result.assignments {
        assert_eq!(
            a.layer_range.start, expected_start,
            "EqualSplit: gap detected at layer {} (expected {})",
            a.layer_range.start, expected_start
        );
        assert!(
            a.layer_range.start < a.layer_range.end,
            "EqualSplit: empty range for node {}",
            a.node_id
        );
        expected_start = a.layer_range.end;
    }
    assert_eq!(expected_start, 32, "EqualSplit: ranges must cover all 32 layers");
}

#[test]
fn test_scheduler_equal_split_node_overflow_returns_error() {
    let per_layer = weight_memory_per_layer(&llama_8b_config())
        + cache_memory_per_layer(&llama_8b_config(), 4096);
    // Node "small" can hold only 5 layers but equal split of 32/2 = 16 per node
    let tiny_mem = (per_layer * 5 + head_overhead(&llama_8b_config())) as f64 / 1e9;

    let input = SchedulerInput {
        model_config: llama_8b_config(),
        workers: vec![worker("small", tiny_mem, 1.0), worker("big", 30.0, 1.0)],
        coordinator_compute: None,
        mode: SchedulingMode::EqualSplit,
        max_seq_len: 4096,
        hop_latency_ms: s(2.0),
    };
    let result = schedule(&input);
    assert!(result.is_err(), "EqualSplit should fail when a node cannot hold its share");
    let err_msg = result.unwrap_err().to_string();
    assert!(
        err_msg.contains("cannot hold"),
        "error should mention 'cannot hold': {err_msg}"
    );
}

#[test]
fn test_scheduler_very_large_hop_latency_prunes_to_single_node() {
    // If hop latency is extremely high, adding a second node is never worth it
    let input = SchedulerInput {
        model_config: llama_8b_config(),
        workers: vec![worker("a", 30.0, 1.0), worker("b", 30.0, 1.0)],
        coordinator_compute: None,
        mode: SchedulingMode::Auto,
        max_seq_len: 4096,
        hop_latency_ms: s(1000.0), // 1 second per hop!
    };
    let result = schedule(&input).unwrap();
    // Should prune to 1 node since the hop latency makes 2 nodes worse
    assert_eq!(result.assignments.len(), 1);
}

fn two(mode: SchedulingMode) -> SchedulerInput {
    SchedulerInput {
        model_config: llama_8b_config(),
        workers: vec![worker("a", 22.0, 1.0), worker("b", 22.0, 1.0)],
        coordinator_compute: None,
        mode,
        max_seq_len: 4096,
        hop_latency_ms: s(2.0),
    }
}

fn by_hand(ranges: &[(&str, std::ops::Range<usize>)]) -> SchedulingMode {
    SchedulingMode::Manual(
        ranges
            .iter()
            .map(|(id, r)| ManualAssignment { node_id: id.to_string(), layer_range: r.clone() })
            .collect(),
    )
}

#[test]
fn sizes_of_llama_8b() {
    let c = llama_8b_config();
    assert_eq!(weight_memory_per_layer(&c), 436_224_000);
    assert_eq!(cache_memory_per_layer(&c, 4096), 16_777_216);
    assert_eq!(head_overhead(&c), 1_050_673_152);
    assert_eq!(tail_overhead(&c), 1_050_681_344);
    assert_eq!(role_overhead(0, 1, &c), 2_101_354_496);
    assert_eq!(role_overhead(1, 3, &c), 0);
    assert_eq!(max_layers_for_node(100, 7, 30), 10);
    assert_eq!(max_layers_for_node(100, 0, 30), 0);
    assert_eq!(max_layers_for_node(20, 7, 30), 0);
}

#[test]
fn manual_errors_say_what_is_wrong() {
    let gap = schedule(&two(by_hand(&[("a", 0..3), ("b", 5..32)]))).unwrap_err();
    assert_eq!(
        gap.to_string(),
        "pipeline error: manual assignments have gaps at layers: [3, 4]"
    );
    let overlap = schedule(&two(by_hand(&[("a", 0..20), ("b", 15..32)]))).unwrap_err();
    assert_eq!(
        overlap.to_string(),
        "pipeline error: manual assignment overlap at layer 15"
    );
    let beyond = schedule(&two(by_hand(&[("a", 0..20), ("b", 20..33)]))).unwrap_err();
    assert_eq!(
        beyond.to_string(),
        "pipeline error: manual assignment for 'b' exceeds model layers: 20..33 > 32"
    );
    let unknown = schedule(&two(by_hand(&[("a", 0..20), ("c", 20..32)]))).unwrap_err();
    assert_eq!(
        unknown.to_string(),
        "pipeline error: manual assignment references unknown node 'c'"
    );
    let twice = schedule(&two(by_hand(&[("a", 0..20), ("a", 20..32)]))).unwrap_err();
    assert_eq!(
        twice.to_string(),
        "pipeline error: duplicate manual assignment for node 'a'"
    );
}

#[test]
fn manual_ranges_are_kept_in_any_order() {
    let result = schedule(&two(by_hand(&[("b", 20..32), ("a", 0..20)]))).unwrap();
    assert_eq!(result.assignments[0].node_id, "a");
    assert_eq!(result.assignments[0].layer_range, 0..20);
    assert_eq!(result.assignments[0].role, NodeRole::Head);
    assert_eq!(result.assignments[1].node_id, "b");
    assert_eq!(result.assignments[1].layer_range, 20..32);
    assert_eq!(result.assignments[1].role, NodeRole::Tail);
    // The first in the pipeline is looked at first.
    let err = schedule(&two(by_hand(&[("y", 20..32), ("x", 0..20)]))).unwrap_err();
    assert!(err.to_string().contains("unknown node 'x'"));
    // Where the ranges ascend, a node without layers keeps its place.
    let result = schedule(&two(by_hand(&[("b", 9..9), ("a", 0..32)]))).unwrap();
    assert_eq!(result.assignments[0].node_id, "b");
    assert_eq!(result.assignments[0].layer_range, 0..0);
    assert_eq!(result.assignments[1].layer_range, 0..32);
}

#[test]
fn equal_split_says_how_much_is_missing() {
    let mut input = two(SchedulingMode::EqualSplit);
    input.workers[1].gpu_memory_available = 3_000_000_000;
    let err = schedule(&input).unwrap_err();
    assert_eq!(
        err.to_string(),
        "pipeline error: node 'b' cannot hold 16 layers (max 4): 3.0 GB available, needs 8.3 GB"
    );
}

#[test]
fn equal_split_breaks_ties_by_order() {
    let mut input = two(SchedulingMode::EqualSplit);
    input.workers.push(worker("c", 22.0, 1.0));
    let result = schedule(&input).unwrap();
    let sizes: Vec<usize> = result.assignments.iter().map(|a| a.layer_range.len()).collect();
    assert_eq!(sizes, vec![11, 11, 10]);
}

#[test]
fn redistribution_fills_the_fastest_and_thins_the_slowest() {
    let speeds = vec![s(1.0), s(2.0), s(0.5)];
    let rooms = vec![10, 4, 10];
    let mut counts = vec![3, 3, 3];
    redistribute_layers(&mut counts, &rooms, &speeds, 12).unwrap();
    assert_eq!(counts, vec![5, 4, 3]);
    let mut counts = vec![3, 3, 3];
    redistribute_layers(&mut counts, &rooms, &speeds, 5).unwrap();
    assert_eq!(counts, vec![2, 3, 0]);
    let mut counts = vec![3, 3, 3];
    let err = redistribute_layers(&mut counts, &rooms, &speeds, 25).unwrap_err();
    assert_eq!(
        err.to_string(),
        "pipeline error: insufficient total capacity: need 25 layers, can fit 24"
    );
    assert_eq!(counts, vec![10, 4, 10]);
    // Speeds that no comparison picks leave the surplus where it is.
    let mut counts = vec![3];
    let err = redistribute_layers(&mut counts, &vec![9], &vec![s(f32::INFINITY)], 2).unwrap_err();
    assert_eq!(
        err.to_string(),
        "pipeline error: failed to assign all layers: assigned 3, need 2"
    );
    assert_eq!(counts, vec![3]);
}

#[test]
fn calibration_errors_name_the_time() {
    let mut w = worker("w", 22.0, 1.0);
    w.decode_ms_per_layer = s(f32::NAN);
    assert_eq!(
        w.validate_calibration().unwrap_err().to_string(),
        "pipeline error: worker 'w': decode_ms_per_layer must be a positive number"
    );
    // Anything below 999 ms can be.
    for ms in [0.001, 45.0, 200.0, 998.5] {
        w.decode_ms_per_layer = s(ms);
        assert!(w.validate_calibration().is_ok());
    }
    w.decode_ms_per_layer = s(999.0);
    assert_eq!(
        w.validate_calibration().unwrap_err().to_string(),
        "pipeline error: worker 'w': decode_ms_per_layer exceeds what is plausible"
    );
    w.decode_ms_per_layer = s(1.0);
    for ms in [0.0, -0.0, 5000.0] {
        w.prefill_ms_per_layer_128 = s(ms);
        assert!(w.validate_calibration().is_ok());
    }
    w.prefill_ms_per_layer_128 = s(-0.5);
    assert_eq!(
        w.validate_calibration().unwrap_err().to_string(),
        "pipeline error: worker 'w': prefill_ms_per_layer_128 must not be negative"
    );
}

#[test]
fn slow_workers_are_scheduled() {
    let input = SchedulerInput {
        model_config: llama_8b_config(),
        workers: vec![worker("slow", 30.0, 200.0)],
        coordinator_compute: None,
        mode: SchedulingMode::Auto,
        max_seq_len: 4096,
        hop_latency_ms: s(2.0),
    };
    let result = schedule(&input).unwrap();
    assert_eq!(result.assignments[0].layer_range, 0..32);
}

#[test]
fn the_last_of_several_slowest_is_dropped() {
    let nodes = vec![worker("a", 1.0, 2.0), worker("b", 1.0, 1.0), worker("c", 1.0, 2.0)];
    let left = drop_slowest(&nodes);
    let ids: Vec<&str> = left.iter().map(|w| w.node_id.as_str()).collect();
    assert_eq!(ids, vec!["a", "b"]);
}

#[test]
fn slow_nodes_stay_where_the_model_needs_their_memory() {
    let c = llama_8b_config();
    let nodes = vec![worker("a", 16.5, 1.0)];
    assert!(!model_fits(&nodes, &c, 4096));
    let nodes = vec![worker("a", 16.6, 1.0)];
    assert!(model_fits(&nodes, &c, 4096));
}

#[test]
fn memory_may_be_unbounded() {
    for mode in [SchedulingMode::Auto, SchedulingMode::EqualSplit] {
        let mut workers = vec![worker("a", 22.0, 1.0), worker("b", 22.0, 1.0), worker("c", 22.0, 1.0)];
        for w in &mut workers {
            w.gpu_memory_available = usize::MAX;
        }
        assert!(model_fits(&workers, &llama_8b_config(), 4096));
        let input = SchedulerInput {
            model_config: llama_8b_config(),
            workers,
            coordinator_compute: None,
            mode,
            max_seq_len: 4096,
            hop_latency_ms: s(2.0),
        };
        let result = schedule(&input).unwrap();
        assert_eq!(result.assignments.last().unwrap().layer_range.end, 32);
    }
}

#[test]
fn models_larger_than_memory_can_count_are_split_by_hand() {
    // Layers of 2^62 bytes and more: eight of them cannot be counted together.
    let mut c = llama_8b_config();
    c.num_layers = 8;
    c.num_kv_heads = 1;
    c.head_dim = 1;
    let max_seq_len = 1usize << 60;
    let mut workers: Vec<WorkerCapabilities> =
        (0..8).map(|i| worker(&format!("w{i}"), 22.0, 1.0)).collect();
    for w in &mut workers {
        w.gpu_memory_available = usize::MAX;
    }
    let asked = (0..8)
        .map(|i| ManualAssignment { node_id: format!("w{i}"), layer_range: i..i + 1 })
        .collect();
    for mode in [SchedulingMode::Manual(asked), SchedulingMode::EqualSplit] {
        let input = SchedulerInput {
            model_config: c,
            workers: workers.clone(),
            coordinator_compute: None,
            mode,
            max_seq_len,
            hop_latency_ms: s(2.0),
        };
        let result = schedule(&input).unwrap();
        assert_eq!(result.assignments.len(), 8);
        assert_eq!(result.assignments[7].layer_range, 7..8);
    }
}
