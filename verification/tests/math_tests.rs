use lau_cudaclaw_bridge::bench::BenchmarkHarness;
use lau_cudaclaw_bridge::grid::set_boundary;
use lau_cudaclaw_bridge::nn::{estimated_network_flops, initial_weight_draws, simple_rng};
use lau_cudaclaw_bridge::{BridgeError, ElementOp, GpuAvailability, MathBridge, MathOp, NnBridge, PdeBridge, ReduceOp};

#[test]
fn test_matmul_shape_mismatch() {
    let input = vec![1.0, 2.0, 3.0];
    let res = MathOp::MatMul { a_shape: (2, 2), b_shape: (3, 2) }.output_len(input.len());
    assert!(res.is_err());
}

#[test]
fn test_matmul_checks() {
    let op = MathOp::MatMul { a_shape: (2, 3), b_shape: (3, 4) };
    assert_eq!(op.output_len(6 + 12).unwrap(), 8);
    match op.output_len(5) {
        Err(BridgeError::Other(msg)) => assert_eq!(msg, "input length mismatch for matmul"),
        _ => panic!("expected a length error"),
    }
    match (MathOp::MatMul { a_shape: (2, 2), b_shape: (3, 2) }).output_len(3) {
        Err(BridgeError::ShapeMismatch { expected, got }) => {
            assert_eq!(expected, vec![2, 2]);
            assert_eq!(got, vec![3, 2]);
        }
        _ => panic!("expected a shape mismatch"),
    }
}

#[test]
fn test_other_op_checks() {
    assert_eq!(MathOp::Fft { n: 4 }.output_len(8).unwrap(), 8);
    match (MathOp::Fft { n: 4 }).output_len(7) {
        Err(BridgeError::Other(msg)) => assert_eq!(msg, "input too short for FFT"),
        _ => panic!("expected an error"),
    }
    assert_eq!(MathOp::Reduce { n: 3, op: ReduceOp::Sum }.output_len(0).unwrap(), 0);
    assert_eq!(MathOp::Reduce { n: 3, op: ReduceOp::Max }.output_len(3).unwrap(), 1);
    assert_eq!(MathOp::ElementWise { n: 2, op: ElementOp::Add }.output_len(5).unwrap(), 2);
    assert_eq!(MathOp::Transpose { rows: 2, cols: 3 }.output_len(6).unwrap(), 6);
    match (MathOp::Transpose { rows: 2, cols: 3 }).output_len(5) {
        Err(BridgeError::ShapeMismatch { expected, got }) => {
            assert_eq!(expected, vec![2, 3]);
            assert_eq!(got, vec![5]);
        }
        _ => panic!("expected a shape mismatch"),
    }
}

#[test]
fn test_math_dispatch_estimated_flops() {
    let op = MathOp::MatMul { a_shape: (4, 3), b_shape: (3, 5) };
    assert_eq!(op.estimated_flops(), 4 * 3 * 5 * 2);
}

#[test]
fn test_other_estimated_flops() {
    assert_eq!(MathOp::Fft { n: 8 }.estimated_flops(), 320);
    assert_eq!(MathOp::Reduce { n: 9, op: ReduceOp::Product }.estimated_flops(), 9);
    assert_eq!(MathOp::ElementWise { n: 9, op: ElementOp::Sqrt }.estimated_flops(), 9);
    assert_eq!(MathOp::Transpose { rows: 3, cols: 7 }.estimated_flops(), 21);
}

#[test]
fn test_nn_dispatch_estimated_flops() {
    let dims = vec![(4, 3)];
    assert_eq!(estimated_network_flops(&dims, 5), 5 * 4 * 3 * 2);
}

#[test]
fn test_network_flops_sums_layers() {
    let dims = vec![(3, 4), (4, 2)];
    assert_eq!(estimated_network_flops(&dims, 2), (24 + 16) * 2);
    assert_eq!(estimated_network_flops(&vec![], 7), 0);
}

#[test]
fn test_simple_rng_is_odd() {
    assert_eq!(simple_rng(6), 7);
    assert_eq!(simple_rng(7), 7);
    assert_eq!(simple_rng(0), 1);
}

#[test]
fn test_initial_weight_draws() {
    let draws = initial_weight_draws(2, 3);
    assert_eq!(draws.len(), 6);
    let mut rng: u64 = 7;
    for d in draws {
        rng = rng.wrapping_mul(6364136223846793005).wrapping_add(1);
        assert_eq!(d, rng >> 33);
        assert!(d < (1u64 << 31));
    }
}

#[test]
fn test_pde_set_boundary() {
    let mut data = vec![0.0; 16];
    set_boundary(&mut data, 4, 4, 42.0);
    // Corners
    assert_eq!(data[0], 42.0);
    assert_eq!(data[3], 42.0);
    assert_eq!(data[12], 42.0);
    assert_eq!(data[15], 42.0);
}

#[test]
fn test_set_boundary_leaves_interior() {
    let mut data: Vec<i32> = (0..20).collect();
    set_boundary(&mut data, 3, 4, -1);
    assert_eq!(data[..12], [-1, -1, -1, -1, -1, 5, 6, -1, -1, -1, -1, -1]);
    assert_eq!(data[12..], [12, 13, 14, 15, 16, 17, 18, 19]);
    let mut empty: Vec<i32> = vec![];
    set_boundary(&mut empty, 0, 0, 1);
    assert!(empty.is_empty());
}

#[test]
fn test_median_ns() {
    let harness = BenchmarkHarness::new(1, 3);
    assert_eq!(harness.warmup_iters, 1);
    assert_eq!(harness.median_ns(vec![9, 1, 5]), 5);
    let harness = BenchmarkHarness::new(0, 4);
    assert_eq!(harness.median_ns(vec![40, 10, 30, 20]), 30);
}

#[test]
fn test_bridges_new() {
    let sim = GpuAvailability::from_env_flag(true);
    let _m = MathBridge::new(&sim);
    let _p = PdeBridge::new(&sim);
    let _n = NnBridge::new(&sim);
}
