use lau_cudaclaw_bridge::BridgeError;
use lau_cudaclaw_bridge::{DispatchContext, GpuAvailability};

#[test]
fn test_error_display_no_gpu() {
    let e = BridgeError::NoGpuAvailable;
    assert!(e.message().contains("no GPU"));
}

#[test]
fn test_error_display_shape_mismatch() {
    let e = BridgeError::ShapeMismatch {
        expected: vec![3, 4],
        got: vec![2, 5],
    };
    let s = e.message();
    assert!(s.contains("3") && s.contains("2"));
}

#[test]
fn test_error_display_other() {
    let e = BridgeError::Other("oops".into());
    assert_eq!(e.message(), "oops");
}

#[test]
fn test_error_messages_exact() {
    assert_eq!(BridgeError::NoGpuAvailable.message(), "no GPU available");
    assert_eq!(
        BridgeError::DispatchFailed("queue full".into()).message(),
        "dispatch failed: queue full"
    );
    assert_eq!(
        BridgeError::ShapeMismatch { expected: vec![3, 4], got: vec![2, 5] }.message(),
        "shape mismatch: expected [3, 4], got [2, 5]"
    );
    assert_eq!(
        BridgeError::MemoryAllocationFailed("oom".into()).message(),
        "memory allocation failed: oom"
    );
    assert_eq!(BridgeError::KernelError("ptx".into()).message(), "kernel error: ptx");
    assert_eq!(BridgeError::Timeout.message(), "GPU operation timed out");
}

#[test]
fn test_error_shape_lists_match_debug_notation() {
    let cases: Vec<Vec<usize>> = vec![vec![], vec![0], vec![10, 205, 7], vec![usize::MAX]];
    for xs in cases {
        let e = BridgeError::ShapeMismatch { expected: xs.clone(), got: vec![1] };
        assert_eq!(e.message(), format!("shape mismatch: expected {:?}, got [1]", xs));
    }
}

#[test]
fn test_gpu_availability_default() {
    let avail = GpuAvailability::from_env_flag(false);
    // Without the simulation switch, no GPU is reported.
    assert_eq!(avail.gpu_available, false);
    assert_eq!(avail.device_count, 0);
}

#[test]
fn test_gpu_availability_simulated() {
    let avail = GpuAvailability::from_env_flag(true);
    assert!(avail.gpu_available);
    assert_eq!(avail.device_count, 1);
    assert_eq!(avail.device_name.as_deref(), Some("SimulatedCUDAclaw"));
}

#[test]
fn test_dispatch_context_default() {
    let ctx = DispatchContext::from_availability(&GpuAvailability::from_env_flag(false));
    assert!(!ctx.gpu_available);
    assert_eq!(ctx.device_id, 0);
}

#[test]
fn test_dispatch_context_fields() {
    let ctx = DispatchContext::from_availability(&GpuAvailability::from_env_flag(true));
    assert!(ctx.gpu_available);
    assert_eq!(ctx.stream_id, 0);
    assert_eq!(ctx.timeout_ms, 30_000);
}
