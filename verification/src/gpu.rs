use vstd::prelude::*;

use crate::error::BridgeError;

verus! {

/// Outcome of probing for CUDA devices.
#[derive(Debug, Clone)]
pub struct GpuAvailability {
    pub gpu_available: bool,
    pub device_count: u32,
    pub device_name: Option<String>,
}

impl GpuAvailability {
    /// The availability that a probe reports, given whether the simulation
    /// switch (the `LAU_CUDACLAWSIM_GPU` environment variable) is set.
    /// Without it no GPU is reported; with it one simulated device is.
    pub fn from_env_flag(simulation_flag_set: bool) -> (r: Self)
        ensures
            r.gpu_available == simulation_flag_set,
            r.device_count == (if simulation_flag_set { 1u32 } else { 0u32 }),
            simulation_flag_set ==> (r.device_name matches Some(name) && name@
                == "SimulatedCUDAclaw"@),
            !simulation_flag_set ==> r.device_name is None,
    {
        if simulation_flag_set {
            GpuAvailability {
                gpu_available: true,
                device_count: 1,
                device_name: Some(String::from_str("SimulatedCUDAclaw")),
            }
        } else {
            GpuAvailability { gpu_available: false, device_count: 0, device_name: None }
        }
    }
}

/// Context passed into every dispatch call.
#[derive(Debug, Clone)]
pub struct DispatchContext {
    pub gpu_available: bool,
    pub device_id: u32,
    pub stream_id: u64,
    pub timeout_ms: u64,
}

impl DispatchContext {
    /// The default context for the given probe result: device 0, stream 0,
    /// and a 30 second timeout.
    pub fn from_availability(avail: &GpuAvailability) -> (r: Self)
        ensures
            r.gpu_available == avail.gpu_available,
            r.device_id == 0,
            r.stream_id == 0,
            r.timeout_ms == 30_000,
    {
        DispatchContext {
            gpu_available: avail.gpu_available,
            device_id: 0,
            stream_id: 0,
            timeout_ms: 30_000,
        }
    }
}

/// Result returned from a dispatch.
#[derive(Debug, Clone)]
pub struct DispatchResult {
    pub success: bool,
    pub gpu_used: bool,
    pub elapsed_ns: u64,
    pub bytes_transferred: u64,
    pub metadata: Vec<(String, String)>,
}

/// Core dispatch trait.  Any module can implement this to gain GPU
/// acceleration through the command queue.
pub trait GpuDispatch: Send + Sync {
    /// Human-readable label for logging / diagnostics.
    fn label(&self) -> &str;

    /// Execute on GPU if available, otherwise on CPU.
    fn dispatch(&self, ctx: &DispatchContext) -> Result<DispatchResult, BridgeError>;

    /// Whether a real GPU was used on the last dispatch.
    fn uses_gpu(&self) -> (r: bool)
        default_ensures
            !r,
    {
        false
    }

    /// Estimated FLOPs for benchmarking purposes.
    fn estimated_flops(&self) -> (r: u64)
        default_ensures
            r == 0,
    {
        0
    }
}

} // verus!
