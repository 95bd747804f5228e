pub mod bench;
pub mod buffer;
pub mod error;
pub mod gpu;
pub mod graph;
pub mod grid;
pub mod layout;
pub mod math;
pub mod nn;

pub use bench::BenchmarkHarness;
pub use buffer::UnifiedBuffer;
pub use error::BridgeError;
pub use gpu::{DispatchContext, DispatchResult, GpuAvailability, GpuDispatch};
pub use graph::{Graph, GraphBridge};
pub use grid::PdeBridge;
pub use layout::TensorBridge;
pub use math::{ElementOp, MathBridge, MathOp, ReduceOp};
pub use nn::{NnBridge, simple_rng};
