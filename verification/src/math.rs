use vstd::prelude::*;

use crate::buffer::{is_shape_mismatch, single_size};
use crate::error::BridgeError;
use crate::gpu::GpuAvailability;

verus! {

/// Operations that can be dispatched to the command queue.
#[derive(Debug)]
#[allow(inconsistent_fields)]
pub enum MathOp {
    MatMul { a_shape: (usize, usize), b_shape: (usize, usize) },
    Fft { n: usize },
    Reduce { n: usize, op: ReduceOp },
    ElementWise { n: usize, op: ElementOp },
    Transpose { rows: usize, cols: usize },
}

#[derive(Debug, Clone, Copy)]
pub enum ReduceOp {
    Sum,
    Max,
    Min,
    Product,
}

#[derive(Debug, Clone, Copy)]
pub enum ElementOp {
    Add,
    Sub,
    Mul,
    Div,
    Exp,
    Log,
    Sqrt,
}

impl Clone for MathOp {
    fn clone(&self) -> (r: Self)
        ensures
            r == *self,
    {
        match self {
            MathOp::MatMul { a_shape, b_shape } => MathOp::MatMul {
                a_shape: *a_shape,
                b_shape: *b_shape,
            },
            MathOp::Fft { n } => MathOp::Fft { n: *n },
            MathOp::Reduce { n, op } => MathOp::Reduce { n: *n, op: *op },
            MathOp::ElementWise { n, op } => MathOp::ElementWise { n: *n, op: *op },
            MathOp::Transpose { rows, cols } => MathOp::Transpose { rows: *rows, cols: *cols },
        }
    }
}

/// The sizes that checking an operation against an input computes fit in a
/// machine word.
pub open spec fn op_sizes_fit(op: MathOp, input_len: usize) -> bool {
    match op {
        MathOp::MatMul { a_shape, b_shape } => a_shape.1 == b_shape.0 ==> {
            &&& a_shape.0 * a_shape.1 + b_shape.0 * b_shape.1 <= usize::MAX
            &&& input_len == a_shape.0 * a_shape.1 + b_shape.0 * b_shape.1 ==> a_shape.0
                * b_shape.1 <= usize::MAX
        },
        MathOp::Fft { n } => n * 2 <= usize::MAX,
        MathOp::Transpose { rows, cols } => rows * cols <= usize::MAX,
        _ => true,
    }
}

/// The length of the result of an operation on an input of `input_len`
/// entries, or `None` where the input does not fit the operation.
pub open spec fn op_output_len(op: MathOp, input_len: nat) -> Option<nat> {
    match op {
        MathOp::MatMul { a_shape, b_shape } => if a_shape.1 == b_shape.0 && input_len == a_shape.0
            * a_shape.1 + b_shape.0 * b_shape.1 {
            Some((a_shape.0 * b_shape.1) as nat)
        } else {
            None
        },
        MathOp::Fft { n } => if input_len >= n * 2 {
            Some((n * 2) as nat)
        } else {
            None
        },
        MathOp::Reduce { .. } => if input_len == 0 {
            Some(0)
        } else {
            Some(1)
        },
        MathOp::ElementWise { .. } => Some(input_len / 2),
        MathOp::Transpose { rows, cols } => if input_len == rows * cols {
            Some((rows * cols) as nat)
        } else {
            None
        },
    }
}

/// The error that an operation reports for an input that does not fit it.
pub open spec fn op_error(op: MathOp, input_len: nat, e: BridgeError) -> bool {
    match op {
        MathOp::MatMul { a_shape, b_shape } => if a_shape.1 != b_shape.0 {
            is_shape_mismatch(e, seq![a_shape.0, a_shape.1], seq![b_shape.0, b_shape.1])
        } else {
            e matches BridgeError::Other(msg) && msg@ == "input length mismatch for matmul"@
        },
        MathOp::Fft { .. } => e matches BridgeError::Other(msg) && msg@
            == "input too short for FFT"@,
        MathOp::Transpose { rows, cols } => is_shape_mismatch(
            e,
            seq![rows, cols],
            seq![input_len as usize],
        ),
        _ => false,
    }
}

/// A list holding two sizes.
fn pair_sizes(x: usize, y: usize) -> (v: Vec<usize>)
    ensures
        v@ == seq![x, y],
{
    let mut v: Vec<usize> = Vec::new();
    v.push(x);
    v.push(y);
    assert(v@ =~= seq![x, y]);
    v
}

impl MathOp {
    /// Checks an input of `input_len` entries against the operation and
    /// gives the length of the result, or the error that the operation
    /// reports for it.
    pub fn output_len(&self, input_len: usize) -> (r: Result<usize, BridgeError>)
        requires
            op_sizes_fit(*self, input_len),
        ensures
            r is Ok <==> op_output_len(*self, input_len as nat) is Some,
            r matches Ok(len) ==> op_output_len(*self, input_len as nat) == Some(len as nat),
            r matches Err(e) ==> op_error(*self, input_len as nat, e),
            match *self {
                MathOp::MatMul { a_shape, b_shape } => {
                    &&& (a_shape.1 == b_shape.0 && input_len == a_shape.0 * a_shape.1 + b_shape.0
                        * b_shape.1) ==> (r matches Ok(len) && len == a_shape.0 * b_shape.1)
                    &&& !(a_shape.1 == b_shape.0 && input_len == a_shape.0 * a_shape.1 + b_shape.0
                        * b_shape.1) ==> r is Err
                },
                MathOp::Fft { n } => {
                    &&& input_len >= n * 2 ==> (r matches Ok(len) && len == n * 2)
                    &&& input_len < n * 2 ==> r is Err
                },
                MathOp::Reduce { .. } => r matches Ok(len) && len == (if input_len == 0 {
                    0usize
                } else {
                    1usize
                }),
                MathOp::ElementWise { .. } => r matches Ok(len) && len == input_len / 2,
                MathOp::Transpose { rows, cols } => {
                    &&& input_len == rows * cols ==> (r matches Ok(len) && len == rows * cols)
                    &&& input_len != rows * cols ==> r is Err
                },
            },
    {
        match self {
            MathOp::MatMul { a_shape, b_shape } => {
                let (m, k1) = *a_shape;
                let (k2, n) = *b_shape;
                if k1 != k2 {
                    return Err(
                        BridgeError::ShapeMismatch {
                            expected: pair_sizes(m, k1),
                            got: pair_sizes(k2, n),
                        },
                    );
                }
                if input_len != m * k1 + k2 * n {
                    return Err(
                        BridgeError::Other(String::from_str("input length mismatch for matmul")),
                    );
                }
                Ok(m * n)
            },
            MathOp::Fft { n } => {
                if input_len < *n * 2 {
                    return Err(BridgeError::Other(String::from_str("input too short for FFT")));
                }
                Ok(*n * 2)
            },
            MathOp::Reduce { .. } => {
                if input_len == 0 {
                    Ok(0)
                } else {
                    Ok(1)
                }
            },
            MathOp::ElementWise { .. } => Ok(input_len / 2),
            MathOp::Transpose { rows, cols } => {
                if input_len != *rows * *cols {
                    return Err(
                        BridgeError::ShapeMismatch {
                            expected: pair_sizes(*rows, *cols),
                            got: single_size(input_len),
                        },
                    );
                }
                Ok(*rows * *cols)
            },
        }
    }

    /// Estimated floating-point operations of the operation.
    pub fn estimated_flops(&self) -> (r: u64)
        requires
            op_flops(*self) <= u64::MAX,
            match *self {
                MathOp::MatMul { a_shape, b_shape } => {
                    &&& a_shape.0 * a_shape.1 <= usize::MAX
                    &&& a_shape.0 * a_shape.1 * b_shape.1 <= usize::MAX
                    &&& a_shape.0 * a_shape.1 * b_shape.1 * 2 <= usize::MAX
                },
                MathOp::Fft { n } => n * n <= u64::MAX,
                MathOp::Transpose { rows, cols } => rows * cols <= usize::MAX,
                _ => true,
            },
        ensures
            r == op_flops(*self),
            match *self {
                MathOp::MatMul { a_shape, b_shape } => r == a_shape.0 * a_shape.1 * b_shape.1 * 2,
                MathOp::Fft { n } => r == n * n * 5,
                MathOp::Reduce { n, .. } => r == n,
                MathOp::ElementWise { n, .. } => r == n,
                MathOp::Transpose { rows, cols } => r == rows * cols,
            },
    {
        match self {
            MathOp::MatMul { a_shape, b_shape } => (a_shape.0 * a_shape.1 * b_shape.1 * 2) as u64,
            MathOp::Fft { n } => (*n as u64) * (*n as u64) * 5,
            MathOp::Reduce { n, .. } => *n as u64,
            MathOp::ElementWise { n, .. } => *n as u64,
            MathOp::Transpose { rows, cols } => (*rows * *cols) as u64,
        }
    }
}

/// Estimated floating-point operations: `2·m·k·n` for a product of an
/// `m × k` and a `k × n` matrix, `5·n²` for a transform of `n` points, the
/// entry count otherwise.
pub open spec fn op_flops(op: MathOp) -> int {
    match op {
        MathOp::MatMul { a_shape, b_shape } => a_shape.0 * a_shape.1 * b_shape.1 * 2,
        MathOp::Fft { n } => n * n * 5,
        MathOp::Reduce { n, .. } => n as int,
        MathOp::ElementWise { n, .. } => n as int,
        MathOp::Transpose { rows, cols } => rows * cols,
    }
}

/// A product of an `m × k` and a `k × n` matrix given as `m·k + k·n`
/// entries yields `m·n` entries, whatever the dimensions; any other input
/// is refused.
pub proof fn law_matmul_output_len(a_shape: (usize, usize), b_shape: (usize, usize), input_len: nat)
    ensures
        (a_shape.1 == b_shape.0 && input_len == a_shape.0 * a_shape.1 + b_shape.0 * b_shape.1)
            ==> op_output_len(MathOp::MatMul { a_shape, b_shape }, input_len) == Some(
            (a_shape.0 * b_shape.1) as nat,
        ),
        !(a_shape.1 == b_shape.0 && input_len == a_shape.0 * a_shape.1 + b_shape.0 * b_shape.1)
            ==> op_output_len(MathOp::MatMul { a_shape, b_shape }, input_len) is None,
{
}

/// A transform of `n` points takes any input of at least `2·n` entries and
/// yields `2·n` entries, for every `n`; shorter inputs are refused.
pub proof fn law_fft_output_len(n: usize, input_len: nat)
    ensures
        input_len >= 2 * n ==> op_output_len(MathOp::Fft { n }, input_len) == Some((2 * n) as nat),
        input_len < 2 * n ==> op_output_len(MathOp::Fft { n }, input_len) is None,
{
}

/// A transpose of a `rows × cols` matrix takes exactly `rows·cols` entries
/// and yields as many, for every shape, square ones included.
pub proof fn law_transpose_output_len(rows: usize, cols: usize, input_len: nat)
    ensures
        input_len == rows * cols ==> op_output_len(MathOp::Transpose { rows, cols }, input_len)
            == Some((rows * cols) as nat),
        input_len != rows * cols ==> op_output_len(MathOp::Transpose { rows, cols }, input_len)
            is None,
{
}

/// A reduction yields one value for a non-empty input and none for an empty
/// one; an element-wise operation pairs the two halves of its input.
pub proof fn law_reduce_and_elementwise_output_len(n: usize, r: ReduceOp, e: ElementOp, input_len: nat)
    ensures
        op_output_len(MathOp::Reduce { n, op: r }, input_len) == Some(
            if input_len == 0 {
                0nat
            } else {
                1nat
            },
        ),
        op_output_len(MathOp::ElementWise { n, op: e }, input_len) == Some(input_len / 2),
{
}

/// The flop estimates: `2·m·k·n` for a matrix product, `5·n²` for a
/// transform, the entry count for the others.
pub proof fn law_op_flops(a_shape: (usize, usize), b_shape: (usize, usize), n: usize, r: ReduceOp, e: ElementOp, rows: usize, cols: usize)
    ensures
        op_flops(MathOp::MatMul { a_shape, b_shape }) == 2 * a_shape.0 * a_shape.1 * b_shape.1,
        op_flops(MathOp::Fft { n }) == 5 * n * n,
        op_flops(MathOp::Reduce { n, op: r }) == n,
        op_flops(MathOp::ElementWise { n, op: e }) == n,
        op_flops(MathOp::Transpose { rows, cols }) == rows * cols,
{
    assert(a_shape.0 * a_shape.1 * b_shape.1 * 2 == 2 * a_shape.0 * a_shape.1 * b_shape.1) by (nonlinear_arith);
    assert(n * n * 5 == 5 * n * n) by (nonlinear_arith);
}

/// Dispatcher for math operations.
pub struct MathBridge {
    gpu_avail: bool,
}

impl MathBridge {
    pub fn new(avail: &GpuAvailability) -> (r: Self)
        ensures
            r.uses_gpu() == avail.gpu_available,
    {
        MathBridge { gpu_avail: avail.gpu_available }
    }

    /// Whether the probe that made this bridge found a GPU.
    pub closed spec fn uses_gpu(&self) -> bool {
        self.gpu_avail
    }
}

} // verus!
