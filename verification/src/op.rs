//! IR operation nodes for SSM and tensor math.

use vstd::prelude::*;

use crate::tensor::TensorId;

verus! {

/// One operation of the compute graph; operands name tensors of the graph.
#[derive(Debug, Clone, Copy, PartialEq, Eq, Structural)]
pub enum IrOp {
    /// Fused SSM discretization: `A_bar = exp(Delta * A_diag)`, `B_bar = Delta * B`.
    SsmDiscretize { delta: TensorId, a_diag: TensorId, b: TensorId, out_a_bar: TensorId, out_b_bar: TensorId },
    /// SSM state update: `h_t = A_bar * h_{t-1} + B_bar * x_t`; `y_t = C * h_t`.
    SsmScanStep {
        a_bar: TensorId,
        b_bar: TensorId,
        x: TensorId,
        h_prev: TensorId,
        h_next: TensorId,
        c: TensorId,
        out_y: TensorId,
    },
    /// Matrix multiplication: `Y = X * W`.
    MatMul { input: TensorId, weight: TensorId, out: TensorId },
    /// RMS normalization; `eps_bits` holds the IEEE-754 bit pattern of the
    /// single-precision epsilon.
    RmsNorm { input: TensorId, weight: TensorId, out: TensorId, eps_bits: u32 },
    /// Elementwise addition: `out = a + b`.
    ElemAdd { a: TensorId, b: TensorId, out: TensorId },
}

} // verus!
