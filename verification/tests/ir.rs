use clux::graph::IrGraph;
use clux::op::IrOp;
use clux::tensor::{DataType, TensorDesc};

#[test]
fn test_ssm_ir_graph_construction() {
    let mut graph = IrGraph::new();

    // 1. Allocate Tensors: d_model = 256, d_state = 32
    let x = graph.allocate_tensor(vec![1, 256], DataType::FP16);
    let delta = graph.allocate_tensor(vec![1, 256], DataType::FP16);
    let a_diag = graph.allocate_tensor(vec![256, 32], DataType::FP16);
    let b = graph.allocate_tensor(vec![1, 32], DataType::FP16);
    let c = graph.allocate_tensor(vec![1, 32], DataType::FP16);

    let a_bar = graph.allocate_tensor(vec![256, 32], DataType::FP16);
    let b_bar = graph.allocate_tensor(vec![256, 32], DataType::FP16);
    let h_prev = graph.allocate_tensor(vec![256, 32], DataType::FP16);
    let h_next = graph.allocate_tensor(vec![256, 32], DataType::FP16);
    let out_y = graph.allocate_tensor(vec![1, 256], DataType::FP16);

    // 2. Push SSM Discretization Op
    graph.push_op(IrOp::SsmDiscretize {
        delta,
        a_diag,
        b,
        out_a_bar: a_bar,
        out_b_bar: b_bar,
    });

    // 3. Push SSM Scan Step Op
    graph.push_op(IrOp::SsmScanStep {
        a_bar,
        b_bar,
        x,
        h_prev,
        h_next,
        c,
        out_y,
    });

    assert_eq!(graph.op_count(), 2);
    assert_eq!(graph.tensors.len(), 10);
    // Ensure total arena size is 64-byte aligned and non-zero
    assert!(graph.total_arena_size > 0);
    assert_eq!(graph.total_arena_size % 64, 0);
}

#[test]
fn ssm_graph_arena_is_exact_sum_of_aligned_sizes() {
    let mut g = IrGraph::new();
    for shape in [vec![1, 256], vec![1, 256], vec![256, 32], vec![1, 32], vec![1, 32]] {
        g.allocate_tensor(shape, DataType::FP16);
    }
    for _ in 0..4 {
        g.allocate_tensor(vec![256, 32], DataType::FP16);
    }
    g.allocate_tensor(vec![1, 256], DataType::FP16);
    assert_eq!(g.total_arena_size, 83584);
    assert_eq!(g.tensors[2].byte_offset, 1024);
    assert_eq!(g.tensors[3].byte_offset, 17408);
    assert_eq!(g.tensors[4].byte_offset, 17472);
}

#[test]
fn byte_sizes_of_data_types() {
    assert_eq!(DataType::FP32.byte_size(), 4);
    assert_eq!(DataType::FP16.byte_size(), 2);
    assert_eq!(DataType::BF16.byte_size(), 2);
    assert_eq!(DataType::INT8.byte_size(), 1);
}

#[test]
fn tensor_sizes_round_up_to_64() {
    assert_eq!(TensorDesc::new(0, vec![3], DataType::FP32, 0).total_bytes, 64);
    assert_eq!(TensorDesc::new(0, vec![1, 256], DataType::FP16, 0).total_bytes, 512);
    assert_eq!(TensorDesc::new(0, vec![65], DataType::INT8, 0).total_bytes, 128);
    assert_eq!(TensorDesc::new(0, vec![64], DataType::INT8, 0).total_bytes, 64);
    // The empty shape is a scalar: one element.
    assert_eq!(TensorDesc::new(0, vec![], DataType::INT8, 0).total_bytes, 64);
    // A zero dimension means no elements and no bytes.
    assert_eq!(TensorDesc::new(0, vec![0, 5], DataType::FP32, 0).total_bytes, 0);
}

#[test]
fn tensor_desc_keeps_its_fields() {
    let t = TensorDesc::new(7, vec![2, 3], DataType::BF16, 128);
    assert_eq!(t.id, 7);
    assert_eq!(t.shape, vec![2, 3]);
    assert_eq!(t.dtype, DataType::BF16);
    assert_eq!(t.byte_offset, 128);
    assert_eq!(t.total_bytes, 64);
}

#[test]
fn tensors_are_laid_out_back_to_back_with_sequential_ids() {
    let mut g = IrGraph::new();
    assert_eq!(g.total_arena_size, 0);
    assert_eq!(g.op_count(), 0);
    let a = g.allocate_tensor(vec![10], DataType::FP32);
    let b = g.allocate_tensor(vec![0], DataType::FP32);
    let c = g.allocate_tensor(vec![100], DataType::INT8);
    assert_eq!((a, b, c), (0, 1, 2));
    assert_eq!(g.tensors[0].byte_offset, 0);
    assert_eq!(g.tensors[1].byte_offset, 64);
    assert_eq!(g.tensors[2].byte_offset, 64);
    assert_eq!(g.total_arena_size, 192);
    for (i, t) in g.tensors.iter().enumerate() {
        assert_eq!(t.id as usize, i);
        assert_eq!(t.byte_offset % 64, 0);
    }
}

#[test]
fn ops_are_appended_in_order() {
    let mut g = IrGraph::new();
    let x = g.allocate_tensor(vec![4], DataType::FP32);
    let w = g.allocate_tensor(vec![4, 4], DataType::FP32);
    let y = g.allocate_tensor(vec![4], DataType::FP32);
    let arena = g.total_arena_size;
    g.push_op(IrOp::MatMul { input: x, weight: w, out: y });
    g.push_op(IrOp::RmsNorm { input: y, weight: w, out: x, eps_bits: 1e-5f32.to_bits() });
    g.push_op(IrOp::ElemAdd { a: x, b: y, out: y });
    assert_eq!(g.op_count(), 3);
    assert_eq!(g.ops[0], IrOp::MatMul { input: 0, weight: 1, out: 2 });
    assert_eq!(g.ops[2], IrOp::ElemAdd { a: 0, b: 2, out: 2 });
    assert_eq!(g.total_arena_size, arena);
    assert_eq!(g.tensors.len(), 3);
}
