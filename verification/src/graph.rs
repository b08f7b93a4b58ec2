//! IR compute graph and static memory planning.

use vstd::prelude::*;

use crate::op::IrOp;
use crate::tensor::{lemma_align64_bounds, dtype_size, shape_fits, shape_product, tensor_bytes, DataType, TensorDesc, TensorId};

verus! {

/// Sum of the aligned sizes of a sequence of tensors.
pub open spec fn sum_bytes(ts: Seq<TensorDesc>) -> nat
    decreases ts.len(),
{
    if ts.len() == 0 {
        0
    } else {
        sum_bytes(ts.drop_last()) + (ts.last().total_bytes as nat)
    }
}

proof fn lemma_sum_bytes_prefix(ts: Seq<TensorDesc>, i: int, j: int)
    requires
        0 <= i <= j <= ts.len(),
    ensures
        sum_bytes(ts.take(i)) <= sum_bytes(ts.take(j)),
    decreases j - i,
{
    if i < j {
        lemma_sum_bytes_prefix(ts, i, j - 1);
        assert(ts.take(j).drop_last() =~= ts.take(j - 1));
    }
}

proof fn lemma_sum_bytes_aligned(ts: Seq<TensorDesc>)
    requires
        forall|i: int| 0 <= i < ts.len() ==> #[trigger] ts[i].total_bytes % 64 == 0,
    ensures
        sum_bytes(ts) % 64 == 0,
    decreases ts.len(),
{
    if ts.len() > 0 {
        lemma_sum_bytes_aligned(ts.drop_last());
        assert(ts.last().total_bytes % 64 == 0);
    }
}

/// A compute graph with its static tensor arena.
pub struct IrGraph {
    pub tensors: Vec<TensorDesc>,
    pub ops: Vec<IrOp>,
    pub total_arena_size: usize,
}

impl IrGraph {
    /// The arena layout: tensor `i` has id `i`, a size that is a multiple of
    /// 64, and starts where tensor `i - 1` ends; the arena is exactly as large
    /// as all tensors together.
    pub open spec fn arena_wf(&self) -> bool {
        &&& forall|i: int|
            #![trigger self.tensors@[i]]
            0 <= i < self.tensors@.len() ==> {
                &&& self.tensors@[i].id == i as u32
                &&& self.tensors@[i].byte_offset == sum_bytes(self.tensors@.take(i))
                &&& self.tensors@[i].total_bytes % 64 == 0
            }
        &&& self.total_arena_size == sum_bytes(self.tensors@)
    }

    /// An empty graph with an empty arena.
    pub fn new() -> (g: Self)
        ensures
            g.tensors@ == Seq::<TensorDesc>::empty(),
            g.ops@ == Seq::<IrOp>::empty(),
            g.total_arena_size == 0,
            g.arena_wf(),
    {
        IrGraph { tensors: Vec::new(), ops: Vec::new(), total_arena_size: 0 }
    }

    /// Places a new tensor at the current end of the arena, with the next id.
    pub fn allocate_tensor(&mut self, shape: Vec<usize>, dtype: DataType) -> (id: TensorId)
        requires
            shape_fits(shape@, dtype),
            old(self).total_arena_size + tensor_bytes(shape@, dtype) <= usize::MAX,
        ensures
            id == old(self).tensors@.len() as u32,
            final(self).tensors@ == old(self).tensors@.push(
                TensorDesc {
                    id,
                    shape,
                    dtype,
                    byte_offset: old(self).total_arena_size,
                    total_bytes: tensor_bytes(shape@, dtype) as usize,
                },
            ),
            final(self).total_arena_size == old(self).total_arena_size + tensor_bytes(shape@, dtype),
            final(self).ops == old(self).ops,
            old(self).arena_wf() ==> final(self).arena_wf(),
    {
        let id = self.tensors.len() as TensorId;
        let offset = self.total_arena_size;
        let desc = TensorDesc::new(id, shape, dtype, offset);
        self.total_arena_size = self.total_arena_size + desc.total_bytes;
        let ghost old_ts = self.tensors@;
        self.tensors.push(desc);
        proof {
            let ts = self.tensors@;
            assert(ts.drop_last() =~= old_ts);
            assert forall|i: int| 0 <= i < old_ts.len() implies #[trigger] ts.take(i) == old_ts.take(i) by {
                assert(ts.take(i) =~= old_ts.take(i));
            }
            assert(ts.take(old_ts.len() as int) =~= old_ts);
            lemma_align64_bounds(shape_product(desc.shape@) * dtype_size(dtype));
        }
        id
    }

    /// Appends an operation.
    pub fn push_op(&mut self, op: IrOp)
        ensures
            final(self).ops@ == old(self).ops@.push(op),
            final(self).tensors == old(self).tensors,
            final(self).total_arena_size == old(self).total_arena_size,
    {
        self.ops.push(op);
    }

    /// Number of operations in the graph.
    pub fn op_count(&self) -> (n: usize)
        ensures
            n == self.ops@.len(),
    {
        self.ops.len()
    }
}

/// Static arena planning: in a well-formed graph the arena size is a
/// multiple of 64, every tensor lies inside the arena, and tensors with
/// smaller ids lie entirely before tensors with larger ids (no two overlap).
pub proof fn lemma_arena_layout(g: &IrGraph)
    requires
        g.arena_wf(),
    ensures
        g.total_arena_size % 64 == 0,
        forall|i: int|
            0 <= i < g.tensors@.len() ==> #[trigger] g.tensors@[i].byte_offset + g.tensors@[i].total_bytes
                <= g.total_arena_size,
        forall|i: int, j: int|
            0 <= i < j < g.tensors@.len() ==> #[trigger] g.tensors@[i].byte_offset + g.tensors@[i].total_bytes
                <= #[trigger] g.tensors@[j].byte_offset,
{
    let ts = g.tensors@;
    lemma_sum_bytes_aligned(ts);
    assert forall|i: int| 0 <= i < ts.len() implies #[trigger] ts[i].byte_offset + ts[i].total_bytes
        <= g.total_arena_size by {
        assert(ts.take(i + 1).drop_last() =~= ts.take(i));
        lemma_sum_bytes_prefix(ts, i + 1, ts.len() as int);
        assert(ts.take(ts.len() as int) =~= ts);
    }
    assert forall|i: int, j: int| 0 <= i < j < ts.len() implies #[trigger] ts[i].byte_offset
        + ts[i].total_bytes <= #[trigger] ts[j].byte_offset by {
        assert(ts.take(i + 1).drop_last() =~= ts.take(i));
        lemma_sum_bytes_prefix(ts, i + 1, j);
    }
}

} // verus!
