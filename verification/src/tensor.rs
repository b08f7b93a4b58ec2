//! Tensor descriptors and 64-byte cache-line alignment.

use vstd::prelude::*;

verus! {

/// Identifier of a tensor inside an [`crate::graph::IrGraph`].
pub type TensorId = u32;

/// Element type of a tensor.
#[derive(Debug, Clone, Copy, PartialEq, Eq, Structural)]
pub enum DataType {
    FP32,
    FP16,
    BF16,
    INT8,
}

/// Size in bytes of one element of `d`.
pub open spec fn dtype_size(d: DataType) -> nat {
    match d {
        DataType::FP32 => 4,
        DataType::FP16 => 2,
        DataType::BF16 => 2,
        DataType::INT8 => 1,
    }
}

/// Product of the dimensions of a shape (1 for the empty shape).
pub open spec fn shape_product(shape: Seq<usize>) -> nat
    decreases shape.len(),
{
    if shape.len() == 0 {
        1
    } else {
        shape_product(shape.drop_last()) * (shape.last() as nat)
    }
}

/// The smallest multiple of 64 that is at least `n`.
pub open spec fn align64(n: nat) -> nat {
    (((n + 63) / 64) * 64) as nat
}

/// Whether computing the element count of `shape` left to right, and then its
/// raw and aligned byte sizes for `dtype`, stays within `usize`.
pub open spec fn shape_fits(shape: Seq<usize>, dtype: DataType) -> bool {
    &&& forall|k: int| 0 <= k <= shape.len() ==> #[trigger] shape_product(shape.take(k)) <= usize::MAX
    &&& shape_product(shape) * dtype_size(dtype) + 63 <= usize::MAX
}

/// Aligned byte size of a tensor of `shape` and `dtype`.
pub open spec fn tensor_bytes(shape: Seq<usize>, dtype: DataType) -> nat {
    align64(shape_product(shape) * dtype_size(dtype))
}

impl DataType {
    /// Size in bytes of one element.
    pub fn byte_size(&self) -> (n: usize)
        ensures
            n == dtype_size(*self),
    {
        match self {
            DataType::FP32 => 4,
            DataType::FP16 | DataType::BF16 => 2,
            DataType::INT8 => 1,
        }
    }
}

/// A tensor placed in the static memory arena.
#[derive(Debug, Clone, PartialEq, Eq)]
pub struct TensorDesc {
    pub id: TensorId,
    pub shape: Vec<usize>,
    pub dtype: DataType,
    /// Offset in the static memory arena.
    pub byte_offset: usize,
    /// Element count times element size, rounded up to a multiple of 64.
    pub total_bytes: usize,
}

proof fn lemma_round_down_64(x: usize)
    ensures
        (x & !63usize) as int == x - x % 64,
{
    assert((x & !63usize) == x - x % 64) by (bit_vector);
}

impl TensorDesc {
    /// Describes a tensor at `byte_offset`, sizing it to whole 64-byte lines.
    pub fn new(id: TensorId, shape: Vec<usize>, dtype: DataType, byte_offset: usize) -> (t: Self)
        requires
            shape_fits(shape@, dtype),
        ensures
            t.id == id,
            t.shape == shape,
            t.dtype == dtype,
            t.byte_offset == byte_offset,
            t.total_bytes == tensor_bytes(shape@, dtype),
    {
        let mut elem_count: usize = 1;
        let mut i: usize = 0;
        while i < shape.len()
            invariant
                i <= shape@.len(),
                shape_fits(shape@, dtype),
                elem_count == shape_product(shape@.take(i as int)),
            decreases shape@.len() - i,
        {
            assert(shape@.take(i + 1).drop_last() == shape@.take(i as int));
            assert(shape_product(shape@.take(i + 1)) <= usize::MAX);
            elem_count = elem_count * shape[i];
            i = i + 1;
        }
        assert(shape@.take(shape@.len() as int) == shape@);
        let size = dtype.byte_size();
        proof {
            assert(0 <= elem_count * size <= shape_product(shape@) * dtype_size(dtype)) by (nonlinear_arith)
                requires
                    elem_count == shape_product(shape@),
                    size == dtype_size(dtype),
            ;
        }
        let raw_bytes = elem_count * size;
        let total_bytes = (raw_bytes + 63) & !63usize;
        proof {
            lemma_round_down_64((raw_bytes + 63) as usize);
        }
        TensorDesc { id, shape, dtype, byte_offset, total_bytes }
    }
}


/// 64-byte alignment rounds up to the nearest multiple of 64: never less
/// than the raw size, and less than one line more.
pub proof fn lemma_align64_bounds(n: nat)
    ensures
        align64(n) % 64 == 0,
        n <= align64(n) < n + 64,
{
    let q = (n + 63) / 64;
    assert(q * 64 <= n + 63 < q * 64 + 64) by (nonlinear_arith)
        requires
            q == (n + 63) / 64,
    ;
    assert((q * 64) % 64 == 0) by (nonlinear_arith);
}


/// The element count is the product of every dimension: the empty shape has
/// one element, appending a dimension multiplies the count by it, and
/// putting two shapes side by side multiplies their counts.
pub proof fn lemma_shape_product_dims(a: Seq<usize>, b: Seq<usize>, d: usize)
    ensures
        shape_product(Seq::<usize>::empty()) == 1,
        shape_product(a.push(d)) == shape_product(a) * d,
        shape_product(a + b) == shape_product(a) * shape_product(b),
    decreases b.len(),
{
    assert(a.push(d).drop_last() =~= a);
    if b.len() == 0 {
        assert(a + b =~= a);
        assert(shape_product(b) == 1);
        assert(shape_product(a + b) == shape_product(a));
    } else {
        lemma_shape_product_dims(a, b.drop_last(), d);
        assert((a + b).drop_last() =~= a + b.drop_last());
        assert((a + b).last() == b.last());
        let (x, y, z) = (shape_product(a), shape_product(b.drop_last()), b.last() as nat);
        assert(shape_product(a + b) == shape_product(a + b.drop_last()) * z);
        assert(shape_product(a + b.drop_last()) == x * y);
        assert(shape_product(b) == y * z);
        assert(x * (y * z) == (x * y) * z) by (nonlinear_arith);
    }
}

} // verus!
