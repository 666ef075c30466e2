//! What assembling a row promises of its codes, its scales and what they reconstruct.

use crate::tensor_plan::{
    block_end, block_start, blocks, deepest, gathers, stacks_fit, tensor_error, BlockPlane,
    BlockStack, DensePlane, QuantError,
};
use vstd::prelude::*;

verus! {

/// Whether dense planes are what assembling a row gives.
pub open spec fn assembled(planes: Seq<DensePlane>, stacks: Seq<BlockStack>, k: nat) -> bool {
    &&& planes.len() == deepest(stacks)
    &&& forall|p: int| 0 <= p < planes.len() ==> gathers(#[trigger] planes[p], stacks, p, k)
}

/// No block has more planes than the assembled row.
pub proof fn every_block_fits_the_depth(stacks: Seq<BlockStack>, block: int)
    requires
        0 <= block < stacks.len(),
    ensures
        stacks[block].planes@.len() <= deepest(stacks),
    decreases stacks.len(),
{
    if block < stacks.len() - 1 {
        every_block_fits_the_depth(stacks.drop_last(), block);
    }
}

/// Some block has as many planes as the assembled row.
pub proof fn some_block_has_the_depth(stacks: Seq<BlockStack>) -> (block: int)
    requires
        deepest(stacks) > 0,
    ensures
        0 <= block < stacks.len(),
        stacks[block].planes@.len() == deepest(stacks),
    decreases stacks.len(),
{
    let last = stacks.len() - 1;
    if stacks.last().planes@.len() > deepest(stacks.drop_last()) {
        last
    } else {
        some_block_has_the_depth(stacks.drop_last())
    }
}

/// Every weight of a block keeps its own code and every block its own scale: code `j` of plane
/// `p` of block `b` is code `256 b + j` of dense plane `p`, and codes and scales that no block
/// plane gives are zero.
pub proof fn weights_keep_their_codes(
    planes: Seq<DensePlane>,
    stacks: Seq<BlockStack>,
    k: nat,
    plane: int,
    block: int,
    offset: int,
)
    requires
        stacks_fit(stacks, k),
        assembled(planes, stacks, k),
        0 <= plane < planes.len(),
        0 <= block,
        0 <= offset < 256,
        256 * block + offset < k,
    ensures
        block < stacks.len(),
        planes[plane].trits@.len() == k,
        planes[plane].scales@.len() == stacks.len(),
        if plane < stacks[block].planes@.len() {
            &&& offset < stacks[block].planes@[plane].trits@.len()
            &&& planes[plane].trits@[256 * block + offset]
                == stacks[block].planes@[plane].trits@[offset]
            &&& planes[plane].scales@[block] == stacks[block].planes@[plane].scale
        } else {
            planes[plane].trits@[256 * block + offset] == 0 && planes[plane].scales@[block] == 0
        },
{
    assert(gathers(planes[plane], stacks, plane, k));
    let position = 256 * block + offset;
    assert(position / 256 == block && position % 256 == offset);
    assert(block < stacks.len());
    if plane < stacks[block].planes@.len() {
        assert(stacks[block].planes@[plane].trits@.len() == block_end(block as nat, k)
            - block_start(block as nat));
    }
}

/// What a block's planes give one of its weights, when a scale pattern stands for `value` of it.
pub open spec fn block_sum(
    planes: Seq<BlockPlane>,
    count: nat,
    offset: int,
    value: spec_fn(u16) -> int,
) -> int
    decreases count,
{
    if count == 0 {
        0
    } else {
        block_sum(planes, (count - 1) as nat, offset, value) + value(planes[count - 1].scale)
            * planes[count - 1].trits@[offset]
    }
}

/// What dense planes give a weight of a row, when a scale pattern stands for `value` of it.
pub open spec fn row_sum(
    planes: Seq<DensePlane>,
    count: nat,
    block: int,
    offset: int,
    value: spec_fn(u16) -> int,
) -> int
    decreases count,
{
    if count == 0 {
        0
    } else {
        row_sum(planes, (count - 1) as nat, block, offset, value) + value(
            planes[count - 1].scales@[block],
        ) * planes[count - 1].trits@[256 * block + offset]
    }
}

proof fn lemma_row_sum(
    planes: Seq<DensePlane>,
    stacks: Seq<BlockStack>,
    k: nat,
    count: nat,
    block: int,
    offset: int,
    value: spec_fn(u16) -> int,
)
    requires
        stacks_fit(stacks, k),
        assembled(planes, stacks, k),
        count <= planes.len(),
        0 <= block < stacks.len(),
        0 <= offset < 256,
        256 * block + offset < k,
    ensures
        row_sum(planes, count, block, offset, value) == block_sum(
            stacks[block].planes@,
            if count <= stacks[block].planes@.len() {
                count
            } else {
                stacks[block].planes@.len()
            },
            offset,
            value,
        ),
    decreases count,
{
    if count > 0 {
        lemma_row_sum(planes, stacks, k, (count - 1) as nat, block, offset, value);
        weights_keep_their_codes(planes, stacks, k, count - 1, block, offset);
        assert(value(planes[count - 1].scales@[block]) * 0 == 0) by (nonlinear_arith);
    }
}

/// An assembled row gives every weight the same sum of scaled codes as the weight's own block.
pub proof fn rows_reconstruct_their_blocks(
    planes: Seq<DensePlane>,
    stacks: Seq<BlockStack>,
    k: nat,
    block: int,
    offset: int,
    value: spec_fn(u16) -> int,
)
    requires
        stacks_fit(stacks, k),
        assembled(planes, stacks, k),
        0 <= block < stacks.len(),
        0 <= offset < 256,
        256 * block + offset < k,
    ensures
        row_sum(planes, planes.len(), block, offset, value) == block_sum(
            stacks[block].planes@,
            stacks[block].planes@.len(),
            offset,
            value,
        ),
{
    every_block_fits_the_depth(stacks, block);
    lemma_row_sum(planes, stacks, k, planes.len(), block, offset, value);
}

/// A row is cut into as few blocks of at most 256 weights as cover it, all but the last full.
pub proof fn blocks_are_full_but_the_last(k: nat, block: nat)
    requires
        block < blocks(k),
    ensures
        256 * (blocks(k) - 1) < k <= 256 * blocks(k),
        block_start(block) == 256 * block,
        block + 1 < blocks(k) ==> block_end(block, k) - block_start(block) == 256,
        0 < block_end(block, k) - block_start(block) <= 256,
{
}

/// A matrix is quantized exactly if it has a weight for each place, and its own sensitivities, if
/// it brings any, are one for each started run of 256 weights of each row; a wrong number is told
/// with the right one.
pub proof fn only_whole_matrices_are_quantized(
    weights: nat,
    rows: usize,
    k: usize,
    custom: Option<usize>,
)
    requires
        weights <= usize::MAX,
    ensures
        match tensor_error(weights, rows, k, custom) {
            None => weights == rows * k && (custom matches Some(entries) ==> entries == rows * (
            k as int / 256 + if k % 256 == 0 {
                0int
            } else {
                1int
            })),
            Some(QuantError::ShapeMismatch { rows: height, k: width, got }) => {
                height == rows && width == k && got == weights && weights != rows * k
            },
            Some(QuantError::SensitivityLen { expected, got }) => {
                &&& weights == rows * k
                &&& custom == Some(got)
                &&& expected != got
                &&& expected == rows * (k as int / 256 + if k % 256 == 0 {
                    0int
                } else {
                    1int
                })
            },
            Some(_) => false,
        },
{
    let per_row = blocks(k as nat);
    assert(per_row == k as int / 256 + if k % 256 == 0 {
        0int
    } else {
        1int
    });
    assert(rows * per_row <= rows * k) by (nonlinear_arith)
        requires
            per_row <= k,
            rows >= 0,
    ;
}

} // verus!
