//! Layout of a quantized matrix: kernel-tile groups, shape checks, and dense plane assembly.

use crate::water_filling::AllocError;
use vstd::prelude::*;

verus! {

/// Granularity of the **base** (T=1) plane's AbsMean scale.
#[derive(Clone, Copy, Debug, PartialEq, Eq, Structural)]
pub enum ScaleGroup {
    /// Per-256-block: every block fits its own AbsMean (the SALT/TQ2_0 default). Best for a
    /// normally-trained fp master — it reconstructs the weights most faithfully.
    Block,
    /// Per-tensor: ONE AbsMean over the whole matrix for the base plane (residual planes stay
    /// per-block). This reproduces deployed **BitNet b1.58 I2_S**, which is QAT-trained against
    /// a single per-tensor ternary scale.
    Tensor,
}

impl Default for ScaleGroup {
    /// Every block fits its own scale.
    fn default() -> (group: Self)
        ensures
            group == ScaleGroup::Block,
    {
        ScaleGroup::Block
    }
}

/// Why a tensor could not be quantized.
#[derive(Clone, Copy, Debug, PartialEq)]
pub enum QuantError {
    /// The weight count is not `rows · k`.
    ShapeMismatch {
        /// Output channels.
        rows: usize,
        /// Input features per row.
        k: usize,
        /// Supplied weight count.
        got: usize,
    },
    /// Custom sensitivities had the wrong number of entries.
    SensitivityLen {
        /// Group count.
        expected: usize,
        /// Supplied entry count.
        got: usize,
    },
    /// The plane allocator rejected the inputs.
    Alloc(AllocError),
}

/// Blocks of a row: full ones, and a short one for the remainder.
pub open spec fn blocks(k: nat) -> nat {
    (k + 255) / 256
}

/// Where a block starts in its row.
pub open spec fn block_start(block: nat) -> nat {
    256 * block
}

/// Where a block ends in its row.
pub open spec fn block_end(block: nat, k: nat) -> nat {
    if 256 * block + 256 <= k {
        256 * block + 256
    } else {
        k
    }
}

/// Number of blocks of a row.
pub fn num_blocks(k: usize) -> (count: usize)
    ensures
        count == blocks(k as nat),
{
    k / 256 + (if k % 256 == 0 {
        0usize
    } else {
        1usize
    })
}

/// `[start, end)` of a block in a row (the last block is short when `k % 256 != 0`).
pub fn block_range(block: usize, k: usize) -> (range: (usize, usize))
    requires
        block < blocks(k as nat),
    ensures
        range.0 == block_start(block as nat),
        range.1 == block_end(block as nat, k as nat),
        range.0 < range.1 <= k,
{
    let start: usize = 256 * block;
    let end: usize = if k - start >= 256 {
        start + 256
    } else {
        k
    };
    (start, end)
}

/// The blocks of a row follow each other without gap or overlap, from its start to its end.
pub proof fn blocks_partition_the_row(k: nat, position: nat)
    requires
        position < k,
    ensures
        position / 256 < blocks(k),
        block_start(position / 256) <= position < block_end(position / 256, k),
        forall|block: nat|
            block < blocks(k) && block_start(block) <= position < #[trigger] block_end(block, k)
                ==> block == position / 256,
        block_start(0) == 0,
        block_end((blocks(k) - 1) as nat, k) == k,
        forall|block: nat|
            block + 1 < blocks(k) ==> #[trigger] block_end(block, k) == block_start(block + 1),
{
}

/// The reason why a matrix cannot be quantized, if there is one.
pub open spec fn tensor_error(
    weights: nat,
    rows: usize,
    k: usize,
    custom: Option<usize>,
) -> Option<QuantError> {
    if weights != rows * k {
        Some(QuantError::ShapeMismatch { rows, k, got: weights as usize })
    } else {
        match custom {
            Some(entries) => if entries != rows * blocks(k as nat) {
                Some(
                    QuantError::SensitivityLen {
                        expected: (rows * blocks(k as nat)) as usize,
                        got: entries,
                    },
                )
            } else {
                None
            },
            None => None,
        }
    }
}

/// Checks the shape of a matrix and of its custom sensitivities, and gives its group count.
pub fn check_tensor(weights: usize, rows: usize, k: usize, custom: Option<usize>) -> (groups: Result<
    usize,
    QuantError,
>)
    ensures
        match tensor_error(weights as nat, rows, k, custom) {
            Some(error) => groups == Err::<usize, QuantError>(error),
            None => groups matches Ok(count) && count == rows * blocks(k as nat),
        },
{
    let expected: usize = match rows.checked_mul(k) {
        Some(count) => count,
        None => {
            return Err(QuantError::ShapeMismatch { rows, k, got: weights });
        },
    };
    if weights != expected {
        return Err(QuantError::ShapeMismatch { rows, k, got: weights });
    }
    let per_row: usize = num_blocks(k);
    assert(rows * per_row <= rows * k) by (nonlinear_arith)
        requires
            per_row <= k,
            rows >= 0,
    ;
    let groups: usize = rows * per_row;
    match custom {
        Some(entries) => {
            if entries != groups {
                return Err(QuantError::SensitivityLen { expected: groups, got: entries });
            }
        },
        None => {},
    }
    Ok(groups)
}

/// Where a row-major group starts and ends in the flattened matrix.
pub fn group_range(group: usize, rows: usize, k: usize) -> (range: (usize, usize))
    requires
        rows * k <= usize::MAX,
        group < rows * blocks(k as nat),
    ensures
        ({
            let row = group as nat / blocks(k as nat);
            let block = group as nat % blocks(k as nat);
            &&& range.0 == row * k + block_start(block)
            &&& range.1 == row * k + block_end(block, k as nat)
            &&& range.0 < range.1 <= rows * k
        }),
{
    let per_row: usize = num_blocks(k);
    assert(per_row > 0) by (nonlinear_arith)
        requires
            group < rows * per_row,
            group >= 0,
            rows >= 0,
            per_row >= 0,
    ;
    let row: usize = group / per_row;
    let block: usize = group % per_row;
    proof {
        vstd::arithmetic::div_mod::lemma_fundamental_div_mod(group as int, per_row as int);
        assert(row < rows) by (nonlinear_arith)
            requires
                group == per_row * row + block,
                block >= 0,
                group < rows * per_row,
                per_row > 0,
        ;
        assert(row * k + k <= rows * k) by (nonlinear_arith)
            requires
                row + 1 <= rows,
                k >= 0,
        ;
    }
    let (start, end) = block_range(block, k);
    (row * k + start, row * k + end)
}

/// Weights of each group, row by row.
pub fn group_sizes(rows: usize, k: usize) -> (sizes: Vec<usize>)
    requires
        rows * k <= usize::MAX,
    ensures
        sizes@.len() == rows * blocks(k as nat),
        forall|g: int|
            0 <= g < sizes@.len() ==> #[trigger] sizes@[g] == block_end(
                g as nat % blocks(k as nat),
                k as nat,
            ) - block_start(g as nat % blocks(k as nat)),
{
    let per_row: usize = num_blocks(k);
    assert(rows * per_row <= rows * k) by (nonlinear_arith)
        requires
            per_row <= k,
            rows >= 0,
    ;
    let groups: usize = rows * per_row;
    let mut sizes: Vec<usize> = Vec::new();
    let mut group: usize = 0;
    while group < groups
        invariant
            group <= groups == rows * per_row,
            per_row == blocks(k as nat),
            rows * k <= usize::MAX,
            sizes@.len() == group,
            forall|g: int|
                0 <= g < group ==> #[trigger] sizes@[g] == block_end(
                    g as nat % blocks(k as nat),
                    k as nat,
                ) - block_start(g as nat % blocks(k as nat)),
        decreases groups - group,
    {
        let (start, end) = group_range(group, rows, k);
        sizes.push(end - start);
        group = group + 1;
    }
    sizes
}

/// One fitted plane of a block: its stored binary16 scale and its codes.
#[derive(Clone, Debug, PartialEq, Eq)]
pub struct BlockPlane {
    /// Per-plane scale.
    pub scale: u16,
    /// Ternary codes, one per weight of the block.
    pub trits: Vec<i8>,
}

/// The fitted planes of a block, base first.
#[derive(Clone, Debug, PartialEq, Eq)]
pub struct BlockStack {
    /// Planes in fit order.
    pub planes: Vec<BlockPlane>,
}

impl BlockStack {
    /// Realized plane count.
    pub fn plane_count(&self) -> (count: usize)
        ensures
            count == self.planes@.len(),
    {
        self.planes.len()
    }
}

/// One dense plane of a row: a binary16 scale per block and a code per weight.
#[derive(Clone, Debug, PartialEq, Eq)]
pub struct DensePlane {
    /// Block scales.
    pub scales: Vec<u16>,
    /// Ternary codes.
    pub trits: Vec<i8>,
}

/// Whether stacks fit the blocks of a row.
pub open spec fn stacks_fit(stacks: Seq<BlockStack>, k: nat) -> bool {
    &&& stacks.len() == blocks(k)
    &&& forall|b: int, p: int|
        0 <= b < stacks.len() && 0 <= p < stacks[b].planes@.len() ==> (
        #[trigger] stacks[b].planes@[p]).trits@.len() == block_end(b as nat, k) - block_start(
            b as nat,
        )
}

/// The most planes that a block has.
pub open spec fn deepest(stacks: Seq<BlockStack>) -> nat
    decreases stacks.len(),
{
    if stacks.len() == 0 {
        0
    } else {
        let before = deepest(stacks.drop_last());
        let last = stacks.last().planes@.len();
        if last > before {
            last
        } else {
            before
        }
    }
}

/// The scale of a block in a dense plane: zero where the block has fewer planes.
pub open spec fn dense_scale(stacks: Seq<BlockStack>, plane: int, block: int) -> u16 {
    if plane < stacks[block].planes@.len() {
        stacks[block].planes@[plane].scale
    } else {
        0
    }
}

/// The code of a weight in a dense plane: zero where its block has fewer planes.
pub open spec fn dense_trit(stacks: Seq<BlockStack>, plane: int, position: int) -> i8 {
    let block = position / 256;
    if plane < stacks[block].planes@.len() {
        stacks[block].planes@[plane].trits@[position % 256]
    } else {
        0
    }
}

/// Whether a dense plane gathers the blocks' planes at a depth.
pub open spec fn gathers(
    dense: DensePlane,
    stacks: Seq<BlockStack>,
    plane: int,
    k: nat,
) -> bool {
    &&& dense.scales@ == Seq::new(stacks.len(), |b: int| dense_scale(stacks, plane, b))
    &&& dense.trits@ == Seq::new(k, |i: int| dense_trit(stacks, plane, i))
}

fn most_planes(stacks: &[BlockStack]) -> (most: usize)
    ensures
        most == deepest(stacks@),
{
    let mut most: usize = 0;
    let mut index: usize = 0;
    while index < stacks.len()
        invariant
            index <= stacks@.len(),
            most == deepest(stacks@.take(index as int)),
        decreases stacks@.len() - index,
    {
        proof {
            let longer = stacks@.take(index + 1);
            assert(longer.drop_last() =~= stacks@.take(index as int));
            assert(longer.last() == stacks@[index as int]);
        }
        if stacks[index].planes.len() > most {
            most = stacks[index].planes.len();
        }
        index = index + 1;
    }
    assert(stacks@.take(index as int) =~= stacks@);
    most
}

fn gather_plane(k: usize, stacks: &[BlockStack], plane: usize) -> (dense: DensePlane)
    requires
        stacks_fit(stacks@, k as nat),
    ensures
        gathers(dense, stacks@, plane as int, k as nat),
{
    let count: usize = stacks.len();
    let mut scales: Vec<u16> = Vec::new();
    let mut trits: Vec<i8> = Vec::new();
    let mut block: usize = 0;
    while block < count
        invariant
            block <= count == stacks@.len(),
            stacks_fit(stacks@, k as nat),
            scales@.len() == block,
            forall|b: int|
                0 <= b < block ==> #[trigger] scales@[b] == dense_scale(
                    stacks@,
                    plane as int,
                    b,
                ),
            trits@.len() == if block < count {
                block_start(block as nat)
            } else {
                k as nat
            },
            forall|i: int|
                0 <= i < trits@.len() ==> #[trigger] trits@[i] == dense_trit(
                    stacks@,
                    plane as int,
                    i,
                ),
        decreases count - block,
    {
        let (start, end) = block_range(block, k);
        let stack: &BlockStack = &stacks[block];
        let present: bool = plane < stack.planes.len();
        if present {
            assert(stacks@[block as int].planes@[plane as int].trits@.len() == end - start);
            scales.push(stack.planes[plane].scale);
        } else {
            scales.push(0);
        }
        let mut at: usize = start;
        while at < end
            invariant
                block < count == stacks@.len(),
                start == block_start(block as nat),
                end == block_end(block as nat, k as nat),
                start <= at <= end <= k,
                *stack == stacks@[block as int],
                present == (plane < stack.planes@.len()),
                present ==> stack.planes@[plane as int].trits@.len() == end - start,
                trits@.len() == at,
                forall|i: int|
                    0 <= i < at ==> #[trigger] trits@[i] == dense_trit(stacks@, plane as int, i),
            decreases end - at,
        {
            assert(at as int / 256 == block && at as int % 256 == at - start);
            trits.push(
                if present {
                    stack.planes[plane].trits[at - start]
                } else {
                    0
                },
            );
            at = at + 1;
        }
        block = block + 1;
    }
    assert(scales@ =~= Seq::new(stacks@.len(), |b: int| dense_scale(stacks@, plane as int, b)));
    assert(trits@ =~= Seq::new(k as nat, |i: int| dense_trit(stacks@, plane as int, i)));
    DensePlane { scales, trits }
}

/// Assembles one row's block stacks into dense planes: plane `p` gathers each block's `p`-th
/// plane, and blocks with fewer planes are padded with zeros.
pub fn assemble_row(k: usize, stacks: &[BlockStack]) -> (planes: Vec<DensePlane>)
    requires
        stacks_fit(stacks@, k as nat),
    ensures
        planes@.len() == deepest(stacks@),
        forall|p: int|
            0 <= p < planes@.len() ==> gathers(#[trigger] planes@[p], stacks@, p, k as nat),
{
    let depth: usize = most_planes(stacks);
    let mut planes: Vec<DensePlane> = Vec::new();
    let mut plane: usize = 0;
    while plane < depth
        invariant
            plane <= depth,
            stacks_fit(stacks@, k as nat),
            planes@.len() == plane,
            forall|p: int|
                0 <= p < plane ==> gathers(#[trigger] planes@[p], stacks@, p, k as nat),
        decreases depth - plane,
    {
        planes.push(gather_plane(k, stacks, plane));
        plane = plane + 1;
    }
    planes
}

} // verus!
