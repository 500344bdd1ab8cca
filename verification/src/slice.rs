//! Slices: contiguous byte ranges of a chunk, each written under one id.

use vstd::prelude::*;

verus! {

/// A range of a chunk and the id under which its bytes are stored.
///
/// Id 0 stands for a hole: such a range reads as zeros.
#[derive(Clone, Copy, Debug, PartialEq, Eq, Structural)]
pub struct SliceDesc {
    pub slice_id: u64,
    pub chunk_id: u64,
    pub offset: u64,
    pub length: u64,
}

impl SliceDesc {
    /// One past the last position of the slice.
    pub open spec fn end(self) -> int {
        self.offset + self.length
    }

    /// The end of the slice is a position too: it fits the machine integer.
    pub open spec fn valid(self) -> bool {
        self.end() <= u64::MAX
    }

    /// Position `x` of the chunk lies in the slice.
    pub open spec fn holds(self, x: int) -> bool {
        self.offset <= x < self.end()
    }

    /// The half-open range of positions of the slice.
    pub fn range(&self) -> (res: (u64, u64))
        requires
            self.valid(),
        ensures
            res.0 == self.offset,
            res.1 == self.end(),
            res.1 == self.offset + self.length,
    {
        (self.offset, self.offset + self.length)
    }
}

/// How a chunk is laid out: it is stored in blocks of `block_size` bytes,
/// numbered from the beginning of the chunk.
#[derive(Clone, Copy, Debug, PartialEq, Eq, Structural)]
pub struct ChunkLayout {
    pub block_size: u32,
}

impl ChunkLayout {
    /// The number of the block in which a position lies.
    pub open spec fn block_of(self, x: int) -> int {
        x / (self.block_size as int)
    }
}

/// Every block in which the slice has a position has a number that fits.
pub open spec fn blocks_fit(slice: SliceDesc, layout: ChunkLayout) -> bool {
    slice.valid() && (slice.length > 0 ==> layout.block_of(slice.end() - 1) <= u32::MAX)
}

/// The numbers of the blocks in which the slice has a position, in ascending order.
pub open spec fn blocks_of(slice: SliceDesc, layout: ChunkLayout) -> Seq<u32> {
    if slice.length == 0 {
        Seq::empty()
    } else {
        let first = layout.block_of(slice.offset as int);
        let last = layout.block_of(slice.end() - 1);
        Seq::new((last - first + 1) as nat, |i: int| (first + i) as u32)
    }
}

/// The numbers of the blocks in which the slice has a position, in ascending order.
pub fn block_indices(slice: SliceDesc, layout: ChunkLayout) -> (res: Vec<u32>)
    requires
        layout.block_size > 0,
        blocks_fit(slice, layout),
    ensures
        res@ == blocks_of(slice, layout),
        forall|i: int, j: int| 0 <= i < j < res@.len() ==> #[trigger] res@[i] < #[trigger] res@[j],
        forall|index: u32| #[trigger]
            res@.contains(index) <==> {
                &&& slice.length > 0
                &&& index * layout.block_size < slice.offset + slice.length
                &&& slice.offset < (index + 1) * layout.block_size
            },
{
    let mut res: Vec<u32> = Vec::new();
    if slice.length == 0 {
        assert(res@ =~= blocks_of(slice, layout));
        proof {
            assert forall|index: u32| !(#[trigger] res@.contains(index)) by {}
        }
        return res;
    }
    let size: u64 = layout.block_size as u64;
    let end: u64 = slice.offset + slice.length;
    let first: u64 = slice.offset / size;
    let last: u64 = (end - 1) / size;
    proof {
        lemma_block_order(layout, slice.offset as int, end - 1);
    }
    let mut index: u64 = first;
    while index < last
        invariant
            first <= index <= last,
            last <= u32::MAX,
            res@.len() == index - first,
            forall|i: int| 0 <= i < res@.len() ==> #[trigger] res@[i] == (first + i) as u32,
        decreases last - index,
    {
        res.push(index as u32);
        index = index + 1;
    }
    res.push(last as u32);
    assert(res@ =~= blocks_of(slice, layout));
    proof {
        assert forall|index: u32| #[trigger]
            res@.contains(index) <==> {
                &&& slice.length > 0
                &&& index * layout.block_size < slice.offset + slice.length
                &&& slice.offset < (index + 1) * layout.block_size
            } by {
            lemma_block_meets_slice(slice, layout, index);
        }
    }
    res
}

/// A later position lies in no earlier block.
proof fn lemma_block_order(layout: ChunkLayout, x: int, y: int)
    requires
        layout.block_size > 0,
        0 <= x <= y,
    ensures
        0 <= layout.block_of(x) <= layout.block_of(y),
{
    let size = layout.block_size as int;
    vstd::arithmetic::div_mod::lemma_div_is_ordered(x, y, size);
    vstd::arithmetic::div_mod::lemma_div_pos_is_pos(x, size);
}

/// The listed blocks are those in which the slice has a position, and no others.
pub proof fn lemma_blocks_of(slice: SliceDesc, layout: ChunkLayout, index: u32)
    requires
        layout.block_size > 0,
        blocks_fit(slice, layout),
    ensures
        blocks_of(slice, layout).contains(index) <==> exists|x: int| #[trigger]
            slice.holds(x) && layout.block_of(x) == index,
{
    let blocks = blocks_of(slice, layout);
    let size = layout.block_size as int;
    let first = layout.block_of(slice.offset as int);
    let last = layout.block_of(slice.end() - 1);
    if blocks.contains(index) {
        let i = choose|i: int| 0 <= i < blocks.len() && blocks[i] == index;
        lemma_block_order(layout, slice.offset as int, slice.end() - 1);
        assert(first <= index <= last);
        if index == first {
            assert(slice.holds(slice.offset as int));
        } else {
            // The block begins within the slice.
            let x = index * size;
            vstd::arithmetic::div_mod::lemma_div_multiples_vanish(index as int, size);
            assert(index * size == size * index) by (nonlinear_arith);
            assert(layout.block_of(x) == index);
            if x < slice.offset {
                assert(0 <= x) by (nonlinear_arith)
                    requires
                        x == index * size,
                        size > 0,
                ;
                lemma_block_order(layout, x, slice.offset as int);
            }
            if x >= slice.end() {
                lemma_block_order(layout, slice.end() - 1, x);
                assert(last * size <= slice.end() - 1) by {
                    vstd::arithmetic::div_mod::lemma_fundamental_div_mod(slice.end() - 1, size);
                    vstd::arithmetic::div_mod::lemma_mod_bound(slice.end() - 1, size);
                    assert(last * size == size * last) by (nonlinear_arith);
                }
                assert(index * size <= last * size) by (nonlinear_arith)
                    requires
                        index <= last,
                        size > 0,
                ;
            }
            assert(slice.holds(x));
        }
    }
    if exists|x: int| #[trigger] slice.holds(x) && layout.block_of(x) == index {
        let x = choose|x: int| #[trigger] slice.holds(x) && layout.block_of(x) == index;
        lemma_block_order(layout, slice.offset as int, x);
        lemma_block_order(layout, x, slice.end() - 1);
        assert(blocks[index - first] == index);
    }
}

/// A slice holds the positions from its offset on, as many as its length says,
/// and no others; it is valid where one past the last of them is a position.
pub proof fn lemma_positions(slice: SliceDesc, x: int)
    ensures
        slice.holds(x) <==> slice.offset <= x < slice.offset + slice.length,
        slice.end() == slice.offset + slice.length,
        slice.valid() <==> slice.offset + slice.length <= u64::MAX,
{
}

/// Block number `b` begins `b` block sizes into the chunk and is one block size long.
pub proof fn lemma_block_extent(layout: ChunkLayout, x: int, b: int)
    requires
        layout.block_size > 0,
        0 <= x,
    ensures
        layout.block_of(x) == b <==> b * layout.block_size <= x < (b + 1) * layout.block_size,
{
    let size = layout.block_size as int;
    let q = layout.block_of(x);
    vstd::arithmetic::div_mod::lemma_fundamental_div_mod(x, size);
    vstd::arithmetic::div_mod::lemma_mod_bound(x, size);
    assert(q * size <= x < (q + 1) * size) by (nonlinear_arith)
        requires
            x == size * q + x % size,
            0 <= x % size < size,
    ;
    if b < q {
        assert((b + 1) * size <= q * size) by (nonlinear_arith)
            requires
                b + 1 <= q,
                size > 0,
        ;
    }
    if b > q {
        assert((q + 1) * size <= b * size) by (nonlinear_arith)
            requires
                q + 1 <= b,
                size > 0,
        ;
    }
}

/// A block is listed for a slice if and only if the bytes of the block and the
/// positions of the slice meet.
pub proof fn lemma_block_meets_slice(slice: SliceDesc, layout: ChunkLayout, index: u32)
    requires
        layout.block_size > 0,
        blocks_fit(slice, layout),
    ensures
        blocks_of(slice, layout).contains(index) <==> {
            &&& slice.length > 0
            &&& index * layout.block_size < slice.offset + slice.length
            &&& slice.offset < (index + 1) * layout.block_size
        },
{
    let size = layout.block_size as int;
    let b = index as int;
    lemma_blocks_of(slice, layout, index);
    assert(0 <= b * size && b * size < (b + 1) * size) by (nonlinear_arith)
        requires
            0 <= b,
            size > 0,
    ;
    if blocks_of(slice, layout).contains(index) {
        let x = choose|x: int| #[trigger] slice.holds(x) && layout.block_of(x) == index;
        lemma_block_extent(layout, x, b);
    }
    if slice.length > 0 && b * size < slice.offset + slice.length && slice.offset < (b + 1) * size {
        let x = if b * size < slice.offset {
            slice.offset as int
        } else {
            b * size
        };
        lemma_block_extent(layout, x, b);
        assert(slice.holds(x));
    }
}

/// The blocks of a slice fit if and only if the slice is valid and its last
/// position, if it has one, lies in a block whose number fits.
pub proof fn lemma_blocks_fit(slice: SliceDesc, layout: ChunkLayout)
    requires
        layout.block_size > 0,
    ensures
        blocks_fit(slice, layout) <==> {
            &&& slice.offset + slice.length <= u64::MAX
            &&& slice.length > 0 ==> slice.offset + slice.length - 1 < 0x1_0000_0000
                * layout.block_size
        },
{
    if slice.length > 0 {
        let size = layout.block_size as int;
        let x = slice.offset + slice.length - 1;
        let q = layout.block_of(x);
        lemma_block_extent(layout, x, q);
        if q <= u32::MAX {
            assert((q + 1) * size <= 0x1_0000_0000 * size) by (nonlinear_arith)
                requires
                    q + 1 <= 0x1_0000_0000,
                    size > 0,
            ;
        } else {
            assert(0x1_0000_0000 * size <= q * size) by (nonlinear_arith)
                requires
                    0x1_0000_0000 <= q,
                    size > 0,
            ;
        }
    }
}

} // verus!
