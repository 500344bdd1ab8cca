//! What holds of moving and deleting the data of slices as a whole.

use crate::buffers::joined;
use crate::compact::sum_lengths;
use crate::data::{
    delete_keys, joined_all, keys_of, lemma_compact_length, length_mismatch, source_of, waits_for,
    CompactWrite, CompactWriteView, DeleteStep, SliceSource,
};
use crate::error::MetaErrorView;
use crate::slice::{blocks_fit, blocks_of, lemma_block_meets_slice, ChunkLayout, SliceDesc};
use crate::text::decimal;
use bytes::Bytes;
use vstd::prelude::*;

verus! {

/// The source of a slice asks for the slice in full: for as many zeros as a hole
/// is long, and otherwise for the slice itself, as many bytes as it is long.
pub proof fn lemma_source_asks_for_all(slice: SliceDesc)
    requires
        slice.length <= usize::MAX,
    ensures
        match source_of(slice) {
            SliceSource::Zeros { length } => slice.slice_id == 0 && length == slice.length,
            SliceSource::Stored { slice: stored, length } => {
                &&& slice.slice_id != 0
                &&& stored == slice
                &&& length == slice.length
            },
        },
{
}

/// Where every source gives the bytes that were asked of it, what is written is
/// as long as the slices are together, and so passes the check for that length.
pub proof fn lemma_sources_fill_the_write(
    run: CompactWriteView,
    slices: Seq<SliceDesc>,
    arrivals: Seq<Seq<Bytes>>,
)
    requires
        run.bufs.len() == 0,
        arrivals.len() == slices.len(),
        forall|i: int| 0 <= i < slices.len() ==> (#[trigger] slices[i]).length <= usize::MAX,
        forall|i: int|
            0 <= i < slices.len() ==> joined(#[trigger] arrivals[i]).len() == match source_of(
                slices[i],
            ) {
                SliceSource::Zeros { length } => length,
                SliceSource::Stored { slice, length } => length,
            },
    ensures
        joined(run.with_all(arrivals).bufs).len() == sum_lengths(slices),
        run.length == sum_lengths(slices) ==> run.with_all(arrivals).length_ok(),
{
    assert forall|i: int| 0 <= i < slices.len() implies joined(#[trigger] arrivals[i]).len()
        == slices[i].length by {
        lemma_source_asks_for_all(slices[i]);
    }
    lemma_compact_length(run, slices, arrivals);
}

/// One arrival: its buffers go behind those that are there, one slice less is
/// waited for, and nothing else changes.
pub proof fn lemma_arrival(run: CompactWriteView, data: Seq<Bytes>, arrivals: Seq<Seq<Bytes>>)
    ensures
        run.with(data).bufs == run.bufs + data,
        run.with(data).waiting == run.waiting - 1,
        run.with(data).chunk_id == run.chunk_id,
        run.with(data).new_id == run.new_id,
        run.with(data).offset == run.offset,
        run.with(data).length == run.length,
        run.with_all(Seq::empty()) == run,
        run.with_all(arrivals.push(data)) == run.with_all(arrivals).with(data),
        joined_all(Seq::empty()) == Seq::<u8>::empty(),
        joined_all(arrivals.push(data)) == joined_all(arrivals) + joined(data),
{
    assert(arrivals.push(data).drop_last() =~= arrivals);
}

/// Data passes the length check if no length is expected of it or if it has that
/// length, and in no other case.
pub proof fn lemma_length_check(run: CompactWriteView)
    ensures
        run.length_ok() <==> run.length == 0 || run.length == joined(run.bufs).len(),
        length_mismatch(run.length, joined(run.bufs).len()) == MetaErrorView::Internal(
            "compacted length mismatch: expect "@ + decimal(run.length as nat) + ", got "@
                + decimal(joined(run.bufs).len()),
        ),
{
}

/// The view of a write keeps every field.
pub proof fn lemma_write_view(run: CompactWrite)
    ensures
        run@.chunk_id == run.chunk_id,
        run@.new_id == run.new_id,
        run@.offset == run.offset,
        run@.length == run.length,
        run@.waiting == run.waiting,
        run@.bufs == run.bufs@,
{
}

/// The blocks of a list of slices are those of each slice in turn: one more
/// slice adds as many blocks as it has, each under the id of that slice, in the
/// order of their numbers.
pub proof fn lemma_delete_keys_grow(slices: Seq<SliceDesc>, slice: SliceDesc, layout: ChunkLayout)
    ensures
        delete_keys(Seq::empty(), layout) == Seq::<(u64, u32)>::empty(),
        delete_keys(slices.push(slice), layout) == delete_keys(slices, layout) + keys_of(
            slice,
            layout,
        ),
        keys_of(slice, layout).len() == blocks_of(slice, layout).len(),
        forall|i: int|
            0 <= i < blocks_of(slice, layout).len() ==> #[trigger] keys_of(slice, layout)[i] == (
                slice.slice_id,
                blocks_of(slice, layout)[i],
            ),
{
    assert(slices.push(slice).drop_last() =~= slices);
}

/// The blocks of one slice are listed under its id where the bytes of the block
/// and the positions of the slice meet, and nowhere else.
pub proof fn lemma_delete_one(slice: SliceDesc, layout: ChunkLayout, slice_id: u64, index: u32)
    requires
        layout.block_size > 0,
        blocks_fit(slice, layout),
    ensures
        delete_keys(seq![slice], layout).contains((slice_id, index)) <==> {
            &&& slice_id == slice.slice_id
            &&& slice.length > 0
            &&& index * layout.block_size < slice.offset + slice.length
            &&& slice.offset < (index + 1) * layout.block_size
        },
{
    let blocks = blocks_of(slice, layout);
    let keys = keys_of(slice, layout);
    lemma_block_meets_slice(slice, layout, index);
    lemma_delete_keys_grow(Seq::empty(), slice, layout);
    assert(Seq::empty().push(slice) =~= seq![slice]);
    assert(delete_keys(seq![slice], layout) =~= keys);
    if keys.contains((slice_id, index)) {
        let i = choose|i: int| 0 <= i < keys.len() && keys[i] == (slice_id, index);
        assert(blocks[i] == index);
        assert(blocks.contains(index));
    }
    if slice_id == slice.slice_id && blocks.contains(index) {
        let i = choose|i: int| 0 <= i < blocks.len() && blocks[i] == index;
        assert(keys[i] == (slice_id, index));
    }
}

/// A deletion of `n` blocks is done after `n` good reports and not before: up to
/// then it waits for exactly those that are missing.
pub proof fn lemma_done_after_all_reports(steps: Seq<DeleteStep>, n: int, k: int)
    requires
        0 <= k <= n,
        steps.len() == n + 1,
        waits_for(steps[0], n),
        forall|i: int, j: int|
            0 <= i && j == i + 1 && j < steps.len() ==> ((#[trigger] steps[i]) matches DeleteStep::Wait(
                run,
            ) ==> waits_for(#[trigger] steps[j], run.waiting - 1)),
    ensures
        k < n ==> (steps[k] matches DeleteStep::Wait(run) && run.waiting == n - k),
        k == n ==> steps[k] is Done,
    decreases k,
{
    if k > 0 {
        lemma_done_after_all_reports(steps, n, k - 1);
        assert(steps[k - 1] is Wait);
    }
}

} // verus!
