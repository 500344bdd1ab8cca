//! Moving the data of slices: writing compacted data, deleting old data.

use crate::buffers::{joined, lemma_joined_add, make_zero_bytes, single_buffer, total_len, zeros};
use crate::compact::sum_lengths;
use crate::error::{MetaError, MetaErrorView};
use crate::slice::{
    block_indices, blocks_fit, blocks_of, lemma_blocks_of, ChunkLayout, SliceDesc,
};
use crate::text::{append_decimal, decimal};
use bytes::Bytes;
use vstd::prelude::*;

verus! {

/// What the metadata store needs of the data store.
pub trait WithData {
    /// Writes the data of `slices`, joined, as the slice `new_id` at `offset`.
    /// A `length` other than 0 is the length that is expected of it.
    fn write_compact_slice(
        &self,
        new_id: u64,
        offset: u64,
        length: u64,
        slices: &[SliceDesc],
    ) -> Result<SliceDesc, MetaError>;

    /// Deletes the data of `slices`.
    fn delete_slices(&self, slices: &[SliceDesc]) -> Result<(), MetaError>;
}

/// A data store that is not there: nothing can be done with it.
pub struct NoopData;

impl WithData for NoopData {
    fn write_compact_slice(
        &self,
        _new_id: u64,
        _offset: u64,
        _length: u64,
        _slices: &[SliceDesc],
    ) -> (res: Result<SliceDesc, MetaError>)
        ensures
            res matches Err(e) && e@ == MetaErrorView::Internal(
                "compact slice data op is not configured"@,
            ),
            res matches Err(MetaError::Internal(text)) && text@
                == "compact slice data op is not configured"@,
    {
        Err(MetaError::Internal("compact slice data op is not configured".to_owned()))
    }

    fn delete_slices(&self, _slices: &[SliceDesc]) -> (res: Result<(), MetaError>)
        ensures
            res matches Err(e) && e@ == MetaErrorView::Internal(
                "delete slices op is not configured"@,
            ),
            res matches Err(MetaError::Internal(text)) && text@
                == "delete slices op is not configured"@,
    {
        Err(MetaError::Internal("delete slices op is not configured".to_owned()))
    }
}

/// Where the data of a slice comes from.
#[derive(Debug)]
pub enum SliceSource {
    /// The slice is a hole: so many zeros.
    Zeros { length: usize },
    /// The data store holds it: so many bytes of its chunk, from its offset on.
    Stored { slice: SliceDesc, length: usize },
}

/// Where the data of `slice` comes from.
pub open spec fn source_of(slice: SliceDesc) -> SliceSource {
    if slice.slice_id == 0 {
        SliceSource::Zeros { length: slice.length as usize }
    } else {
        SliceSource::Stored { slice, length: slice.length as usize }
    }
}

impl SliceSource {
    /// The data of a hole, which needs no reading.
    pub fn hole_data(&self) -> (res: Option<Vec<Bytes>>)
        ensures
            match self {
                SliceSource::Zeros { length } => res matches Some(bufs) && joined(bufs@) == zeros(
                    *length as nat,
                ),
                SliceSource::Stored { .. } => res is None,
            },
            res matches Some(bufs) ==> forall|i: int|
                0 <= i < joined(bufs@).len() ==> #[trigger] joined(bufs@)[i] == 0,
            match (self, res) {
                (SliceSource::Zeros { length }, Some(bufs)) => joined(bufs@).len() == *length,
                (SliceSource::Zeros { .. }, None) => false,
                (SliceSource::Stored { .. }, _) => res is None,
            },
    {
        match self {
            SliceSource::Zeros { length } => Some(make_zero_bytes(*length)),
            SliceSource::Stored { .. } => None,
        }
    }
}

/// A compacted slice on its way to the data store.
pub struct CompactWrite {
    /// The chunk to which the data goes.
    pub chunk_id: u64,
    /// The id under which the data goes there.
    pub new_id: u64,
    /// The position at which the data begins.
    pub offset: u64,
    /// The length that is expected of the data, 0 where none is.
    pub length: u64,
    /// The number of slices whose data is still to come.
    pub waiting: usize,
    /// The data that has come, in the order in which it came.
    pub bufs: Vec<Bytes>,
}

/// A [`CompactWrite`] with its data as a sequence of buffers.
pub struct CompactWriteView {
    pub chunk_id: u64,
    pub new_id: u64,
    pub offset: u64,
    pub length: u64,
    pub waiting: int,
    pub bufs: Seq<Bytes>,
}

impl View for CompactWrite {
    type V = CompactWriteView;

    open spec fn view(&self) -> CompactWriteView {
        CompactWriteView {
            chunk_id: self.chunk_id,
            new_id: self.new_id,
            offset: self.offset,
            length: self.length,
            waiting: self.waiting as int,
            bufs: self.bufs@,
        }
    }
}

impl CompactWriteView {
    /// The state after the data of one more slice has come.
    pub open spec fn with(self, data: Seq<Bytes>) -> CompactWriteView {
        CompactWriteView { waiting: self.waiting - 1, bufs: self.bufs + data, ..self }
    }

    /// The state after the data of several slices has come, in this order.
    pub open spec fn with_all(self, arrivals: Seq<Seq<Bytes>>) -> CompactWriteView
        decreases arrivals.len(),
    {
        if arrivals.len() == 0 {
            self
        } else {
            self.with_all(arrivals.drop_last()).with(arrivals.last())
        }
    }

    /// The data is as long as expected.
    pub open spec fn length_ok(self) -> bool {
        self.length == 0 || joined(self.bufs).len() == self.length
    }
}

/// What is to be done next for a compacted slice.
pub enum CompactStep {
    /// Wait for the data of further slices.
    Wait(CompactWrite),
    /// All data is there and is to be written.
    Upload { chunk_id: u64, new_id: u64, offset: u64, bufs: Vec<Bytes> },
    /// Give up.
    Fail(MetaError),
}

/// The error for data of another length than expected.
pub open spec fn length_mismatch(expected: u64, got: nat) -> MetaErrorView {
    MetaErrorView::Internal(
        "compacted length mismatch: expect "@ + decimal(expected as nat) + ", got "@ + decimal(got),
    )
}

impl CompactWrite {
    /// Begins to write the data of `slices` as the slice `new_id` at `offset`,
    /// in the chunk of the first of them. Returns the sources from which the
    /// data is to be got, one for each slice.
    pub fn start(new_id: u64, offset: u64, length: u64, slices: &[SliceDesc]) -> (res: Result<
        (CompactWrite, Vec<SliceSource>),
        MetaError,
    >)
        requires
            forall|i: int| 0 <= i < slices@.len() ==> (#[trigger] slices@[i]).length <= usize::MAX,
        ensures
            match res {
                Ok((run, sources)) => {
                    &&& slices@.len() > 0
                    &&& run@ == (CompactWriteView {
                        chunk_id: slices@[0].chunk_id,
                        new_id,
                        offset,
                        length,
                        waiting: slices@.len() as int,
                        bufs: Seq::empty(),
                    })
                    &&& sources@ == slices@.map_values(|slice: SliceDesc| source_of(slice))
                    &&& run.chunk_id == slices@[0].chunk_id
                    &&& run.new_id == new_id
                    &&& run.offset == offset
                    &&& run.length == length
                    &&& run.waiting == slices@.len()
                    &&& run.bufs@.len() == 0
                    &&& sources@.len() == slices@.len()
                    &&& forall|i: int|
                        0 <= i < slices@.len() ==> match #[trigger] sources@[i] {
                            SliceSource::Zeros { length: asked } => {
                                &&& slices@[i].slice_id == 0
                                &&& asked == slices@[i].length
                            },
                            SliceSource::Stored { slice, length: asked } => {
                                &&& slices@[i].slice_id != 0
                                &&& slice == slices@[i]
                                &&& asked == slices@[i].length
                            },
                        }
                },
                Err(e) => slices@.len() == 0 && e@ == MetaErrorView::Internal(
                    "empty compact slices"@,
                ),
            },
    {
        if slices.len() == 0 {
            return Err(MetaError::Internal("empty compact slices".to_owned()));
        }
        let ghost all = slices@.map_values(|slice: SliceDesc| source_of(slice));
        let mut sources: Vec<SliceSource> = Vec::new();
        for i in 0..slices.len()
            invariant
                forall|j: int|
                    0 <= j < slices@.len() ==> (#[trigger] slices@[j]).length <= usize::MAX,
                all == slices@.map_values(|slice: SliceDesc| source_of(slice)),
                sources@ =~= all.take(i as int),
        {
            let slice = slices[i];
            let length: usize = slice.length as usize;
            if slice.slice_id == 0 {
                sources.push(SliceSource::Zeros { length });
            } else {
                sources.push(SliceSource::Stored { slice, length });
            }
        }
        let run = CompactWrite {
            chunk_id: slices[0].chunk_id,
            new_id,
            offset,
            length,
            waiting: slices.len(),
            bufs: Vec::new(),
        };
        assert(run@.bufs =~= Seq::<Bytes>::empty());
        Ok((run, sources))
    }

    /// Takes in the data of one slice, or the error in its place. Once all data
    /// is there its length is checked, and the data is handed out to be written.
    pub fn on_read(self, arrived: Result<Vec<Bytes>, MetaError>) -> (res: CompactStep)
        requires
            self.waiting > 0,
            arrived matches Ok(data) ==> self.waiting == 1 ==> joined(self.bufs@ + data@).len()
                <= usize::MAX,
        ensures
            match arrived {
                Err(e) => res == CompactStep::Fail(e),
                Ok(data) => {
                    let now = self@.with(data@);
                    if now.waiting > 0 {
                        res matches CompactStep::Wait(next) && next@ == now
                    } else if now.length_ok() {
                        res matches CompactStep::Upload { chunk_id, new_id, offset, bufs }
                            && chunk_id == now.chunk_id && new_id == now.new_id && offset
                            == now.offset && bufs@ == now.bufs
                    } else {
                        res matches CompactStep::Fail(e) && e@ == length_mismatch(
                            now.length,
                            joined(now.bufs).len(),
                        )
                    }
                },
            },
            match (arrived, res) {
                (Err(e), CompactStep::Fail(passed_on)) => passed_on == e,
                (Err(_), _) => false,
                (Ok(data), CompactStep::Wait(next)) => {
                    &&& self.waiting > 1
                    &&& next.waiting == self.waiting - 1
                    &&& next.bufs@ == self.bufs@ + data@
                    &&& next.chunk_id == self.chunk_id
                    &&& next.new_id == self.new_id
                    &&& next.offset == self.offset
                    &&& next.length == self.length
                },
                (Ok(data), CompactStep::Upload { chunk_id, new_id, offset, bufs }) => {
                    &&& self.waiting == 1
                    &&& self.length == 0 || joined(self.bufs@ + data@).len() == self.length
                    &&& bufs@ == self.bufs@ + data@
                    &&& chunk_id == self.chunk_id
                    &&& new_id == self.new_id
                    &&& offset == self.offset
                },
                (Ok(data), CompactStep::Fail(e)) => {
                    let got = joined(self.bufs@ + data@).len();
                    &&& self.waiting == 1
                    &&& self.length != 0
                    &&& got != self.length
                    &&& e matches MetaError::Internal(text)
                    &&& text@ == "compacted length mismatch: expect "@ + decimal(
                        self.length as nat,
                    ) + ", got "@ + decimal(got)
                },
            },
    {
        let CompactWrite { chunk_id, new_id, offset, length, waiting, bufs } = self;
        let mut data = match arrived {
            Ok(data) => data,
            Err(e) => return CompactStep::Fail(e),
        };
        let mut bufs = bufs;
        let ghost now = self@.with(data@);
        bufs.append(&mut data);
        assert(bufs@ =~= now.bufs);
        if waiting > 1 {
            return CompactStep::Wait(
                CompactWrite { chunk_id, new_id, offset, length, waiting: waiting - 1, bufs },
            );
        }
        let total: u64 = total_len(&bufs) as u64;
        if length != 0 && total != length {
            let mut text = "compacted length mismatch: expect ".to_owned();
            append_decimal(&mut text, length);
            text.append(", got ");
            append_decimal(&mut text, total);
            return CompactStep::Fail(MetaError::Internal(text));
        }
        CompactStep::Upload { chunk_id, new_id, offset, bufs }
    }

    /// The end of the write, from the data store's reply: the slice that was
    /// written, or the text of the error.
    pub fn on_uploaded(reply: Result<SliceDesc, String>) -> (res: Result<SliceDesc, MetaError>)
        ensures
            match reply {
                Ok(slice) => res == Ok::<SliceDesc, MetaError>(slice),
                Err(text) => res == Err::<SliceDesc, MetaError>(MetaError::Internal(text)),
            },
    {
        match reply {
            Ok(slice) => Ok(slice),
            Err(text) => Err(MetaError::Internal(text)),
        }
    }
}

/// The data of a slice, from the data store's reply: its bytes, or the text of
/// the error.
pub fn stored_data(reply: Result<Vec<u8>, String>) -> (res: Result<Vec<Bytes>, MetaError>)
    ensures
        match reply {
            Ok(data) => res matches Ok(bufs) && bufs@.len() == 1 && joined(bufs@) == data@,
            Err(text) => res == Err::<Vec<Bytes>, MetaError>(MetaError::Internal(text)),
        },
{
    match reply {
        Ok(data) => Ok(single_buffer(data)),
        Err(text) => Err(MetaError::Internal(text)),
    }
}

/// The bytes of a list of arrivals, one after the other.
pub open spec fn joined_all(arrivals: Seq<Seq<Bytes>>) -> Seq<u8>
    decreases arrivals.len(),
{
    if arrivals.len() == 0 {
        Seq::empty()
    } else {
        joined_all(arrivals.drop_last()) + joined(arrivals.last())
    }
}

/// What is written is what came, in the order in which it came, and nothing else.
pub proof fn lemma_compact_gathers(run: CompactWriteView, arrivals: Seq<Seq<Bytes>>)
    ensures
        run.with_all(arrivals).waiting == run.waiting - arrivals.len(),
        joined(run.with_all(arrivals).bufs) == joined(run.bufs) + joined_all(arrivals),
        run.with_all(arrivals) == (CompactWriteView {
            waiting: run.with_all(arrivals).waiting,
            bufs: run.with_all(arrivals).bufs,
            ..run
        }),
    decreases arrivals.len(),
{
    if arrivals.len() == 0 {
        assert(joined(run.bufs) + joined_all(arrivals) =~= joined(run.bufs));
    } else {
        let before = arrivals.drop_last();
        lemma_compact_gathers(run, before);
        lemma_joined_add(run.with_all(before).bufs, arrivals.last());
        assert(joined(run.with_all(arrivals).bufs) =~= joined(run.bufs) + joined_all(arrivals));
    }
}

/// Where every slice comes in full, the length of what is written is the sum of
/// the lengths of the slices. So data that is expected to have that length, as
/// the total length of a compacted list is, passes the check.
pub proof fn lemma_compact_length(
    run: CompactWriteView,
    slices: Seq<SliceDesc>,
    arrivals: Seq<Seq<Bytes>>,
)
    requires
        run.bufs.len() == 0,
        arrivals.len() == slices.len(),
        forall|i: int|
            0 <= i < slices.len() ==> joined(#[trigger] arrivals[i]).len() == slices[i].length,
    ensures
        joined(run.with_all(arrivals).bufs).len() == sum_lengths(slices),
        run.length == sum_lengths(slices) ==> run.with_all(arrivals).length_ok(),
{
    lemma_compact_gathers(run, arrivals);
    lemma_joined_all_len(slices, arrivals);
}

/// Arrivals that are as long as the slices are together as long as the slices.
proof fn lemma_joined_all_len(slices: Seq<SliceDesc>, arrivals: Seq<Seq<Bytes>>)
    requires
        arrivals.len() == slices.len(),
        forall|i: int|
            0 <= i < slices.len() ==> joined(#[trigger] arrivals[i]).len() == slices[i].length,
    ensures
        joined_all(arrivals).len() == sum_lengths(slices),
    decreases slices.len(),
{
    if slices.len() > 0 {
        let fewer = slices.drop_last();
        let before = arrivals.drop_last();
        assert forall|i: int| 0 <= i < fewer.len() implies joined(#[trigger] before[i]).len()
            == fewer[i].length by {
            assert(before[i] == arrivals[i]);
        }
        lemma_joined_all_len(fewer, before);
        assert(arrivals.last() == arrivals[arrivals.len() - 1]);
    }
}

/// The blocks of one slice, each with the slice's id.
pub open spec fn keys_of(slice: SliceDesc, layout: ChunkLayout) -> Seq<(u64, u32)> {
    blocks_of(slice, layout).map_values(|index: u32| (slice.slice_id, index))
}

/// The blocks of a list of slices, slice by slice.
pub open spec fn delete_keys(slices: Seq<SliceDesc>, layout: ChunkLayout) -> Seq<(u64, u32)>
    decreases slices.len(),
{
    if slices.len() == 0 {
        Seq::empty()
    } else {
        delete_keys(slices.drop_last(), layout) + keys_of(slices.last(), layout)
    }
}

/// A deletion of blocks under way.
pub struct DeleteRun {
    /// The number of blocks whose deletion was not reported yet.
    pub waiting: usize,
}

/// What is to be done next in a deletion.
pub enum DeleteStep {
    /// Wait for further reports.
    Wait(DeleteRun),
    /// All blocks are gone.
    Done,
    /// Give up.
    Fail(MetaError),
}

/// The step of a deletion that waits for `n` further reports.
pub open spec fn waits_for(step: DeleteStep, n: int) -> bool {
    if n > 0 {
        step matches DeleteStep::Wait(run) && run.waiting == n
    } else {
        step is Done
    }
}

impl DeleteRun {
    /// Begins to delete the data of `slices`. Returns the blocks to delete, by
    /// slice id and number.
    pub fn start(slices: &[SliceDesc], layout: ChunkLayout) -> (res: (DeleteStep, Vec<(u64, u32)>))
        requires
            layout.block_size > 0,
            forall|i: int| 0 <= i < slices@.len() ==> blocks_fit(#[trigger] slices@[i], layout),
        ensures
            res.1@ == delete_keys(slices@, layout),
            waits_for(res.0, res.1@.len() as int),
            match res.0 {
                DeleteStep::Wait(run) => res.1@.len() > 0 && run.waiting == res.1@.len(),
                DeleteStep::Done => res.1@.len() == 0,
                DeleteStep::Fail(_) => false,
            },
    {
        let mut keys: Vec<(u64, u32)> = Vec::new();
        assert(slices@.take(0) =~= Seq::<SliceDesc>::empty());
        for i in 0..slices.len()
            invariant
                layout.block_size > 0,
                forall|j: int|
                    0 <= j < slices@.len() ==> blocks_fit(#[trigger] slices@[j], layout),
                keys@ == delete_keys(slices@.take(i as int), layout),
        {
            let slice = slices[i];
            let indices = block_indices(slice, layout);
            let ghost before = keys@;
            let ghost all = keys_of(slice, layout);
            assert(all.take(0) =~= Seq::<(u64, u32)>::empty());
            for j in 0..indices.len()
                invariant
                    indices@ == blocks_of(slice, layout),
                    all == keys_of(slice, layout),
                    keys@ =~= before + all.take(j as int),
            {
                assert(all.take(j + 1) =~= all.take(j as int).push(all[j as int]));
                keys.push((slice.slice_id, indices[j]));
            }
            proof {
                assert(all.take(all.len() as int) =~= all);
                assert(slices@.take(i + 1).drop_last() =~= slices@.take(i as int));
                assert(slices@.take(i + 1).last() == slice);
            }
        }
        assert(slices@.take(slices@.len() as int) =~= slices@);
        if keys.len() > 0 {
            (DeleteStep::Wait(DeleteRun { waiting: keys.len() }), keys)
        } else {
            (DeleteStep::Done, keys)
        }
    }

    /// Takes in the report on one block. The first error ends the deletion.
    pub fn on_deleted(self, report: Result<(), MetaError>) -> (res: DeleteStep)
        requires
            self.waiting > 0,
        ensures
            match report {
                Ok(_) => waits_for(res, self.waiting - 1),
                Err(e) => res == DeleteStep::Fail(e),
            },
            match (report, res) {
                (Ok(_), DeleteStep::Wait(next)) => self.waiting > 1 && next.waiting == self.waiting
                    - 1,
                (Ok(_), DeleteStep::Done) => self.waiting == 1,
                (Ok(_), DeleteStep::Fail(_)) => false,
                (Err(e), DeleteStep::Fail(passed_on)) => passed_on == e,
                (Err(_), _) => false,
            },
    {
        match report {
            Ok(_) => {
                if self.waiting > 1 {
                    DeleteStep::Wait(DeleteRun { waiting: self.waiting - 1 })
                } else {
                    DeleteStep::Done
                }
            },
            Err(e) => DeleteStep::Fail(e),
        }
    }
}

/// A block is deleted if and only if some slice with its id has a position in it.
pub proof fn lemma_delete_keys(
    slices: Seq<SliceDesc>,
    layout: ChunkLayout,
    slice_id: u64,
    index: u32,
)
    requires
        layout.block_size > 0,
        forall|i: int| 0 <= i < slices.len() ==> blocks_fit(#[trigger] slices[i], layout),
    ensures
        delete_keys(slices, layout).contains((slice_id, index)) <==> exists|i: int, x: int|
            0 <= i < slices.len() && slices[i].slice_id == slice_id && #[trigger] slices[i].holds(x)
                && layout.block_of(x) == index,
    decreases slices.len(),
{
    let keys = delete_keys(slices, layout);
    let key = (slice_id, index);
    if slices.len() > 0 {
        let fewer = slices.drop_last();
        let last = slices.last();
        let n = slices.len() - 1;
        let before = delete_keys(fewer, layout);
        let more = keys_of(last, layout);
        assert forall|i: int| 0 <= i < fewer.len() implies blocks_fit(
            #[trigger] fewer[i],
            layout,
        ) by {
            assert(fewer[i] == slices[i]);
        }
        assert(blocks_fit(slices[n], layout));
        lemma_delete_keys(fewer, layout, slice_id, index);
        lemma_blocks_of(last, layout, index);
        let blocks = blocks_of(last, layout);
        if keys.contains(key) {
            let k = choose|k: int| 0 <= k < keys.len() && keys[k] == key;
            if k < before.len() {
                assert(before[k] == key);
                assert(before.contains(key));
                let (i, x) = choose|i: int, x: int|
                    0 <= i < fewer.len() && fewer[i].slice_id == slice_id
                        && #[trigger] fewer[i].holds(x) && layout.block_of(x) == index;
                assert(slices[i].holds(x));
            } else {
                assert(more[k - before.len()] == key);
                assert(blocks[k - before.len()] == index);
                assert(blocks.contains(index));
                let x = choose|x: int| #[trigger] last.holds(x) && layout.block_of(x) == index;
                assert(slices[n].holds(x));
            }
        }
        if exists|i: int, x: int|
            0 <= i < slices.len() && slices[i].slice_id == slice_id && #[trigger] slices[i].holds(x)
                && layout.block_of(x) == index {
            let (i, x) = choose|i: int, x: int|
                0 <= i < slices.len() && slices[i].slice_id == slice_id
                    && #[trigger] slices[i].holds(x) && layout.block_of(x) == index;
            if i < n {
                assert(fewer[i].holds(x));
                assert(before.contains(key));
                let k = choose|k: int| 0 <= k < before.len() && before[k] == key;
                assert(keys[k] == key);
            } else {
                assert(last.holds(x));
                assert(blocks.contains(index));
                let k = choose|k: int| 0 <= k < blocks.len() && blocks[k] == index;
                assert(more[k] == key);
                assert(keys[before.len() + k] == key);
            }
        }
    }
}

} // verus!
