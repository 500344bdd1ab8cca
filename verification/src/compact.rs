//! Compaction of the slices of a chunk.
//!
//! A chunk is described by a list of slices that may overlap and may leave
//! gaps. Where several slices hold a position, the first of them in the list
//! owns it. Compaction rewrites the list as one that is sorted, has neither
//! overlaps nor gaps, and gives every position to the same owner.

use crate::compact_laws::{lemma_span_attained, lemma_split_total};
use crate::intervals::{covers, measure, normal, Intervals};
use crate::slice::SliceDesc;
use vstd::prelude::*;

verus! {

/// Every slice of the list ends at a position.
pub open spec fn all_valid(slices: Seq<SliceDesc>) -> bool {
    forall|i: int| 0 <= i < slices.len() ==> (#[trigger] slices[i]).valid()
}

/// The least offset in the list, `u64::MAX` for the empty list.
pub open spec fn span_start(slices: Seq<SliceDesc>) -> u64
    decreases slices.len(),
{
    if slices.len() == 0 {
        u64::MAX
    } else {
        let rest = span_start(slices.drop_last());
        if slices.last().offset < rest {
            slices.last().offset
        } else {
            rest
        }
    }
}

/// The greatest end in the list, 0 for the empty list.
pub open spec fn span_end(slices: Seq<SliceDesc>) -> int
    decreases slices.len(),
{
    if slices.len() == 0 {
        0
    } else {
        let rest = span_end(slices.drop_last());
        if slices.last().end() > rest {
            slices.last().end()
        } else {
            rest
        }
    }
}

/// The index of the first slice that holds position `x`; the length of the list
/// where none does.
pub open spec fn owner(slices: Seq<SliceDesc>, x: int) -> nat
    decreases slices.len(),
{
    if slices.len() == 0 {
        0
    } else if slices[0].holds(x) {
        0
    } else {
        1 + owner(slices.skip(1), x)
    }
}

/// The id under which position `x` is stored, 0 where no slice holds it.
pub open spec fn visible_id(slices: Seq<SliceDesc>, x: int) -> u64 {
    let i = owner(slices, x);
    if i < slices.len() {
        slices[i as int].slice_id
    } else {
        0
    }
}

/// `piece` lies within one owner's positions, carries that owner's id, and is
/// filed under the chunk of the last slice of the list.
pub open spec fn piece_of(slices: Seq<SliceDesc>, piece: SliceDesc) -> bool {
    &&& piece.length > 0
    &&& piece.slice_id == visible_id(slices, piece.offset as int)
    &&& piece.chunk_id == slices.last().chunk_id
    &&& forall|x: int|
        piece.holds(x) ==> #[trigger] owner(slices, x) == owner(slices, piece.offset as int)
}

/// `b` begins where `a` ends, and belongs to another owner.
pub open spec fn follows(slices: Seq<SliceDesc>, a: SliceDesc, b: SliceDesc) -> bool {
    &&& a.end() == b.offset
    &&& owner(slices, a.offset as int) != owner(slices, b.offset as int)
}

/// `out` is the compacted form of `slices`: it tiles the span of the list, from
/// the least offset to the greatest end, with the longest pieces that have one
/// owner each, in ascending order. Positions that no slice holds form pieces
/// too, with id 0.
pub open spec fn is_split(slices: Seq<SliceDesc>, out: Seq<SliceDesc>) -> bool {
    &&& forall|k: int| 0 <= k < out.len() ==> piece_of(slices, #[trigger] out[k])
    &&& forall|j: int, k: int|
        0 <= j && k == j + 1 && k < out.len() ==> follows(
            slices,
            #[trigger] out[j],
            #[trigger] out[k],
        )
    &&& if span_start(slices) < span_end(slices) {
        &&& out.len() > 0
        &&& out[0].offset == span_start(slices)
        &&& out.last().end() == span_end(slices)
    } else {
        out.len() == 0
    }
}

/// The sum of the lengths of the slices.
pub open spec fn sum_lengths(slices: Seq<SliceDesc>) -> int
    decreases slices.len(),
{
    if slices.len() == 0 {
        0
    } else {
        sum_lengths(slices.drop_last()) + slices.last().length
    }
}

/// The order of pieces: by offset, then by length.
pub open spec fn ordered(a: SliceDesc, b: SliceDesc) -> bool {
    a.offset < b.offset || (a.offset == b.offset && a.length <= b.length)
}

/// The pieces that `runs` describe, under one id and chunk.
spec fn pieces_from(runs: Seq<(u64, u64)>, slice_id: u64, chunk_id: u64) -> Seq<SliceDesc> {
    runs.map_values(
        |run: (u64, u64)|
            SliceDesc {
                slice_id,
                chunk_id,
                offset: run.0,
                length: (run.1 - run.0) as u64,
            },
    )
}

/// `piece` cannot be made longer, within the span, without a second owner.
spec fn full_run(slices: Seq<SliceDesc>, piece: SliceDesc) -> bool {
    let own = owner(slices, piece.offset as int);
    &&& span_start(slices) <= piece.offset
    &&& piece.end() <= span_end(slices)
    &&& piece.offset == span_start(slices) || owner(slices, piece.offset - 1) != own
    &&& piece.end() == span_end(slices) || owner(slices, piece.end()) != own
}

/// Some piece holds position `x`.
spec fn held(pieces: Seq<SliceDesc>, x: int) -> bool {
    exists|k: int| 0 <= k < pieces.len() && (#[trigger] pieces[k]).holds(x)
}

/// Adds one piece per run to `news`, and the lengths of the runs to `total`.
fn push_pieces(
    news: &mut Vec<SliceDesc>,
    runs: &Vec<(u64, u64)>,
    slice_id: u64,
    chunk_id: u64,
    total: u64,
) -> (res: u64)
    requires
        normal(runs@),
        total + measure(runs@) <= u64::MAX,
    ensures
        final(news)@ == old(news)@ + pieces_from(runs@, slice_id, chunk_id),
        res == total + measure(runs@),
{
    let mut sum: u64 = total;
    let ghost all = pieces_from(runs@, slice_id, chunk_id);
    assert(all.take(0) =~= Seq::<SliceDesc>::empty());
    for i in 0..runs.len()
        invariant
            normal(runs@),
            total + measure(runs@) <= u64::MAX,
            all == pieces_from(runs@, slice_id, chunk_id),
            news@ =~= old(news)@ + all.take(i as int),
            sum == total + measure(runs@.take(i as int)),
    {
        proof {
            assert(runs@.take(i + 1).drop_last() =~= runs@.take(i as int));
            lemma_measure_prefix(runs@, i + 1);
            assert(all.take(i + 1) =~= all.take(i as int).push(all[i as int]));
        }
        let (new_l, new_r) = runs[i];
        sum = sum + (new_r - new_l);
        news.push(SliceDesc { slice_id, chunk_id, offset: new_l, length: new_r - new_l });
    }
    proof {
        assert(runs@.take(runs@.len() as int) =~= runs@);
        assert(all.take(runs@.len() as int) =~= all);
    }
    sum
}

/// A prefix of the runs is no longer in total than all of them.
proof fn lemma_measure_prefix(runs: Seq<(u64, u64)>, n: int)
    requires
        normal(runs),
        0 <= n <= runs.len(),
    ensures
        0 <= measure(runs.take(n)) <= measure(runs),
    decreases runs.len(),
{
    if runs.len() == 0 {
        assert(runs.take(n) =~= runs);
    } else if n == runs.len() {
        assert(runs.take(n) =~= runs);
        lemma_measure_prefix(runs.drop_last(), n - 1);
    } else {
        assert(normal(runs.drop_last()));
        lemma_measure_prefix(runs.drop_last(), n);
        assert(runs.drop_last().take(n) =~= runs.take(n));
    }
}

/// `owner` is the first slice that holds the position.
pub proof fn lemma_owner(slices: Seq<SliceDesc>, x: int)
    ensures
        owner(slices, x) <= slices.len(),
        owner(slices, x) < slices.len() ==> slices[owner(slices, x) as int].holds(x),
        forall|j: int| 0 <= j < owner(slices, x) ==> !(#[trigger] slices[j]).holds(x),
    decreases slices.len(),
{
    if slices.len() > 0 && !slices[0].holds(x) {
        let rest = slices.skip(1);
        lemma_owner(rest, x);
        assert forall|j: int| 0 <= j < owner(slices, x) implies !(#[trigger] slices[j]).holds(
            x,
        ) by {
            if j > 0 {
                assert(rest[j - 1] == slices[j]);
            }
        }
    }
}

/// Only one index meets what `lemma_owner` says of the owner.
pub proof fn lemma_owner_is(slices: Seq<SliceDesc>, x: int, i: int)
    requires
        0 <= i <= slices.len(),
        i < slices.len() ==> slices[i].holds(x),
        forall|j: int| 0 <= j < i ==> !(#[trigger] slices[j]).holds(x),
    ensures
        owner(slices, x) == i,
{
    lemma_owner(slices, x);
}

/// Every slice lies within the span of the list.
pub proof fn lemma_span(slices: Seq<SliceDesc>)
    ensures
        forall|i: int|
            0 <= i < slices.len() ==> span_start(slices) <= (#[trigger] slices[i]).offset
                && slices[i].end() <= span_end(slices),
        all_valid(slices) ==> 0 <= span_end(slices) <= u64::MAX,
        slices.len() > 0 ==> span_start(slices) <= span_end(slices),
    decreases slices.len(),
{
    if slices.len() > 0 {
        let rest = slices.drop_last();
        lemma_span(rest);
        assert forall|i: int| 0 <= i < slices.len() implies span_start(slices) <= (
        #[trigger] slices[i]).offset && slices[i].end() <= span_end(slices) by {
            if i < rest.len() {
                assert(rest[i] == slices[i]);
            }
        }
        if all_valid(slices) {
            assert forall|i: int| 0 <= i < rest.len() implies (#[trigger] rest[i]).valid() by {
                assert(rest[i] == slices[i]);
            }
        }
        assert(slices[slices.len() - 1] == slices.last());
    }
}

/// The runs of the positions that index `i` owns are pieces of the compacted
/// form, whole and without a repetition.
proof fn lemma_owned_runs(slices: Seq<SliceDesc>, i: int, runs: Seq<(u64, u64)>, id: u64)
    requires
        slices.len() > 0,
        0 <= i <= slices.len(),
        id == if i < slices.len() {
            slices[i].slice_id
        } else {
            0
        },
        normal(runs),
        forall|x: int| #[trigger]
            covers(runs, x) <==> span_start(slices) <= x < span_end(slices) && owner(slices, x)
                == i,
    ensures
        ({
            let pieces = pieces_from(runs, id, slices.last().chunk_id);
            &&& forall|k: int|
                0 <= k < pieces.len() ==> piece_of(slices, #[trigger] pieces[k]) && full_run(
                    slices,
                    pieces[k],
                ) && owner(slices, pieces[k].offset as int) == i
            &&& pieces.no_duplicates()
            &&& forall|x: int|
                span_start(slices) <= x < span_end(slices) && #[trigger] owner(slices, x) == i
                    ==> held(pieces, x)
        }),
{
    let pieces = pieces_from(runs, id, slices.last().chunk_id);
    assert forall|k: int| 0 <= k < pieces.len() implies piece_of(slices, #[trigger] pieces[k])
        && full_run(slices, pieces[k]) && owner(slices, pieces[k].offset as int) == i by {
        let run = runs[k];
        let piece = pieces[k];
        assert(piece.offset == run.0 && piece.end() == run.1);
        assert(covers(runs, run.0 as int));
        assert forall|x: int| piece.holds(x) implies #[trigger] owner(slices, x) == i by {
            assert(run.0 <= x < run.1);
            assert(covers(runs, x));
        }
        assert(covers(runs, run.1 - 1));
        if piece.offset != span_start(slices) && owner(slices, piece.offset - 1) == i {
            let y = piece.offset - 1;
            assert(covers(runs, y));
            let m = choose|m: int| 0 <= m < runs.len() && (#[trigger] runs[m]).0 <= y < runs[m].1;
            assert(m != k);
        }
        if piece.end() != span_end(slices) && owner(slices, piece.end()) == i {
            let y = piece.end();
            assert(covers(runs, y));
            let m = choose|m: int| 0 <= m < runs.len() && (#[trigger] runs[m]).0 <= y < runs[m].1;
            assert(m != k);
        }
    }
    assert forall|j: int, k: int|
        0 <= j < pieces.len() && 0 <= k < pieces.len() && j != k implies pieces[j]
        != pieces[k] by {
        assert(pieces[j].offset == runs[j].0 && pieces[k].offset == runs[k].0);
    }
    assert forall|x: int|
        span_start(slices) <= x < span_end(slices) && #[trigger] owner(slices, x)
            == i implies held(pieces, x) by {
        assert(covers(runs, x));
        let m = choose|m: int| 0 <= m < runs.len() && (#[trigger] runs[m]).0 <= x < runs[m].1;
        assert(pieces[m].holds(x));
    }
}

/// The pieces found so far: all whole, none twice, and together they hold every
/// position whose owner is below `n`.
spec fn split_upto(slices: Seq<SliceDesc>, news: Seq<SliceDesc>, n: int) -> bool {
    &&& forall|k: int|
        0 <= k < news.len() ==> piece_of(slices, #[trigger] news[k]) && full_run(slices, news[k])
            && owner(slices, news[k].offset as int) < n
    &&& news.no_duplicates()
    &&& forall|x: int|
        span_start(slices) <= x < span_end(slices) && #[trigger] owner(slices, x) < n ==> held(
            news,
            x,
        )
}

/// One more owner's pieces.
proof fn lemma_split_step(
    slices: Seq<SliceDesc>,
    news: Seq<SliceDesc>,
    i: int,
    runs: Seq<(u64, u64)>,
    id: u64,
)
    requires
        slices.len() > 0,
        0 <= i <= slices.len(),
        id == if i < slices.len() {
            slices[i].slice_id
        } else {
            0
        },
        split_upto(slices, news, i),
        normal(runs),
        forall|x: int| #[trigger]
            covers(runs, x) <==> span_start(slices) <= x < span_end(slices) && owner(slices, x)
                == i,
    ensures
        split_upto(slices, news + pieces_from(runs, id, slices.last().chunk_id), i + 1),
{
    let more = pieces_from(runs, id, slices.last().chunk_id);
    let all = news + more;
    lemma_owned_runs(slices, i, runs, id);
    assert forall|k: int| 0 <= k < all.len() implies piece_of(slices, #[trigger] all[k])
        && full_run(slices, all[k]) && owner(slices, all[k].offset as int) < i + 1 by {
        if k < news.len() {
            assert(all[k] == news[k]);
        } else {
            assert(all[k] == more[k - news.len()]);
        }
    }
    assert forall|j: int, k: int|
        0 <= j < all.len() && 0 <= k < all.len() && j != k implies all[j] != all[k] by {
        if j < news.len() && k >= news.len() {
            assert(all[j] == news[j] && all[k] == more[k - news.len()]);
        }
        if k < news.len() && j >= news.len() {
            assert(all[k] == news[k] && all[j] == more[j - news.len()]);
        }
    }
    assert forall|x: int|
        span_start(slices) <= x < span_end(slices) && #[trigger] owner(slices, x) < i
            + 1 implies held(all, x) by {
        if owner(slices, x) < i {
            let k = choose|k: int| 0 <= k < news.len() && (#[trigger] news[k]).holds(x);
            assert(all[k] == news[k]);
        } else {
            let k = choose|k: int| 0 <= k < more.len() && (#[trigger] more[k]).holds(x);
            assert(all[news.len() + k] == more[k]);
        }
    }
}

/// Two whole pieces that share a position are the same piece.
proof fn lemma_full_runs_meet(slices: Seq<SliceDesc>, a: SliceDesc, b: SliceDesc, x: int)
    requires
        piece_of(slices, a),
        piece_of(slices, b),
        full_run(slices, a),
        full_run(slices, b),
        a.holds(x),
        b.holds(x),
    ensures
        a == b,
{
    assert(owner(slices, x) == owner(slices, a.offset as int));
    assert(owner(slices, x) == owner(slices, b.offset as int));
    if a.offset < b.offset {
        assert(a.holds(b.offset - 1));
        assert(owner(slices, b.offset - 1) == owner(slices, a.offset as int));
    }
    if b.offset < a.offset {
        assert(b.holds(a.offset - 1));
        assert(owner(slices, a.offset - 1) == owner(slices, b.offset as int));
    }
    if a.end() < b.end() {
        assert(b.holds(a.end()));
        assert(owner(slices, a.end()) == owner(slices, b.offset as int));
    }
    if b.end() < a.end() {
        assert(a.holds(b.end()));
        assert(owner(slices, b.end()) == owner(slices, a.offset as int));
    }
}

/// All the whole pieces, put in order, are the compacted form.
proof fn lemma_sorted_is_split(slices: Seq<SliceDesc>, out: Seq<SliceDesc>)
    requires
        slices.len() > 0,
        split_upto(slices, out, slices.len() + 1int),
        forall|j: int, k: int|
            0 <= j < k < out.len() ==> ordered(#[trigger] out[j], #[trigger] out[k]),
    ensures
        is_split(slices, out),
{
    lemma_span(slices);
    assert forall|j: int, k: int| 0 <= j < k < out.len() implies (#[trigger] out[j]).end() <= (
    #[trigger] out[k]).offset by {
        if out[k].offset < out[j].end() {
            lemma_full_runs_meet(slices, out[j], out[k], out[k].offset as int);
        }
    }
    assert forall|x: int| span_start(slices) <= x < span_end(slices) implies #[trigger] held(
        out,
        x,
    ) by {
        lemma_owner(slices, x);
    }
    assert forall|j: int, k: int| 0 <= j && k == j + 1 && k < out.len() implies follows(
        slices,
        #[trigger] out[j],
        #[trigger] out[k],
    ) by {
        let e = out[j].end();
        if e < out[k].offset {
            assert(held(out, e));
            let m = choose|m: int| 0 <= m < out.len() && (#[trigger] out[m]).holds(e);
            if m < j {
                assert(out[m].end() <= out[j].offset);
            } else if m > k {
                assert(out[k].end() <= out[m].offset);
            }
        }
        assert(out[k].holds(out[k].offset as int));
    }
    if span_start(slices) < span_end(slices) {
        let first = span_start(slices) as int;
        assert(held(out, first));
        let m = choose|m: int| 0 <= m < out.len() && (#[trigger] out[m]).holds(first);
        if m > 0 {
            assert(out[0].end() <= out[m].offset);
        }
        let last = span_end(slices) - 1;
        assert(held(out, last));
        let m2 = choose|m2: int| 0 <= m2 < out.len() && (#[trigger] out[m2]).holds(last);
        if m2 < out.len() - 1 {
            assert(out[m2].end() <= out[out.len() - 1].offset);
        }
    } else if out.len() > 0 {
        assert(full_run(slices, out[0]));
    }
}

/// Being a collection of all whole pieces does not depend on the order.
proof fn lemma_split_upto_permuted(
    slices: Seq<SliceDesc>,
    a: Seq<SliceDesc>,
    b: Seq<SliceDesc>,
    n: int,
)
    requires
        split_upto(slices, a, n),
        a.to_multiset() == b.to_multiset(),
    ensures
        split_upto(slices, b, n),
{
    broadcast use vstd::seq_lib::group_to_multiset_ensures;

    a.lemma_multiset_has_no_duplicates();
    b.lemma_multiset_has_no_duplicates_conv();
    assert forall|k: int| 0 <= k < b.len() implies piece_of(slices, #[trigger] b[k]) && full_run(
        slices,
        b[k],
    ) && owner(slices, b[k].offset as int) < n by {
        assert(b.contains(b[k]));
        assert(b.to_multiset().count(b[k]) > 0);
        assert(a.contains(b[k]));
        let m = choose|m: int| 0 <= m < a.len() && a[m] == b[k];
        assert(piece_of(slices, a[m]));
    }
    assert forall|x: int|
        span_start(slices) <= x < span_end(slices) && #[trigger] owner(slices, x) < n implies held(
        b,
        x,
    ) by {
        assert(held(a, x));
        let m = choose|m: int| 0 <= m < a.len() && (#[trigger] a[m]).holds(x);
        assert(a.contains(a[m]));
        assert(a.to_multiset().count(a[m]) > 0);
        assert(b.contains(a[m]));
        let k = choose|k: int| 0 <= k < b.len() && b[k] == a[m];
        assert(b[k].holds(x));
    }
}

/// The same slices, by offset and then by length.
fn sort_slices(slices: Vec<SliceDesc>) -> (res: Vec<SliceDesc>)
    ensures
        res@.to_multiset() == slices@.to_multiset(),
        forall|j: int, k: int|
            0 <= j < k < res@.len() ==> ordered(#[trigger] res@[j], #[trigger] res@[k]),
{
    let mut res: Vec<SliceDesc> = Vec::new();
    assert(slices@.take(0) =~= Seq::<SliceDesc>::empty());
    for i in 0..slices.len()
        invariant
            res@.to_multiset() == slices@.take(i as int).to_multiset(),
            forall|j: int, k: int|
                0 <= j < k < res@.len() ==> ordered(#[trigger] res@[j], #[trigger] res@[k]),
    {
        let slice = slices[i];
        let mut pos: usize = res.len();
        while pos > 0 && (slice.offset < res[pos - 1].offset || (slice.offset == res[pos
            - 1].offset && slice.length < res[pos - 1].length))
            invariant
                pos <= res@.len(),
                forall|j: int, k: int|
                    0 <= j < k < res@.len() ==> ordered(#[trigger] res@[j], #[trigger] res@[k]),
                forall|k: int| pos <= k < res@.len() ==> ordered(slice, #[trigger] res@[k]),
            decreases pos,
        {
            pos = pos - 1;
        }
        let ghost before = res@;
        proof {
            if pos > 0 {
                assert(ordered(before[pos - 1], slice));
            }
            assert(slices@.take(i + 1) =~= slices@.take(i as int).push(slice));
        }
        res.insert(pos, slice);
        proof {
            vstd::seq_lib::to_multiset_insert(before, pos as int, slice);
            vstd::seq_lib::to_multiset_build(slices@.take(i as int), slice);
            assert forall|j: int, k: int| 0 <= j < k < res@.len() implies ordered(
                #[trigger] res@[j],
                #[trigger] res@[k],
            ) by {
                let jj = if j < pos { j } else { j - 1 };
                let kk = if k < pos { k } else { k - 1 };
                if j != pos && k != pos {
                    assert(ordered(before[jj], before[kk]));
                } else if j == pos {
                    assert(res@[k] == before[k - 1]);
                } else {
                    assert(res@[j] == before[j]);
                    if j < pos - 1 {
                        assert(ordered(before[j], before[pos - 1]));
                    }
                }
            }
        }
    }
    assert(slices@.take(slices@.len() as int) =~= slices@);
    res
}

/// Compacts a list of slices. Returns the compacted list, the offset at which
/// it begins and its total length.
pub fn split_slices(slices: &[SliceDesc]) -> (res: (Vec<SliceDesc>, u64, u64))
    requires
        slices@.len() > 0,
        all_valid(slices@),
    ensures
        is_split(slices@, res.0@),
        res.1 == span_start(slices@),
        res.2 == span_end(slices@) - span_start(slices@),
        res.2 == sum_lengths(res.0@),
        forall|i: int|
            0 <= i < slices@.len() ==> res.1 <= (#[trigger] slices@[i]).offset && slices@[i].offset
                + slices@[i].length <= res.1 + res.2,
        exists|i: int| 0 <= i < slices@.len() && (#[trigger] slices@[i]).offset == res.1,
        exists|i: int|
            0 <= i < slices@.len() && (#[trigger] slices@[i]).offset + slices@[i].length == res.1
                + res.2,
{
    let ghost list = slices@;
    let n: usize = slices.len();
    let mut l: u64 = u64::MAX;
    let mut r: u64 = 0;
    let mut chunk_id: u64 = 0;
    for i in 0..n
        invariant
            n == list.len(),
            list == slices@,
            all_valid(list),
            l == span_start(list.take(i as int)),
            r == span_end(list.take(i as int)),
            i > 0 ==> chunk_id == list[i - 1].chunk_id,
    {
        let slice = slices[i];
        let (slice_l, slice_r) = slice.range();
        assert(list.take(i + 1).drop_last() =~= list.take(i as int));
        assert(list.take(i + 1).last() == slice);
        chunk_id = slice.chunk_id;
        if slice_l < l {
            l = slice_l;
        }
        if slice_r > r {
            r = slice_r;
        }
    }
    assert(list.take(n as int) =~= list);
    proof {
        lemma_span(list);
    }

    let mut news: Vec<SliceDesc> = Vec::new();
    let mut cutter = Intervals::new(l, r);
    let mut total_length: u64 = 0;
    for i in 0..n
        invariant
            n == list.len(),
            n > 0,
            list == slices@,
            all_valid(list),
            l == span_start(list),
            r == span_end(list),
            chunk_id == list.last().chunk_id,
            cutter.wf(),
            forall|x: int| #[trigger]
                covers(cutter@, x) <==> l <= x < r && owner(list, x) >= i,
            total_length + measure(cutter@) == r - l,
            split_upto(list, news@, i as int),
    {
        let slice = slices[i];
        let (slice_l, slice_r) = slice.range();
        let ghost before = cutter@;
        let cut = cutter.cut(slice_l, slice_r);
        proof {
            lemma_measure_prefix(cut@, 0);
            lemma_measure_prefix(cutter@, 0);
            assert forall|x: int| #[trigger]
                covers(cut@, x) <==> l <= x < r && owner(list, x) == i by {
                lemma_owner(list, x);
                assert(covers(before, x) <==> l <= x < r && owner(list, x) >= i);
                assert(list[i as int].holds(x) <==> slice_l <= x < slice_r);
            }
            assert forall|x: int| #[trigger]
                covers(cutter@, x) <==> l <= x < r && owner(list, x) >= i + 1 by {
                lemma_owner(list, x);
                assert(covers(before, x) <==> l <= x < r && owner(list, x) >= i);
                assert(list[i as int].holds(x) <==> slice_l <= x < slice_r);
            }
            lemma_split_step(list, news@, i as int, cut@, slice.slice_id);
        }
        total_length = push_pieces(&mut news, &cut, slice.slice_id, chunk_id, total_length);
    }

    let rest = cutter.collect();
    proof {
        assert forall|x: int| #[trigger]
            covers(rest@, x) <==> l <= x < r && owner(list, x) == n by {
            lemma_owner(list, x);
        }
        lemma_split_step(list, news@, n as int, rest@, 0);
    }
    total_length = push_pieces(&mut news, &rest, 0, chunk_id, total_length);
    let ghost unsorted = news@;
    let sorted = sort_slices(news);
    proof {
        lemma_split_upto_permuted(list, unsorted, sorted@, n + 1);
        lemma_sorted_is_split(list, sorted@);
        lemma_split_total(list, sorted@);
        lemma_span_attained(list);
        let e = choose|e: int| 0 <= e < list.len() && (#[trigger] list[e]).end() == span_end(list);
        assert(list[e].offset + list[e].length == r);
    }
    (sorted, l, total_length)
}

/// The length from which on a slice may be left where it is.
pub const LARGE_SLICE: u64 = 0x10_0000;

/// The first slice of the list need not be rewritten: it is large, it makes up
/// at least a fifth of the span, and it is itself the first piece of the
/// compacted form.
pub open spec fn skippable(slices: Seq<SliceDesc>) -> bool {
    let first = slices[0];
    &&& first.length >= LARGE_SLICE
    &&& first.length * 5 >= span_end(slices) - span_start(slices)
    &&& first.offset == span_start(slices)
    &&& first.chunk_id == slices.last().chunk_id
}

/// The number of slices at the head of the list that need not be rewritten,
/// each judged with those before it taken away.
pub open spec fn skip_count(slices: Seq<SliceDesc>) -> nat
    decreases slices.len(),
{
    if slices.len() == 0 || !skippable(slices) {
        0
    } else {
        1 + skip_count(slices.skip(1))
    }
}

/// The first slice of the list can be judged: there is a position to compact,
/// and five times the length of a large slice fits the machine integer.
pub open spec fn judgeable(slices: Seq<SliceDesc>) -> bool {
    &&& span_start(slices) < span_end(slices)
    &&& slices[0].length >= LARGE_SLICE ==> slices[0].length * 5 <= u64::MAX
}

/// Compacts a list of slices but for those at its head that need not be
/// rewritten. Returns the compacted rest, its offset, its total length, and how
/// many slices were passed over. Where none is left to rewrite, the rest is
/// empty and the last number is that of the last slice.
pub fn skip_slices(slices: &[SliceDesc]) -> (res: (Vec<SliceDesc>, u64, u64, usize))
    requires
        slices@.len() > 0,
        all_valid(slices@),
        forall|k: int|
            0 <= k < slices@.len() && k <= skip_count(slices@) ==> judgeable(
                #[trigger] slices@.skip(k),
            ),
    ensures
        skip_count(slices@) > 0 <==> {
            &&& slices@[0].length >= 0x10_0000
            &&& slices@[0].length * 5 >= span_end(slices@) - span_start(slices@)
            &&& slices@[0].offset == span_start(slices@)
            &&& slices@[0].chunk_id == slices@.last().chunk_id
        },
        if skip_count(slices@) < slices@.len() {
            let rest = slices@.skip(skip_count(slices@) as int);
            &&& is_split(rest, res.0@)
            &&& res.1 == span_start(rest)
            &&& res.2 == span_end(rest) - span_start(rest)
            &&& res.3 == skip_count(slices@)
        } else {
            &&& res.0@.len() == 0
            &&& res.1 == 0
            &&& res.2 == 0
            &&& res.3 == slices@.len() - 1
        },
{
    let ghost list = slices@;
    let n: usize = slices.len();
    let mut skipped: usize = 0;
    assert(list.skip(0) =~= list);
    while skipped < n
        invariant
            n == list.len(),
            n > 0,
            list == slices@,
            all_valid(list),
            skipped <= n,
            skip_count(list) == skipped + skip_count(list.skip(skipped as int)),
            forall|k: int|
                0 <= k < list.len() && k <= skip_count(list) ==> judgeable(
                    #[trigger] list.skip(k),
                ),
        decreases n - skipped,
    {
        let head = slices[skipped];
        let ghost rest = list.skip(skipped as int);
        let tail = vstd::slice::slice_subrange(slices, skipped, n);
        assert(tail@ =~= rest);
        assert(all_valid(rest)) by {
            assert forall|i: int| 0 <= i < rest.len() implies (#[trigger] rest[i]).valid() by {
                assert(rest[i] == list[skipped + i]);
            }
        }
        assert(judgeable(rest));
        let (dry_slices, dry_offset, dry_length) = split_slices(tail);
        let first = dry_slices[0];
        assert(rest[0] == head);
        proof {
            if head.length > 0 {
                lemma_head_kept(rest, dry_slices@);
            }
        }
        if !(head.length >= LARGE_SLICE && head.length * 5 >= dry_length) || first
            != head {
            return (dry_slices, dry_offset, dry_length, skipped);
        }
        assert(rest.skip(1) =~= list.skip(skipped + 1));
        skipped = skipped + 1;
    }
    assert(list.skip(n as int).len() == 0);
    (Vec::new(), 0, 0, n - 1)
}

/// The compacted form begins with the first slice itself if and only if that
/// slice begins where the span does and is filed under the same chunk as the
/// last one.
pub proof fn lemma_head_kept(slices: Seq<SliceDesc>, out: Seq<SliceDesc>)
    requires
        slices.len() > 0,
        slices[0].length > 0,
        out.len() > 0,
        is_split(slices, out),
    ensures
        out[0] == slices[0] <==> slices[0].offset == span_start(slices) && slices[0].chunk_id
            == slices.last().chunk_id,
{
    lemma_span(slices);
    let head = slices[0];
    let first = out[0];
    assert(piece_of(slices, first));
    if head.offset == span_start(slices) && head.chunk_id == slices.last().chunk_id {
        lemma_owner_is(slices, head.offset as int, 0);
        if first.end() < head.end() {
            let x = first.end();
            lemma_owner_is(slices, x, 0);
            if out.len() > 1 {
                assert(follows(slices, out[0], out[1]));
            }
        }
        if head.end() < first.end() {
            let x = head.end();
            assert(first.holds(x));
            assert(owner(slices, x) == 0);
            lemma_owner(slices, x);
        }
    }
}

} // verus!
