//! What holds of compaction as a whole.

use crate::compact::{
    all_valid, follows, is_split, judgeable, lemma_owner, lemma_owner_is, lemma_span, owner,
    piece_of, skip_count, span_end, span_start, sum_lengths, visible_id,
};
use crate::slice::SliceDesc;
use vstd::prelude::*;

verus! {

/// Each piece of the compacted form ends before the later ones begin.
proof fn lemma_split_order(slices: Seq<SliceDesc>, out: Seq<SliceDesc>, j: int, k: int)
    requires
        is_split(slices, out),
        0 <= j < k < out.len(),
    ensures
        out[j].end() <= out[k].offset,
    decreases k - j,
{
    assert(follows(slices, out[k - 1], out[k]));
    if j < k - 1 {
        lemma_split_order(slices, out, j, k - 1);
    }
}

/// Every piece of the compacted form lies within the span.
proof fn lemma_split_within(slices: Seq<SliceDesc>, out: Seq<SliceDesc>, k: int)
    requires
        is_split(slices, out),
        0 <= k < out.len(),
    ensures
        span_start(slices) <= out[k].offset < out[k].end() <= span_end(slices),
{
    assert(piece_of(slices, out[k]));
    assert(piece_of(slices, out[0]));
    assert(piece_of(slices, out[out.len() - 1]));
    if 0 < k {
        lemma_split_order(slices, out, 0, k);
    }
    if k < out.len() - 1 {
        lemma_split_order(slices, out, k, out.len() - 1);
    }
}

/// The piece of the compacted form that holds a position of the span.
proof fn lemma_split_find(slices: Seq<SliceDesc>, out: Seq<SliceDesc>, x: int, n: int) -> (k: int)
    requires
        is_split(slices, out),
        0 <= n < out.len(),
        out[0].offset <= x < out[n].end(),
    ensures
        0 <= k <= n,
        out[k].holds(x),
    decreases n,
{
    if out[n].offset <= x {
        n
    } else {
        assert(follows(slices, out[n - 1], out[n]));
        lemma_split_find(slices, out, x, n - 1)
    }
}

/// A position that a piece of the compacted form holds is owned, in the
/// compacted form, by that piece.
proof fn lemma_split_owner(slices: Seq<SliceDesc>, out: Seq<SliceDesc>, x: int, k: int)
    requires
        is_split(slices, out),
        0 <= k < out.len(),
        out[k].holds(x),
    ensures
        owner(out, x) == k,
{
    assert forall|j: int| 0 <= j < k implies !(#[trigger] out[j]).holds(x) by {
        lemma_split_order(slices, out, j, k);
    }
    lemma_owner_is(out, x, k);
}

/// A list has one compacted form.
pub proof fn lemma_split_unique(slices: Seq<SliceDesc>, a: Seq<SliceDesc>, b: Seq<SliceDesc>)
    requires
        is_split(slices, a),
        is_split(slices, b),
    ensures
        a == b,
{
    if a.len() > 0 {
        if a.len() <= b.len() {
            lemma_split_prefix(slices, a, b, a.len() - 1);
            lemma_split_same_len(slices, a, b);
        } else {
            lemma_split_prefix(slices, b, a, b.len() - 1);
            lemma_split_same_len(slices, b, a);
        }
    }
    assert(a =~= b);
}

/// Two compacted forms of a list agree up to index `k`.
proof fn lemma_split_prefix(slices: Seq<SliceDesc>, a: Seq<SliceDesc>, b: Seq<SliceDesc>, k: int)
    requires
        is_split(slices, a),
        is_split(slices, b),
        0 <= k < a.len() <= b.len(),
    ensures
        forall|j: int| 0 <= j <= k ==> a[j] == b[j],
    decreases k,
{
    if k > 0 {
        lemma_split_prefix(slices, a, b, k - 1);
        assert(follows(slices, a[k - 1], a[k]));
        assert(follows(slices, b[k - 1], b[k]));
        assert(a[k - 1] == b[k - 1]);
    }
    assert(a[k].offset == b[k].offset);
    assert(piece_of(slices, a[k]));
    assert(piece_of(slices, b[k]));
    lemma_split_within(slices, a, k);
    lemma_split_within(slices, b, k);
    lemma_split_piece_end(slices, a, b, k);
    lemma_split_piece_end(slices, b, a, k);
}

/// Of two pieces that begin together, neither ends first.
proof fn lemma_split_piece_end(slices: Seq<SliceDesc>, a: Seq<SliceDesc>, b: Seq<SliceDesc>, k: int)
    requires
        is_split(slices, a),
        is_split(slices, b),
        0 <= k < a.len(),
        k < b.len(),
        a[k].offset == b[k].offset,
    ensures
        a[k].end() >= b[k].end(),
{
    lemma_split_within(slices, a, k);
    lemma_split_within(slices, b, k);
    if a[k].end() < b[k].end() {
        let x = a[k].end();
        assert(b[k].holds(x));
        assert(piece_of(slices, b[k]));
        assert(owner(slices, x) == owner(slices, b[k].offset as int));
        assert(k < a.len() - 1);
        assert(follows(slices, a[k], a[k + 1]));
    }
}

/// Two compacted forms of which one begins with the other are equally long.
proof fn lemma_split_same_len(slices: Seq<SliceDesc>, a: Seq<SliceDesc>, b: Seq<SliceDesc>)
    requires
        is_split(slices, a),
        is_split(slices, b),
        0 < a.len() <= b.len(),
        a[a.len() - 1] == b[a.len() - 1],
    ensures
        a.len() == b.len(),
{
    if a.len() < b.len() {
        assert(follows(slices, b[a.len() - 1], b[a.len() as int]));
        lemma_split_within(slices, b, a.len() as int);
    }
}

/// Compaction does not change what is stored where: every position is kept
/// under the same id before and after.
pub proof fn lemma_split_keeps_content(slices: Seq<SliceDesc>, out: Seq<SliceDesc>, x: int)
    requires
        is_split(slices, out),
    ensures
        visible_id(out, x) == visible_id(slices, x),
{
    lemma_span(slices);
    lemma_owner(slices, x);
    lemma_owner(out, x);
    if span_start(slices) <= x < span_end(slices) {
        let k = lemma_split_find(slices, out, x, out.len() - 1);
        lemma_split_owner(slices, out, x, k);
        assert(piece_of(slices, out[k]));
        assert(owner(slices, x) == owner(slices, out[k].offset as int));
    } else if owner(out, x) < out.len() {
        lemma_split_within(slices, out, owner(out, x) as int);
    }
}

/// A list that is compact already is its own compacted form.
pub proof fn lemma_split_idempotent(slices: Seq<SliceDesc>, out: Seq<SliceDesc>)
    requires
        is_split(slices, out),
    ensures
        is_split(out, out),
{
    if out.len() > 0 {
        lemma_span(out);
        lemma_span_attained(out);
        let s = choose|s: int| 0 <= s < out.len() && (#[trigger] out[s]).offset == span_start(out);
        let e = choose|e: int| 0 <= e < out.len() && (#[trigger] out[e]).end() == span_end(out);
        lemma_split_within(slices, out, s);
        lemma_split_within(slices, out, e);
        lemma_split_within(slices, out, 0);
        lemma_split_within(slices, out, out.len() - 1);
        assert forall|k: int| 0 <= k < out.len() implies piece_of(out, #[trigger] out[k]) by {
            assert(piece_of(slices, out[k]));
            assert(piece_of(slices, out.last()));
            assert forall|x: int| out[k].holds(x) implies #[trigger] owner(out, x) == k by {
                lemma_split_owner(slices, out, x, k);
            }
            assert(out[k].holds(out[k].offset as int));
        }
        assert forall|j: int, k: int| 0 <= j && k == j + 1 && k < out.len() implies follows(
            out,
            #[trigger] out[j],
            #[trigger] out[k],
        ) by {
            assert(follows(slices, out[j], out[k]));
            assert(piece_of(slices, out[j]));
            assert(piece_of(slices, out[k]));
            lemma_split_owner(slices, out, out[j].offset as int, j);
            lemma_split_owner(slices, out, out[k].offset as int, k);
        }
    }
}

/// Some slice begins where the span begins, and some slice ends where it ends.
pub proof fn lemma_span_attained(slices: Seq<SliceDesc>)
    requires
        slices.len() > 0,
    ensures
        exists|i: int| 0 <= i < slices.len() && (#[trigger] slices[i]).offset == span_start(slices),
        exists|i: int| 0 <= i < slices.len() && (#[trigger] slices[i]).end() == span_end(slices),
    decreases slices.len(),
{
    let rest = slices.drop_last();
    let last = slices.len() - 1;
    if rest.len() == 0 {
        reveal_with_fuel(span_start, 2);
        reveal_with_fuel(span_end, 2);
        assert(slices[0].offset == span_start(slices) || slices[0].offset == u64::MAX);
        assert(slices[0].end() == span_end(slices) || slices[0].end() == 0);
    } else {
        lemma_span_attained(rest);
        let s = choose|i: int|
            0 <= i < rest.len() && (#[trigger] rest[i]).offset == span_start(rest);
        let e = choose|i: int| 0 <= i < rest.len() && (#[trigger] rest[i]).end() == span_end(rest);
        assert(slices[s] == rest[s]);
        assert(slices[e] == rest[e]);
        assert(slices[last].offset == span_start(slices) || slices[s].offset == span_start(slices));
        assert(slices[last].end() == span_end(slices) || slices[e].end() == span_end(slices));
    }
}

/// Passing over the head of a list and compacting the rest does not change what
/// is stored where.
pub proof fn lemma_skip_keeps_content(slices: Seq<SliceDesc>, n: int, out: Seq<SliceDesc>, x: int)
    requires
        0 <= n <= slices.len(),
        is_split(slices.skip(n), out),
    ensures
        visible_id(slices.take(n) + out, x) == visible_id(slices, x),
{
    let head = slices.take(n);
    let rest = slices.skip(n);
    assert(head + rest =~= slices);
    lemma_split_keeps_content(rest, out, x);
    lemma_visible_in_parts(head, rest, x);
    lemma_visible_in_parts(head, out, x);
}

/// The id of a position in a list of two parts.
proof fn lemma_visible_in_parts(a: Seq<SliceDesc>, b: Seq<SliceDesc>, x: int)
    ensures
        visible_id(a + b, x) == if owner(a, x) < a.len() {
            visible_id(a, x)
        } else {
            visible_id(b, x)
        },
{
    let all = a + b;
    lemma_owner(a, x);
    lemma_owner(b, x);
    let i: int = if owner(a, x) < a.len() {
        owner(a, x) as int
    } else {
        (a.len() + owner(b, x)) as int
    };
    assert forall|j: int| 0 <= j < i implies !(#[trigger] all[j]).holds(x) by {
        if j < a.len() {
            assert(all[j] == a[j]);
        } else {
            assert(all[j] == b[j - a.len()]);
        }
    }
    if i < a.len() {
        assert(all[i] == a[i]);
    } else if i < all.len() {
        assert(all[i] == b[i - a.len()]);
    }
    lemma_owner_is(all, x, i);
}

/// The pieces of the compacted form are together as long as the span.
pub proof fn lemma_split_total(slices: Seq<SliceDesc>, out: Seq<SliceDesc>)
    requires
        slices.len() > 0,
        is_split(slices, out),
    ensures
        sum_lengths(out) == span_end(slices) - span_start(slices),
{
    lemma_span(slices);
    if out.len() > 0 {
        lemma_split_total_upto(slices, out, out.len() as int);
        assert(out.take(out.len() as int) =~= out);
    }
}

/// The first `n` pieces of the compacted form are as long as what they span.
proof fn lemma_split_total_upto(slices: Seq<SliceDesc>, out: Seq<SliceDesc>, n: int)
    requires
        is_split(slices, out),
        0 < n <= out.len(),
    ensures
        sum_lengths(out.take(n)) == out[n - 1].end() - out[0].offset,
    decreases n,
{
    assert(out.take(n).drop_last() =~= out.take(n - 1));
    assert(out.take(n).last() == out[n - 1]);
    if n > 1 {
        lemma_split_total_upto(slices, out, n - 1);
        assert(follows(slices, out[n - 2], out[n - 1]));
    } else {
        reveal_with_fuel(sum_lengths, 2);
    }
}

/// Where no slice is empty and five times every length fits the machine integer,
/// the head of the list can be judged however many slices were passed over.
pub proof fn lemma_judgeable(slices: Seq<SliceDesc>, k: int)
    requires
        0 <= k < slices.len(),
        forall|i: int|
            0 <= i < slices.len() ==> 0 < (#[trigger] slices[i]).length && slices[i].length * 5
                <= u64::MAX,
    ensures
        judgeable(slices.skip(k)),
{
    let rest = slices.skip(k);
    lemma_span(rest);
    assert(rest[0] == slices[k]);
}

/// The compacted form, position by position. Its pieces are not empty, follow
/// one another without gap or overlap from the least offset to the greatest
/// end, and all belong to the chunk of the last slice. Each position of a piece
/// is kept under the id of the first slice that holds it, or under 0 where none
/// does. Where one piece ends and the next begins, the first holder changes.
pub proof fn lemma_split_tiles(slices: Seq<SliceDesc>, out: Seq<SliceDesc>)
    requires
        slices.len() > 0,
        is_split(slices, out),
    ensures
        forall|k: int|
            0 <= k < out.len() ==> (#[trigger] out[k]).length > 0 && out[k].chunk_id
                == slices[slices.len() - 1].chunk_id,
        forall|j: int, k: int|
            0 <= j && k == j + 1 && k < out.len() ==> (#[trigger] out[j]).offset + out[j].length
                == (#[trigger] out[k]).offset,
        out.len() == 0 <==> span_start(slices) == span_end(slices),
        out.len() > 0 ==> out[0].offset == span_start(slices),
        out.len() > 0 ==> out[out.len() - 1].offset + out[out.len() - 1].length == span_end(slices),
        forall|k: int, x: int|
            0 <= k < out.len() && #[trigger] out[k].holds(x) && owner(slices, x) < slices.len()
                ==> out[k].slice_id == slices[owner(slices, x) as int].slice_id,
        forall|k: int, x: int|
            0 <= k < out.len() && #[trigger] out[k].holds(x) && owner(slices, x) == slices.len()
                ==> out[k].slice_id == 0,
        forall|k: int|
            0 < k < out.len() ==> owner(slices, (#[trigger] out[k]).offset - 1) != owner(
                slices,
                out[k].offset as int,
            ),
{
    lemma_span(slices);
    assert forall|k: int| 0 <= k < out.len() implies (#[trigger] out[k]).length > 0
        && out[k].chunk_id == slices[slices.len() - 1].chunk_id by {
        assert(piece_of(slices, out[k]));
    }
    assert forall|j: int, k: int| 0 <= j && k == j + 1 && k < out.len() implies (
    #[trigger] out[j]).offset + out[j].length == (#[trigger] out[k]).offset by {
        assert(follows(slices, out[j], out[k]));
    }
    assert forall|k: int, x: int|
        0 <= k < out.len() && #[trigger] out[k].holds(x) implies out[k].slice_id == (if owner(
        slices,
        x,
    ) < slices.len() {
        slices[owner(slices, x) as int].slice_id
    } else {
        0
    }) by {
        assert(piece_of(slices, out[k]));
        assert(owner(slices, x) == owner(slices, out[k].offset as int));
    }
    assert forall|k: int| 0 < k < out.len() implies owner(slices, (#[trigger] out[k]).offset - 1)
        != owner(slices, out[k].offset as int) by {
        let j = k - 1;
        assert(follows(slices, out[j], out[k]));
        assert(piece_of(slices, out[j]));
        let x = out[k].offset - 1;
        assert(out[j].holds(x));
        assert(owner(slices, x) == owner(slices, out[j].offset as int));
    }
}

/// The id of a position is that of the first slice that holds it; a position
/// that no slice holds has id 0.
pub proof fn lemma_visible_id(slices: Seq<SliceDesc>, x: int, i: int)
    requires
        0 <= i < slices.len(),
        slices[i].holds(x),
        forall|j: int| 0 <= j < i ==> !(#[trigger] slices[j]).holds(x),
    ensures
        visible_id(slices, x) == slices[i].slice_id,
        visible_id(slices.take(i), x) == 0,
{
    lemma_owner_is(slices, x, i);
    let before = slices.take(i);
    assert forall|j: int| 0 <= j < i implies !(#[trigger] before[j]).holds(x) by {
        assert(before[j] == slices[j]);
    }
    lemma_owner_is(before, x, i);
}

/// No slices have no length, and one more slice adds its own.
pub proof fn lemma_sum_lengths(slices: Seq<SliceDesc>, slice: SliceDesc)
    ensures
        sum_lengths(Seq::empty()) == 0,
        sum_lengths(slices.push(slice)) == sum_lengths(slices) + slice.length,
{
    assert(slices.push(slice).drop_last() =~= slices);
}

/// A list is valid where no slice reaches beyond the last position.
pub proof fn lemma_all_valid(slices: Seq<SliceDesc>)
    ensures
        all_valid(slices) <==> forall|i: int|
            0 <= i < slices.len() ==> (#[trigger] slices[i]).offset + slices[i].length <= u64::MAX,
{
    if all_valid(slices) {
        assert forall|i: int| 0 <= i < slices.len() implies (#[trigger] slices[i]).offset
            + slices[i].length <= u64::MAX by {
            assert(slices[i].valid());
        }
    }
}

/// The first slice is passed over if and only if it has a mebibyte at least, no
/// slice begins before it, no slice ends further from its beginning than five
/// times its own length, and it belongs to the chunk of the last slice.
pub proof fn lemma_skip_head(slices: Seq<SliceDesc>)
    requires
        slices.len() > 0,
    ensures
        skip_count(slices) > 0 <==> {
            &&& slices[0].length >= 1048576
            &&& slices[0].chunk_id == slices[slices.len() - 1].chunk_id
            &&& forall|i: int|
                0 <= i < slices.len() ==> slices[0].offset <= (#[trigger] slices[i]).offset
                    && slices[i].offset + slices[i].length <= slices[0].offset + 5
                    * slices[0].length
        },
{
    lemma_span(slices);
    lemma_span_attained(slices);
    let s = choose|s: int|
        0 <= s < slices.len() && (#[trigger] slices[s]).offset == span_start(slices);
    let e = choose|e: int| 0 <= e < slices.len() && (#[trigger] slices[e]).end() == span_end(slices);
    assert(slices[s].offset + slices[s].length <= span_end(slices));
    assert(slices[e].offset + slices[e].length == span_end(slices));
    if skip_count(slices) > 0 {
        assert forall|i: int| 0 <= i < slices.len() implies slices[0].offset <= (
        #[trigger] slices[i]).offset && slices[i].offset + slices[i].length <= slices[0].offset + 5
            * slices[0].length by {
            assert(slices[i].end() <= span_end(slices));
        }
    }
}

/// Passing over the first slice, the count goes on with the rest; it never
/// exceeds the number of slices.
pub proof fn lemma_skip_next(slices: Seq<SliceDesc>)
    ensures
        skip_count(slices) <= slices.len(),
        skip_count(slices) > 0 ==> skip_count(slices) == 1 + skip_count(slices.skip(1)),
    decreases slices.len(),
{
    if slices.len() > 0 {
        lemma_skip_next(slices.skip(1));
    }
}

/// The head of a list can be judged if and only if some slice begins before some
/// slice ends, and five times the head's length fits wherever the head has a
/// mebibyte at least.
pub proof fn lemma_judgeable_exact(slices: Seq<SliceDesc>)
    requires
        slices.len() > 0,
    ensures
        judgeable(slices) <==> {
            &&& exists|i: int, j: int|
                0 <= i < slices.len() && 0 <= j < slices.len() && (#[trigger] slices[i]).offset < (
                #[trigger] slices[j]).offset + slices[j].length
            &&& slices[0].length < 1048576 || slices[0].length * 5 <= u64::MAX
        },
{
    lemma_span(slices);
    lemma_span_attained(slices);
    let s = choose|s: int|
        0 <= s < slices.len() && (#[trigger] slices[s]).offset == span_start(slices);
    let e = choose|e: int| 0 <= e < slices.len() && (#[trigger] slices[e]).end() == span_end(slices);
    assert(slices[e].offset + slices[e].length == span_end(slices));
    if exists|i: int, j: int|
        0 <= i < slices.len() && 0 <= j < slices.len() && (#[trigger] slices[i]).offset < (
        #[trigger] slices[j]).offset + slices[j].length {
        let (i, j) = choose|i: int, j: int|
            0 <= i < slices.len() && 0 <= j < slices.len() && (#[trigger] slices[i]).offset < (
            #[trigger] slices[j]).offset + slices[j].length;
        assert(slices[j].end() <= span_end(slices));
        assert(span_start(slices) <= slices[i].offset);
    } else {
        assert(!(slices[s].offset < slices[e].offset + slices[e].length));
    }
}

} // verus!
