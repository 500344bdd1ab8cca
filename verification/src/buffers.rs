//! Shared byte buffers, and the text of bytes that a list of them makes up.

use bytes::Bytes;
use vstd::prelude::*;

verus! {

/// A shared, immutable run of bytes.
#[verifier::external_type_specification]
#[verifier::external_body]
pub struct ExBytes(Bytes);

/// The bytes that a buffer holds.
pub uninterp spec fn contents(buf: Bytes) -> Seq<u8>;

/// `Bytes::len`: the number of bytes in the buffer.
pub assume_specification[ Bytes::len ](buf: &Bytes) -> (res: usize)
    ensures
        res == contents(*buf).len(),
;

/// `Bytes::from_owner`: a buffer that takes over a vector and holds its bytes.
#[verifier::external_body]
fn bytes_from_vec(data: Vec<u8>) -> (res: Bytes)
    ensures
        contents(res) == data@,
{
    Bytes::from_owner(data)
}

/// The bytes of a list of buffers, one after the other.
pub open spec fn joined(bufs: Seq<Bytes>) -> Seq<u8>
    decreases bufs.len(),
{
    if bufs.len() == 0 {
        Seq::empty()
    } else {
        joined(bufs.drop_last()) + contents(bufs.last())
    }
}

/// `n` zero bytes.
pub open spec fn zeros(n: nat) -> Seq<u8> {
    Seq::new(n, |i: int| 0u8)
}

/// A list of one buffer that holds `data`.
pub fn single_buffer(data: Vec<u8>) -> (res: Vec<Bytes>)
    ensures
        res@.len() == 1,
        joined(res@) == data@,
{
    let mut res: Vec<Bytes> = Vec::new();
    res.push(bytes_from_vec(data));
    proof {
        reveal_with_fuel(joined, 2);
        assert(res@.drop_last() =~= Seq::<Bytes>::empty());
        assert(joined(res@) =~= data@);
    }
    res
}

/// Buffers that hold `length` zeros.
pub fn make_zero_bytes(length: usize) -> (res: Vec<Bytes>)
    ensures
        joined(res@) == zeros(length as nat),
        joined(res@).len() == length,
        forall|i: int| 0 <= i < length ==> #[trigger] joined(res@)[i] == 0,
{
    let data: Vec<u8> = vec![0u8; length];
    assert(data@ =~= zeros(length as nat));
    single_buffer(data)
}

/// The number of bytes in a list of buffers.
pub fn total_len(bufs: &Vec<Bytes>) -> (res: usize)
    requires
        joined(bufs@).len() <= usize::MAX,
    ensures
        res == joined(bufs@).len(),
{
    let mut total: usize = 0;
    for i in 0..bufs.len()
        invariant
            joined(bufs@).len() <= usize::MAX,
            total == joined(bufs@.take(i as int)).len(),
    {
        proof {
            assert(bufs@.take(i + 1).drop_last() =~= bufs@.take(i as int));
            assert(bufs@.take(i + 1) + bufs@.skip(i + 1) =~= bufs@);
            lemma_joined_add(bufs@.take(i + 1), bufs@.skip(i + 1));
        }
        total = total + bufs[i].len();
    }
    assert(bufs@.take(bufs@.len() as int) =~= bufs@);
    total
}

/// Two lists of buffers, one after the other, hold the bytes of the first and
/// then those of the second.
pub proof fn lemma_joined_add(a: Seq<Bytes>, b: Seq<Bytes>)
    ensures
        joined(a + b) == joined(a) + joined(b),
    decreases b.len(),
{
    if b.len() == 0 {
        assert(a + b =~= a);
        assert(joined(a) + joined(b) =~= joined(a));
    } else {
        assert((a + b).drop_last() =~= a + b.drop_last());
        lemma_joined_add(a, b.drop_last());
        assert(joined(a + b) =~= joined(a) + joined(b));
    }
}

/// No buffers hold nothing, and one more buffer adds its own bytes at the end.
pub proof fn lemma_joined_push(bufs: Seq<Bytes>, buf: Bytes)
    ensures
        joined(Seq::empty()) == Seq::<u8>::empty(),
        joined(bufs.push(buf)) == joined(bufs) + contents(buf),
{
    assert(bufs.push(buf).drop_last() =~= bufs);
}

/// `zeros` is as long as asked for and holds nothing but zeros.
pub proof fn lemma_zeros(n: nat, i: int)
    ensures
        zeros(n).len() == n,
        0 <= i < n ==> zeros(n)[i] == 0,
{
}

} // verus!
