//! Self-delimiting binary framing for chunk slots.
//!
//! Each slot of a chunk (one event body, or an empty placeholder) is encoded
//! as a COBS frame: a run of non-zero bytes closed by a single zero delimiter.
//! Scanning a concatenation of frames for zero bytes therefore finds every
//! slot boundary without any external length index.

use vstd::prelude::*;
use crate::error::Error;

verus! {

/// The frame delimiter byte. COBS encoding guarantees it cannot occur inside
/// an encoded frame, only at its end.
pub const FRAME_DELIMITER: u8 = 0;

/// The bytes that COBS encoding produces for a given payload.
pub uninterp spec fn cobs_of(payload: Seq<u8>) -> Seq<u8>;

/// A well-formed frame: at least one byte, the last byte is the delimiter and
/// no earlier byte is.
pub open spec fn is_frame(f: Seq<u8>) -> bool {
    &&& f.len() >= 1
    &&& f[f.len() - 1] == FRAME_DELIMITER
    &&& forall|i: int| 0 <= i < f.len() - 1 ==> f[i] != FRAME_DELIMITER
}

/// The concatenation of the frames of a sequence of payloads, in order.
pub open spec fn frame_seq(payloads: Seq<Seq<u8>>) -> Seq<u8>
    decreases payloads.len(),
{
    if payloads.len() == 0 {
        Seq::empty()
    } else {
        cobs_of(payloads[0]) + frame_seq(payloads.drop_first())
    }
}

pub(crate) proof fn lemma_frame_seq_push(payloads: Seq<Seq<u8>>, p: Seq<u8>)
    ensures
        frame_seq(payloads.push(p)) == frame_seq(payloads) + cobs_of(p),
    decreases payloads.len(),
{
    if payloads.len() == 0 {
        assert(payloads.push(p).drop_first() =~= Seq::<Seq<u8>>::empty());
        assert(payloads.push(p)[0] == p);
        assert(frame_seq(payloads.push(p)) == cobs_of(p) + frame_seq(Seq::<Seq<u8>>::empty()));
        assert(frame_seq(payloads.push(p)) =~= frame_seq(payloads) + cobs_of(p));
    } else {
        assert(payloads.push(p).drop_first() =~= payloads.drop_first().push(p));
        lemma_frame_seq_push(payloads.drop_first(), p);
        assert(frame_seq(payloads.push(p)) =~= frame_seq(payloads) + cobs_of(p));
    }
}

proof fn lemma_frame_seq_take_succ(payloads: Seq<Seq<u8>>, k: int)
    requires
        0 <= k < payloads.len(),
    ensures
        frame_seq(payloads.take(k + 1)) == frame_seq(payloads.take(k)) + cobs_of(payloads[k]),
{
    assert(payloads.take(k + 1) =~= payloads.take(k).push(payloads[k]));
    lemma_frame_seq_push(payloads.take(k), payloads[k]);
}

/// The frames of a sequence of payloads split at any point: everything before
/// slot `k`, then everything from slot `k` on.
proof fn lemma_frame_seq_split(payloads: Seq<Seq<u8>>, k: int)
    requires
        0 <= k <= payloads.len(),
    ensures
        frame_seq(payloads) == frame_seq(payloads.take(k)) + frame_seq(payloads.skip(k)),
    decreases k,
{
    if k == 0 {
        assert(payloads.take(0) =~= Seq::<Seq<u8>>::empty());
        assert(payloads.skip(0) =~= payloads);
        assert(frame_seq(payloads) =~= frame_seq(payloads.take(0)) + frame_seq(
            payloads.skip(0),
        ));
    } else {
        lemma_frame_seq_split(payloads, k - 1);
        lemma_frame_seq_take_succ(payloads, k - 1);
        assert(payloads.skip(k - 1).drop_first() =~= payloads.skip(k));
        assert(payloads.skip(k - 1)[0] == payloads[k - 1]);
        assert(frame_seq(payloads.skip(k - 1)) == cobs_of(payloads[k - 1]) + frame_seq(
            payloads.skip(k),
        ));
        assert(frame_seq(payloads) =~= frame_seq(payloads.take(k)) + frame_seq(
            payloads.skip(k),
        ));
    }
}

/// Byte-level picture of one frame inside the concatenation: frame `k` starts
/// right after the frames before it and is followed by the frames after it.
proof fn lemma_frame_bytes(payloads: Seq<Seq<u8>>, k: int)
    requires
        0 <= k < payloads.len(),
    ensures
        frame_seq(payloads.take(k)).len() + cobs_of(payloads[k]).len() <= frame_seq(
            payloads,
        ).len(),
        forall|j: int| 0 <= j < cobs_of(payloads[k]).len() ==> frame_seq(payloads)[frame_seq(
            payloads.take(k),
        ).len() + j] == cobs_of(payloads[k])[j],
{
    lemma_frame_seq_split(payloads, k);
    assert(payloads.skip(k).drop_first() =~= payloads.skip(k + 1));
    assert(frame_seq(payloads.skip(k)) == cobs_of(payloads[k]) + frame_seq(
        payloads.skip(k + 1),
    ));
}

/// Finds the delimiter that closes frame `k`, scanning from the frame's first
/// byte. Returns the delimiter's index.
fn seek_delimiter(
    buf: &Vec<u8>,
    start: usize,
    Ghost(payloads): Ghost<Seq<Seq<u8>>>,
    Ghost(k): Ghost<int>,
) -> (end: usize)
    requires
        buf@ == frame_seq(payloads),
        forall|j: int| 0 <= j < payloads.len() ==> is_frame(#[trigger] cobs_of(payloads[j])),
        0 <= k < payloads.len(),
        start == frame_seq(payloads.take(k)).len(),
    ensures
        end + 1 == start + cobs_of(payloads[k]).len(),
        end < buf.len(),
{
    proof {
        lemma_frame_bytes(payloads, k);
    }
    let ghost flen = cobs_of(payloads[k]).len() as int;
    let n = buf.len();
    let mut j = start;
    while buf[j] != FRAME_DELIMITER
        invariant
            buf@ == frame_seq(payloads),
            0 <= k < payloads.len(),
            is_frame(cobs_of(payloads[k])),
            start == frame_seq(payloads.take(k)).len(),
            flen == cobs_of(payloads[k]).len(),
            n == buf@.len(),
            start + flen <= n,
            forall|i: int| 0 <= i < flen ==> buf@[start + i] == cobs_of(payloads[k])[i],
            start <= j,
            j < start + flen,
        decreases start + flen - j,
    {
        j = j + 1;
        proof {
            assert(buf@[j - 1] == cobs_of(payloads[k])[j - 1 - start]);
            assert(j - 1 - start < flen - 1) by {
                if j - 1 - start == flen - 1 {
                    assert(cobs_of(payloads[k])[flen - 1] == FRAME_DELIMITER);
                }
            }
        }
    }
    proof {
        assert(buf@[j as int] == cobs_of(payloads[k])[j - start]);
        assert(j - start == flen - 1) by {
            if j - start < flen - 1 {
                assert(cobs_of(payloads[k])[j - start] != FRAME_DELIMITER);
            }
        }
    }
    j
}

/// Decodes slot `slot` out of a buffer holding the concatenated frames of
/// `payloads`: scans frame by frame, copies the slot's frame, and decodes it.
pub(crate) fn extract_slot(
    buf: &Vec<u8>,
    slot: usize,
    Ghost(payloads): Ghost<Seq<Seq<u8>>>,
) -> (r: Vec<u8>)
    requires
        buf@ == frame_seq(payloads),
        forall|j: int| 0 <= j < payloads.len() ==> is_frame(#[trigger] cobs_of(payloads[j])),
        slot < payloads.len(),
    ensures
        r@ == payloads[slot as int],
{
    proof {
        assert(payloads.take(0) =~= Seq::<Seq<u8>>::empty());
    }
    let mut pos: usize = 0;
    let mut s: usize = 0;
    while s < slot
        invariant
            buf@ == frame_seq(payloads),
            forall|j: int| 0 <= j < payloads.len() ==> is_frame(#[trigger] cobs_of(payloads[j])),
            s <= slot < payloads.len(),
            pos == frame_seq(payloads.take(s as int)).len(),
        decreases slot - s,
    {
        let end = seek_delimiter(buf, pos, Ghost(payloads), Ghost(s as int));
        proof {
            lemma_frame_seq_take_succ(payloads, s as int);
        }
        pos = end + 1;
        s = s + 1;
    }
    let end = seek_delimiter(buf, pos, Ghost(payloads), Ghost(slot as int));
    proof {
        lemma_frame_bytes(payloads, slot as int);
    }
    let n = buf.len();
    let mut frame: Vec<u8> = Vec::new();
    let mut j = pos;
    while j <= end
        invariant
            buf@ == frame_seq(payloads),
            slot < payloads.len(),
            pos == frame_seq(payloads.take(slot as int)).len(),
            end + 1 == pos + cobs_of(payloads[slot as int]).len(),
            n == buf@.len(),
            end < n,
            forall|i: int| 0 <= i < cobs_of(payloads[slot as int]).len() ==> buf@[pos + i]
                == cobs_of(payloads[slot as int])[i],
            pos <= j <= end + 1,
            frame@ == cobs_of(payloads[slot as int]).take(j - pos),
        decreases end + 1 - j,
    {
        frame.push(buf[j]);
        proof {
            assert(cobs_of(payloads[slot as int]).take(j + 1 - pos) =~= cobs_of(
                payloads[slot as int],
            ).take(j - pos).push(cobs_of(payloads[slot as int])[j - pos]));
        }
        j = j + 1;
    }
    proof {
        assert(frame@ =~= cobs_of(payloads[slot as int]));
    }
    match cobs_decode(&frame) {
        Ok(payload) => payload,
        Err(_) => {
            proof {
                assert(false);
            }
            Vec::new()
        },
    }
}

/// The number of delimiter bytes in a buffer.
pub open spec fn count_delimiters(buf: Seq<u8>) -> int
    decreases buf.len(),
{
    if buf.len() == 0 {
        0
    } else {
        count_delimiters(buf.drop_last()) + if buf.last() == FRAME_DELIMITER {
            1int
        } else {
            0int
        }
    }
}

proof fn lemma_count_delimiters_concat(a: Seq<u8>, b: Seq<u8>)
    ensures
        count_delimiters(a + b) == count_delimiters(a) + count_delimiters(b),
    decreases b.len(),
{
    if b.len() == 0 {
        assert(a + b =~= a);
    } else {
        assert((a + b).drop_last() =~= a + b.drop_last());
        assert((a + b).last() == b.last());
        lemma_count_delimiters_concat(a, b.drop_last());
    }
}

proof fn lemma_count_delimiters_frame(f: Seq<u8>)
    requires
        is_frame(f),
    ensures
        count_delimiters(f) == 1,
{
    lemma_count_delimiters_interior(f.drop_last(), f);
    assert(count_delimiters(f) == count_delimiters(f.drop_last()) + 1);
}

proof fn lemma_count_delimiters_interior(g: Seq<u8>, f: Seq<u8>)
    requires
        is_frame(f),
        g.len() < f.len(),
        forall|i: int| 0 <= i < g.len() ==> g[i] == f[i],
    ensures
        count_delimiters(g) == 0,
    decreases g.len(),
{
    if g.len() > 0 {
        assert(g.last() == f[g.len() - 1]);
        lemma_count_delimiters_interior(g.drop_last(), f);
    }
}

/// A concatenation of frames holds exactly one delimiter per frame.
pub(crate) proof fn lemma_count_delimiters_frame_seq(payloads: Seq<Seq<u8>>)
    requires
        forall|j: int| 0 <= j < payloads.len() ==> is_frame(#[trigger] cobs_of(payloads[j])),
    ensures
        count_delimiters(frame_seq(payloads)) == payloads.len(),
    decreases payloads.len(),
{
    if payloads.len() == 0 {
    } else {
        assert(is_frame(cobs_of(payloads[0])));
        lemma_count_delimiters_frame(cobs_of(payloads[0]));
        lemma_count_delimiters_concat(cobs_of(payloads[0]), frame_seq(payloads.drop_first()));
        lemma_count_delimiters_frame_seq(payloads.drop_first());
    }
}

/// Counts the delimiters in a buffer, one per framed slot.
pub(crate) fn count_slots(buf: &Vec<u8>) -> (r: u64)
    ensures
        r == count_delimiters(buf@),
{
    let n = buf.len();
    let mut count: u64 = 0;
    for i in 0..n
        invariant
            n == buf@.len(),
            count == count_delimiters(buf@.take(i as int)),
            count <= i,
    {
        proof {
            assert(buf@.take(i + 1).drop_last() =~= buf@.take(i as int));
        }
        if buf[i] == FRAME_DELIMITER {
            count = count + 1;
        }
    }
    proof {
        assert(buf@.take(n as int) =~= buf@);
    }
    count
}

/// Relies on corncobs::encode: COBS-encodes the payload and closes it with a
/// single zero delimiter; no other byte of the output is zero.
#[verifier::external_body]
pub(crate) fn cobs_encode(payload: &Vec<u8>) -> (r: Vec<u8>)
    ensures
        r@ == cobs_of(payload@),
        is_frame(r@),
{
    let mut out = Vec::new();
    corncobs::encode(payload.as_slice(), &mut out);
    out
}

/// Relies on corncobs::decode: decoding a frame that corncobs::encode produced
/// returns exactly the original payload.
#[verifier::external_body]
pub(crate) fn cobs_decode(frame: &Vec<u8>) -> (r: Result<Vec<u8>, Error>)
    ensures
        r matches Ok(v) ==> forall|payload: Seq<u8>|
            frame@ == #[trigger] cobs_of(payload) ==> v@ == payload,
        r is Err ==> forall|payload: Seq<u8>| frame@ != #[trigger] cobs_of(payload),
{
    let mut out = Vec::new();
    match corncobs::decode(frame.as_slice(), &mut out) {
        Ok(()) => Ok(out),
        Err(_) => Err(Error::corrupt("undecodable frame in chunk")),
    }
}

} // verus!
