//! Wire framing: a frame is a four-byte big-endian length followed by that
//! many bytes of payload.

use vstd::prelude::*;
use vstd::slice::slice_subrange;
use vstd::slice::slice_to_vec;

verus! {

/// Number of bytes in the length prefix of a frame.
pub const HEADER_LEN: usize = 4;

/// Longest payload that a four-byte length prefix can announce.
pub const MAX_PAYLOAD_LEN: usize = 0xFFFF_FFFF;

/// The four bytes, most significant first, that stand for `n`.
pub open spec fn spec_length_prefix(n: nat) -> Seq<u8>
    recommends
        n <= MAX_PAYLOAD_LEN,
{
    seq![
        (n / 0x100_0000) as u8,
        (n / 0x1_0000 % 0x100) as u8,
        (n / 0x100 % 0x100) as u8,
        (n % 0x100) as u8,
    ]
}

/// The number that the first four bytes of `header` stand for, most
/// significant byte first.
pub open spec fn spec_announced_len(header: Seq<u8>) -> nat
    recommends
        header.len() >= HEADER_LEN,
{
    (header[0] as nat) * 0x100_0000 + (header[1] as nat) * 0x1_0000 + (header[2] as nat) * 0x100
        + (header[3] as nat)
}

/// The bytes that go on the wire for one payload.
pub open spec fn spec_encode(payload: Seq<u8>) -> Seq<u8>
    recommends
        payload.len() <= MAX_PAYLOAD_LEN,
{
    spec_length_prefix(payload.len()) + payload
}

/// The first frame of `buf` and the bytes that follow it, or `None` while
/// `buf` does not yet hold a whole frame.
pub open spec fn spec_decode(buf: Seq<u8>) -> Option<(Seq<u8>, Seq<u8>)> {
    if buf.len() < HEADER_LEN {
        None
    } else {
        let n = spec_announced_len(buf);
        if buf.len() < HEADER_LEN + n {
            None
        } else {
            Some(
                (
                    buf.subrange(HEADER_LEN as int, HEADER_LEN + n),
                    buf.subrange(HEADER_LEN + n, buf.len() as int),
                ),
            )
        }
    }
}

/// Whether `payload` is short enough to be framed.
pub fn encodable(payload: &[u8]) -> (ok: bool)
    ensures
        ok == (payload@.len() <= MAX_PAYLOAD_LEN),
{
    payload.len() <= MAX_PAYLOAD_LEN
}

/// Frames one payload: its length in four bytes, then the payload itself.
pub fn encode(payload: &[u8]) -> (wire: Vec<u8>)
    requires
        payload@.len() <= MAX_PAYLOAD_LEN,
    ensures
        wire@ == spec_encode(payload@),
{
    let n: usize = payload.len();
    let mut wire: Vec<u8> = Vec::new();
    wire.push((n / 0x100_0000) as u8);
    wire.push((n / 0x1_0000 % 0x100) as u8);
    wire.push((n / 0x100 % 0x100) as u8);
    wire.push((n % 0x100) as u8);
    wire.extend_from_slice(payload);
    wire
}

/// Reads the length that the first four bytes of `buf` announce.
fn announced_len(buf: &[u8]) -> (n: usize)
    requires
        buf@.len() >= HEADER_LEN,
    ensures
        n == spec_announced_len(buf@),
        n <= MAX_PAYLOAD_LEN,
{
    let b0: usize = buf[0] as usize;
    let b1: usize = buf[1] as usize;
    let b2: usize = buf[2] as usize;
    let b3: usize = buf[3] as usize;
    b0 * 0x100_0000 + b1 * 0x1_0000 + b2 * 0x100 + b3
}

/// Takes the first frame out of `buf`: its payload and the number of bytes
/// of `buf` that the frame occupied. `None` while the frame is incomplete.
pub fn decode(buf: &[u8]) -> (r: Option<(Vec<u8>, usize)>)
    ensures
        match spec_decode(buf@) {
            Some((payload, rest)) => r matches Some((p, consumed)) && p@ == payload && consumed
                == HEADER_LEN + payload.len() && rest == buf@.subrange(
                consumed as int,
                buf@.len() as int,
            ),
            None => r is None,
        },
{
    if buf.len() < HEADER_LEN {
        return None;
    }
    let n: usize = announced_len(buf);
    if buf.len() - HEADER_LEN < n {
        return None;
    }
    let end: usize = HEADER_LEN + n;
    let payload: Vec<u8> = slice_to_vec(slice_subrange(buf, HEADER_LEN, end));
    Some((payload, end))
}

/// Collects the bytes of a stream as they arrive and hands out whole frames.
///
/// The decoder's view is the bytes received and not yet handed out.
pub struct FrameDecoder {
    pending: Vec<u8>,
}

impl View for FrameDecoder {
    type V = Seq<u8>;

    closed spec fn view(&self) -> Seq<u8> {
        self.pending@
    }
}

impl FrameDecoder {
    /// A decoder that has received nothing.
    pub fn new() -> (d: FrameDecoder)
        ensures
            d@ == Seq::<u8>::empty(),
    {
        FrameDecoder { pending: Vec::new() }
    }

    /// Number of bytes received and not yet handed out.
    pub fn pending_len(&self) -> (n: usize)
        ensures
            n == self@.len(),
    {
        self.pending.len()
    }

    /// Takes in the bytes of one read, however the stream cut them.
    pub fn feed(&mut self, chunk: &[u8])
        ensures
            final(self)@ == old(self)@ + chunk@,
    {
        self.pending.extend_from_slice(chunk);
    }

    /// Hands out the payload of the first frame once all of its bytes have
    /// arrived, and keeps what follows it. Until then nothing changes.
    pub fn next_frame(&mut self) -> (r: Option<Vec<u8>>)
        ensures
            match spec_decode(old(self)@) {
                Some((payload, rest)) => r matches Some(p) && p@ == payload && final(self)@
                    == rest,
                None => r is None && final(self)@ == old(self)@,
            },
    {
        match decode(self.pending.as_slice()) {
            Some((payload, consumed)) => {
                let rest: Vec<u8> = self.pending.split_off(consumed);
                self.pending = rest;
                Some(payload)
            },
            None => None,
        }
    }
}

/// What a decoder holds after it was fed `chunks` one after the other.
pub open spec fn spec_feed_all(pending: Seq<u8>, chunks: Seq<Seq<u8>>) -> Seq<u8>
    decreases chunks.len(),
{
    if chunks.len() == 0 {
        pending
    } else {
        spec_feed_all(pending + chunks.first(), chunks.drop_first())
    }
}

/// A length that fits in four bytes is read back from its prefix unchanged.
pub proof fn lemma_length_prefix_round_trip(n: nat)
    requires
        n <= MAX_PAYLOAD_LEN,
    ensures
        spec_length_prefix(n).len() == HEADER_LEN,
        spec_announced_len(spec_length_prefix(n)) == n,
{
}

/// Decoding finds an encoded payload at the front of a buffer and leaves
/// what follows it untouched, whatever bytes the payload holds.
pub proof fn lemma_decode_encoded(payload: Seq<u8>, rest: Seq<u8>)
    requires
        payload.len() <= MAX_PAYLOAD_LEN,
    ensures
        spec_decode(spec_encode(payload) + rest) == Some((payload, rest)),
{
    let buf = spec_encode(payload) + rest;
    lemma_length_prefix_round_trip(payload.len());
    assert(spec_announced_len(buf) == payload.len());
    assert(buf.subrange(HEADER_LEN as int, HEADER_LEN + payload.len()) =~= payload);
    assert(buf.subrange(HEADER_LEN + payload.len(), buf.len() as int) =~= rest);
}

/// Framing round trip: an encoded payload decodes to itself, with nothing
/// left over. This holds of every payload that is short enough to be framed,
/// the empty one and those with zero bytes in them included.
pub proof fn lemma_round_trip(payload: Seq<u8>)
    requires
        payload.len() <= MAX_PAYLOAD_LEN,
    ensures
        spec_decode(spec_encode(payload)) == Some((payload, Seq::<u8>::empty())),
{
    lemma_decode_encoded(payload, Seq::empty());
    assert(spec_encode(payload) + Seq::<u8>::empty() =~= spec_encode(payload));
}

/// No frame comes out of a strict prefix of an encoded payload.
pub proof fn lemma_partial_frame_is_incomplete(payload: Seq<u8>, k: int)
    requires
        payload.len() <= MAX_PAYLOAD_LEN,
        0 <= k < spec_encode(payload).len(),
    ensures
        spec_decode(spec_encode(payload).subrange(0, k)) is None,
{
    lemma_length_prefix_round_trip(payload.len());
    let part = spec_encode(payload).subrange(0, k);
    if k >= HEADER_LEN {
        assert(spec_announced_len(part) == payload.len());
    }
}

/// Feeding chunks one by one leaves the decoder with their concatenation
/// behind what it held before.
pub proof fn lemma_feed_all_concatenates(pending: Seq<u8>, chunks: Seq<Seq<u8>>)
    ensures
        spec_feed_all(pending, chunks) == pending + chunks.flatten(),
    decreases chunks.len(),
{
    if chunks.len() == 0 {
        assert(pending + chunks.flatten() =~= pending);
    } else {
        lemma_feed_all_concatenates(pending + chunks.first(), chunks.drop_first());
        assert((pending + chunks.first()) + chunks.drop_first().flatten() =~= pending
            + chunks.flatten());
    }
}

/// Fragmentation robustness: however the bytes of an encoded payload are cut
/// into chunks, a decoder that was fed all of them holds exactly what one
/// that got them in a single read holds, and so decodes the same payload.
pub proof fn lemma_fragmentation(payload: Seq<u8>, chunks: Seq<Seq<u8>>)
    requires
        payload.len() <= MAX_PAYLOAD_LEN,
        chunks.flatten() == spec_encode(payload),
    ensures
        spec_feed_all(Seq::empty(), chunks) == spec_feed_all(
            Seq::empty(),
            seq![spec_encode(payload)],
        ),
        spec_decode(spec_feed_all(Seq::empty(), chunks)) == Some(
            (payload, Seq::<u8>::empty()),
        ),
{
    lemma_feed_all_concatenates(Seq::empty(), chunks);
    let whole = seq![spec_encode(payload)];
    lemma_feed_all_concatenates(Seq::empty(), whole);
    whole.lemma_flatten_one_element();
    assert(Seq::<u8>::empty() + spec_encode(payload) =~= spec_encode(payload));
    lemma_round_trip(payload);
}

/// While chunks of an encoded payload are still missing, the decoder hands
/// out nothing: the first `j` chunks give no frame as long as together they
/// are shorter than the whole.
pub proof fn lemma_fragments_before_the_last(payload: Seq<u8>, chunks: Seq<Seq<u8>>, j: int)
    requires
        payload.len() <= MAX_PAYLOAD_LEN,
        chunks.flatten() == spec_encode(payload),
        0 <= j <= chunks.len(),
        chunks.subrange(0, j).flatten().len() < spec_encode(payload).len(),
    ensures
        spec_decode(spec_feed_all(Seq::empty(), chunks.subrange(0, j))) is None,
{
    let head = chunks.subrange(0, j);
    let tail = chunks.subrange(j, chunks.len() as int);
    lemma_feed_all_concatenates(Seq::empty(), head);
    assert(head + tail =~= chunks);
    vstd::seq_lib::lemma_flatten_concat(head, tail);
    let k = head.flatten().len() as int;
    assert(Seq::<u8>::empty() + head.flatten() =~= head.flatten());
    assert(head.flatten() =~= spec_encode(payload).subrange(0, k));
    lemma_partial_frame_is_incomplete(payload, k);
}

/// Four bytes are the prefix of the length that they announce.
pub proof fn lemma_announced_len_round_trip(header: Seq<u8>)
    requires
        header.len() == HEADER_LEN,
    ensures
        spec_announced_len(header) <= MAX_PAYLOAD_LEN,
        spec_length_prefix(spec_announced_len(header)) == header,
{
    let b0 = header[0] as int;
    let b1 = header[1] as int;
    let b2 = header[2] as int;
    let b3 = header[3] as int;
    let n = b0 * 0x100_0000 + b1 * 0x1_0000 + b2 * 0x100 + b3;
    assert(n / 0x100_0000 == b0 && n / 0x1_0000 % 0x100 == b1 && n / 0x100 % 0x100 == b2 && n
        % 0x100 == b3) by {
        lemma_digits(b0, b1, b2, b3);
    }
    assert(spec_length_prefix(spec_announced_len(header)) =~= header);
}

/// The digits of a number written to the base 256 are read back by
/// division and remainder.
proof fn lemma_digits(b0: int, b1: int, b2: int, b3: int)
    requires
        0 <= b0 < 0x100,
        0 <= b1 < 0x100,
        0 <= b2 < 0x100,
        0 <= b3 < 0x100,
    ensures
        ({
            let n = b0 * 0x100_0000 + b1 * 0x1_0000 + b2 * 0x100 + b3;
            &&& n / 0x100_0000 == b0
            &&& n / 0x1_0000 % 0x100 == b1
            &&& n / 0x100 % 0x100 == b2
            &&& n % 0x100 == b3
        }),
{
    let n = b0 * 0x100_0000 + b1 * 0x1_0000 + b2 * 0x100 + b3;
    let hi = b0 * 0x100 + b1;
    let mid = hi * 0x100 + b2;
    assert(n == mid * 0x100 + b3);
    assert(n / 0x100 == mid && n % 0x100 == b3);
    assert(mid / 0x100 == hi && mid % 0x100 == b2);
    assert(hi / 0x100 == b0 && hi % 0x100 == b1);
    assert(n == hi * 0x1_0000 + (b2 * 0x100 + b3));
    assert(n / 0x1_0000 == hi);
    assert(n == b0 * 0x100_0000 + (b1 * 0x1_0000 + b2 * 0x100 + b3));
    assert(n / 0x100_0000 == b0);
}

/// Whatever decodes was encoded: a buffer that holds a whole frame is the
/// encoding of its payload followed by the rest, the payload is short
/// enough to be framed again, and the rest is shorter than the buffer.
pub proof fn lemma_decoded_was_encoded(buf: Seq<u8>)
    requires
        spec_decode(buf) is Some,
    ensures
        ({
            let (payload, rest) = spec_decode(buf).unwrap();
            &&& payload.len() <= MAX_PAYLOAD_LEN
            &&& rest.len() + HEADER_LEN + payload.len() == buf.len()
            &&& buf == spec_encode(payload) + rest
        }),
{
    let (payload, rest) = spec_decode(buf).unwrap();
    let header = buf.subrange(0, HEADER_LEN as int);
    lemma_announced_len_round_trip(header);
    assert(spec_announced_len(header) == spec_announced_len(buf));
    assert(buf =~= spec_encode(payload) + rest);
}

/// A whole frame at the front of a buffer stays the first frame when more
/// bytes arrive behind it.
pub proof fn lemma_decode_with_more(buf: Seq<u8>, more: Seq<u8>)
    requires
        spec_decode(buf) is Some,
    ensures
        ({
            let (payload, rest) = spec_decode(buf).unwrap();
            spec_decode(buf + more) == Some((payload, rest + more))
        }),
{
    let (payload, rest) = spec_decode(buf).unwrap();
    lemma_decoded_was_encoded(buf);
    assert(buf + more =~= spec_encode(payload) + (rest + more));
    lemma_decode_encoded(payload, rest + more);
}

} // verus!
