//! MySQL wire-protocol frame decoding.
//!
//! A frame is a 3-byte little-endian payload length, a 1-byte sequence
//! number, and `length` payload bytes.  A logical command spans one frame
//! unless a frame's payload length equals `MAX_FRAME`, in which case the
//! command continues into the following frame; continuation payloads are
//! concatenated before the command is emitted.  The decoder consumes the
//! client-to-server byte stream incrementally and always makes maximal
//! progress on the bytes available, buffering only the unconsumed remainder.

use vstd::prelude::*;

verus! {

/// Largest payload a single frame can carry (2^24 - 1).
pub const MAX_FRAME: usize = 0xFFFFFF;

/// Payload length announced by the 4-byte header at the front of `b`.
pub open spec fn hdr_len(b: Seq<u8>) -> nat
    recommends
        b.len() >= 3,
{
    (b[0] as nat) + 256 * (b[1] as nat) + 65536 * (b[2] as nat)
}

/// The buffer is too short to yield one more complete frame.
pub open spec fn stuck(b: Seq<u8>) -> bool {
    b.len() < 4 || b.len() < 4 + hdr_len(b)
}

/// Greedy decode of `b` with `pending` continuation payload carried in from
/// earlier frames: returns the logical commands emitted, the pending
/// continuation payload left over, and the undecoded residual bytes.
pub open spec fn decode(pending: Seq<u8>, b: Seq<u8>) -> (Seq<Seq<u8>>, Seq<u8>, Seq<u8>)
    decreases b.len(),
{
    if stuck(b) {
        (Seq::empty(), pending, b)
    } else {
        let l = hdr_len(b) as int;
        let payload = b.subrange(4, 4 + l);
        let tail = b.skip(4 + l);
        if l == MAX_FRAME {
            decode(pending + payload, tail)
        } else {
            let d = decode(Seq::empty(), tail);
            (seq![pending + payload] + d.0, d.1, d.2)
        }
    }
}

/// Decoding is insensitive to how the stream is chunked: decoding `b1`, then
/// decoding `b2` appended to what was left over, emits the same commands in
/// the same order, and leaves the same state, as decoding `b1 + b2` at once.
pub proof fn lemma_decode_append(pending: Seq<u8>, b1: Seq<u8>, b2: Seq<u8>)
    ensures
        ({
            let d1 = decode(pending, b1);
            let d2 = decode(d1.1, d1.2 + b2);
            let d = decode(pending, b1 + b2);
            d.0 == d1.0 + d2.0 && d.1 == d2.1 && d.2 == d2.2
        }),
    decreases b1.len(),
{
    let d1 = decode(pending, b1);
    let d2 = decode(d1.1, d1.2 + b2);
    let d = decode(pending, b1 + b2);
    if stuck(b1) {
        assert(d1 == (Seq::<Seq<u8>>::empty(), pending, b1));
        assert(d1.2 + b2 == b1 + b2);
        assert(d2 == decode(pending, b1 + b2));
        assert(d.0 =~= Seq::<Seq<u8>>::empty() + d2.0);
    } else {
        let l = hdr_len(b1) as int;
        let c = b1 + b2;
        assert(c[0] == b1[0] && c[1] == b1[1] && c[2] == b1[2]);
        assert(hdr_len(c) == hdr_len(b1));
        assert(!stuck(c));
        let payload = b1.subrange(4, 4 + l);
        assert(c.subrange(4, 4 + l) =~= payload);
        let tail = b1.skip(4 + l);
        assert(c.skip(4 + l) =~= tail + b2);
        if l == MAX_FRAME {
            lemma_decode_append(pending + payload, tail, b2);
        } else {
            lemma_decode_append(Seq::empty(), tail, b2);
            let e1 = decode(Seq::<u8>::empty(), tail);
            let e2 = decode(e1.1, e1.2 + b2);
            assert(d.0 =~= seq![pending + payload] + (e1.0 + e2.0));
            assert(d1.0 + d2.0 =~= (seq![pending + payload] + e1.0) + e2.0);
            assert(d.0 =~= d1.0 + d2.0);
        }
    }
}

/// What is left undecoded is always too short to hold a frame.
pub proof fn lemma_decode_rest_stuck(pending: Seq<u8>, b: Seq<u8>)
    ensures
        stuck(decode(pending, b).2),
    decreases b.len(),
{
    if stuck(b) {
    } else {
        let l = hdr_len(b) as int;
        if l == MAX_FRAME {
            lemma_decode_rest_stuck(pending + b.subrange(4, 4 + l), b.skip(4 + l));
        } else {
            lemma_decode_rest_stuck(Seq::empty(), b.skip(4 + l));
        }
    }
}

/// Incremental decoding over a list of chunks, threading the decoder state.
pub open spec fn decode_chunks(pending: Seq<u8>, residual: Seq<u8>, chunks: Seq<Seq<u8>>) -> (
    Seq<Seq<u8>>,
    Seq<u8>,
    Seq<u8>,
)
    decreases chunks.len(),
{
    if chunks.len() == 0 {
        (Seq::empty(), pending, residual)
    } else {
        let d = decode(pending, residual + chunks[0]);
        let rest = decode_chunks(d.1, d.2, chunks.skip(1));
        (d.0 + rest.0, rest.1, rest.2)
    }
}

pub open spec fn flatten_chunks(chunks: Seq<Seq<u8>>) -> Seq<u8>
    decreases chunks.len(),
{
    if chunks.len() == 0 {
        Seq::empty()
    } else {
        chunks[0] + flatten_chunks(chunks.skip(1))
    }
}

/// Delivering a byte stream in arbitrarily small chunks — one byte at a
/// time included — emits exactly the commands, in the order, that
/// delivering it as one chunk would, and leaves the same decoder state.
pub proof fn lemma_chunking_immaterial(pending: Seq<u8>, residual: Seq<u8>, chunks: Seq<Seq<u8>>)
    requires
        stuck(residual),
    ensures
        decode_chunks(pending, residual, chunks) == decode(
            pending,
            residual + flatten_chunks(chunks),
        ),
    decreases chunks.len(),
{
    if chunks.len() == 0 {
        assert(residual + flatten_chunks(chunks) =~= residual);
        assert(decode(pending, residual).0 =~= Seq::<Seq<u8>>::empty());
    } else {
        let c0 = chunks[0];
        let flat1 = flatten_chunks(chunks.skip(1));
        let d = decode(pending, residual + c0);
        lemma_decode_append(pending, residual + c0, flat1);
        lemma_decode_rest_stuck(pending, residual + c0);
        lemma_chunking_immaterial(d.1, d.2, chunks.skip(1));
        assert((residual + c0) + flat1 =~= residual + flatten_chunks(chunks));
        let full = decode(pending, residual + flatten_chunks(chunks));
        let rest = decode(d.1, d.2 + flat1);
        assert(full.0 == d.0 + rest.0);
        assert(decode_chunks(pending, residual, chunks).0 == d.0 + rest.0);
    }
}

/// Wire form of one frame: 3-byte little-endian payload length, sequence
/// number byte, then the payload.
pub open spec fn frame_bytes(payload: Seq<u8>, seqno: u8) -> Seq<u8>
    recommends
        payload.len() <= MAX_FRAME,
{
    seq![
        (payload.len() % 256) as u8,
        ((payload.len() / 256) % 256) as u8,
        ((payload.len() / 65536) % 256) as u8,
        seqno,
    ] + payload
}

/// The header of an encoded frame announces exactly the payload's length.
pub proof fn lemma_frame_bytes_hdr(payload: Seq<u8>, seqno: u8)
    requires
        payload.len() <= MAX_FRAME,
    ensures
        frame_bytes(payload, seqno).len() == 4 + payload.len(),
        hdr_len(frame_bytes(payload, seqno)) == payload.len(),
{
    let l = payload.len() as u32;
    assert(l % 256 + 256 * ((l / 256) % 256) + 65536 * ((l / 65536) % 256) == l) by (bit_vector)
        requires
            l < 0x1000000,
    ;
}

/// A frame whose payload is below the single-frame maximum completes a
/// logical command by itself: the accumulated continuation plus this
/// payload is emitted, and nothing is left buffered.
pub proof fn lemma_decode_final_frame(pending: Seq<u8>, payload: Seq<u8>, seqno: u8)
    requires
        payload.len() < MAX_FRAME,
    ensures
        decode(pending, frame_bytes(payload, seqno)) == (
            seq![pending + payload],
            Seq::<u8>::empty(),
            Seq::<u8>::empty(),
        ),
{
    let fb = frame_bytes(payload, seqno);
    lemma_frame_bytes_hdr(payload, seqno);
    let l = payload.len() as int;
    assert(!stuck(fb));
    assert(fb.subrange(4, 4 + l) =~= payload);
    assert(fb.skip(4 + l) =~= Seq::<u8>::empty());
    assert(stuck(Seq::<u8>::empty()));
    assert(decode(Seq::<u8>::empty(), Seq::<u8>::empty()).0 =~= Seq::<Seq<u8>>::empty());
    assert(decode(pending, fb).0 =~= seq![pending + payload]);
}

/// A frame whose payload is exactly the single-frame maximum does not end
/// the command: its payload joins the continuation buffer and nothing is
/// emitted yet.
pub proof fn lemma_decode_continuation_frame(pending: Seq<u8>, payload: Seq<u8>, seqno: u8)
    requires
        payload.len() == MAX_FRAME,
    ensures
        decode(pending, frame_bytes(payload, seqno)) == (
            Seq::<Seq<u8>>::empty(),
            pending + payload,
            Seq::<u8>::empty(),
        ),
{
    let fb = frame_bytes(payload, seqno);
    lemma_frame_bytes_hdr(payload, seqno);
    let l = payload.len() as int;
    assert(!stuck(fb));
    assert(fb.subrange(4, 4 + l) =~= payload);
    assert(fb.skip(4 + l) =~= Seq::<u8>::empty());
    assert(stuck(Seq::<u8>::empty()));
    assert(decode(pending, fb) == decode(pending + payload, fb.skip(4 + l)));
    assert(decode(pending, fb).0 =~= Seq::<Seq<u8>>::empty());
}

/// A command one byte longer than the single-frame maximum arrives as a
/// maximal frame followed by a short frame, and is reassembled into one
/// logical payload before being emitted.
pub proof fn lemma_decode_two_frames(p1: Seq<u8>, s1: u8, p2: Seq<u8>, s2: u8)
    requires
        p1.len() == MAX_FRAME,
        p2.len() < MAX_FRAME,
    ensures
        decode(Seq::<u8>::empty(), frame_bytes(p1, s1) + frame_bytes(p2, s2)) == (
            seq![p1 + p2],
            Seq::<u8>::empty(),
            Seq::<u8>::empty(),
        ),
{
    let fb1 = frame_bytes(p1, s1);
    let fb2 = frame_bytes(p2, s2);
    lemma_decode_append(Seq::<u8>::empty(), fb1, fb2);
    lemma_decode_continuation_frame(Seq::<u8>::empty(), p1, s1);
    assert(Seq::<u8>::empty() + p1 =~= p1);
    assert(Seq::<u8>::empty() + fb2 =~= fb2);
    lemma_decode_final_frame(p1, p2, s2);
    assert(decode(Seq::<u8>::empty(), fb1 + fb2).0 =~= seq![p1 + p2]);
}

/// Incremental decoder state for one connection's client-to-server stream.
pub struct FrameDecoder {
    /// Continuation payload of a logical command still being accumulated.
    pending: Vec<u8>,
    /// Bytes that do not yet form a complete frame.
    residual: Vec<u8>,
}

impl FrameDecoder {
    pub closed spec fn pending_view(self) -> Seq<u8> {
        self.pending@
    }

    pub closed spec fn residual_view(self) -> Seq<u8> {
        self.residual@
    }

    /// The residual buffer never holds a complete frame.
    pub open spec fn wf(self) -> bool {
        stuck(self.residual_view())
    }

    pub fn new() -> (r: Self)
        ensures
            r.wf(),
            r.pending_view() == Seq::<u8>::empty(),
            r.residual_view() == Seq::<u8>::empty(),
    {
        FrameDecoder { pending: Vec::new(), residual: Vec::new() }
    }

    /// Feed one chunk of newly reassembled bytes; returns the logical
    /// command payloads completed by this chunk, in stream order.
    pub fn feed(&mut self, chunk: &[u8]) -> (out: Vec<Vec<u8>>)
        requires
            old(self).wf(),
        ensures
            final(self).wf(),
            ({
                let d = decode(old(self).pending_view(), old(self).residual_view() + chunk@);
                out@.map_values(|v: Vec<u8>| v@) == d.0
                    && final(self).pending_view() == d.1
                    && final(self).residual_view() == d.2
            }),
    {
        let ghost p0 = self.pending@;
        let ghost b0 = self.residual@ + chunk@;
        let mut buf: Vec<u8> = Vec::new();
        buf.append(&mut self.residual);
        let mut k: usize = 0;
        while k < chunk.len()
            invariant
                buf@ == old(self).residual_view() + chunk@.subrange(0, k as int),
                k <= chunk.len(),
            decreases chunk.len() - k,
        {
            buf.push(chunk[k]);
            k += 1;
            assert(buf@ =~= old(self).residual_view() + chunk@.subrange(0, k as int));
        }
        assert(chunk@.subrange(0, chunk@.len() as int) =~= chunk@);
        assert(buf@ == b0);

        let mut out: Vec<Vec<u8>> = Vec::new();
        let mut pos: usize = 0;
        proof {
            assert(b0.skip(0) =~= b0);
            assert(out@.map_values(|v: Vec<u8>| v@) =~= Seq::<Seq<u8>>::empty());
            assert(Seq::<Seq<u8>>::empty() + decode(p0, b0).0 =~= decode(p0, b0).0);
        }
        loop
            invariant
                pos <= buf.len(),
                buf@ == b0,
                self.residual@.len() == 0,
                ({
                    let d = decode(self.pending@, b0.skip(pos as int));
                    let full = decode(p0, b0);
                    out@.map_values(|v: Vec<u8>| v@) + d.0 == full.0
                        && d.1 == full.1
                        && d.2 == full.2
                }),
            ensures
                pos <= buf.len(),
                buf@ == b0,
                stuck(b0.skip(pos as int)),
                ({
                    let d = decode(self.pending@, b0.skip(pos as int));
                    let full = decode(p0, b0);
                    out@.map_values(|v: Vec<u8>| v@) + d.0 == full.0
                        && d.1 == full.1
                        && d.2 == full.2
                }),
            decreases buf.len() - pos,
        {
            let rem = buf.len() - pos;
            let ghost bcur = b0.skip(pos as int);
            if rem < 4 {
                assert(stuck(bcur));
                break;
            }
            assert(bcur[0] == b0[pos as int] && bcur[1] == b0[pos as int + 1] && bcur[2] == b0[
                pos as int + 2]);
            let l: usize = (buf[pos] as usize) + 256 * (buf[pos + 1] as usize) + 65536 * (buf[pos
                + 2] as usize);
            assert(l == hdr_len(bcur));
            if rem - 4 < l {
                assert(stuck(bcur));
                break;
            }
            // One complete frame is available at `pos`.
            assert(!stuck(bcur));
            let ghost pcur = self.pending@;
            let payload = copy_range(buf.as_slice(), pos + 4, pos + 4 + l);
            assert(payload@ =~= bcur.subrange(4, 4 + l as int));
            let ghost tail = bcur.skip(4 + l as int);
            assert(tail =~= b0.skip(pos as int + 4 + l as int));
            if l == MAX_FRAME {
                let mut pl = payload;
                self.pending.append(&mut pl);
                assert(self.pending@ =~= pcur + bcur.subrange(4, 4 + l as int));
            } else {
                let mut cmd: Vec<u8> = Vec::new();
                cmd.append(&mut self.pending);
                let mut pl = payload;
                cmd.append(&mut pl);
                assert(cmd@ =~= pcur + bcur.subrange(4, 4 + l as int));
                let ghost prev = out@.map_values(|v: Vec<u8>| v@);
                out.push(cmd);
                assert(out@.map_values(|v: Vec<u8>| v@) =~= prev + seq![
                    pcur + bcur.subrange(4, 4 + l as int),
                ]);
                let ghost d = decode(Seq::<u8>::empty(), tail);
                assert(prev + (seq![pcur + bcur.subrange(4, 4 + l as int)] + d.0) =~= (prev + seq![
                    pcur + bcur.subrange(4, 4 + l as int),
                ]) + d.0);
            }
            pos = pos + 4 + l;
        }
        proof {
            let bcur = b0.skip(pos as int);
            let d = decode(self.pending@, bcur);
            assert(d.0 =~= Seq::<Seq<u8>>::empty());
            assert(out@.map_values(|v: Vec<u8>| v@) + Seq::<Seq<u8>>::empty() =~= out@.map_values(
                |v: Vec<u8>| v@,
            ));
        }
        let rest = copy_range(buf.as_slice(), pos, buf.len());
        assert(rest@ =~= b0.skip(pos as int));
        self.residual = rest;
        out
    }
}

/// Copy of `v[a..b]` as a fresh vector.
pub fn copy_range(v: &[u8], a: usize, b: usize) -> (r: Vec<u8>)
    requires
        a <= b <= v@.len(),
    ensures
        r@ == v@.subrange(a as int, b as int),
{
    let mut r: Vec<u8> = Vec::new();
    let mut i: usize = a;
    while i < b
        invariant
            a <= i <= b <= v@.len(),
            r@ == v@.subrange(a as int, i as int),
        decreases b - i,
    {
        r.push(v[i]);
        i += 1;
        assert(r@ =~= v@.subrange(a as int, i as int));
    }
    r
}

} // verus!
