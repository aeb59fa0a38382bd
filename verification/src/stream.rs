//! Per-direction TCP stream reassembly.
//!
//! Segments that arrive at the next expected sequence number are emitted at
//! once; segments ahead of it wait in an out-of-order buffer keyed by
//! sequence number; segments fully behind it are pure retransmissions and
//! are dropped; segments that partially overlap already-delivered data are
//! trimmed to their novel suffix.  Each time the expected sequence number
//! advances, the buffer is drained of every segment it has caught up with.
//! Sequence arithmetic that would overflow the 32-bit space, and empty
//! segments, are treated as malformed and dropped.

use vstd::prelude::*;

use crate::frame::copy_range;

verus! {

/// Largest valid TCP sequence number.
pub const SEQ_MAX: u64 = 0xFFFFFFFF;

/// Mathematical state of one direction of one connection: the next expected
/// sequence number, the out-of-order buffer in arrival order, and the bytes
/// delivered downstream so far.
pub struct RModel {
    pub next: nat,
    pub ooo: Seq<(nat, Seq<u8>)>,
    pub emitted: Seq<u8>,
}

/// Index of the first buffered segment the stream has caught up with, or -1.
pub open spec fn r_first_ready(ooo: Seq<(nat, Seq<u8>)>, next: nat) -> int
    decreases ooo.len(),
{
    if ooo.len() == 0 {
        -1
    } else if ooo[0].0 <= next {
        0
    } else {
        let r = r_first_ready(ooo.skip(1), next);
        if r < 0 {
            -1
        } else {
            r + 1
        }
    }
}

/// `r_first_ready` returns exactly the first index whose key the stream has
/// caught up with, and -1 when there is none.
pub proof fn lemma_first_ready_char(ooo: Seq<(nat, Seq<u8>)>, next: nat, i: int)
    requires
        0 <= i <= ooo.len(),
        forall|j: int| 0 <= j < i ==> #[trigger] ooo[j].0 > next,
        i < ooo.len() ==> ooo[i].0 <= next,
    ensures
        i < ooo.len() ==> r_first_ready(ooo, next) == i,
        i == ooo.len() ==> r_first_ready(ooo, next) == -1,
    decreases ooo.len(),
{
    if ooo.len() == 0 {
    } else if ooo[0].0 <= next {
        assert(i == 0);
    } else {
        assert(ooo[0].0 > next);
        let t = ooo.skip(1);
        assert(forall|j: int| 0 <= j < i - 1 ==> #[trigger] t[j].0 == ooo[j + 1].0);
        lemma_first_ready_char(t, next, i - 1);
    }
}

/// One buffered segment is present for this key.
pub open spec fn r_has_key(ooo: Seq<(nat, Seq<u8>)>, q: nat) -> bool {
    exists|j: int| 0 <= j < ooo.len() && #[trigger] ooo[j].0 == q
}

/// Drain the out-of-order buffer: repeatedly take the first segment the
/// stream has caught up with; deliver its novel suffix (or drop it if it
/// holds nothing new) and continue until no buffered segment qualifies.
pub open spec fn r_drain(st: RModel) -> RModel
    decreases st.ooo.len(),
{
    let i = r_first_ready(st.ooo, st.next);
    if i < 0 || i >= st.ooo.len() {
        st
    } else {
        let q = st.ooo[i].0;
        let p = st.ooo[i].1;
        let rest = st.ooo.remove(i);
        if q + p.len() <= st.next {
            r_drain(RModel { next: st.next, ooo: rest, emitted: st.emitted })
        } else {
            r_drain(
                RModel {
                    next: q + p.len(),
                    ooo: rest,
                    emitted: st.emitted + p.skip(st.next - q),
                },
            )
        }
    }
}

/// Handle one arriving segment: drop it if malformed or fully behind the
/// stream; deliver its novel suffix and drain the buffer if the stream has
/// caught up with it; otherwise buffer it, unless its key is already held.
pub open spec fn r_insert(st: RModel, q: nat, p: Seq<u8>) -> RModel {
    if p.len() == 0 || q + p.len() > SEQ_MAX {
        st
    } else if q + p.len() <= st.next {
        st
    } else if q <= st.next {
        r_drain(
            RModel { next: q + p.len(), ooo: st.ooo, emitted: st.emitted + p.skip(st.next - q) },
        )
    } else if r_has_key(st.ooo, q) {
        st
    } else {
        RModel { next: st.next, ooo: st.ooo.push((q, p)), emitted: st.emitted }
    }
}

/// Fresh model state expecting sequence number `n0` first.
pub open spec fn r_init(n0: nat) -> RModel {
    RModel { next: n0, ooo: Seq::empty(), emitted: Seq::empty() }
}

/// Process a whole sequence of captured segments, in capture order.
pub open spec fn r_run(m: RModel, segs: Seq<(nat, Seq<u8>)>) -> RModel
    decreases segs.len(),
{
    if segs.len() == 0 {
        m
    } else {
        r_run(r_insert(m, segs[0].0, segs[0].1), segs.skip(1))
    }
}

/// The segment carries exactly the bytes of the true stream `s` (which
/// starts at sequence number `n0`) at its claimed position.
pub open spec fn consistent_seg(s: Seq<u8>, n0: nat, q: nat, p: Seq<u8>) -> bool {
    n0 <= q && q + p.len() <= n0 + s.len() && p == s.subrange(q - n0, q - n0 + p.len())
}

/// Every segment in `a` is a consistent, non-empty slice of the stream.
pub open spec fn segs_ok(s: Seq<u8>, n0: nat, a: Seq<(nat, Seq<u8>)>) -> bool {
    forall|i: int|
        0 <= i < a.len() ==> consistent_seg(s, n0, (#[trigger] a[i]).0, a[i].1) && a[i].1.len() > 0
}

/// Segments sharing a starting sequence number are exact duplicates.
pub open spec fn keys_consistent(a: Seq<(nat, Seq<u8>)>) -> bool {
    forall|i: int, j: int|
        0 <= i < a.len() && 0 <= j < a.len() && (#[trigger] a[i]).0 == (#[trigger] a[j]).0
            ==> a[i].1 == a[j].1
}

/// Reassembly invariant after the segments `done` have been processed:
/// the delivered bytes are exactly the prefix of the true stream up to the
/// expected sequence number; everything buffered is a consistent slice
/// strictly ahead of the stream and is one of the processed segments; and
/// every processed segment has either been delivered in full or still sits
/// in the buffer.
pub open spec fn r_inv(s: Seq<u8>, n0: nat, done: Seq<(nat, Seq<u8>)>, m: RModel) -> bool {
    &&& n0 + s.len() <= SEQ_MAX
    &&& n0 <= m.next <= n0 + s.len()
    &&& m.emitted == s.subrange(0, m.next - n0)
    &&& (forall|k: int| 0 <= k < m.ooo.len() ==> (#[trigger] m.ooo[k]).0 > m.next)
    &&& r_weak_inv(s, n0, done, m)
}

/// The part of the invariant that may be temporarily violated while the
/// out-of-order buffer is being drained: buffered keys need not be ahead of
/// the stream yet.
pub open spec fn r_weak_inv(s: Seq<u8>, n0: nat, done: Seq<(nat, Seq<u8>)>, m: RModel) -> bool {
    &&& n0 + s.len() <= SEQ_MAX
    &&& n0 <= m.next <= n0 + s.len()
    &&& m.emitted == s.subrange(0, m.next - n0)
    &&& (forall|k: int|
        0 <= k < m.ooo.len() ==> consistent_seg(s, n0, (#[trigger] m.ooo[k]).0, m.ooo[k].1)
            && m.ooo[k].1.len() > 0)
    &&& (forall|k: int| 0 <= k < m.ooo.len() ==> done.contains(#[trigger] m.ooo[k]))
    &&& (forall|i: int|
        0 <= i < done.len() ==> (#[trigger] done[i]).0 + done[i].1.len() <= m.next
            || m.ooo.contains(done[i]))
}

/// When no buffered segment is ready, every buffered key is strictly ahead.
proof fn lemma_first_ready_none(ooo: Seq<(nat, Seq<u8>)>, next: nat)
    requires
        r_first_ready(ooo, next) == -1,
    ensures
        forall|k: int| 0 <= k < ooo.len() ==> (#[trigger] ooo[k]).0 > next,
    decreases ooo.len(),
{
    if ooo.len() == 0 {
    } else if ooo[0].0 <= next {
        assert(r_first_ready(ooo, next) == 0);
    } else {
        let t = ooo.skip(1);
        assert(r_first_ready(t, next) == -1) by {
            if r_first_ready(t, next) >= 0 {
                assert(r_first_ready(ooo, next) == r_first_ready(t, next) + 1);
            }
        }
        lemma_first_ready_none(t, next);
        assert forall|k: int| 0 <= k < ooo.len() implies (#[trigger] ooo[k]).0 > next by {
            if k > 0 {
                assert(ooo[k] == t[k - 1]);
            }
        }
    }
}

/// `r_first_ready` stays in range.
proof fn lemma_first_ready_bounds(ooo: Seq<(nat, Seq<u8>)>, next: nat)
    ensures
        -1 <= r_first_ready(ooo, next) < ooo.len(),
        r_first_ready(ooo, next) >= 0 ==> ooo[r_first_ready(ooo, next)].0 <= next,
    decreases ooo.len(),
{
    if ooo.len() == 0 {
    } else if ooo[0].0 <= next {
    } else {
        lemma_first_ready_bounds(ooo.skip(1), next);
    }
}

/// Draining preserves the weak invariant and re-establishes the full one.
proof fn lemma_drain_preserves_inv(s: Seq<u8>, n0: nat, done: Seq<(nat, Seq<u8>)>, m: RModel)
    requires
        r_weak_inv(s, n0, done, m),
    ensures
        r_inv(s, n0, done, r_drain(m)),
    decreases m.ooo.len(),
{
    lemma_first_ready_bounds(m.ooo, m.next);
    let i = r_first_ready(m.ooo, m.next);
    if i < 0 {
        lemma_first_ready_none(m.ooo, m.next);
        assert(r_drain(m) == m);
    } else {
        let q = m.ooo[i].0;
        let p = m.ooo[i].1;
        let rest = m.ooo.remove(i);
        // Each remaining buffered entry is one of the original ones.
        assert forall|k: int| 0 <= k < rest.len() implies (exists|k2: int|
            0 <= k2 < m.ooo.len() && m.ooo[k2] == #[trigger] rest[k]) by {
            if k < i {
                assert(rest[k] == m.ooo[k]);
            } else {
                assert(rest[k] == m.ooo[k + 1]);
            }
        }
        // Each processed segment is still delivered-or-buffered after the
        // removal, in either branch's successor state.
        if q + p.len() <= m.next {
            let m2 = RModel { next: m.next, ooo: rest, emitted: m.emitted };
            assert forall|t: int|
                0 <= t < done.len() implies (#[trigger] done[t]).0 + done[t].1.len() <= m2.next
                || m2.ooo.contains(done[t]) by {
                if !(done[t].0 + done[t].1.len() <= m.next) {
                    let k = choose|k: int| 0 <= k < m.ooo.len() && m.ooo[k] == done[t];
                    assert(m.ooo[k] != m.ooo[i]);
                    if k < i {
                        assert(rest[k] == done[t]);
                    } else {
                        assert(rest[k - 1] == done[t]);
                    }
                }
            }
            lemma_drain_preserves_inv(s, n0, done, m2);
        } else {
            let novel = p.skip(m.next - q);
            let m2 = RModel { next: q + p.len(), ooo: rest, emitted: m.emitted + novel };
            assert(consistent_seg(s, n0, q, p));
            assert(novel =~= s.subrange(m.next - n0, q + p.len() - n0));
            assert(m2.emitted =~= s.subrange(0, m2.next - n0));
            assert forall|t: int|
                0 <= t < done.len() implies (#[trigger] done[t]).0 + done[t].1.len() <= m2.next
                || m2.ooo.contains(done[t]) by {
                if !(done[t].0 + done[t].1.len() <= m.next) {
                    let k = choose|k: int| 0 <= k < m.ooo.len() && m.ooo[k] == done[t];
                    if m.ooo[k] == m.ooo[i] {
                        assert(done[t].0 + done[t].1.len() <= m2.next);
                    } else if k < i {
                        assert(rest[k] == done[t]);
                    } else {
                        assert(rest[k - 1] == done[t]);
                    }
                }
            }
            lemma_drain_preserves_inv(s, n0, done, m2);
        }
    }
}

/// Handling one consistent segment preserves the invariant, provided any
/// earlier segment with the same key was an exact duplicate.
proof fn lemma_insert_preserves_inv(
    s: Seq<u8>,
    n0: nat,
    done: Seq<(nat, Seq<u8>)>,
    m: RModel,
    q: nat,
    p: Seq<u8>,
)
    requires
        r_inv(s, n0, done, m),
        consistent_seg(s, n0, q, p),
        p.len() > 0,
        forall|i: int| 0 <= i < done.len() && (#[trigger] done[i]).0 == q ==> done[i].1 == p,
    ensures
        r_inv(s, n0, done.push((q, p)), r_insert(m, q, p)),
{
    let done2 = done.push((q, p));
    assert(forall|k: int| 0 <= k < done.len() ==> done2[k] == #[trigger] done[k]);
    assert(done2[done.len() as int] == (q, p));
    assert forall|k: int| 0 <= k < m.ooo.len() implies done2.contains(#[trigger] m.ooo[k]) by {
        let t = choose|t: int| 0 <= t < done.len() && done[t] == m.ooo[k];
        assert(done2[t] == m.ooo[k]);
    }
    assert(q + p.len() <= SEQ_MAX);
    if q + p.len() <= m.next {
        assert(r_insert(m, q, p) == m);
    } else if q <= m.next {
        let novel = p.skip(m.next - q);
        let m2 = RModel { next: q + p.len(), ooo: m.ooo, emitted: m.emitted + novel };
        assert(novel =~= s.subrange(m.next - n0, q + p.len() - n0));
        assert(m2.emitted =~= s.subrange(0, m2.next - n0));
        assert forall|t: int|
            0 <= t < done2.len() implies (#[trigger] done2[t]).0 + done2[t].1.len() <= m2.next
            || m2.ooo.contains(done2[t]) by {
            if t < done.len() {
                assert(done2[t] == done[t]);
            } else {
                assert(done2[t] == (q, p));
            }
        }
        lemma_drain_preserves_inv(s, n0, done2, m2);
        assert(r_insert(m, q, p) == r_drain(m2));
    } else if r_has_key(m.ooo, q) {
        // A duplicate of a segment that is already buffered: the buffered
        // copy, being a processed segment with the same key, is identical.
        let k = choose|k: int| 0 <= k < m.ooo.len() && (#[trigger] m.ooo[k]).0 == q;
        assert(done.contains(m.ooo[k]));
        let t = choose|t: int| 0 <= t < done.len() && done[t] == m.ooo[k];
        assert(done[t].1 == p);
        assert(m.ooo[k] == (q, p));
        assert(m.ooo.contains((q, p)));
        assert(r_insert(m, q, p) == m);
    } else {
        let m2 = RModel { next: m.next, ooo: m.ooo.push((q, p)), emitted: m.emitted };
        assert(r_insert(m, q, p) == m2);
        assert(forall|k: int| 0 <= k < m.ooo.len() ==> m2.ooo[k] == #[trigger] m.ooo[k]);
        assert(m2.ooo[m.ooo.len() as int] == (q, p));
        assert forall|k: int| 0 <= k < m2.ooo.len() implies done2.contains(#[trigger] m2.ooo[k]) by {
            if k < m.ooo.len() {
                let t = choose|t: int| 0 <= t < done.len() && done[t] == m.ooo[k];
                assert(done2[t] == m2.ooo[k]);
            } else {
                assert(done2[done.len() as int] == m2.ooo[k]);
            }
        }
        assert forall|t: int|
            0 <= t < done2.len() implies (#[trigger] done2[t]).0 + done2[t].1.len() <= m2.next
            || m2.ooo.contains(done2[t]) by {
            if t < done.len() {
                if !(done[t].0 + done[t].1.len() <= m.next) {
                    let k = choose|k: int| 0 <= k < m.ooo.len() && m.ooo[k] == done[t];
                    assert(m2.ooo[k] == done2[t]);
                }
            } else {
                assert(m2.ooo[m.ooo.len() as int] == done2[t]);
            }
        }
    }
}

/// Running a batch of consistent segments preserves the invariant.
proof fn lemma_run_preserves_inv(
    s: Seq<u8>,
    n0: nat,
    done: Seq<(nat, Seq<u8>)>,
    m: RModel,
    segs: Seq<(nat, Seq<u8>)>,
)
    requires
        r_inv(s, n0, done, m),
        segs_ok(s, n0, segs),
        keys_consistent(done + segs),
    ensures
        r_inv(s, n0, done + segs, r_run(m, segs)),
    decreases segs.len(),
{
    if segs.len() == 0 {
        assert(done + segs =~= done);
    } else {
        let (q, p) = segs[0];
        let all = done + segs;
        assert(all[done.len() as int] == (q, p));
        assert forall|i: int| 0 <= i < done.len() && (#[trigger] done[i]).0 == q implies done[i].1
            == p by {
            assert(all[i] == done[i]);
        }
        lemma_insert_preserves_inv(s, n0, done, m, q, p);
        let done2 = done.push((q, p));
        assert(done2 + segs.skip(1) =~= done + segs);
        lemma_run_preserves_inv(s, n0, done2, r_insert(m, q, p), segs.skip(1));
    }
}

/// Some segment carries the stream byte at offset `j`.
pub open spec fn seg_covers(segs: Seq<(nat, Seq<u8>)>, n0: nat, j: int) -> bool {
    exists|i: int|
        0 <= i < segs.len() && (#[trigger] segs[i]).0 - n0 <= j < segs[i].0 - n0 + segs[i].1.len()
}

/// Order- and duplicate-independence of reassembly: any arrival order of
/// segments that are consistent slices of one true byte stream, with
/// possible exact duplicates, and that together cover the whole stream,
/// makes the reassembler deliver exactly that stream.
pub proof fn lemma_reassembly_rebuilds_stream(s: Seq<u8>, n0: nat, segs: Seq<(nat, Seq<u8>)>)
    requires
        n0 + s.len() <= SEQ_MAX,
        segs_ok(s, n0, segs),
        keys_consistent(segs),
        forall|j: int| 0 <= j < s.len() ==> #[trigger] seg_covers(segs, n0, j),
    ensures
        r_run(r_init(n0), segs).emitted == s,
{
    let m0 = r_init(n0);
    assert(m0.emitted =~= s.subrange(0, 0));
    assert(r_inv(s, n0, Seq::empty(), m0));
    assert(Seq::<(nat, Seq<u8>)>::empty() + segs =~= segs);
    lemma_run_preserves_inv(s, n0, Seq::empty(), m0, segs);
    let mf = r_run(m0, segs);
    assert(r_inv(s, n0, segs, mf));
    if mf.next < n0 + s.len() {
        let j = mf.next - n0;
        assert(seg_covers(segs, n0, j));
        let i = choose|i: int|
            0 <= i < segs.len() && (#[trigger] segs[i]).0 - n0 <= j < segs[i].0 - n0
                + segs[i].1.len();
        assert(segs[i].0 + segs[i].1.len() <= mf.next || mf.ooo.contains(segs[i]));
        if mf.ooo.contains(segs[i]) {
            let k = choose|k: int| 0 <= k < mf.ooo.len() && mf.ooo[k] == segs[i];
            assert(mf.ooo[k].0 > mf.next);
            assert(false);
        } else {
            assert(false);
        }
    }
    assert(mf.emitted =~= s);
}

/// Every buffered segment stays inside the sequence-number space.
pub open spec fn r_bounded(m: RModel) -> bool {
    forall|j: int| 0 <= j < m.ooo.len() ==> (#[trigger] m.ooo[j]).0 + m.ooo[j].1.len() <= SEQ_MAX
}

/// Reassembly state for one direction of one connection.
pub struct StreamState {
    next_seq: u32,
    ooo: Vec<(u32, Vec<u8>)>,
    emitted: Ghost<Seq<u8>>,
}

impl StreamState {
    pub closed spec fn view(self) -> RModel {
        RModel {
            next: self.next_seq as nat,
            ooo: self.ooo@.map_values(|e: (u32, Vec<u8>)| (e.0 as nat, e.1@)),
            emitted: self.emitted@,
        }
    }

    /// Every buffered segment stays inside the sequence-number space.
    pub open spec fn wf(self) -> bool {
        r_bounded(self@)
    }

    /// Fresh state expecting `initial_seq` first.
    pub fn new(initial_seq: u32) -> (r: Self)
        ensures
            r.wf(),
            r@ == (RModel {
                next: initial_seq as nat,
                ooo: Seq::empty(),
                emitted: Seq::empty(),
            }),
    {
        let r = StreamState { next_seq: initial_seq, ooo: Vec::new(), emitted: Ghost(Seq::empty()) };
        proof {
            assert(r@.ooo =~= Seq::<(nat, Seq<u8>)>::empty());
        }
        r
    }

    /// Process one captured segment; returns the bytes newly delivered, in
    /// stream order.
    pub fn on_segment(&mut self, seq: u32, payload: &[u8]) -> (out: Vec<u8>)
        requires
            old(self).wf(),
        ensures
            final(self).wf(),
            final(self)@ == r_insert(old(self)@, seq as nat, payload@),
            final(self)@.emitted == old(self)@.emitted + out@,
    {
        let ghost m0 = self@;
        if payload.len() == 0 {
            let out: Vec<u8> = Vec::new();
            assert(m0.emitted + out@ =~= m0.emitted);
            return out;
        }
        if payload.len() as u64 > SEQ_MAX {
            let out: Vec<u8> = Vec::new();
            assert(seq as nat + payload@.len() > SEQ_MAX);
            assert(m0.emitted + out@ =~= m0.emitted);
            return out;
        }
        let end64: u64 = seq as u64 + payload.len() as u64;
        if end64 > SEQ_MAX {
            let out: Vec<u8> = Vec::new();
            assert(m0.emitted + out@ =~= m0.emitted);
            return out;
        }
        if end64 <= self.next_seq as u64 {
            let out: Vec<u8> = Vec::new();
            assert(m0.emitted + out@ =~= m0.emitted);
            return out;
        }
        if seq <= self.next_seq {
            let off: usize = (self.next_seq - seq) as usize;
            let mut out = copy_range(payload, off, payload.len());
            assert(out@ =~= payload@.skip(m0.next - seq as nat));
            self.emitted = Ghost(self.emitted@ + out@);
            self.next_seq = end64 as u32;
            let ghost m1 = RModel {
                next: seq as nat + payload@.len(),
                ooo: m0.ooo,
                emitted: m0.emitted + payload@.skip(m0.next - seq as nat),
            };
            assert(self@ == m1);
            let ghost n0 = out@.len();
            self.drain_ready(&mut out);
            proof {
                assert(out@ =~= out@.subrange(0, n0 as int) + out@.skip(n0 as int));
                assert(self@.emitted =~= m0.emitted + out@);
                assert(self@ == r_insert(m0, seq as nat, payload@));
            }
            return out;
        }
        // The segment is ahead of the stream: buffer it unless its key is
        // already held.
        let mut j: usize = 0;
        while j < self.ooo.len() && self.ooo[j].0 != seq
            invariant
                j <= self.ooo@.len(),
                self@ == m0,
                self.wf(),
                forall|k: int| 0 <= k < j ==> (#[trigger] self@.ooo[k]).0 != seq as nat,
            decreases self.ooo@.len() - j,
        {
            j += 1;
        }
        if j < self.ooo.len() {
            let out: Vec<u8> = Vec::new();
            assert(self@.ooo[j as int].0 == seq as nat);
            assert(r_has_key(m0.ooo, seq as nat));
            assert(m0.emitted + out@ =~= m0.emitted);
            return out;
        }
        assert(!r_has_key(m0.ooo, seq as nat));
        let p = copy_range(payload, 0, payload.len());
        assert(p@ =~= payload@);
        self.ooo.push((seq, p));
        proof {
            assert(self@.ooo =~= m0.ooo.push((seq as nat, payload@)));
        }
        let out: Vec<u8> = Vec::new();
        assert(m0.emitted + out@ =~= m0.emitted);
        out
    }

    /// Drain every buffered segment the stream has caught up with,
    /// appending the newly delivered bytes to `out`.
    fn drain_ready(&mut self, out: &mut Vec<u8>)
        requires
            old(self).wf(),
        ensures
            final(self).wf(),
            final(self)@ == r_drain(old(self)@),
            final(self)@.emitted == old(self)@.emitted + final(out)@.skip(old(out)@.len() as int),
            final(out)@.subrange(0, old(out)@.len() as int) == old(out)@,
            final(out)@.len() >= old(out)@.len(),
    {
        let ghost m0 = self@;
        let ghost out0 = old(out)@;
        loop
            invariant
                self.wf(),
                r_drain(self@) == r_drain(m0),
                out@.len() >= out0.len(),
                out@.subrange(0, out0.len() as int) == out0,
                self@.emitted == m0.emitted + out@.skip(out0.len() as int),
            ensures
                self.wf(),
                r_first_ready(self@.ooo, self@.next) == -1,
                r_drain(self@) == r_drain(m0),
                out@.len() >= out0.len(),
                out@.subrange(0, out0.len() as int) == out0,
                self@.emitted == m0.emitted + out@.skip(out0.len() as int),
            decreases self.ooo@.len(),
        {
            let ghost mcur = self@;
            // Scan for the first buffered segment that is ready.
            let mut j: usize = 0;
            while j < self.ooo.len() && self.ooo[j].0 > self.next_seq
                invariant
                    j <= self.ooo@.len(),
                    self@ == mcur,
                    self.wf(),
                    forall|k: int| 0 <= k < j ==> (#[trigger] self@.ooo[k]).0 > self@.next,
                decreases self.ooo@.len() - j,
            {
                j += 1;
            }
            proof {
                if j < self.ooo@.len() {
                    assert(self@.ooo[j as int].0 <= self@.next);
                }
                lemma_first_ready_char(mcur.ooo, mcur.next, j as int);
            }
            if j == self.ooo.len() {
                // Nothing buffered is ready.
                break;
            }
            assert(r_first_ready(mcur.ooo, mcur.next) == j as int);
            assert(mcur.ooo[j as int].0 <= mcur.next);
            let ghost endj = mcur.ooo[j as int].0 + mcur.ooo[j as int].1.len();
            assert(endj <= SEQ_MAX);
            let (q, p) = self.ooo.remove(j);
            proof {
                assert(self@.ooo =~= mcur.ooo.remove(j as int));
                assert(mcur.ooo[j as int] == (q as nat, p@));
            }
            let end64: u64 = q as u64 + p.len() as u64;
            assert(end64 <= SEQ_MAX);
            assert(q as nat <= mcur.next);
            if end64 <= self.next_seq as u64 {
                // Fully behind the stream: nothing novel, drop it.
                assert(self@ == (RModel {
                    next: mcur.next,
                    ooo: mcur.ooo.remove(j as int),
                    emitted: mcur.emitted,
                }));
            } else {
                let off: usize = (self.next_seq - q) as usize;
                let mut novel = copy_range(p.as_slice(), off, p.len());
                assert(novel@ =~= p@.skip(mcur.next - q as nat));
                out.append(&mut novel);
                self.emitted = Ghost(self.emitted@ + p@.skip(mcur.next - q as nat));
                self.next_seq = end64 as u32;
                assert(self@ == (RModel {
                    next: q as nat + p@.len(),
                    ooo: mcur.ooo.remove(j as int),
                    emitted: mcur.emitted + p@.skip(mcur.next - q as nat),
                }));
                proof {
                    assert(out@.subrange(0, out0.len() as int) =~= out0);
                    assert(self@.emitted =~= m0.emitted + out@.skip(out0.len() as int));
                }
            }
        }
    }
}

} // verus!
