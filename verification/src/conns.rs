//! Per-connection pipeline: keying, lifecycle and the composition of
//! reassembly, frame decoding and query extraction.
//!
//! Connections are identified by their normalized 4-tuple.  Only the
//! client-to-server direction (segments addressed to the monitored port) is
//! reassembled and decoded; server replies merely refresh the connection's
//! activity clock.  A connection's state is discarded when a FIN or RST is
//! observed in either direction, or when it has been idle for the
//! configured timeout.

use vstd::prelude::*;

use crate::extract::classify_spec;
use crate::extract::Extractor;
use crate::extract::QueryRecord;
use crate::frame::decode;
use crate::frame::FrameDecoder;
use crate::stream::r_init;
use crate::stream::r_insert;
use crate::stream::RModel;
use crate::stream::StreamState;

verus! {

/// Normalized 4-tuple identifying one TCP flow regardless of direction.
#[derive(Clone, Copy, PartialEq, Eq, Structural, Debug)]
pub struct ConnKey {
    pub a_ip: u128,
    pub a_port: u16,
    pub b_ip: u128,
    pub b_port: u16,
}

/// The key of the flow between two endpoints, with the lexicographically
/// smaller endpoint first.
pub open spec fn key_of(src_ip: u128, src_port: u16, dst_ip: u128, dst_port: u16) -> ConnKey {
    if src_ip < dst_ip || (src_ip == dst_ip && src_port <= dst_port) {
        ConnKey { a_ip: src_ip, a_port: src_port, b_ip: dst_ip, b_port: dst_port }
    } else {
        ConnKey { a_ip: dst_ip, a_port: dst_port, b_ip: src_ip, b_port: src_port }
    }
}

/// Both directions of one flow normalize to the same key.
pub proof fn lemma_key_symmetric(src_ip: u128, src_port: u16, dst_ip: u128, dst_port: u16)
    ensures
        key_of(src_ip, src_port, dst_ip, dst_port) == key_of(dst_ip, dst_port, src_ip, src_port),
{
}

/// Normalize a segment's endpoints into its connection key.
pub fn normalize_key(src_ip: u128, src_port: u16, dst_ip: u128, dst_port: u16) -> (r: ConnKey)
    ensures
        r == key_of(src_ip, src_port, dst_ip, dst_port),
{
    if src_ip < dst_ip || (src_ip == dst_ip && src_port <= dst_port) {
        ConnKey { a_ip: src_ip, a_port: src_port, b_ip: dst_ip, b_port: dst_port }
    } else {
        ConnKey { a_ip: dst_ip, a_port: dst_port, b_ip: src_ip, b_port: src_port }
    }
}

/// Mathematical state of one tracked connection.
pub struct ConnModel {
    pub key: ConnKey,
    pub conn_id: u64,
    pub stream: RModel,
    pub pending: Seq<u8>,
    pub residual: Seq<u8>,
    pub last_seen: u64,
}

/// One tracked connection: reassembly and decode state plus bookkeeping.
struct Conn {
    key: ConnKey,
    conn_id: u64,
    stream: StreamState,
    decoder: FrameDecoder,
    last_seen: u64,
}

impl Conn {
    spec fn view(self) -> ConnModel {
        ConnModel {
            key: self.key,
            conn_id: self.conn_id,
            stream: self.stream@,
            pending: self.decoder.pending_view(),
            residual: self.decoder.residual_view(),
            last_seen: self.last_seen,
        }
    }

    spec fn wf(self) -> bool {
        cm_wf(self.view())
    }
}

/// Well-formed connection state: bounded reassembly buffer and a decoder
/// residual that never holds a complete frame.
pub open spec fn cm_wf(c: ConnModel) -> bool {
    crate::stream::r_bounded(c.stream) && crate::frame::stuck(c.residual)
}

/// First index holding `key`, or -1.
pub open spec fn find_key(cs: Seq<ConnModel>, key: ConnKey) -> int
    decreases cs.len(),
{
    if cs.len() == 0 {
        -1
    } else if cs[0].key == key {
        0
    } else {
        let r = find_key(cs.skip(1), key);
        if r < 0 {
            -1
        } else {
            r + 1
        }
    }
}

/// `find_key` returns exactly the first index holding the key.
pub proof fn lemma_find_key_char(cs: Seq<ConnModel>, key: ConnKey, i: int)
    requires
        0 <= i <= cs.len(),
        forall|j: int| 0 <= j < i ==> (#[trigger] cs[j]).key != key,
        i < cs.len() ==> cs[i].key == key,
    ensures
        i < cs.len() ==> find_key(cs, key) == i,
        i == cs.len() ==> find_key(cs, key) == -1,
    decreases cs.len(),
{
    if cs.len() == 0 {
    } else if cs[0].key == key {
        assert(i == 0);
    } else {
        let t = cs.skip(1);
        assert(forall|j: int| 0 <= j < i - 1 ==> #[trigger] t[j] == cs[j + 1]);
        lemma_find_key_char(t, key, i - 1);
    }
}

/// SQL payloads of the logical commands that carry the query tag, in order.
pub open spec fn queries_of(cmds: Seq<Seq<u8>>) -> Seq<Seq<u8>>
    decreases cmds.len(),
{
    if cmds.len() == 0 {
        Seq::empty()
    } else {
        let rest = queries_of(cmds.skip(1));
        match classify_spec(cmds[0]) {
            Some(sql) => seq![sql] + rest,
            None => rest,
        }
    }
}

/// Sequence index assigned to the `t`-th record when the extractor counter
/// stood at `idx0`: consecutive, saturating at the counter's maximum.
pub open spec fn index_at(idx0: u64, t: int) -> u64 {
    if idx0 + t < u64::MAX {
        (idx0 + t) as u64
    } else {
        u64::MAX
    }
}

/// One connection's advance for a client-to-server segment: reassemble,
/// decode the newly contiguous bytes, and refresh the activity clock;
/// yields the new state and the logical commands completed.
pub open spec fn conn_step(c: ConnModel, seq: nat, payload: Seq<u8>, now: u64) -> (
    ConnModel,
    Seq<Seq<u8>>,
) {
    let stream2 = r_insert(c.stream, seq, payload);
    let delta = stream2.emitted.skip(c.stream.emitted.len() as int);
    let d = decode(c.pending, c.residual + delta);
    (
        ConnModel {
            key: c.key,
            conn_id: c.conn_id,
            stream: stream2,
            pending: d.1,
            residual: d.2,
            last_seen: now,
        },
        d.0,
    )
}

/// Connections kept by an idle sweep at time `now`: exactly those whose
/// last activity is more recent than the timeout.
pub open spec fn keep_live(cs: Seq<ConnModel>, now: u64, timeout: u64) -> Seq<ConnModel>
    decreases cs.len(),
{
    if cs.len() == 0 {
        Seq::empty()
    } else {
        let rest = keep_live(cs.skip(1), now, timeout);
        if cs[0].last_seen + timeout > now {
            seq![cs[0]] + rest
        } else {
            rest
        }
    }
}

/// The capture pipeline across all tracked connections.
pub struct Engine {
    port: u16,
    idle_timeout: u64,
    conns: Vec<Conn>,
    extractor: Extractor,
    next_conn_id: u64,
}

impl Engine {
    pub closed spec fn conns_view(self) -> Seq<ConnModel> {
        self.conns@.map_values(|c: Conn| c.view())
    }

    pub closed spec fn port_view(self) -> u16 {
        self.port
    }

    pub closed spec fn idle_timeout_view(self) -> u64 {
        self.idle_timeout
    }

    pub closed spec fn next_index_view(self) -> u64 {
        self.extractor.next_index_view()
    }

    pub closed spec fn next_conn_id_view(self) -> u64 {
        self.next_conn_id
    }

    pub open spec fn wf(self) -> bool {
        forall|i: int| 0 <= i < self.conns_view().len() ==> cm_wf(#[trigger] self.conns_view()[i])
    }

    /// Monitor flows on `port`, forgetting connections idle for
    /// `idle_timeout` ticks of the caller's clock.
    pub fn new(port: u16, idle_timeout: u64) -> (r: Self)
        ensures
            r.wf(),
            r.port_view() == port,
            r.idle_timeout_view() == idle_timeout,
            r.conns_view() == Seq::<ConnModel>::empty(),
            r.next_index_view() == 0,
            r.next_conn_id_view() == 0,
    {
        let r = Engine {
            port,
            idle_timeout,
            conns: Vec::new(),
            extractor: Extractor::new(),
            next_conn_id: 0,
        };
        proof {
            assert(r.conns_view() =~= Seq::<ConnModel>::empty());
        }
        r
    }

    /// Number of connections currently tracked.
    pub fn tracked_connections(&self) -> (r: usize)
        ensures
            r == self.conns_view().len(),
    {
        self.conns.len()
    }

    /// Find the index of `key` in the table.
    fn find(&self, key: ConnKey) -> (r: Option<usize>)
        ensures
            match r {
                Some(i) => find_key(self.conns_view(), key) == i as int && i
                    < self.conns_view().len() && self.conns_view()[i as int].key == key,
                None => find_key(self.conns_view(), key) == -1,
            },
    {
        let mut j: usize = 0;
        while j < self.conns.len() && !(self.conns[j].key == key)
            invariant
                j <= self.conns@.len(),
                forall|k: int| 0 <= k < j ==> (#[trigger] self.conns_view()[k]).key != key,
            decreases self.conns@.len() - j,
        {
            j += 1;
        }
        proof {
            if j < self.conns@.len() {
                assert(self.conns_view()[j as int].key == key);
            }
            lemma_find_key_char(self.conns_view(), key, j as int);
        }
        if j < self.conns.len() {
            Some(j)
        } else {
            None
        }
    }

    /// Observe a FIN or RST on either direction: tear the connection down.
    pub fn on_teardown(&mut self, src_ip: u128, src_port: u16, dst_ip: u128, dst_port: u16)
        requires
            old(self).wf(),
        ensures
            final(self).wf(),
            ({
                let key = key_of(src_ip, src_port, dst_ip, dst_port);
                let i = find_key(old(self).conns_view(), key);
                final(self).conns_view() == if i >= 0 {
                    old(self).conns_view().remove(i)
                } else {
                    old(self).conns_view()
                }
            }),
            final(self).port_view() == old(self).port_view(),
            final(self).idle_timeout_view() == old(self).idle_timeout_view(),
            final(self).next_index_view() == old(self).next_index_view(),
            final(self).next_conn_id_view() == old(self).next_conn_id_view(),
    {
        let key = normalize_key(src_ip, src_port, dst_ip, dst_port);
        match self.find(key) {
            Some(i) => {
                let ghost pre = self.conns_view();
                let _ = self.conns.remove(i);
                proof {
                    assert(self.conns_view() =~= pre.remove(i as int));
                    assert forall|k: int| 0 <= k < self.conns_view().len() implies cm_wf(
                        #[trigger] self.conns_view()[k],
                    ) by {
                        if k < i {
                            assert(self.conns_view()[k] == pre[k]);
                        } else {
                            assert(self.conns_view()[k] == pre[k + 1]);
                        }
                    }
                }
            },
            None => {},
        }
    }

    /// Feed one client-to-server data segment through reassembly, frame
    /// decoding and query extraction; a segment of the server-to-client
    /// direction only refreshes the connection's activity clock, and a
    /// segment of an unmonitored flow changes nothing.  Returns the records
    /// extracted, in stream order, numbered consecutively by the session
    /// counter.
    #[verifier::loop_isolation(false)]
    pub fn on_data(
        &mut self,
        src_ip: u128,
        src_port: u16,
        dst_ip: u128,
        dst_port: u16,
        seq: u32,
        payload: &[u8],
        now: u64,
    ) -> (out: Vec<QueryRecord>)
        requires
            old(self).wf(),
        ensures
            final(self).wf(),
            final(self).port_view() == old(self).port_view(),
            final(self).idle_timeout_view() == old(self).idle_timeout_view(),
            ({
                let port = old(self).port_view();
                let key = key_of(src_ip, src_port, dst_ip, dst_port);
                let i0 = find_key(old(self).conns_view(), key);
                if dst_port == port {
                    let fresh = ConnModel {
                        key,
                        conn_id: old(self).next_conn_id_view(),
                        stream: r_init(seq as nat),
                        pending: Seq::empty(),
                        residual: Seq::empty(),
                        last_seen: now,
                    };
                    let cs = if i0 >= 0 {
                        old(self).conns_view()
                    } else {
                        old(self).conns_view().push(fresh)
                    };
                    let i = if i0 >= 0 {
                        i0
                    } else {
                        old(self).conns_view().len() as int
                    };
                    let sc = conn_step(cs[i], seq as nat, payload@, now);
                    let queries = queries_of(sc.1);
                    &&& final(self).conns_view() == cs.update(i, sc.0)
                    &&& final(self).next_conn_id_view() == (if i0 >= 0 {
                        old(self).next_conn_id_view()
                    } else {
                        index_at(old(self).next_conn_id_view(), 1)
                    })
                    &&& out@.len() == queries.len()
                    &&& (forall|t: int|
                        0 <= t < out@.len() ==> (#[trigger] out@[t]).sql@ == queries[t]
                            && out@[t].conn_id == cs[i].conn_id && out@[t].timestamp == now
                            && out@[t].seq_index == index_at(old(self).next_index_view(), t))
                    &&& final(self).next_index_view() == index_at(
                        old(self).next_index_view(),
                        queries.len() as int,
                    )
                } else if src_port == port {
                    &&& out@.len() == 0
                    &&& final(self).next_index_view() == old(self).next_index_view()
                    &&& final(self).next_conn_id_view() == old(self).next_conn_id_view()
                    &&& final(self).conns_view() == (if i0 >= 0 {
                        old(self).conns_view().update(
                            i0,
                            ConnModel { last_seen: now, ..old(self).conns_view()[i0] },
                        )
                    } else {
                        old(self).conns_view()
                    })
                } else {
                    &&& out@.len() == 0
                    &&& final(self).next_index_view() == old(self).next_index_view()
                    &&& final(self).next_conn_id_view() == old(self).next_conn_id_view()
                    &&& final(self).conns_view() == old(self).conns_view()
                }
            }),
    {
        let key = normalize_key(src_ip, src_port, dst_ip, dst_port);
        if dst_port == self.port {
            let ghost idx0 = self.extractor.next_index_view();
            let i: usize;
            match self.find(key) {
                Some(ix) => {
                    i = ix;
                },
                None => {
                    let cid = self.next_conn_id;
                    if self.next_conn_id < u64::MAX {
                        self.next_conn_id = self.next_conn_id + 1;
                    }
                    let fresh = Conn {
                        key,
                        conn_id: cid,
                        stream: StreamState::new(seq),
                        decoder: FrameDecoder::new(),
                        last_seen: now,
                    };
                    i = self.conns.len();
                    let ghost pre = self.conns_view();
                    self.conns.push(fresh);
                    proof {
                        assert(fresh.view().stream == r_init(seq as nat));
                        assert(self.conns_view() =~= pre.push(fresh.view()));
                        assert(cm_wf(fresh.view()));
                        assert forall|k: int| 0 <= k < self.conns_view().len() implies cm_wf(
                            #[trigger] self.conns_view()[k],
                        ) by {
                            if k < pre.len() {
                                assert(self.conns_view()[k] == pre[k]);
                            }
                        }
                    }
                },
            }
            let ghost ncid_after = self.next_conn_id;
            let ghost cs = self.conns_view();
            let ghost centry = cs[i as int];
            proof {
                assert(i < cs.len());
                assert(cm_wf(centry));
            }
            let mut c = self.conns.remove(i);
            proof {
                assert(c.view() == centry);
                assert(self.conns_view() =~= cs.remove(i as int));
            }
            let bytes = c.stream.on_segment(seq, payload);
            proof {
                let stream2 = r_insert(centry.stream, seq as nat, payload@);
                assert(bytes@ =~= stream2.emitted.skip(centry.stream.emitted.len() as int));
            }
            let cmds = c.decoder.feed(bytes.as_slice());
            c.last_seen = now;
            let ghost sc = conn_step(centry, seq as nat, payload@, now);
            assert(c.view() == sc.0);
            assert(cmds@.map_values(|v: Vec<u8>| v@) == sc.1);
            let mut out: Vec<QueryRecord> = Vec::new();
            let mut t: usize = 0;
            proof {
                assert(cmds@.map_values(|v: Vec<u8>| v@).skip(0) =~= sc.1);
                assert(Seq::<Seq<u8>>::empty() + queries_of(sc.1) =~= queries_of(sc.1));
                assert(out@.map_values(|r: QueryRecord| r.sql@) =~= Seq::<Seq<u8>>::empty());
            }
            while t < cmds.len()
                invariant
                    t <= cmds@.len(),
                    cmds@.map_values(|v: Vec<u8>| v@) == sc.1,
                    out@.map_values(|r: QueryRecord| r.sql@) + queries_of(sc.1.skip(t as int))
                        == queries_of(sc.1),
                    self.extractor.next_index_view() == index_at(idx0, out@.len() as int),
                    forall|u: int|
                        0 <= u < out@.len() ==> (#[trigger] out@[u]).conn_id == centry.conn_id
                            && out@[u].timestamp == now && out@[u].seq_index == index_at(idx0, u),
                    self.port_view() == old(self).port_view(),
                    self.idle_timeout_view() == old(self).idle_timeout_view(),
                    self.next_conn_id_view() == ncid_after,
                    (i as int) < cs.len(),
                    self.conns_view() == cs.remove(i as int),
                decreases cmds@.len() - t,
            {
                let ghost tail = sc.1.skip(t as int);
                let ghost ov = out@.map_values(|r: QueryRecord| r.sql@);
                proof {
                    assert(tail[0] == sc.1[t as int]);
                    assert(tail.skip(1) =~= sc.1.skip(t as int + 1));
                }
                match self.extractor.extract(c.conn_id, now, &cmds[t]) {
                    Some(r) => {
                        proof {
                            assert(classify_spec(sc.1[t as int]) is Some);
                        }
                        let ghost grec = r;
                        let ghost opre = out@;
                        out.push(r);
                        proof {
                            assert(out@.map_values(|r: QueryRecord| r.sql@) =~= ov + seq![
                                sc.1[t as int].skip(1),
                            ]);
                            assert(ov + (seq![sc.1[t as int].skip(1)] + queries_of(tail.skip(1)))
                                =~= (ov + seq![sc.1[t as int].skip(1)]) + queries_of(tail.skip(1)));
                            let n = out@.len() as int - 1;
                            assert(grec.seq_index == index_at(idx0, n));
                            assert(self.extractor.next_index_view() == index_at(idx0, n + 1));
                            assert forall|u: int|
                                0 <= u < out@.len() implies ((#[trigger] out@[u]).conn_id
                                == centry.conn_id && out@[u].timestamp == now && out@[u].seq_index
                                == index_at(idx0, u)) by {
                                if u < opre.len() {
                                    assert(out@[u] == opre[u]);
                                    assert(opre[u].conn_id == centry.conn_id);
                                    assert(opre[u].timestamp == now);
                                    assert(opre[u].seq_index == index_at(idx0, u));
                                } else {
                                    assert(out@[u] == grec);
                                    assert(grec.conn_id == c.conn_id);
                                    assert(c.view() == sc.0);
                                    assert(sc.0.conn_id == centry.conn_id);
                                    assert(grec.timestamp == now);
                                    assert(grec.seq_index == index_at(idx0, u));
                                }
                            }
                        }
                    },
                    None => {
                        proof {
                            assert(classify_spec(sc.1[t as int]) is None);
                        }
                    },
                }
                t += 1;
            }
            proof {
                assert(sc.1.skip(sc.1.len() as int) =~= Seq::<Seq<u8>>::empty());
                assert(out@.map_values(|r: QueryRecord| r.sql@) + Seq::<Seq<u8>>::empty()
                    =~= out@.map_values(|r: QueryRecord| r.sql@));
            }
            self.conns.insert(i, c);
            proof {
                assert(c.view() == sc.0);
                assert(cm_wf(sc.0));
                assert(self.conns_view() =~= cs.remove(i as int).insert(i as int, sc.0));
                assert(cs.remove(i as int).insert(i as int, sc.0) =~= cs.update(i as int, sc.0));
                assert forall|k: int| 0 <= k < self.conns_view().len() implies cm_wf(
                    #[trigger] self.conns_view()[k],
                ) by {
                    if k == i {
                        assert(self.conns_view()[k] == sc.0);
                    } else {
                        assert(self.conns_view()[k] == cs[k]);
                    }
                }
            }
            out
        } else if src_port == self.port {
            match self.find(key) {
                Some(i) => {
                    let ghost cs = self.conns_view();
                    let mut c = self.conns.remove(i);
                    c.last_seen = now;
                    self.conns.insert(i, c);
                    proof {
                        assert(self.conns_view() =~= cs.update(
                            i as int,
                            ConnModel { last_seen: now, ..cs[i as int] },
                        ));
                        assert forall|k: int| 0 <= k < self.conns_view().len() implies cm_wf(
                            #[trigger] self.conns_view()[k],
                        ) by {
                            if k == i {
                                assert(cm_wf(cs[k]));
                                assert(self.conns_view()[k] == (ConnModel {
                                    last_seen: now,
                                    ..cs[i as int]
                                }));
                            } else {
                                assert(self.conns_view()[k] == cs[k]);
                            }
                        }
                    }
                },
                None => {},
            }
            Vec::new()
        } else {
            Vec::new()
        }
    }

    /// Release the state of every connection that has been idle for the
    /// configured timeout: exactly the recently active ones survive.
    pub fn sweep_idle(&mut self, now: u64)
        requires
            old(self).wf(),
        ensures
            final(self).wf(),
            final(self).conns_view() == keep_live(
                old(self).conns_view(),
                now,
                old(self).idle_timeout_view(),
            ),
            final(self).port_view() == old(self).port_view(),
            final(self).idle_timeout_view() == old(self).idle_timeout_view(),
            final(self).next_index_view() == old(self).next_index_view(),
            final(self).next_conn_id_view() == old(self).next_conn_id_view(),
    {
        let ghost pre = self.conns_view();
        let mut kept: Vec<Conn> = Vec::new();
        let timeout = self.idle_timeout;
        proof {
            assert(kept@.map_values(|c: Conn| c.view()) =~= Seq::<ConnModel>::empty());
            assert(Seq::<ConnModel>::empty() + keep_live(pre, now, timeout) =~= keep_live(
                pre,
                now,
                timeout,
            ));
        }
        while self.conns.len() > 0
            invariant
                self.port_view() == old(self).port_view(),
                self.idle_timeout_view() == old(self).idle_timeout_view(),
                self.next_index_view() == old(self).next_index_view(),
                self.next_conn_id_view() == old(self).next_conn_id_view(),
                timeout == self.idle_timeout_view(),
                forall|k: int|
                    0 <= k < self.conns_view().len() ==> cm_wf(#[trigger] self.conns_view()[k]),
                forall|k: int| 0 <= k < kept@.len() ==> cm_wf((#[trigger] kept@[k]).view()),
                kept@.map_values(|c: Conn| c.view()) + keep_live(self.conns_view(), now, timeout)
                    == keep_live(pre, now, timeout),
            decreases self.conns@.len(),
        {
            let ghost cv = self.conns_view();
            let ghost kv = kept@.map_values(|c: Conn| c.view());
            let c = self.conns.remove(0);
            proof {
                assert(self.conns_view() =~= cv.skip(1));
                assert(cv[0] == c.view());
                assert forall|k: int| 0 <= k < self.conns_view().len() implies cm_wf(
                    #[trigger] self.conns_view()[k],
                ) by {
                    assert(self.conns_view()[k] == cv[k + 1]);
                }
            }
            let live = c.last_seen > now || now - c.last_seen < timeout;
            if live {
                assert(cv[0].last_seen + timeout > now);
                kept.push(c);
                proof {
                    assert(kept@.map_values(|c: Conn| c.view()) =~= kv + seq![cv[0]]);
                    assert(kv + (seq![cv[0]] + keep_live(cv.skip(1), now, timeout)) =~= (kv + seq![
                        cv[0],
                    ]) + keep_live(cv.skip(1), now, timeout));
                }
            } else {
                assert(!(cv[0].last_seen + timeout > now));
            }
        }
        assert(self.conns_view() =~= Seq::<ConnModel>::empty());
        self.conns = kept;
        proof {
            assert(self.conns@.map_values(|c: Conn| c.view()) + keep_live(
                Seq::<ConnModel>::empty(),
                now,
                timeout,
            ) =~= self.conns@.map_values(|c: Conn| c.view()));
            assert forall|k: int| 0 <= k < self.conns_view().len() implies cm_wf(
                #[trigger] self.conns_view()[k],
            ) by {
                assert(self.conns_view()[k] == self.conns@[k].view());
            }
        }
    }
}

} // verus!
