//! Bounded capture recorder and session state.
//!
//! The recorder is the shared sink of the pipeline: it checks every record
//! against the enabled flag, enforces the byte cap on the capture artifact, and keeps
//! the cumulative counters the front end polls.  The artifact itself is a
//! file owned by the caller; the recorder decides admission and hands back
//! the encoded entry bytes to append.

use vstd::prelude::*;

use crate::extract::QueryRecord;

verus! {

/// Byte cap on the capture artifact (100 MiB).
pub const MAX_CAPTURE: u64 = 100 * 1048576;

/// Little-endian bytes of a 64-bit value.
pub open spec fn le64(x: u64) -> Seq<u8> {
    seq![
        (x % 256) as u8,
        ((x / 256) % 256) as u8,
        ((x / 65536) % 256) as u8,
        ((x / 16777216) % 256) as u8,
        ((x / 4294967296) % 256) as u8,
        ((x / 1099511627776) % 256) as u8,
        ((x / 281474976710656) % 256) as u8,
        ((x / 72057594037927936) % 256) as u8,
    ]
}

/// Self-delimiting artifact entry: connection id, sequence index, timestamp
/// and payload length as 64-bit little-endian words, then the raw SQL bytes.
pub open spec fn entry_bytes(conn_id: u64, seq_index: u64, timestamp: u64, sql: Seq<u8>) -> Seq<
    u8,
> {
    le64(conn_id) + le64(seq_index) + le64(timestamp) + le64(sql.len() as u64) + sql
}

/// Mathematical state of one capture session.
pub struct SessionModel {
    pub enabled: bool,
    pub bytes: u64,
    pub queries: u64,
    pub cap: u64,
    pub art: Seq<Seq<u8>>,
}

/// Enabling only sets the flag; counters and artifact are untouched.
pub open spec fn m_enable(m: SessionModel) -> SessionModel {
    SessionModel { enabled: true, ..m }
}

/// Disabling only clears the flag; the artifact is not truncated and the
/// counters remain readable.
pub open spec fn m_disable(m: SessionModel) -> SessionModel {
    SessionModel { enabled: false, ..m }
}

/// Clearing a session zeroes the counters and empties the artifact.
pub open spec fn m_reset(m: SessionModel) -> SessionModel {
    SessionModel { enabled: false, bytes: 0, queries: 0, cap: m.cap, art: Seq::empty() }
}

/// Admission: an entry is appended only while capture is enabled and the
/// byte counter has not yet reached the cap; otherwise the record is
/// silently dropped and the state is unchanged.
pub open spec fn m_admit(m: SessionModel, entry: Seq<u8>) -> (SessionModel, bool) {
    if m.enabled && m.bytes < m.cap {
        let nb = if m.bytes + entry.len() <= u64::MAX {
            (m.bytes + entry.len()) as u64
        } else {
            u64::MAX
        };
        let nq = if m.queries < u64::MAX {
            (m.queries + 1) as u64
        } else {
            u64::MAX
        };
        (SessionModel { enabled: true, bytes: nb, queries: nq, cap: m.cap, art: m.art.push(entry) },
        true)
    } else {
        (m, false)
    }
}

/// Once the byte cap has been reached, further records are dropped without
/// an error: the artifact and both counters keep the values they had when
/// the cap was hit.
pub proof fn lemma_cap_halts_growth(m: SessionModel, entry: Seq<u8>)
    requires
        m.bytes >= m.cap,
    ensures
        m_admit(m, entry).0 == m,
        !m_admit(m, entry).1,
{
}

/// Disabling and then re-enabling a session loses nothing: the artifact,
/// both counters and the behaviour of every later admission are exactly
/// those of a session that was never disabled.
pub proof fn lemma_toggle_resumes(m: SessionModel, entry: Seq<u8>)
    ensures
        m_enable(m_disable(m)) == m_enable(m),
        m_enable(m_disable(m)).art == m.art,
        m_enable(m_disable(m)).bytes == m.bytes,
        m_enable(m_disable(m)).queries == m.queries,
        m_admit(m_enable(m_disable(m)), entry) == m_admit(m_enable(m), entry),
{
}

/// Shared capture state: enabled flag, cumulative counters, byte cap, and
/// the history of entries admitted to the artifact.
pub struct Recorder {
    enabled: bool,
    bytes: u64,
    queries: u64,
    cap: u64,
    art: Ghost<Seq<Seq<u8>>>,
}

impl Recorder {
    pub closed spec fn view(self) -> SessionModel {
        SessionModel {
            enabled: self.enabled,
            bytes: self.bytes,
            queries: self.queries,
            cap: self.cap,
            art: self.art@,
        }
    }

    /// Fresh, disabled session with the build-time byte cap.
    pub fn new() -> (r: Self)
        ensures
            r@ == (SessionModel {
                enabled: false,
                bytes: 0,
                queries: 0,
                cap: MAX_CAPTURE,
                art: Seq::empty(),
            }),
    {
        Recorder { enabled: false, bytes: 0, queries: 0, cap: MAX_CAPTURE, art: Ghost(Seq::empty()) }
    }

    /// Fresh, disabled session with a caller-chosen byte cap.
    pub fn with_cap(cap: u64) -> (r: Self)
        ensures
            r@ == (SessionModel { enabled: false, bytes: 0, queries: 0, cap, art: Seq::empty() }),
    {
        Recorder { enabled: false, bytes: 0, queries: 0, cap, art: Ghost(Seq::empty()) }
    }

    /// Clear the artifact and zero both counters; valid before a session
    /// starts.
    pub fn reset_session(&mut self)
        ensures
            final(self)@ == m_reset(old(self)@),
    {
        self.enabled = false;
        self.bytes = 0;
        self.queries = 0;
        self.art = Ghost(Seq::empty());
    }

    /// Switch capture on.  Idempotent.
    pub fn enable_capture(&mut self)
        ensures
            final(self)@ == m_enable(old(self)@),
    {
        self.enabled = true;
    }

    /// Switch capture off without touching the artifact or the counters.
    /// Idempotent.
    pub fn disable_capture(&mut self)
        ensures
            final(self)@ == m_disable(old(self)@),
    {
        self.enabled = false;
    }

    pub fn is_enabled(&self) -> (r: bool)
        ensures
            r == self@.enabled,
    {
        self.enabled
    }

    /// Records admitted so far.
    pub fn current_query_count(&self) -> (r: u64)
        ensures
            r == self@.queries,
    {
        self.queries
    }

    /// Bytes admitted to the artifact so far.
    pub fn current_byte_count(&self) -> (r: u64)
        ensures
            r == self@.bytes,
    {
        self.bytes
    }

    /// The artifact has stopped growing.
    pub fn capacity_reached(&self) -> (r: bool)
        ensures
            r == (self@.bytes >= self@.cap),
    {
        self.bytes >= self.cap
    }

    /// Offer one record.  Returns the encoded artifact entry to append when
    /// the record is admitted, `None` when it is dropped; dropping is silent
    /// and leaves the whole session state unchanged.
    pub fn record(&mut self, rec: &QueryRecord) -> (r: Option<Vec<u8>>)
        ensures
            ({
                let entry = entry_bytes(rec.conn_id, rec.seq_index, rec.timestamp, rec.sql@);
                let (m, ok) = m_admit(old(self)@, entry);
                final(self)@ == m && (r is Some <==> ok) && (r matches Some(v) ==> v@ == entry)
            }),
    {
        let ghost entry = entry_bytes(rec.conn_id, rec.seq_index, rec.timestamp, rec.sql@);
        if self.enabled && self.bytes < self.cap {
            let enc = encode_entry(rec);
            let add = enc.len() as u64;
            self.bytes = if self.bytes <= u64::MAX - add {
                self.bytes + add
            } else {
                u64::MAX
            };
            self.queries = if self.queries < u64::MAX {
                self.queries + 1
            } else {
                u64::MAX
            };
            self.art = Ghost(self.art@.push(entry));
            Some(enc)
        } else {
            None
        }
    }
}

/// Little-endian encoding of `x`, pushed onto `out`.
fn push_le64(out: &mut Vec<u8>, x: u64)
    ensures
        final(out)@ == old(out)@ + le64(x),
{
    out.push((x % 256) as u8);
    out.push(((x / 256) % 256) as u8);
    out.push(((x / 65536) % 256) as u8);
    out.push(((x / 16777216) % 256) as u8);
    out.push(((x / 4294967296) % 256) as u8);
    out.push(((x / 1099511627776) % 256) as u8);
    out.push(((x / 281474976710656) % 256) as u8);
    out.push(((x / 72057594037927936) % 256) as u8);
    assert(out@ =~= old(out)@ + le64(x));
}

/// Encode one record as a self-delimiting artifact entry.
pub fn encode_entry(rec: &QueryRecord) -> (r: Vec<u8>)
    ensures
        r@ == entry_bytes(rec.conn_id, rec.seq_index, rec.timestamp, rec.sql@),
        r@.len() == 32 + rec.sql@.len(),
{
    let mut out: Vec<u8> = Vec::new();
    push_le64(&mut out, rec.conn_id);
    push_le64(&mut out, rec.seq_index);
    push_le64(&mut out, rec.timestamp);
    push_le64(&mut out, rec.sql.len() as u64);
    let mut i: usize = 0;
    let ghost head = out@;
    while i < rec.sql.len()
        invariant
            i <= rec.sql@.len(),
            out@ == head + rec.sql@.subrange(0, i as int),
        decreases rec.sql@.len() - i,
    {
        out.push(rec.sql[i]);
        i += 1;
        assert(out@ =~= head + rec.sql@.subrange(0, i as int));
    }
    assert(out@ =~= entry_bytes(rec.conn_id, rec.seq_index, rec.timestamp, rec.sql@));
    out
}

} // verus!
