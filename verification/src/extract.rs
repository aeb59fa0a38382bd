//! Query extraction from decoded logical command payloads.
//!
//! The first payload byte of a logical command is its command-type tag.
//! Only the plain-text query tag yields a captured record; every other tag
//! (prepared-statement execution, quit, ping, administrative commands, and
//! anything unrecognized) is discarded without error.  The SQL text is the
//! remainder of the payload, copied verbatim.

use vstd::prelude::*;

use crate::frame::copy_range;

verus! {

/// Command-type tag for plain text query execution.
pub const COM_QUERY: u8 = 3;

/// The SQL text carried by a logical command payload, if the payload is a
/// plain-text query command.
pub open spec fn classify_spec(p: Seq<u8>) -> Option<Seq<u8>> {
    if p.len() >= 1 && p[0] == COM_QUERY {
        Some(p.skip(1))
    } else {
        None
    }
}

/// Classify one logical command payload by its tag byte; a query command
/// yields its SQL bytes verbatim, every other payload yields nothing.
pub fn classify(payload: &Vec<u8>) -> (r: Option<Vec<u8>>)
    ensures
        (r is Some <==> classify_spec(payload@) is Some),
        (r matches Some(v) ==> classify_spec(payload@) == Some(v@)),
{
    if payload.len() >= 1 && payload[0] == COM_QUERY {
        let sql = copy_range(payload, 1, payload.len());
        assert(sql@ =~= payload@.skip(1));
        Some(sql)
    } else {
        None
    }
}

/// One captured query: connection id, per-session sequence index,
/// wall-clock timestamp, and the raw SQL bytes (not necessarily UTF-8).
pub struct QueryRecord {
    pub conn_id: u64,
    pub seq_index: u64,
    pub timestamp: u64,
    pub sql: Vec<u8>,
}

/// Builds records out of classified payloads, numbering them with a
/// monotonically increasing sequence index.
pub struct Extractor {
    next_index: u64,
}

impl Extractor {
    pub closed spec fn next_index_view(self) -> u64 {
        self.next_index
    }

    pub fn new() -> (r: Self)
        ensures
            r.next_index_view() == 0,
    {
        Extractor { next_index: 0 }
    }

    /// Classify one logical command payload; a query command becomes a
    /// record carrying the next sequence index, anything else is dropped.
    pub fn extract(&mut self, conn_id: u64, timestamp: u64, payload: &Vec<u8>) -> (r: Option<
        QueryRecord,
    >)
        ensures
            (r is Some <==> classify_spec(payload@) is Some),
            (r matches Some(rec) ==> rec.conn_id == conn_id && rec.timestamp == timestamp
                && rec.seq_index == old(self).next_index_view() && Some(rec.sql@)
                == classify_spec(payload@)),
            final(self).next_index_view() == if classify_spec(payload@) is Some && old(
                self,
            ).next_index_view() < u64::MAX {
                (old(self).next_index_view() + 1) as u64
            } else {
                old(self).next_index_view()
            },
    {
        match classify(payload) {
            Some(sql) => {
                let idx = self.next_index;
                if self.next_index < u64::MAX {
                    self.next_index = self.next_index + 1;
                }
                Some(QueryRecord { conn_id, seq_index: idx, timestamp, sql })
            },
            None => None,
        }
    }
}

} // verus!
