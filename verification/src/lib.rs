//! Passive capture pipeline for MySQL client/server traffic: per-connection
//! TCP stream reassembly, wire-protocol frame decoding, query extraction and
//! a bounded capture recorder, together with the interactive front-end state
//! machine that drives a capture session.

use vstd::prelude::*;

pub mod cli;
pub mod conns;
pub mod extract;
pub mod frame;
pub mod packet;
pub mod record;
pub mod stream;

verus! {

/// Banner shown by the front end when a session starts.
pub fn ascii_art() -> (r: &'static str)
    ensures
        r@.len() > 0,
{
    proof {
        reveal_strlit("  |\\\n  | \\\n  |  \\\n__|___\\__\n\\  ooo  /\n \\_____/\n~~~~~~~~~\n");
    }
    "  |\\\n  | \\\n  |  \\\n__|___\\__\n\\  ooo  /\n \\_____/\n~~~~~~~~~\n"
}

/// Whole megabytes needed to hold `c` bytes, rounded up.
pub fn rnd_mbs(c: usize) -> (r: usize)
    requires
        c >= 1,
    ensures
        r == (c - 1) / 1048576 + 1,
{
    (c - 1) / 1048576 + 1
}

} // verus!
