//! Raw-frame parsing: Ethernet II / IPv4 / TCP.
//!
//! The capture layer hands over whole link-layer frames; this extracts the
//! TCP segment a frame carries, if any: endpoints, sequence number, the
//! FIN and RST flags, and the payload bytes, honouring the IP total length
//! (captured frames may carry link-layer padding).

use vstd::prelude::*;

use crate::frame::copy_range;

verus! {

/// Big-endian 16-bit field at offset `i`.
pub open spec fn be16(b: Seq<u8>, i: int) -> nat
    recommends
        0 <= i && i + 2 <= b.len(),
{
    (b[i] as nat) * 256 + (b[i + 1] as nat)
}

/// Big-endian 32-bit field at offset `i`.
pub open spec fn be32(b: Seq<u8>, i: int) -> nat
    recommends
        0 <= i && i + 4 <= b.len(),
{
    ((b[i] as nat) * 16777216) + ((b[i + 1] as nat) * 65536) + ((b[i + 2] as nat) * 256) + (b[i
        + 3] as nat)
}

/// Header length of the IPv4 header starting at byte 14.
pub open spec fn ip_hdr_len(b: Seq<u8>) -> nat {
    ((b[14] as nat) % 16) * 4
}

/// Total length of the IPv4 packet.
pub open spec fn ip_total_len(b: Seq<u8>) -> nat {
    be16(b, 16)
}

/// Offset of the TCP header in the frame.
pub open spec fn tcp_off(b: Seq<u8>) -> int {
    14 + ip_hdr_len(b) as int
}

/// Length of the TCP header.
pub open spec fn tcp_hdr_len(b: Seq<u8>) -> nat {
    ((b[tcp_off(b) + 12] as nat) / 16) * 4
}

/// Offset of the TCP payload in the frame.
pub open spec fn payload_off(b: Seq<u8>) -> int {
    tcp_off(b) + tcp_hdr_len(b) as int
}

/// End of the TCP payload in the frame: the IP total length governs, so
/// link-layer padding is not taken for payload.
pub open spec fn payload_end(b: Seq<u8>) -> int {
    14 + ip_total_len(b) as int
}

/// The frame is an Ethernet II frame carrying a well-formed IPv4 packet
/// whose protocol is TCP, with all announced lengths inside the frame.
pub open spec fn tcp_frame_ok(b: Seq<u8>) -> bool {
    &&& b.len() >= 34
    &&& be16(b, 12) == 0x0800
    &&& (b[14] as nat) / 16 == 4
    &&& ip_hdr_len(b) >= 20
    &&& 14 + ip_total_len(b) <= b.len()
    &&& ip_total_len(b) >= ip_hdr_len(b) + 20
    &&& b[23] == 6
    &&& tcp_hdr_len(b) >= 20
    &&& ip_total_len(b) >= ip_hdr_len(b) + tcp_hdr_len(b)
}

/// One parsed TCP segment.
pub struct TcpSegment {
    pub src_ip: u32,
    pub src_port: u16,
    pub dst_ip: u32,
    pub dst_port: u16,
    pub seq: u32,
    pub fin: bool,
    pub rst: bool,
    pub payload: Vec<u8>,
}

/// Parse one captured link-layer frame; yields the TCP segment it
/// carries exactly when it is a well-formed Ethernet/IPv4/TCP frame.
pub fn parse_tcp_ipv4(frame: &[u8]) -> (r: Option<TcpSegment>)
    ensures
        (r is Some <==> tcp_frame_ok(frame@)),
        (r matches Some(s) ==> s.src_ip == be32(frame@, 26) && s.dst_ip == be32(frame@, 30)
            && s.src_port == be16(frame@, tcp_off(frame@)) && s.dst_port == be16(
            frame@,
            tcp_off(frame@) + 2,
        ) && s.seq == be32(frame@, tcp_off(frame@) + 4) && s.fin == ((frame@[tcp_off(frame@) + 13]
            as nat) % 2 == 1) && s.rst == (((frame@[tcp_off(frame@) + 13] as nat) / 4) % 2 == 1)
            && s.payload@ == frame@.subrange(payload_off(frame@), payload_end(frame@))),
{
    if frame.len() < 34 {
        return None;
    }
    let ethertype: u32 = (frame[12] as u32) * 256 + (frame[13] as u32);
    if ethertype != 0x0800 {
        return None;
    }
    if frame[14] / 16 != 4 {
        return None;
    }
    let ihl: usize = ((frame[14] % 16) as usize) * 4;
    if ihl < 20 {
        return None;
    }
    let total: usize = (frame[16] as usize) * 256 + (frame[17] as usize);
    if 14 + total > frame.len() {
        return None;
    }
    if total < ihl + 20 {
        return None;
    }
    if frame[23] != 6 {
        return None;
    }
    let t0: usize = 14 + ihl;
    let thl: usize = ((frame[t0 + 12] / 16) as usize) * 4;
    if thl < 20 {
        return None;
    }
    if total < ihl + thl {
        return None;
    }
    let flags = frame[t0 + 13];
    let seq: u32 = (frame[t0 + 4] as u32) * 16777216 + (frame[t0 + 5] as u32) * 65536 + (frame[t0
        + 6] as u32) * 256 + (frame[t0 + 7] as u32);
    let src_ip: u32 = (frame[26] as u32) * 16777216 + (frame[27] as u32) * 65536 + (frame[28]
        as u32) * 256 + (frame[29] as u32);
    let dst_ip: u32 = (frame[30] as u32) * 16777216 + (frame[31] as u32) * 65536 + (frame[32]
        as u32) * 256 + (frame[33] as u32);
    let src_port: u16 = (frame[t0] as u16) * 256 + (frame[t0 + 1] as u16);
    let dst_port: u16 = (frame[t0 + 2] as u16) * 256 + (frame[t0 + 3] as u16);
    let payload = copy_range(frame, t0 + thl, 14 + total);
    Some(
        TcpSegment {
            src_ip,
            src_port,
            dst_ip,
            dst_port,
            seq,
            fin: flags % 2 == 1,
            rst: (flags / 4) % 2 == 1,
            payload,
        },
    )
}

} // verus!
