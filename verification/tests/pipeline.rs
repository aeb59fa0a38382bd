use spyglass::conns::Engine;
use spyglass::packet::parse_tcp_ipv4;
use spyglass::extract::classify;
use spyglass::extract::Extractor;
use spyglass::extract::QueryRecord;
use spyglass::frame::FrameDecoder;
use spyglass::record::encode_entry;
use spyglass::record::Recorder;
use spyglass::stream::StreamState;

fn frame(payload: &[u8], seqno: u8) -> Vec<u8> {
    let l = payload.len();
    let mut f = vec![(l & 0xff) as u8, ((l >> 8) & 0xff) as u8, ((l >> 16) & 0xff) as u8, seqno];
    f.extend_from_slice(payload);
    f
}

#[test]
fn decoder_single_query_frame() {
    let mut d = FrameDecoder::new();
    let mut payload = vec![3u8];
    payload.extend_from_slice(b"SELECT 1");
    let out = d.feed(&frame(&payload, 0));
    assert_eq!(out.len(), 1);
    assert_eq!(out[0], payload);
}

#[test]
fn decoder_empty_payload_is_emitted() {
    let mut d = FrameDecoder::new();
    let out = d.feed(&frame(b"", 0));
    assert_eq!(out.len(), 1);
    assert_eq!(out[0], Vec::<u8>::new());
}

#[test]
fn decoder_chunking_is_immaterial() {
    let mut payload = vec![3u8];
    payload.extend_from_slice(b"SELECT id FROM t WHERE x = 1");
    let mut bytes = frame(&payload, 0);
    bytes.extend_from_slice(&frame(&[14u8], 1));
    bytes.extend_from_slice(&frame(&payload, 2));

    let mut whole = FrameDecoder::new();
    let expect = whole.feed(&bytes);
    assert_eq!(expect.len(), 3);

    let mut trickle = FrameDecoder::new();
    let mut got: Vec<Vec<u8>> = Vec::new();
    for b in bytes.iter() {
        got.extend(trickle.feed(&[*b]));
    }
    assert_eq!(got, expect);
}

#[test]
fn decoder_one_below_max_is_single_frame() {
    let max = 0xFFFFFF;
    let payload = vec![7u8; max - 1];
    let mut d = FrameDecoder::new();
    let out = d.feed(&frame(&payload, 0));
    assert_eq!(out.len(), 1);
    assert_eq!(out[0].len(), max - 1);
}

#[test]
fn decoder_max_frame_continues_into_next() {
    let max = 0xFFFFFF;
    let first = vec![8u8; max];
    let mut d = FrameDecoder::new();
    let out = d.feed(&frame(&first, 0));
    // A maximal frame alone completes no command.
    assert_eq!(out.len(), 0);
    let out2 = d.feed(&frame(b"z", 1));
    assert_eq!(out2.len(), 1);
    assert_eq!(out2[0].len(), max + 1);
    assert_eq!(out2[0][max], b'z');
}

#[test]
fn decoder_exact_max_needs_empty_continuation() {
    let max = 0xFFFFFF;
    // A logical command of exactly the maximal payload size travels as a
    // maximal frame followed by an empty frame.
    let body = vec![9u8; max];
    let mut bytes = frame(&body, 0);
    bytes.extend_from_slice(&frame(b"", 1));
    let mut d = FrameDecoder::new();
    let out = d.feed(&bytes);
    assert_eq!(out.len(), 1);
    assert_eq!(out[0].len(), max);
}

#[test]
fn reassembly_out_of_order_with_duplicates() {
    let stream: &[u8] = b"INSERT INTO t VALUES (1);SELECT 2;";
    let mut st = StreamState::new(1000);
    let mut got: Vec<u8> = Vec::new();
    // Deliver as chunks [10..20), [20..34), duplicate [10..20), [0..10).
    got.extend(st.on_segment(1010, &stream[10..20]));
    got.extend(st.on_segment(1020, &stream[20..34]));
    got.extend(st.on_segment(1010, &stream[10..20]));
    got.extend(st.on_segment(1000, &stream[0..10]));
    assert_eq!(got, stream);
}

#[test]
fn reassembly_drops_retransmissions_and_trims_overlap() {
    let stream: &[u8] = b"abcdefghij";
    let mut st = StreamState::new(0);
    let mut got: Vec<u8> = Vec::new();
    got.extend(st.on_segment(0, &stream[0..6]));
    // Pure retransmission: nothing new.
    got.extend(st.on_segment(2, &stream[2..5]));
    // Partial overlap: only the novel suffix is delivered.
    got.extend(st.on_segment(4, &stream[4..10]));
    assert_eq!(got, stream);
}

#[test]
fn extractor_classifies_by_tag() {
    // The query tag yields the SQL verbatim.
    let mut payload = vec![3u8];
    payload.extend_from_slice(b"SELECT 1");
    let sql = classify(&payload);
    assert_eq!(sql, Some(b"SELECT 1".to_vec()));
    // Any other recognized tag yields nothing: quit, ping, statement
    // execute.
    assert_eq!(classify(&vec![1u8]), None);
    assert_eq!(classify(&vec![14u8]), None);
    let mut stmt = vec![23u8];
    stmt.extend_from_slice(b"\x01\x00\x00\x00");
    assert_eq!(classify(&stmt), None);
    // An empty logical command has no tag at all.
    assert_eq!(classify(&Vec::new()), None);
}

#[test]
fn extractor_numbers_records() {
    let mut ex = Extractor::new();
    let mut payload = vec![3u8];
    payload.extend_from_slice(b"SELECT 1");
    let r0 = ex.extract(7, 1111, &payload).unwrap();
    let skip = ex.extract(7, 1111, &vec![14u8]);
    let r1 = ex.extract(7, 2222, &payload).unwrap();
    assert!(skip.is_none());
    assert_eq!(r0.seq_index, 0);
    assert_eq!(r1.seq_index, 1);
    assert_eq!(r0.conn_id, 7);
    assert_eq!(r0.timestamp, 1111);
    assert_eq!(r0.sql, b"SELECT 1".to_vec());
}

#[test]
fn entry_encoding_is_length_prefixed() {
    let rec = QueryRecord { conn_id: 1, seq_index: 2, timestamp: 3, sql: b"ab".to_vec() };
    let e = encode_entry(&rec);
    assert_eq!(e.len(), 34);
    assert_eq!(&e[0..8], &[1, 0, 0, 0, 0, 0, 0, 0]);
    assert_eq!(&e[8..16], &[2, 0, 0, 0, 0, 0, 0, 0]);
    assert_eq!(&e[16..24], &[3, 0, 0, 0, 0, 0, 0, 0]);
    assert_eq!(&e[24..32], &[2, 0, 0, 0, 0, 0, 0, 0]);
    assert_eq!(&e[32..34], b"ab");
}

fn query_record(sql: &[u8]) -> QueryRecord {
    QueryRecord { conn_id: 0, seq_index: 0, timestamp: 0, sql: sql.to_vec() }
}

#[test]
fn recorder_cap_halts_growth_silently() {
    // Each entry is 32 + 4 bytes; the cap admits two entries and is
    // reached during the third offer.
    let mut rec = Recorder::with_cap(70);
    rec.enable_capture();
    assert!(rec.record(&query_record(b"one ")).is_some());
    assert!(rec.record(&query_record(b"two ")).is_some());
    // 72 >= 70: the cap is reached; further records are dropped without
    // an error, while the counters keep their values.
    assert!(rec.capacity_reached());
    assert!(rec.record(&query_record(b"tre ")).is_none());
    assert!(rec.record(&query_record(b"four")).is_none());
    assert_eq!(rec.current_query_count(), 2);
    assert_eq!(rec.current_byte_count(), 72);
}

#[test]
fn recorder_disable_enable_resumes() {
    let mut rec = Recorder::with_cap(1000);
    rec.enable_capture();
    assert!(rec.record(&query_record(b"first")).is_some());
    let bytes = rec.current_byte_count();
    let count = rec.current_query_count();
    rec.disable_capture();
    // Disabled: records are dropped, nothing is lost.
    assert!(rec.record(&query_record(b"gone")).is_none());
    assert_eq!(rec.current_byte_count(), bytes);
    assert_eq!(rec.current_query_count(), count);
    rec.enable_capture();
    // Re-enabled: appending resumes on the same artifact and counters.
    assert!(rec.record(&query_record(b"second")).is_some());
    assert_eq!(rec.current_query_count(), count + 1);
    assert_eq!(rec.current_byte_count(), bytes + 38);
}

#[test]
fn recorder_reset_clears_session() {
    let mut rec = Recorder::with_cap(1000);
    rec.enable_capture();
    assert!(rec.record(&query_record(b"x")).is_some());
    rec.reset_session();
    assert_eq!(rec.current_query_count(), 0);
    assert_eq!(rec.current_byte_count(), 0);
    assert!(!rec.is_enabled());
}

#[test]
fn recorder_disabled_from_start_drops() {
    let mut rec = Recorder::new();
    assert!(rec.record(&query_record(b"x")).is_none());
    assert_eq!(rec.current_query_count(), 0);
}

fn query_frame(sql: &[u8], seqno: u8) -> Vec<u8> {
    let mut payload = vec![3u8];
    payload.extend_from_slice(sql);
    frame(&payload, seqno)
}

#[test]
fn engine_extracts_queries_from_client_segments() {
    let mut eng = Engine::new(3306, 600);
    let bytes = query_frame(b"SELECT 1", 0);
    let recs = eng.on_data(10, 40000, 20, 3306, 5000, &bytes, 100);
    assert_eq!(recs.len(), 1);
    assert_eq!(recs[0].sql, b"SELECT 1".to_vec());
    assert_eq!(recs[0].seq_index, 0);
    assert_eq!(recs[0].timestamp, 100);
    // Server replies are not decoded for query content.
    let reply = query_frame(b"SELECT 2", 0);
    let recs2 = eng.on_data(20, 3306, 10, 40000, 9000, &reply, 101);
    assert_eq!(recs2.len(), 0);
    assert_eq!(eng.tracked_connections(), 1);
}

#[test]
fn engine_handles_out_of_order_across_frame_boundary() {
    let mut eng = Engine::new(3306, 600);
    let first = query_frame(b"SELECT 1", 0);
    let r0 = eng.on_data(10, 40000, 20, 3306, 0, &first, 100);
    assert_eq!(r0.len(), 1);
    let base = first.len() as u32;
    let bytes = query_frame(b"SELECT abc FROM t", 0);
    let (head, tail) = bytes.split_at(7);
    // The tail arrives first and waits; the head completes the frame.
    let r1 = eng.on_data(10, 40000, 20, 3306, base + 7, tail, 101);
    assert_eq!(r1.len(), 0);
    let r2 = eng.on_data(10, 40000, 20, 3306, base, head, 102);
    assert_eq!(r2.len(), 1);
    assert_eq!(r2[0].sql, b"SELECT abc FROM t".to_vec());
    assert_eq!(r2[0].seq_index, 1);
}

#[test]
fn engine_teardown_releases_state() {
    let mut eng = Engine::new(3306, 600);
    let bytes = query_frame(b"SELECT 1", 0);
    let _ = eng.on_data(10, 40000, 20, 3306, 0, &bytes, 100);
    assert_eq!(eng.tracked_connections(), 1);
    // A reset observed on the reverse direction tears the same flow down.
    eng.on_teardown(20, 3306, 10, 40000);
    assert_eq!(eng.tracked_connections(), 0);
}

fn tcp_frame(payload: &[u8], flags: u8) -> Vec<u8> {
    let mut f = vec![0u8; 14];
    f[12] = 0x08;
    f[13] = 0x00;
    let total = 40 + payload.len();
    let ip = [
        0x45u8,
        0,
        (total >> 8) as u8,
        (total & 0xff) as u8,
        0,
        0,
        0,
        0,
        64,
        6,
        0,
        0,
        10,
        0,
        0,
        1,
        10,
        0,
        0,
        2,
    ];
    f.extend_from_slice(&ip);
    let mut tcp = vec![
        0x9cu8, 0x40, // source port 40000
        0x0c, 0xea, // destination port 3306
        0, 0, 0x30, 0x39, // sequence number 12345
        0, 0, 0, 0, // acknowledgment
        0x50, flags, 0xff, 0xff, 0, 0, 0, 0,
    ];
    tcp.extend_from_slice(payload);
    f.extend_from_slice(&tcp);
    f
}

#[test]
fn packet_parsing_extracts_the_segment() {
    let mut frame = tcp_frame(b"hello", 0x18);
    // Link-layer padding must not leak into the payload.
    frame.extend_from_slice(&[0u8; 7]);
    let seg = parse_tcp_ipv4(&frame).unwrap();
    assert_eq!(seg.src_ip, 0x0a000001);
    assert_eq!(seg.dst_ip, 0x0a000002);
    assert_eq!(seg.src_port, 40000);
    assert_eq!(seg.dst_port, 3306);
    assert_eq!(seg.seq, 12345);
    assert!(!seg.fin);
    assert!(!seg.rst);
    assert_eq!(seg.payload, b"hello".to_vec());
    let fin = parse_tcp_ipv4(&tcp_frame(b"", 0x11)).unwrap();
    assert!(fin.fin);
    assert!(!fin.rst);
    let rst = parse_tcp_ipv4(&tcp_frame(b"", 0x04)).unwrap();
    assert!(rst.rst);
}

#[test]
fn packet_parsing_rejects_non_tcp() {
    // ARP ethertype.
    let mut arp = tcp_frame(b"", 0);
    arp[12] = 0x08;
    arp[13] = 0x06;
    assert!(parse_tcp_ipv4(&arp).is_none());
    // UDP protocol number.
    let mut udp = tcp_frame(b"", 0);
    udp[23] = 17;
    assert!(parse_tcp_ipv4(&udp).is_none());
    // Truncated frame.
    assert!(parse_tcp_ipv4(&[0u8; 20]).is_none());
}

#[test]
fn engine_idle_sweep_releases_state() {
    let mut eng = Engine::new(3306, 60);
    let bytes = query_frame(b"SELECT 1", 0);
    let _ = eng.on_data(10, 40000, 20, 3306, 0, &bytes, 100);
    let _ = eng.on_data(11, 40001, 20, 3306, 0, &bytes, 150);
    assert_eq!(eng.tracked_connections(), 2);
    // At time 165 only the first connection has been idle for the
    // timeout; memory for it is released.
    eng.sweep_idle(165);
    assert_eq!(eng.tracked_connections(), 1);
    // Much later both are gone.
    eng.sweep_idle(100000);
    assert_eq!(eng.tracked_connections(), 0);
}
