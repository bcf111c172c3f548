use motor_link::packet::{
    decode_packet, decode_payload, encode_packet, encode_payload, has_magic_at, MotorPacket,
    ENCODER_PACKET_MAGIC, MOTOR_PACKET_MAGIC, PACKET_LEN, PAYLOAD_LEN,
};
use motor_link::rolling::FrameBuffer;
use motor_link::scan::LeadingScanner;
use motor_link::sync::{budget_expired, SyncResult, DEFAULT_BUDGET_MS};
use motor_link::telemetry::{
    encoder_packet_bytes, reading_or_sentinel, telemetry_packet, ChannelReadings,
    NEG_INFINITY_BITS, ZERO_BITS,
};

fn packet(a: f64, b: f64, c: f64, d: f64) -> MotorPacket {
    MotorPacket {
        front_left: a.to_bits(),
        front_right: b.to_bits(),
        back_left: c.to_bits(),
        back_right: d.to_bits(),
    }
}

fn example_wire() -> Vec<u8> {
    let mut v = vec![0xFA, 0xFE];
    for x in [0.5f64, -0.5, 0.25, -0.25] {
        v.extend_from_slice(&x.to_le_bytes());
    }
    v
}

fn wire(magic: u16, p: &MotorPacket) -> Vec<u8> {
    encode_packet(magic, p)
}

#[test]
fn example_packet_decodes_to_channels() {
    let bytes = example_wire();
    assert_eq!(bytes.len(), 34);
    let p = decode_packet(&bytes, MOTOR_PACKET_MAGIC).unwrap();
    assert_eq!(f64::from_bits(p.front_left), 0.5);
    assert_eq!(f64::from_bits(p.front_right), -0.5);
    assert_eq!(f64::from_bits(p.back_left), 0.25);
    assert_eq!(f64::from_bits(p.back_right), -0.25);
}

#[test]
fn example_packet_reencodes_identically() {
    let bytes = example_wire();
    let p = decode_packet(&bytes, MOTOR_PACKET_MAGIC).unwrap();
    assert_eq!(encode_packet(MOTOR_PACKET_MAGIC, &p), bytes);
}

#[test]
fn magic_is_little_endian() {
    let p = MotorPacket::zeroed();
    let w = encode_packet(MOTOR_PACKET_MAGIC, &p);
    assert_eq!(&w[..2], &[0xFA, 0xFE]);
    let e = encode_packet(ENCODER_PACKET_MAGIC, &p);
    assert_eq!(&e[..2], &[0x3B, 0xF2]);
    assert_eq!(PACKET_LEN, 34);
    assert_eq!(PAYLOAD_LEN, 32);
}

#[test]
fn payload_fields_in_wire_order() {
    let p = MotorPacket { front_left: 1, front_right: 2, back_left: 3, back_right: 0x0102030405060708 };
    let b = encode_payload(&p);
    assert_eq!(b.len(), 32);
    assert_eq!(&b[0..8], &[1, 0, 0, 0, 0, 0, 0, 0]);
    assert_eq!(&b[8..16], &[2, 0, 0, 0, 0, 0, 0, 0]);
    assert_eq!(&b[16..24], &[3, 0, 0, 0, 0, 0, 0, 0]);
    assert_eq!(&b[24..32], &[8, 7, 6, 5, 4, 3, 2, 1]);
    assert_eq!(decode_payload(&b), Some(p));
}

#[test]
fn payload_of_wrong_length_is_refused() {
    assert_eq!(decode_payload(&[0u8; 31]), None);
    assert_eq!(decode_payload(&[0u8; 33]), None);
    assert_eq!(decode_payload(&[]), None);
}

#[test]
fn packet_with_wrong_magic_or_length_is_refused() {
    let bytes = example_wire();
    assert_eq!(decode_packet(&bytes, ENCODER_PACKET_MAGIC), None);
    assert_eq!(decode_packet(&bytes[..33], MOTOR_PACKET_MAGIC), None);
    let mut longer = bytes.clone();
    longer.push(0);
    assert_eq!(decode_packet(&longer, MOTOR_PACKET_MAGIC), None);
}

#[test]
fn magic_found_only_where_it_stands() {
    let bytes = [0x00, 0xFA, 0xFE, 0xFA];
    assert!(!has_magic_at(&bytes, 0, MOTOR_PACKET_MAGIC));
    assert!(has_magic_at(&bytes, 1, MOTOR_PACKET_MAGIC));
    assert!(!has_magic_at(&bytes, 3, MOTOR_PACKET_MAGIC));
    assert!(!has_magic_at(&bytes, 9, MOTOR_PACKET_MAGIC));
}

#[test]
fn zeroed_packet_is_all_zero() {
    let p = MotorPacket::zeroed();
    assert_eq!(f64::from_bits(p.front_left), 0.0);
    assert_eq!(p, MotorPacket { front_left: 0, front_right: 0, back_left: 0, back_right: 0 });
}

#[test]
fn rolling_takes_packets_after_noise() {
    let first = packet(0.5, -0.5, 0.25, -0.25);
    let second = packet(1.0, -1.0, 0.0, 0.75);
    let mut fb = FrameBuffer::new();
    let mut chunk = vec![0x11, 0xFA, 0x22, 0xFE, 0xFA];
    chunk.extend(wire(MOTOR_PACKET_MAGIC, &first));
    fb.push_bytes(&chunk);
    assert_eq!(fb.extract(MOTOR_PACKET_MAGIC), Some(first));
    assert_eq!(fb.len(), 0);
    let mut chunk2 = vec![0xFA, 0xFE, 0x01];
    chunk2.extend(wire(MOTOR_PACKET_MAGIC, &second));
    fb.push_bytes(&chunk2);
    assert_eq!(fb.extract(MOTOR_PACKET_MAGIC), Some(second));
    assert_eq!(fb.extract(MOTOR_PACKET_MAGIC), None);
}

#[test]
fn rolling_prefers_most_recent_packet() {
    let first = packet(0.1, 0.2, 0.3, 0.4);
    let second = packet(0.5, 0.6, 0.7, 0.8);
    let mut stream = wire(MOTOR_PACKET_MAGIC, &first);
    stream.extend([9, 9, 9]);
    stream.extend(wire(MOTOR_PACKET_MAGIC, &second));
    stream.extend([7, 7]);
    let mut fb = FrameBuffer::new();
    fb.push_bytes(&stream);
    assert_eq!(fb.extract(MOTOR_PACKET_MAGIC), Some(second));
    assert_eq!(fb.contents(), vec![7, 7]);
}

#[test]
fn rolling_never_reuses_taken_bytes() {
    let first = packet(0.5, -0.5, 0.25, -0.25);
    let mut fb = FrameBuffer::new();
    fb.push_bytes(&[1, 2, 3]);
    fb.push_bytes(&wire(MOTOR_PACKET_MAGIC, &first));
    fb.push_bytes(&[0xFA]);
    assert_eq!(fb.extract(MOTOR_PACKET_MAGIC), Some(first));
    assert_eq!(fb.contents(), vec![0xFA]);
    assert_eq!(fb.extract(MOTOR_PACKET_MAGIC), None);
    fb.push_bytes(&[0u8; 40]);
    assert_eq!(fb.extract(MOTOR_PACKET_MAGIC), None);
}

#[test]
fn rolling_keeps_partial_packet() {
    let first = packet(0.5, -0.5, 0.25, -0.25);
    let w = wire(MOTOR_PACKET_MAGIC, &first);
    let mut fb = FrameBuffer::new();
    assert_eq!(fb.poll(&w[..20], MOTOR_PACKET_MAGIC, 0, 10, DEFAULT_BUDGET_MS), SyncResult::Pending);
    assert_eq!(fb.len(), 20);
    assert_eq!(fb.poll(&w[20..], MOTOR_PACKET_MAGIC, 0, 20, DEFAULT_BUDGET_MS), SyncResult::Packet(first));
    assert_eq!(fb.len(), 0);
}

#[test]
fn rolling_timeout_clears_buffer() {
    let mut fb = FrameBuffer::new();
    assert_eq!(fb.poll(&[0xFA, 0xFE, 1, 2], MOTOR_PACKET_MAGIC, 100, 1099, 1000), SyncResult::Pending);
    assert_eq!(fb.len(), 4);
    assert_eq!(fb.poll(&[3], MOTOR_PACKET_MAGIC, 100, 1100, 1000), SyncResult::TimedOut);
    assert_eq!(fb.len(), 0);
    fb.push_bytes(&[5]);
    fb.clear();
    assert_eq!(fb.contents(), Vec::<u8>::new());
}

#[test]
fn budget_boundary() {
    assert!(!budget_expired(100, 1099, 1000));
    assert!(budget_expired(100, 1100, 1000));
    assert!(budget_expired(100, 5000, 1000));
    assert!(!budget_expired(500, 100, 10));
    assert!(budget_expired(7, 7, 0));
}

fn feed_all(sc: &mut LeadingScanner, bytes: &[u8]) -> Vec<MotorPacket> {
    let mut out = Vec::new();
    for b in bytes {
        if let Some(p) = sc.feed(*b) {
            out.push(p);
        }
    }
    out
}

#[test]
fn leading_scan_resyncs_through_noise() {
    let first = packet(0.5, -0.5, 0.25, -0.25);
    let second = packet(3.0, -2.0, 1.5, 0.0);
    let mut stream = vec![0x00, 0xFA, 0x13, 0xFE, 0xFA, 0xFA];
    stream.extend(wire(MOTOR_PACKET_MAGIC, &first));
    stream.extend([0xFE, 0xFA, 0x42, 0xFA]);
    stream.extend(wire(MOTOR_PACKET_MAGIC, &second));
    let mut sc = LeadingScanner::new(MOTOR_PACKET_MAGIC);
    assert_eq!(feed_all(&mut sc, &stream), vec![first, second]);
    assert!(!sc.in_payload());
}

#[test]
fn leading_scan_tracks_payload() {
    let mut sc = LeadingScanner::new(MOTOR_PACKET_MAGIC);
    assert_eq!(sc.feed(0xFA), None);
    assert!(!sc.in_payload());
    assert_eq!(sc.feed(0xFE), None);
    assert!(sc.in_payload());
    assert!(sc.abandon());
    assert!(!sc.in_payload());
    assert!(!sc.abandon());
}

#[test]
fn leading_poll_times_out_at_budget() {
    let mut sc = LeadingScanner::new(MOTOR_PACKET_MAGIC);
    assert_eq!(sc.poll(Some(0xFA), 0, 999, 1000), SyncResult::Pending);
    assert_eq!(sc.poll(Some(0xFE), 0, 999, 1000), SyncResult::Pending);
    assert!(sc.in_payload());
    assert_eq!(sc.poll(None, 0, 1000, 1000), SyncResult::TimedOut);
    assert!(!sc.in_payload());
}

#[test]
fn leading_poll_returns_packet() {
    let p = packet(0.5, -0.5, 0.25, -0.25);
    let w = wire(MOTOR_PACKET_MAGIC, &p);
    let mut sc = LeadingScanner::new(MOTOR_PACKET_MAGIC);
    for b in &w[..33] {
        assert_eq!(sc.poll(Some(*b), 0, 1, 1000), SyncResult::Pending);
    }
    assert_eq!(sc.poll(Some(w[33]), 0, 1, 1000), SyncResult::Packet(p));
}

#[test]
fn one_failed_read_gets_sentinel() {
    let r = ChannelReadings {
        front_left: Some(1.25f64.to_bits()),
        front_right: None,
        back_left: Some((-0.5f64).to_bits()),
        back_right: Some(2.0f64.to_bits()),
    };
    let p = telemetry_packet(&r, NEG_INFINITY_BITS);
    assert_eq!(f64::from_bits(p.front_left), 1.25);
    assert_eq!(f64::from_bits(p.front_right), f64::NEG_INFINITY);
    assert_eq!(f64::from_bits(p.back_left), -0.5);
    assert_eq!(f64::from_bits(p.back_right), 2.0);
    let z = telemetry_packet(&r, ZERO_BITS);
    assert_eq!(f64::from_bits(z.front_right), 0.0);
    assert_eq!(z.front_left, p.front_left);
}

#[test]
fn encoder_packet_wire_form() {
    let r = ChannelReadings {
        front_left: Some(0.5f64.to_bits()),
        front_right: Some((-0.5f64).to_bits()),
        back_left: None,
        back_right: Some((-0.25f64).to_bits()),
    };
    let w = encoder_packet_bytes(&r);
    assert_eq!(w.len(), 34);
    assert_eq!(&w[..2], &[0x3B, 0xF2]);
    assert_eq!(&w[2..10], &0.5f64.to_le_bytes());
    assert_eq!(&w[18..26], &f64::NEG_INFINITY.to_le_bytes());
    let back = decode_packet(&w, ENCODER_PACKET_MAGIC).unwrap();
    assert_eq!(f64::from_bits(back.back_right), -0.25);
    assert_eq!(reading_or_sentinel(None, 9), 9);
    assert_eq!(reading_or_sentinel(Some(4), 9), 4);
}

#[test]
fn closed_stream_inside_packet_is_incomplete() {
    let mut sc = LeadingScanner::new(MOTOR_PACKET_MAGIC);
    for b in [0x01, 0xFA, 0xFE, 0x10, 0x20] {
        assert_eq!(sc.feed(b), None);
    }
    assert_eq!(sc.end_of_stream(), SyncResult::Incomplete);
    assert!(!sc.in_payload());
    sc.feed(0xFA);
    assert_eq!(sc.end_of_stream(), SyncResult::TimedOut);
}
