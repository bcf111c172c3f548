//! Wire layout of a packet: a little-endian `u16` magic followed by four
//! channel values, each the IEEE-754 binary64 bit pattern of the value,
//! little-endian, with no padding.
use vstd::bytes::{
    lemma_auto_spec_u16_to_from_le_bytes, lemma_auto_spec_u64_to_from_le_bytes,
    spec_u16_to_le_bytes, spec_u64_from_le_bytes, spec_u64_to_le_bytes, u16_to_le_bytes,
    u64_from_le_bytes, u64_to_le_bytes,
};
use vstd::prelude::*;
use vstd::slice::slice_subrange;

verus! {

/// Magic of a motor command packet.
pub const MOTOR_PACKET_MAGIC: u16 = 0xFEFA;

/// Magic of an encoder telemetry packet.
pub const ENCODER_PACKET_MAGIC: u16 = 0xF23B;

/// Bytes taken by the magic on the wire.
pub const MAGIC_LEN: usize = 2;

/// Bytes taken by the four channel values.
pub const PAYLOAD_LEN: usize = 32;

/// Bytes taken by a whole packet: magic and payload.
pub const PACKET_LEN: usize = 34;

/// The four channels of a packet, in wire order. Each field holds the
/// binary64 bit pattern of the channel's value (`f64::to_bits`).
#[derive(Clone, Copy, Debug, PartialEq, Eq, Structural)]
pub struct MotorPacket {
    pub front_left: u64,
    pub front_right: u64,
    pub back_left: u64,
    pub back_right: u64,
}

impl MotorPacket {
    /// A packet with every channel at positive zero.
    pub fn zeroed() -> (r: MotorPacket)
        ensures
            r.front_left == 0 && r.front_right == 0 && r.back_left == 0 && r.back_right == 0,
    {
        MotorPacket { front_left: 0, front_right: 0, back_left: 0, back_right: 0 }
    }
}

/// The two bytes of `magic` as they stand on the wire.
pub open spec fn magic_bytes(magic: u16) -> Seq<u8> {
    spec_u16_to_le_bytes(magic)
}

/// The 32 payload bytes of `p`.
pub open spec fn payload_bytes(p: MotorPacket) -> Seq<u8> {
    spec_u64_to_le_bytes(p.front_left) + spec_u64_to_le_bytes(p.front_right)
        + spec_u64_to_le_bytes(p.back_left) + spec_u64_to_le_bytes(p.back_right)
}

/// The whole wire form of `p` under `magic`.
pub open spec fn packet_bytes(magic: u16, p: MotorPacket) -> Seq<u8> {
    magic_bytes(magic) + payload_bytes(p)
}

/// The channel values that the first 32 bytes of `s` hold.
pub open spec fn packet_from_payload(s: Seq<u8>) -> MotorPacket {
    MotorPacket {
        front_left: spec_u64_from_le_bytes(s.subrange(0, 8)),
        front_right: spec_u64_from_le_bytes(s.subrange(8, 16)),
        back_left: spec_u64_from_le_bytes(s.subrange(16, 24)),
        back_right: spec_u64_from_le_bytes(s.subrange(24, 32)),
    }
}

/// Whether `magic` stands in `s` at offset `k`.
pub open spec fn magic_at(s: Seq<u8>, k: int, magic: u16) -> bool {
    0 <= k && k + 2 <= s.len() && s.subrange(k, k + 2) == magic_bytes(magic)
}

/// The packet whose magic stands at offset `k` of `s`.
pub open spec fn packet_at(s: Seq<u8>, k: int) -> MotorPacket {
    packet_from_payload(s.subrange(k + 2, k + 34))
}

/// A magic takes two bytes on the wire.
pub proof fn lemma_magic_bytes_len(magic: u16)
    ensures
        magic_bytes(magic).len() == 2,
{
    lemma_auto_spec_u16_to_from_le_bytes();
}

/// Encoding the channels and decoding the bytes gives the channels back.
pub proof fn lemma_decode_encode(p: MotorPacket)
    ensures
        payload_bytes(p).len() == 32,
        packet_from_payload(payload_bytes(p)) == p,
{
    lemma_auto_spec_u64_to_from_le_bytes();
    let s = payload_bytes(p);
    assert(s.subrange(0, 8) =~= spec_u64_to_le_bytes(p.front_left));
    assert(s.subrange(8, 16) =~= spec_u64_to_le_bytes(p.front_right));
    assert(s.subrange(16, 24) =~= spec_u64_to_le_bytes(p.back_left));
    assert(s.subrange(24, 32) =~= spec_u64_to_le_bytes(p.back_right));
}

/// Decoding 32 payload bytes and encoding the channels gives the same bytes.
pub proof fn lemma_encode_decode(s: Seq<u8>)
    requires
        s.len() == 32,
    ensures
        payload_bytes(packet_from_payload(s)) == s,
{
    lemma_auto_spec_u64_to_from_le_bytes();
    let a = s.subrange(0, 8);
    let b = s.subrange(8, 16);
    let c = s.subrange(16, 24);
    let d = s.subrange(24, 32);
    assert(spec_u64_to_le_bytes(spec_u64_from_le_bytes(a)) == a);
    assert(spec_u64_to_le_bytes(spec_u64_from_le_bytes(b)) == b);
    assert(spec_u64_to_le_bytes(spec_u64_from_le_bytes(c)) == c);
    assert(spec_u64_to_le_bytes(spec_u64_from_le_bytes(d)) == d);
    assert(a + b + c + d =~= s);
}

/// A whole packet read back from its own wire form, at any offset of a
/// stream, is the packet that was written, and the wire form of what was
/// read is the bytes that stood there.
pub proof fn lemma_packet_round_trip(magic: u16, p: MotorPacket, pre: Seq<u8>, post: Seq<u8>)
    ensures
        packet_bytes(magic, p).len() == 34,
        magic_at(pre + packet_bytes(magic, p) + post, pre.len() as int, magic),
        packet_at(pre + packet_bytes(magic, p) + post, pre.len() as int) == p,
{
    lemma_magic_bytes_len(magic);
    lemma_decode_encode(p);
    let s = pre + packet_bytes(magic, p) + post;
    let k = pre.len() as int;
    assert(s.subrange(k, k + 2) =~= magic_bytes(magic));
    assert(s.subrange(k + 2, k + 34) =~= payload_bytes(p));
}

fn read_u64_at(bytes: &[u8], off: usize) -> (r: u64)
    requires
        bytes@.len() == 32,
        off <= 24,
    ensures
        r == spec_u64_from_le_bytes(bytes@.subrange(off as int, off + 8)),
{
    let field = slice_subrange(bytes, off, off + 8);
    u64_from_le_bytes(field)
}

/// Reads the four channels out of 32 payload bytes; any other length is
/// refused.
pub fn decode_payload(bytes: &[u8]) -> (r: Option<MotorPacket>)
    ensures
        r == (if bytes@.len() == 32 {
            Some(packet_from_payload(bytes@))
        } else {
            None::<MotorPacket>
        }),
{
    if bytes.len() != PAYLOAD_LEN {
        return None;
    }
    let p = MotorPacket {
        front_left: read_u64_at(bytes, 0),
        front_right: read_u64_at(bytes, 8),
        back_left: read_u64_at(bytes, 16),
        back_right: read_u64_at(bytes, 24),
    };
    Some(p)
}

/// The 32 payload bytes of `p`.
pub fn encode_payload(p: &MotorPacket) -> (r: Vec<u8>)
    ensures
        r@ == payload_bytes(*p),
        r@.len() == 32,
{
    let mut out = u64_to_le_bytes(p.front_left);
    let mut b = u64_to_le_bytes(p.front_right);
    out.append(&mut b);
    let mut c = u64_to_le_bytes(p.back_left);
    out.append(&mut c);
    let mut d = u64_to_le_bytes(p.back_right);
    out.append(&mut d);
    out
}

/// The 34 wire bytes of `p` under `magic`.
pub fn encode_packet(magic: u16, p: &MotorPacket) -> (r: Vec<u8>)
    ensures
        r@ == packet_bytes(magic, *p),
        r@.len() == 34,
{
    proof {
        lemma_magic_bytes_len(magic);
    }
    let mut out = u16_to_le_bytes(magic);
    let mut payload = encode_payload(p);
    out.append(&mut payload);
    out
}

/// Whether `magic` stands in `bytes` at offset `k`.
pub fn has_magic_at(bytes: &[u8], k: usize, magic: u16) -> (r: bool)
    ensures
        r == magic_at(bytes@, k as int, magic),
{
    proof {
        lemma_magic_bytes_len(magic);
    }
    if k > bytes.len() || bytes.len() - k < MAGIC_LEN {
        return false;
    }
    let m = u16_to_le_bytes(magic);
    let r = bytes[k] == m[0] && bytes[k + 1] == m[1];
    assert(r == (bytes@.subrange(k as int, k + 2) =~= magic_bytes(magic)));
    r
}

/// Reads a whole 34-byte packet; `None` unless the length is right and the
/// bytes open with `magic`.
pub fn decode_packet(bytes: &[u8], magic: u16) -> (r: Option<MotorPacket>)
    ensures
        r == (if bytes@.len() == 34 && magic_at(bytes@, 0, magic) {
            Some(packet_at(bytes@, 0))
        } else {
            None::<MotorPacket>
        }),
{
    if bytes.len() != PACKET_LEN || !has_magic_at(bytes, 0, magic) {
        return None;
    }
    let payload = slice_subrange(bytes, MAGIC_LEN, PACKET_LEN);
    decode_payload(payload)
}

} // verus!
