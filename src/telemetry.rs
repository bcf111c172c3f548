//! Building the encoder telemetry packet from per-channel sensor readings.
//! A reading that failed is replaced by a sentinel so that the other
//! channels still go out; encoder packets use negative infinity.
use crate::packet::{encode_packet, packet_bytes, MotorPacket, ENCODER_PACKET_MAGIC};
use vstd::prelude::*;

verus! {

/// binary64 bit pattern of negative infinity: the sentinel of encoder
/// packets.
pub const NEG_INFINITY_BITS: u64 = 0xFFF0_0000_0000_0000;

/// binary64 bit pattern of positive zero, the sentinel some protocol
/// revisions use instead.
pub const ZERO_BITS: u64 = 0;

/// One sensor reading per channel, in wire order, each the binary64 bit
/// pattern of the value in wire units; `None` where the read failed.
#[derive(Clone, Copy, Debug, PartialEq, Eq, Structural)]
pub struct ChannelReadings {
    pub front_left: Option<u64>,
    pub front_right: Option<u64>,
    pub back_left: Option<u64>,
    pub back_right: Option<u64>,
}

/// The value a reading puts on the wire.
pub open spec fn or_sentinel(r: Option<u64>, sentinel: u64) -> u64 {
    match r {
        Some(v) => v,
        None => sentinel,
    }
}

/// The packet that `readings` give, `sentinel` standing for each failed read.
pub open spec fn telemetry_of(readings: ChannelReadings, sentinel: u64) -> MotorPacket {
    MotorPacket {
        front_left: or_sentinel(readings.front_left, sentinel),
        front_right: or_sentinel(readings.front_right, sentinel),
        back_left: or_sentinel(readings.back_left, sentinel),
        back_right: or_sentinel(readings.back_right, sentinel),
    }
}

/// The value a reading puts on the wire.
pub fn reading_or_sentinel(r: Option<u64>, sentinel: u64) -> (v: u64)
    ensures
        v == or_sentinel(r, sentinel),
{
    match r {
        Some(v) => v,
        None => sentinel,
    }
}

/// The telemetry packet of `readings`: each channel carries its own
/// reading, and a failed one carries `sentinel` without touching the
/// others.
pub fn telemetry_packet(readings: &ChannelReadings, sentinel: u64) -> (r: MotorPacket)
    ensures
        r == telemetry_of(*readings, sentinel),
{
    MotorPacket {
        front_left: reading_or_sentinel(readings.front_left, sentinel),
        front_right: reading_or_sentinel(readings.front_right, sentinel),
        back_left: reading_or_sentinel(readings.back_left, sentinel),
        back_right: reading_or_sentinel(readings.back_right, sentinel),
    }
}

/// The 34 wire bytes of the encoder packet of `readings`, with negative
/// infinity for each failed read.
pub fn encoder_packet_bytes(readings: &ChannelReadings) -> (r: Vec<u8>)
    ensures
        r@ == packet_bytes(ENCODER_PACKET_MAGIC, telemetry_of(*readings, NEG_INFINITY_BITS)),
        r@.len() == 34,
{
    let p = telemetry_packet(readings, NEG_INFINITY_BITS);
    encode_packet(ENCODER_PACKET_MAGIC, &p)
}

/// Fault isolation: a failed read changes its own channel, to the sentinel,
/// and no other; the channels read successfully carry their readings.
pub proof fn lemma_fault_isolation(readings: ChannelReadings, sentinel: u64)
    ensures
        ({
            let p = telemetry_of(readings, sentinel);
            &&& readings.front_left matches Some(v) ==> p.front_left == v
            &&& readings.front_right matches Some(v) ==> p.front_right == v
            &&& readings.back_left matches Some(v) ==> p.back_left == v
            &&& readings.back_right matches Some(v) ==> p.back_right == v
            &&& readings.front_left is None ==> p.front_left == sentinel
            &&& readings.front_right is None ==> p.front_right == sentinel
            &&& readings.back_left is None ==> p.back_left == sentinel
            &&& readings.back_right is None ==> p.back_right == sentinel
        }),
{
}

} // verus!
