//! Rolling-buffer synchroniser: bytes accumulate in a carry-over buffer, and
//! the most recent whole packet in it is taken, found by scanning backward
//! from the last offset where a whole packet fits.
use crate::packet::{
    decode_payload, has_magic_at, lemma_packet_round_trip, magic_at, packet_at, packet_bytes,
    MotorPacket, MAGIC_LEN, PACKET_LEN,
};
use crate::sync::{budget_expired, SyncResult};
use vstd::prelude::*;
use vstd::slice::slice_subrange;

verus! {

/// The greatest offset at or below `k` where `magic` stands in `s`.
pub open spec fn last_magic_from(s: Seq<u8>, magic: u16, k: int) -> Option<int>
    decreases k + 1,
{
    if k < 0 {
        None
    } else if magic_at(s, k, magic) {
        Some(k)
    } else {
        last_magic_from(s, magic, k - 1)
    }
}

/// Offset of the most recent whole packet in `s`: the greatest offset at
/// which `magic` stands and 34 bytes follow from there on.
pub open spec fn rightmost_packet(s: Seq<u8>, magic: u16) -> Option<int> {
    if s.len() < 34 {
        None
    } else {
        last_magic_from(s, magic, s.len() - 34)
    }
}

/// What is left of `s` once the packet at offset `k` is taken: only the
/// bytes after that packet's end.
pub open spec fn after_packet(s: Seq<u8>, k: int) -> Seq<u8> {
    s.subrange(k + 34, s.len() as int)
}

/// When a read ends with a whole packet, that packet is the most recent
/// one in the buffer, whatever noise or false magics come before it, and
/// taking it leaves nothing behind.
pub proof fn lemma_packet_at_end(pre: Seq<u8>, p: MotorPacket, magic: u16)
    ensures
        rightmost_packet(pre + packet_bytes(magic, p), magic) == Some(pre.len() as int),
        packet_at(pre + packet_bytes(magic, p), pre.len() as int) == p,
        after_packet(pre + packet_bytes(magic, p), pre.len() as int) == Seq::<u8>::empty(),
{
    let s = pre + packet_bytes(magic, p);
    lemma_packet_round_trip(magic, p, pre, Seq::empty());
    assert(s + Seq::<u8>::empty() =~= s);
    assert(after_packet(s, pre.len() as int) =~= Seq::<u8>::empty());
}

/// Resynchronisation: when the stream arrives as noise and a packet, then
/// more noise and a second packet, both packets are taken, in order, with
/// nothing left over, whatever the noise holds.
pub proof fn lemma_resync_rolling(
    noise1: Seq<u8>,
    first: MotorPacket,
    noise2: Seq<u8>,
    second: MotorPacket,
    magic: u16,
)
    ensures
        ({
            let s1 = noise1 + packet_bytes(magic, first);
            let k1 = noise1.len() as int;
            let s2 = after_packet(s1, k1) + (noise2 + packet_bytes(magic, second));
            let k2 = noise2.len() as int;
            &&& rightmost_packet(s1, magic) == Some(k1)
            &&& packet_at(s1, k1) == first
            &&& rightmost_packet(s2, magic) == Some(k2)
            &&& packet_at(s2, k2) == second
            &&& after_packet(s2, k2) == Seq::<u8>::empty()
        }),
{
    lemma_packet_at_end(noise1, first, magic);
    lemma_packet_at_end(noise2, second, magic);
    let s1 = noise1 + packet_bytes(magic, first);
    assert(after_packet(s1, noise1.len() as int) + (noise2 + packet_bytes(magic, second))
        =~= noise2 + packet_bytes(magic, second));
}

/// Bytes are never used twice: once the packet at offset `k` is taken, what
/// the buffer holds, with any bytes that arrive later, is exactly the
/// stream from that packet's end on, so a later packet found at offset `j`
/// is the one that stands at `k + 34 + j` in the whole stream, past every
/// byte of the packet taken.
pub proof fn lemma_no_reuse(s: Seq<u8>, more: Seq<u8>, magic: u16)
    requires
        rightmost_packet(s, magic) is Some,
    ensures
        ({
            let k = rightmost_packet(s, magic)->0;
            let next = after_packet(s, k) + more;
            &&& 0 <= k && k + 34 <= s.len()
            &&& next == (s + more).subrange(k + 34, (s + more).len() as int)
            &&& (rightmost_packet(next, magic) matches Some(j) ==> {
                &&& k + 34 + j > k + 33
                &&& magic_at(s + more, k + 34 + j, magic)
                &&& packet_at(next, j) == packet_at(s + more, k + 34 + j)
            })
        }),
{
    let k = rightmost_packet(s, magic)->0;
    lemma_last_from_found(s, magic, s.len() - 34);
    let next = after_packet(s, k) + more;
    let whole = s + more;
    assert(next =~= whole.subrange(k + 34, whole.len() as int));
    if let Some(j) = rightmost_packet(next, magic) {
        lemma_last_from_found(next, magic, next.len() - 34);
        assert(next.subrange(j, j + 2) =~= whole.subrange(k + 34 + j, k + 34 + j + 2));
        assert(next.subrange(j + 2, j + 34) =~= whole.subrange(k + 36 + j, k + 68 + j));
    }
}

proof fn lemma_last_from_found(s: Seq<u8>, magic: u16, k: int)
    requires
        k + 34 <= s.len(),
    ensures
        last_magic_from(s, magic, k) matches Some(j) ==> 0 <= j <= k && magic_at(s, j, magic),
    decreases k + 1,
{
    if k >= 0 && !magic_at(s, k, magic) {
        lemma_last_from_found(s, magic, k - 1);
    }
}

/// The carry-over buffer of one link session.
pub struct FrameBuffer {
    buf: Vec<u8>,
}

impl View for FrameBuffer {
    type V = Seq<u8>;

    closed spec fn view(&self) -> Seq<u8> {
        self.buf@
    }
}

impl FrameBuffer {
    /// An empty buffer.
    pub fn new() -> (r: FrameBuffer)
        ensures
            r@ == Seq::<u8>::empty(),
    {
        FrameBuffer { buf: Vec::new() }
    }

    /// Number of bytes held.
    pub fn len(&self) -> (r: usize)
        ensures
            r == self@.len(),
    {
        self.buf.len()
    }

    /// The bytes held, oldest first.
    pub fn contents(&self) -> (r: Vec<u8>)
        ensures
            r@ == self@,
    {
        let mut out: Vec<u8> = Vec::new();
        let mut i: usize = 0;
        while i < self.buf.len()
            invariant
                i <= self.buf@.len(),
                out@ == self.buf@.subrange(0, i as int),
            decreases self.buf@.len() - i,
        {
            out.push(self.buf[i]);
            i = i + 1;
            assert(out@ =~= self.buf@.subrange(0, i as int));
        }
        assert(out@ =~= self.buf@);
        out
    }

    /// Appends newly arrived bytes after those held.
    pub fn push_bytes(&mut self, data: &[u8])
        ensures
            final(self)@ == old(self)@ + data@,
    {
        let ghost start = self.buf@;
        let mut i: usize = 0;
        while i < data.len()
            invariant
                i <= data@.len(),
                self.buf@ == start + data@.subrange(0, i as int),
            decreases data@.len() - i,
        {
            self.buf.push(data[i]);
            i = i + 1;
            assert(self.buf@ =~= start + data@.subrange(0, i as int));
        }
        assert(data@.subrange(0, i as int) =~= data@);
    }

    /// Drops every byte held.
    pub fn clear(&mut self)
        ensures
            final(self)@ == Seq::<u8>::empty(),
    {
        self.buf.clear();
    }

    /// Takes the most recent whole packet under `magic`. The bytes before
    /// it are dropped as noise and the packet's own bytes with them; only
    /// what follows its end stays. Without a whole packet the buffer is
    /// left as it was.
    pub fn extract(&mut self, magic: u16) -> (r: Option<MotorPacket>)
        ensures
            match rightmost_packet(old(self)@, magic) {
                Some(k) => r == Some(packet_at(old(self)@, k)) && final(self)@ == after_packet(
                    old(self)@,
                    k,
                ),
                None => r == None::<MotorPacket> && final(self)@ == old(self)@,
            },
    {
        let len = self.buf.len();
        if len < PACKET_LEN {
            return None;
        }
        let ghost s = self.buf@;
        let mut k: usize = len - PACKET_LEN;
        let mut found: bool = false;
        loop
            invariant_except_break
                !found,
                last_magic_from(s, magic, k as int) == rightmost_packet(s, magic),
            invariant
                self.buf@ == s,
                len == s.len(),
                len >= 34,
                k <= len - 34,
            ensures
                self.buf@ == s,
                k <= len - 34,
                found ==> rightmost_packet(s, magic) == Some(k as int),
                !found ==> rightmost_packet(s, magic) == None::<int>,
            decreases k,
        {
            if has_magic_at(self.buf.as_slice(), k, magic) {
                found = true;
                break;
            }
            if k == 0 {
                assert(last_magic_from(s, magic, -1) == None::<int>);
                break;
            }
            k = k - 1;
        }
        if !found {
            return None;
        }
        let payload = slice_subrange(self.buf.as_slice(), k + MAGIC_LEN, k + PACKET_LEN);
        let r = decode_payload(payload);
        let rest = self.buf.split_off(k + PACKET_LEN);
        self.buf = rest;
        r
    }

    /// One synchronisation step of an attempt that started at `start_ms`:
    /// takes in `data`, then looks for a packet. With none, and the budget
    /// spent by `now_ms`, the buffer is emptied so that the next attempt
    /// starts clean.
    pub fn poll(&mut self, data: &[u8], magic: u16, start_ms: u64, now_ms: u64, budget_ms: u64) -> (r: SyncResult)
        ensures
            ({
                let s = old(self)@ + data@;
                let expired = now_ms >= start_ms && now_ms - start_ms >= budget_ms;
                match rightmost_packet(s, magic) {
                    Some(k) => r == SyncResult::Packet(packet_at(s, k)) && final(self)@
                        == after_packet(s, k),
                    None => if expired {
                        r == SyncResult::TimedOut && final(self)@ == Seq::<u8>::empty()
                    } else {
                        r == SyncResult::Pending && final(self)@ == s
                    },
                }
            }),
    {
        self.push_bytes(data);
        let expired = budget_expired(start_ms, now_ms, budget_ms);
        match self.extract(magic) {
            Some(p) => SyncResult::Packet(p),
            None => {
                if expired {
                    self.clear();
                    SyncResult::TimedOut
                } else {
                    SyncResult::Pending
                }
            },
        }
    }
}

} // verus!
