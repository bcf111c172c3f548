//! Leading-magic synchroniser: bytes are taken one at a time, the magic is
//! matched byte by byte, and the 32 bytes after a whole magic are the
//! payload. Nothing is kept once a packet is out.
use crate::packet::{
    decode_payload, lemma_magic_bytes_len, lemma_packet_round_trip, magic_at, magic_bytes,
    packet_at, packet_bytes, MotorPacket, PAYLOAD_LEN,
};
use crate::sync::{budget_expired, SyncResult};
use vstd::bytes::u16_to_le_bytes;
use vstd::prelude::*;

verus! {

/// The least offset at or above `k` where `magic` stands in `s`.
pub open spec fn first_magic_from(s: Seq<u8>, magic: u16, k: int) -> Option<int>
    decreases s.len() - k,
{
    if k < 0 || k + 2 > s.len() {
        None
    } else if magic_at(s, k, magic) {
        Some(k)
    } else {
        first_magic_from(s, magic, k + 1)
    }
}

/// Offset of the first magic in `s`.
pub open spec fn first_magic(s: Seq<u8>, magic: u16) -> Option<int> {
    first_magic_from(s, magic, 0)
}

/// Whether the 32 bytes after the first magic of `s` have all arrived.
pub open spec fn holds_packet(s: Seq<u8>, magic: u16) -> bool {
    match first_magic(s, magic) {
        Some(k) => k + 34 <= s.len(),
        None => false,
    }
}

/// The packets that a leading-magic scan takes out of the stream `s`, in
/// order: the payload after the first magic, then the same on what follows
/// that packet's end.
pub open spec fn packets_of(s: Seq<u8>, magic: u16) -> Seq<MotorPacket>
    decreases s.len(),
{
    match first_magic(s, magic) {
        Some(k) => if 0 <= k && k + 34 <= s.len() {
            seq![packet_at(s, k)] + packets_of(s.subrange(k + 34, s.len() as int), magic)
        } else {
            Seq::empty()
        },
        None => Seq::empty(),
    }
}

proof fn lemma_first_from_found(s: Seq<u8>, magic: u16, k: int)
    ensures
        first_magic_from(s, magic, k) matches Some(j) ==> k <= j && magic_at(s, j, magic),
    decreases s.len() - k,
{
    if 0 <= k && k + 2 <= s.len() && !magic_at(s, k, magic) {
        lemma_first_from_found(s, magic, k + 1);
    }
}

proof fn lemma_magic_at_extend(t: Seq<u8>, u: Seq<u8>, magic: u16, i: int)
    requires
        0 <= i,
        i + 2 <= t.len(),
    ensures
        magic_at(t + u, i, magic) == magic_at(t, i, magic),
{
    assert((t + u).subrange(i, i + 2) =~= t.subrange(i, i + 2));
}

/// A magic found in `t` is still the first one once more bytes follow.
proof fn lemma_first_from_extend(t: Seq<u8>, u: Seq<u8>, magic: u16, k: int)
    requires
        first_magic_from(t, magic, k) is Some,
    ensures
        first_magic_from(t + u, magic, k) == first_magic_from(t, magic, k),
    decreases t.len() - k,
{
    lemma_magic_at_extend(t, u, magic, k);
    if !magic_at(t, k, magic) {
        lemma_first_from_extend(t, u, magic, k + 1);
    }
}

/// With no magic in `c`, the only one that one more byte can bring is the
/// one that ends with that byte.
proof fn lemma_first_from_push(c: Seq<u8>, b: u8, magic: u16, k: int)
    requires
        first_magic_from(c, magic, k) is None,
        0 <= k,
    ensures
        first_magic_from(c.push(b), magic, k) == (if k <= c.len() - 1 && magic_at(
            c.push(b),
            c.len() - 1,
            magic,
        ) {
            Some(c.len() - 1)
        } else {
            None::<int>
        }),
    decreases c.len() - k,
{
    let t = c.push(b);
    if k + 2 <= c.len() {
        assert(t == c + seq![b]);
        lemma_magic_at_extend(c, seq![b], magic, k);
        lemma_first_from_push(c, b, magic, k + 1);
    } else if k + 2 == t.len() {
        assert(first_magic_from(t, magic, k + 1) == None::<int>);
    }
}

/// What the scanner emits agrees with `packets_of`: once the bytes `t`
/// taken since the last packet complete one, the packets of `t` followed by
/// any later bytes are that packet and then the packets of the later bytes.
pub proof fn lemma_emitted_packet_leads(t: Seq<u8>, rest: Seq<u8>, magic: u16)
    requires
        holds_packet(t, magic),
        first_magic(t, magic) matches Some(k) && k + 34 == t.len(),
    ensures
        packets_of(t + rest, magic) == seq![packet_at(t, first_magic(t, magic)->0)]
            + packets_of(rest, magic),
{
    let k = first_magic(t, magic)->0;
    lemma_first_from_found(t, magic, 0);
    lemma_first_from_extend(t, rest, magic, 0);
    let s = t + rest;
    assert(s.subrange(k + 2, k + 34) =~= t.subrange(k + 2, k + 34));
    assert(s.subrange(k + 34, s.len() as int) =~= rest);
}

/// The packets that feeding the bytes of `s` one at a time emits, to a
/// scanner that has taken `c` since its last packet: each byte is added to
/// the bytes taken, and when those hold a whole packet it is emitted and
/// the bytes taken start afresh.
pub open spec fn emitted(c: Seq<u8>, s: Seq<u8>, magic: u16) -> Seq<MotorPacket>
    decreases s.len(),
{
    if s.len() == 0 {
        Seq::empty()
    } else {
        let t = c.push(s[0]);
        if holds_packet(t, magic) {
            seq![packet_at(t, first_magic(t, magic)->0)] + emitted(
                Seq::empty(),
                s.drop_first(),
                magic,
            )
        } else {
            emitted(t, s.drop_first(), magic)
        }
    }
}

/// A byte that completes a packet completes it exactly at its own end.
proof fn lemma_completed_at_end(c: Seq<u8>, b: u8, magic: u16)
    requires
        !holds_packet(c, magic),
        holds_packet(c.push(b), magic),
    ensures
        first_magic(c.push(b), magic)->0 + 34 == c.len() + 1,
{
    let t = c.push(b);
    assert(t == c + seq![b]);
    if first_magic(c, magic) is Some {
        lemma_first_from_extend(c, seq![b], magic, 0);
    } else {
        lemma_first_from_push(c, b, magic, 0);
    }
}

/// Feeding a stream byte by byte to a fresh scanner emits exactly
/// `packets_of` the stream; more generally, from any bytes taken that do
/// not yet hold a packet, it emits the packets of those bytes followed by
/// the stream.
pub proof fn lemma_emitted_is_packets_of(c: Seq<u8>, s: Seq<u8>, magic: u16)
    requires
        !holds_packet(c, magic),
    ensures
        emitted(c, s, magic) == packets_of(c + s, magic),
    decreases s.len(),
{
    if s.len() == 0 {
        assert(c + s =~= c);
        if let Some(k) = first_magic(c, magic) {
            lemma_first_from_found(c, magic, 0);
        }
    } else {
        let t = c.push(s[0]);
        let rest = s.drop_first();
        assert(c + s =~= t + rest);
        if holds_packet(t, magic) {
            lemma_completed_at_end(c, s[0], magic);
            lemma_emitted_packet_leads(t, rest, magic);
            assert(first_magic(Seq::<u8>::empty(), magic) == None::<int>);
            lemma_emitted_is_packets_of(Seq::empty(), rest, magic);
            assert(Seq::<u8>::empty() + rest =~= rest);
        } else {
            lemma_emitted_is_packets_of(t, rest, magic);
        }
    }
}

proof fn lemma_first_from_skip(s: Seq<u8>, magic: u16, k: int, j: int)
    requires
        0 <= k <= j,
        magic_at(s, j, magic),
        forall|i: int| k <= i < j ==> !magic_at(s, i, magic),
    ensures
        first_magic_from(s, magic, k) == Some(j),
    decreases j - k,
{
    if k < j {
        lemma_first_from_skip(s, magic, k + 1, j);
    }
}

/// A whole packet after noise in which no magic starts is the first packet
/// of the stream, whatever follows it.
proof fn lemma_noise_then_packet(noise: Seq<u8>, p: MotorPacket, rest: Seq<u8>, magic: u16)
    requires
        forall|i: int|
            0 <= i < noise.len() ==> !#[trigger] magic_at(noise + packet_bytes(magic, p), i, magic),
    ensures
        packets_of(noise + packet_bytes(magic, p) + rest, magic) == seq![p] + packets_of(
            rest,
            magic,
        ),
{
    let t = noise + packet_bytes(magic, p);
    let k = noise.len() as int;
    lemma_packet_round_trip(magic, p, noise, Seq::empty());
    assert(t + Seq::<u8>::empty() =~= t);
    lemma_first_from_skip(t, magic, 0, k);
    lemma_emitted_packet_leads(t, rest, magic);
}

/// Resynchronisation: from noise, a packet, more noise and a second packet,
/// the scan, and a fresh scanner fed the stream byte by byte, take out
/// exactly the two packets, in order, as long as no
/// whole magic starts inside either stretch of noise. Partial magics in the
/// noise, and any bytes inside the first packet, do not matter.
pub proof fn lemma_resync_leading(
    noise1: Seq<u8>,
    first: MotorPacket,
    noise2: Seq<u8>,
    second: MotorPacket,
    magic: u16,
)
    requires
        forall|i: int|
            0 <= i < noise1.len() ==> !#[trigger] magic_at(
                noise1 + packet_bytes(magic, first),
                i,
                magic,
            ),
        forall|i: int|
            0 <= i < noise2.len() ==> !#[trigger] magic_at(
                noise2 + packet_bytes(magic, second),
                i,
                magic,
            ),
    ensures
        packets_of(
            noise1 + packet_bytes(magic, first) + noise2 + packet_bytes(magic, second),
            magic,
        ) == seq![first, second],
        emitted(
            Seq::empty(),
            noise1 + packet_bytes(magic, first) + noise2 + packet_bytes(magic, second),
            magic,
        ) == seq![first, second],
{
    let b1 = packet_bytes(magic, first);
    let b2 = packet_bytes(magic, second);
    let e = Seq::<u8>::empty();
    lemma_noise_then_packet(noise2, second, e, magic);
    assert(noise2 + b2 + e =~= noise2 + b2);
    assert(packets_of(e, magic) == Seq::<MotorPacket>::empty());
    lemma_noise_then_packet(noise1, first, noise2 + b2, magic);
    assert(noise1 + b1 + noise2 + b2 =~= noise1 + b1 + (noise2 + b2));
    assert(seq![first] + seq![second] =~= seq![first, second]);
    let stream = noise1 + b1 + noise2 + b2;
    assert(first_magic(e, magic) == None::<int>);
    lemma_emitted_is_packets_of(e, stream, magic);
    assert(e + stream =~= stream);
}

/// Byte-wise leading-magic synchroniser.
pub struct LeadingScanner {
    magic: u16,
    first: u8,
    second: u8,
    matched: u8,
    payload: Vec<u8>,
    taken: Ghost<Seq<u8>>,
}

impl LeadingScanner {
    /// The bytes taken since the last packet or reset.
    pub closed spec fn pending(&self) -> Seq<u8> {
        self.taken@
    }

    /// The magic this scanner looks for.
    pub closed spec fn spec_magic(&self) -> u16 {
        self.magic
    }

    pub closed spec fn wf(&self) -> bool {
        let c = self.taken@;
        &&& magic_bytes(self.magic) == seq![self.first, self.second]
        &&& !holds_packet(c, self.magic)
        &&& match first_magic(c, self.magic) {
            Some(k) => self.matched == 2 && self.payload@ == c.subrange(k + 2, c.len() as int),
            None => self.payload@.len() == 0 && self.matched == (if c.len() > 0 && c.last()
                == self.first {
                1u8
            } else {
                0u8
            }),
        }
    }

    /// A scanner for `magic` that has taken nothing yet.
    pub fn new(magic: u16) -> (r: LeadingScanner)
        ensures
            r.wf(),
            r.spec_magic() == magic,
            r.pending() == Seq::<u8>::empty(),
    {
        proof {
            lemma_magic_bytes_len(magic);
        }
        let m = u16_to_le_bytes(magic);
        let r = LeadingScanner {
            magic,
            first: m[0],
            second: m[1],
            matched: 0,
            payload: Vec::new(),
            taken: Ghost(Seq::empty()),
        };
        assert(magic_bytes(magic) =~= seq![m[0], m[1]]);
        assert(first_magic(Seq::<u8>::empty(), magic) == None::<int>);
        r
    }

    /// Whether a whole magic has been matched and its payload is still
    /// arriving.
    pub fn in_payload(&self) -> (r: bool)
        requires
            self.wf(),
        ensures
            r == (first_magic(self.pending(), self.spec_magic()) is Some),
    {
        self.matched == 2
    }

    /// Takes one byte. When it completes the payload after the first magic
    /// of the bytes taken since the last packet, that packet is returned
    /// and the scanner starts afresh.
    pub fn feed(&mut self, b: u8) -> (r: Option<MotorPacket>)
        requires
            old(self).wf(),
        ensures
            final(self).wf(),
            final(self).spec_magic() == old(self).spec_magic(),
            ({
                let t = old(self).pending().push(b);
                let magic = old(self).spec_magic();
                if holds_packet(t, magic) {
                    &&& r == Some(packet_at(t, first_magic(t, magic)->0))
                    &&& first_magic(t, magic)->0 + 34 == t.len()
                    &&& final(self).pending() == Seq::<u8>::empty()
                } else {
                    r == None::<MotorPacket> && final(self).pending() == t
                }
            }),
    {
        let ghost c = self.taken@;
        let ghost t = c.push(b);
        let ghost magic = self.magic;
        proof {
            lemma_magic_bytes_len(magic);
            assert(t == c + seq![b]);
        }
        if self.matched == 2 {
            proof {
                lemma_first_from_extend(c, seq![b], magic, 0);
            }
            let ghost k = first_magic(c, magic)->0;
            self.payload.push(b);
            self.taken = Ghost(t);
            proof {
                lemma_first_from_found(c, magic, 0);
                assert(self.payload@ =~= t.subrange(k + 2, t.len() as int));
            }
            if self.payload.len() == PAYLOAD_LEN {
                let r = decode_payload(self.payload.as_slice());
                self.payload = Vec::new();
                self.matched = 0;
                self.taken = Ghost(Seq::empty());
                assert(first_magic(Seq::<u8>::empty(), magic) == None::<int>);
                r
            } else {
                None
            }
        } else {
            proof {
                lemma_first_from_push(c, b, magic, 0);
                if c.len() > 0 {
                    assert(t.subrange(c.len() - 1, c.len() + 1 as int) =~= seq![c.last(), b]);
                }
            }
            if self.matched == 1 && b == self.second {
                self.matched = 2;
                proof {
                    assert(t.subrange(t.len() as int, t.len() as int) =~= self.payload@);
                }
            } else if b == self.first {
                self.matched = 1;
            } else {
                self.matched = 0;
            }
            self.taken = Ghost(t);
            None
        }
    }

    /// Gives up the current attempt: forgets every byte taken since the
    /// last packet. Returns whether a magic had been matched and its payload
    /// was still arriving, that is whether a packet was cut short.
    pub fn abandon(&mut self) -> (r: bool)
        requires
            old(self).wf(),
        ensures
            final(self).wf(),
            final(self).spec_magic() == old(self).spec_magic(),
            final(self).pending() == Seq::<u8>::empty(),
            r == (first_magic(old(self).pending(), old(self).spec_magic()) is Some),
    {
        let r = self.matched == 2;
        self.matched = 0;
        self.payload = Vec::new();
        self.taken = Ghost(Seq::empty());
        assert(first_magic(Seq::<u8>::empty(), self.magic) == None::<int>);
        r
    }

    /// The stream closed: the attempt ends. A packet cut short after its
    /// magic is reported as incomplete; with none under way there is
    /// simply no packet, as on a timeout. Nothing taken is kept.
    pub fn end_of_stream(&mut self) -> (r: SyncResult)
        requires
            old(self).wf(),
        ensures
            final(self).wf(),
            final(self).spec_magic() == old(self).spec_magic(),
            final(self).pending() == Seq::<u8>::empty(),
            r == (if first_magic(old(self).pending(), old(self).spec_magic()) is Some {
                SyncResult::Incomplete
            } else {
                SyncResult::TimedOut
            }),
    {
        if self.abandon() {
            SyncResult::Incomplete
        } else {
            SyncResult::TimedOut
        }
    }

    /// One synchronisation step of an attempt that started at `start_ms`:
    /// takes the byte read, if any, then gives up the attempt when no
    /// packet came and the budget is spent by `now_ms`.
    pub fn poll(&mut self, byte: Option<u8>, start_ms: u64, now_ms: u64, budget_ms: u64) -> (r: SyncResult)
        requires
            old(self).wf(),
        ensures
            final(self).wf(),
            final(self).spec_magic() == old(self).spec_magic(),
            ({
                let magic = old(self).spec_magic();
                let t = match byte {
                    Some(b) => old(self).pending().push(b),
                    None => old(self).pending(),
                };
                let expired = now_ms >= start_ms && now_ms - start_ms >= budget_ms;
                if byte is Some && holds_packet(t, magic) {
                    r == SyncResult::Packet(packet_at(t, first_magic(t, magic)->0))
                        && final(self).pending() == Seq::<u8>::empty()
                } else if expired {
                    r == SyncResult::TimedOut && final(self).pending() == Seq::<u8>::empty()
                } else {
                    r == SyncResult::Pending && final(self).pending() == t
                }
            }),
    {
        if let Some(b) = byte {
            if let Some(p) = self.feed(b) {
                return SyncResult::Packet(p);
            }
        }
        if budget_expired(start_ms, now_ms, budget_ms) {
            self.abandon();
            SyncResult::TimedOut
        } else {
            SyncResult::Pending
        }
    }
}

} // verus!
