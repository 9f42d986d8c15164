//! RTP packets for H.264 (RFC 6184): one per NAL unit, or fragments of type FU-A.
use vstd::prelude::*;

use crate::annexb;
use crate::annexb::RTP_MTU;
use crate::bytes;

verus! {

/// How many bytes of a NAL unit a fragment carries behind its two header bytes.
pub const FRAGMENT_BYTES: usize = 1198;

/// What a list of packets holds.
pub open spec fn packet_views(packets: Seq<Vec<u8>>) -> Seq<Seq<u8>> {
    packets.map_values(|p: Vec<u8>| p@)
}

/// An RTP packet: version 2, payload type 96.
#[verifier::opaque]
pub open spec fn packet(
    seq: u16,
    timestamp: u32,
    ssrc: u32,
    marker: bool,
    payload: Seq<u8>,
) -> Seq<u8> {
    seq![
        0x80u8,
        if marker {
            0xe0u8
        } else {
            0x60u8
        },
    ] + bytes::be16(seq) + bytes::be32(timestamp) + bytes::be32(ssrc) + payload
}

/// Builds an RTP packet.
pub fn rtp_packet(seq: u16, timestamp: u32, ssrc: u32, marker: bool, payload: &[u8]) -> (r: Vec<
    u8,
>)
    ensures
        r@ == packet(seq, timestamp, ssrc, marker, payload@),
{
    reveal(packet);
    let mut out: Vec<u8> = Vec::new();
    out.push(0x80);
    out.push(
        if marker {
            0xe0
        } else {
            0x60
        },
    );
    assert(out@ =~= seq![0x80u8, if marker { 0xe0u8 } else { 0x60u8 }]);
    bytes::push_be16(&mut out, seq);
    bytes::push_be32(&mut out, timestamp);
    bytes::push_be32(&mut out, ssrc);
    bytes::append_bytes(&mut out, payload);
    out
}

/// How many fragments a NAL unit too long for one packet is cut into.
pub open spec fn fragment_count(len: nat) -> nat {
    ((len + FRAGMENT_BYTES - 2) / FRAGMENT_BYTES as int) as nat
}

/// Where fragment `j` begins in its NAL unit; the first byte is in no fragment.
pub open spec fn fragment_begin(j: int) -> int {
    1 + FRAGMENT_BYTES * j
}

/// Where fragment `j` ends in a NAL unit of the given length.
pub open spec fn fragment_end(len: nat, j: int) -> int {
    if fragment_begin(j + 1) < len {
        fragment_begin(j + 1)
    } else {
        len as int
    }
}

/// The second header byte of a fragment: start bit, end bit, type of the unit.
pub open spec fn fragment_header(nal: Seq<u8>, first: bool, last: bool) -> u8 {
    (if first {
        0x80u8
    } else {
        0u8
    }) | (if last {
        0x40u8
    } else {
        0u8
    }) | (nal[0] & 0x1f)
}

/// Fragment `j` of a NAL unit.
pub open spec fn fragment(nal: Seq<u8>, j: int) -> Seq<u8> {
    seq![
        (nal[0] & 0x60) | 28u8,
        fragment_header(nal, j == 0, j == fragment_count(nal.len()) - 1),
    ] + nal.subrange(fragment_begin(j), fragment_end(nal.len(), j))
}

/// The payloads that carry a NAL unit.
pub open spec fn payloads(nal: Seq<u8>) -> Seq<Seq<u8>> {
    if nal.len() == 0 {
        seq![]
    } else if nal.len() <= RTP_MTU {
        seq![nal]
    } else {
        Seq::new(fragment_count(nal.len()), |j: int| fragment(nal, j))
    }
}

/// The payloads that carry the NAL units of an access unit, in order.
pub open spec fn unit_payloads(nals: Seq<Seq<u8>>) -> Seq<Seq<u8>>
    decreases nals.len(),
{
    if nals.len() == 0 {
        seq![]
    } else {
        unit_payloads(nals.drop_last()) + payloads(nals.last())
    }
}

/// The sequence number `n` places after `seq`.
pub open spec fn sequence_after(seq: u16, n: int) -> u16 {
    ((seq + n) % 65536) as u16
}

/// One packet for each payload, numbered from `seq` on; the last one is marked
/// where `marker` holds.
pub open spec fn packets_of(
    all: Seq<Seq<u8>>,
    marker: bool,
    timestamp: u32,
    ssrc: u32,
    seq: u16,
) -> Seq<Seq<u8>> {
    Seq::new(
        all.len(),
        |j: int|
            packet(
                sequence_after(seq, j),
                timestamp,
                ssrc,
                marker && j == all.len() - 1,
                all[j],
            ),
    )
}

/// The packets of an access unit: the last packet of its last NAL unit is marked.
pub open spec fn unit_packets(
    nals: Seq<Seq<u8>>,
    timestamp: u32,
    ssrc: u32,
    seq: u16,
) -> Seq<Seq<u8>> {
    packets_of(
        unit_payloads(nals),
        nals.len() > 0 && nals.last().len() > 0,
        timestamp,
        ssrc,
        seq,
    )
}

/// Builds the fragment that carries a NAL unit from `begin` up to `end`.
pub fn fragment_of(nal: &[u8], first: bool, begin: usize, end: usize) -> (r: Vec<u8>)
    requires
        0 < begin <= end <= nal@.len(),
    ensures
        r@ == seq![
            (nal@[0] & 0x60) | 28u8,
            fragment_header(nal@, first, end == nal@.len()),
        ] + nal@.subrange(begin as int, end as int),
{
    let head: u8 = nal[0];
    let start_bit: u8 = if first {
        0x80
    } else {
        0
    };
    let end_bit: u8 = if end == nal.len() {
        0x40
    } else {
        0
    };
    let mut out: Vec<u8> = Vec::new();
    out.push((head & 0x60) | 28);
    out.push(start_bit | end_bit | (head & 0x1f));
    let ghost header = out@;
    assert(header =~= seq![
        (nal@[0] & 0x60) | 28u8,
        fragment_header(nal@, first, end == nal@.len()),
    ]);
    bytes::append_bytes(&mut out, vstd::slice::slice_subrange(nal, begin, end));
    out
}

/// A NAL unit is cut so that every fragment carries something and none is
/// longer than the limit; the fragments cover all but the first byte.
pub proof fn lemma_fragments(len: nat, j: int)
    requires
        len > RTP_MTU,
        0 <= j < fragment_count(len),
    ensures
        fragment_count(len) >= 2,
        1 <= fragment_begin(j) < fragment_end(len, j) <= len,
        fragment_end(len, j) - fragment_begin(j) <= FRAGMENT_BYTES,
        j + 1 < fragment_count(len) ==> fragment_end(len, j) == fragment_begin(j + 1),
        fragment_end(len, j) == len <==> j == fragment_count(len) - 1,
{
}

/// What a receiver has made of the payloads so far: whole NAL units, and what
/// there is of one that comes in fragments.
pub struct Received {
    pub units: Seq<Seq<u8>>,
    pub open: Seq<u8>,
}

impl Received {
    /// A receiver that nothing has come to.
    pub open spec fn nothing() -> Received {
        Received { units: seq![], open: seq![] }
    }

    /// The receiver after a payload. A fragment with the start bit begins a unit,
    /// whose first byte is made of the importance in the first header byte and
    /// the type in the second one; the end bit completes it. Anything else is a
    /// unit of its own.
    pub open spec fn fed(self, p: Seq<u8>) -> Received {
        if p.len() >= 2 && p[0] & 0x1f == 28 {
            let now = if p[1] & 0x80 != 0 {
                seq![(p[0] & 0x60) | (p[1] & 0x1f)] + p.skip(2)
            } else {
                self.open + p.skip(2)
            };
            if p[1] & 0x40 != 0 {
                Received { units: self.units.push(now), open: seq![] }
            } else {
                Received { units: self.units, open: now }
            }
        } else {
            Received { units: self.units.push(p), open: seq![] }
        }
    }

    /// The receiver after payloads, in order.
    pub open spec fn fed_all(self, all: Seq<Seq<u8>>) -> Received
        decreases all.len(),
    {
        if all.len() == 0 {
            self
        } else {
            self.fed_all(all.drop_last()).fed(all.last())
        }
    }
}

/// A NAL unit that a receiver can get back: not empty, and not to be taken for
/// a fragment where it is sent as it is; where it is fragmented, its first bit
/// is zero, as H.264 demands.
pub open spec fn sound(nal: Seq<u8>) -> bool {
    if nal.len() > RTP_MTU {
        nal[0] < 0x80
    } else {
        nal.len() == 1 || (nal.len() > 1 && nal[0] & 0x1f != 28)
    }
}

proof fn lemma_fed_append(s: Received, a: Seq<Seq<u8>>, b: Seq<Seq<u8>>)
    ensures
        s.fed_all(a + b) == s.fed_all(a).fed_all(b),
    decreases b.len(),
{
    if b.len() == 0 {
        assert(a + b =~= a);
    } else {
        lemma_fed_append(s, a, b.drop_last());
        assert((a + b).drop_last() =~= a + b.drop_last());
    }
}

proof fn lemma_fragment_bits(h: u8)
    requires
        h < 0x80,
    ensures
        ((h & 0x60) | 28u8) & 0x1f == 28,
        (((h & 0x60) | 28u8) & 0x60) | ((0x80u8 | 0u8 | (h & 0x1f)) & 0x1f) == h,
        (0x80u8 | 0u8 | (h & 0x1f)) & 0x80 != 0,
        (0x80u8 | 0u8 | (h & 0x1f)) & 0x40 == 0,
        (0u8 | 0u8 | (h & 0x1f)) & 0x80 == 0,
        (0u8 | 0u8 | (h & 0x1f)) & 0x40 == 0,
        (0u8 | 0x40u8 | (h & 0x1f)) & 0x80 == 0,
        (0u8 | 0x40u8 | (h & 0x1f)) & 0x40 != 0,
{
    assert(((h & 0x60) | 28u8) & 0x1f == 28 && (((h & 0x60) | 28u8) & 0x60) | ((0x80u8 | 0u8 | (h
        & 0x1f)) & 0x1f) == h && (0x80u8 | 0u8 | (h & 0x1f)) & 0x80 != 0 && (0x80u8 | 0u8 | (h
        & 0x1f)) & 0x40 == 0 && (0u8 | 0u8 | (h & 0x1f)) & 0x80 == 0 && (0u8 | 0u8 | (h & 0x1f))
        & 0x40 == 0 && (0u8 | 0x40u8 | (h & 0x1f)) & 0x80 == 0 && (0u8 | 0x40u8 | (h & 0x1f)) & 0x40
        != 0) by (bit_vector)
        requires
            h < 0x80u8,
    ;
}

proof fn lemma_fragments_fed(s: Received, nal: Seq<u8>, n: int)
    requires
        nal.len() > RTP_MTU,
        nal[0] < 0x80,
        0 < n < fragment_count(nal.len()),
    ensures
        s.fed_all(payloads(nal).take(n)) == (Received {
            units: s.units,
            open: nal.take(fragment_end(nal.len(), n - 1)),
        }),
    decreases n,
{
    let all = payloads(nal);
    let j = n - 1;
    lemma_fragment_bits(nal[0]);
    lemma_fragments(nal.len(), j);
    assert(all.take(n).drop_last() =~= all.take(j));
    assert(all.take(n).last() == fragment(nal, j));
    let body = nal.subrange(fragment_begin(j), fragment_end(nal.len(), j));
    assert(fragment(nal, j).skip(2) =~= body);
    if j == 0 {
        assert(s.fed_all(all.take(0)) == s) by {
            assert(all.take(0) =~= seq![]);
        }
        assert(seq![nal[0]] + body =~= nal.take(fragment_end(nal.len(), j)));
    } else {
        lemma_fragments_fed(s, nal, j);
        lemma_fragments(nal.len(), j - 1);
        assert(nal.take(fragment_end(nal.len(), j - 1)) + body =~= nal.take(
            fragment_end(nal.len(), j),
        ));
    }
}

proof fn lemma_unit_fed(s: Received, nal: Seq<u8>)
    requires
        sound(nal),
    ensures
        s.fed_all(payloads(nal)) == (Received { units: s.units.push(nal), open: seq![] }),
{
    let all = payloads(nal);
    if nal.len() <= RTP_MTU {
        reveal_with_fuel(Received::fed_all, 2);
        assert(all.drop_last() =~= seq![]);
    } else {
        let n = fragment_count(nal.len()) as int;
        lemma_fragments(nal.len(), 0);
        lemma_fragments(nal.len(), n - 1);
        lemma_fragments(nal.len(), n - 2);
        lemma_fragments_fed(s, nal, n - 1);
        lemma_fragment_bits(nal[0]);
        assert(all.drop_last() =~= all.take(n - 1));
        assert(all.last() == fragment(nal, n - 1));
        let body = nal.subrange(fragment_begin(n - 1), nal.len() as int);
        assert(fragment(nal, n - 1).skip(2) =~= body);
        assert(nal.take(fragment_end(nal.len(), n - 2)) + body =~= nal);
    }
}

/// A receiver of the payloads of an access unit gets back its NAL units, each
/// as it was and in order, fragmented or not.
pub proof fn receivers_get_the_units_back(nals: Seq<Seq<u8>>)
    requires
        forall|k: int| 0 <= k < nals.len() ==> sound(#[trigger] nals[k]),
    ensures
        Received::nothing().fed_all(unit_payloads(nals)) == (Received {
            units: nals,
            open: seq![],
        }),
    decreases nals.len(),
{
    if nals.len() == 0 {
        assert(nals =~= seq![]);
    } else {
        let before = nals.drop_last();
        assert forall|k: int| 0 <= k < before.len() implies sound(#[trigger] before[k]) by {
            assert(sound(nals[k]));
        }
        receivers_get_the_units_back(before);
        lemma_fed_append(
            Received::nothing(),
            unit_payloads(before),
            payloads(nals.last()),
        );
        assert(sound(nals[nals.len() - 1]));
        lemma_unit_fed(Received { units: before, open: seq![] }, nals.last());
        assert(before.push(nals.last()) =~= nals);
    }
}

/// The sequence number in a packet.
pub open spec fn number_in(p: Seq<u8>) -> int {
    p[2] * 256 + p[3]
}

/// Whether a packet is marked as the last of its access unit.
pub open spec fn is_marked(p: Seq<u8>) -> bool {
    p[1] & 0x80 != 0
}

/// The payload in a packet.
pub open spec fn payload_in(p: Seq<u8>) -> Seq<u8> {
    p.skip(12)
}

/// The packets of an access unit carry its payloads in order, are numbered on
/// from the first one, and just the last one is marked.
pub proof fn packets_are_in_order(
    nals: Seq<Seq<u8>>,
    timestamp: u32,
    ssrc: u32,
    seq: u16,
    j: int,
)
    requires
        nals.len() > 0,
        nals.last().len() > 0,
        0 <= j < unit_packets(nals, timestamp, ssrc, seq).len(),
    ensures
        ({
            let all = unit_packets(nals, timestamp, ssrc, seq);
            &&& number_in(all[j]) == (seq + j) % 65536
            &&& is_marked(all[j]) == (j == all.len() - 1)
            &&& payload_in(all[j]) == unit_payloads(nals)[j]
        }),
{
    reveal(packet);
    let all = unit_packets(nals, timestamp, ssrc, seq);
    assert(0xe0u8 & 0x80 != 0 && 0x60u8 & 0x80 == 0) by (bit_vector);
    assert(payload_in(all[j]) =~= unit_payloads(nals)[j]);
}

/// No payload is empty or above the limit.
pub proof fn payloads_fit(nal: Seq<u8>, j: int)
    requires
        0 <= j < payloads(nal).len(),
    ensures
        0 < payloads(nal)[j].len() <= RTP_MTU,
{
    if nal.len() > RTP_MTU {
        lemma_fragments(nal.len(), j);
    }
}

/// A NAL unit that fits is sent in one packet; the longer ones are those that
/// are fragmented.
pub proof fn one_payload_unless_too_long(nal: Seq<u8>)
    requires
        nal.len() > 0,
    ensures
        (payloads(nal).len() == 1) == !annexb::too_long()(nal),
{
    if nal.len() > RTP_MTU {
        lemma_fragments(nal.len(), 0);
    }
}

/// No packet of an access unit is longer than a header and the largest payload.
pub proof fn packets_fit(nals: Seq<Seq<u8>>, timestamp: u32, ssrc: u32, seq: u16, j: int)
    requires
        0 <= j < unit_packets(nals, timestamp, ssrc, seq).len(),
    ensures
        12 < unit_packets(nals, timestamp, ssrc, seq)[j].len() <= 12 + RTP_MTU,
{
    reveal(packet);
    lemma_unit_payloads_fit(nals, j);
}

proof fn lemma_unit_payloads_fit(nals: Seq<Seq<u8>>, j: int)
    requires
        0 <= j < unit_payloads(nals).len(),
    ensures
        0 < unit_payloads(nals)[j].len() <= RTP_MTU,
    decreases nals.len(),
{
    let before = unit_payloads(nals.drop_last()).len();
    if j < before {
        lemma_unit_payloads_fit(nals.drop_last(), j);
    } else {
        payloads_fit(nals.last(), j - before);
    }
}

/// An RTP packet has version 2, payload type 96 and the marker in its second byte,
/// then the sequence number, the timestamp and the source, each with the most
/// significant byte first, and then the payload.
pub proof fn packets_tell_what_they_are(
    seq: u16,
    timestamp: u32,
    ssrc: u32,
    marker: bool,
    payload: Seq<u8>,
)
    ensures
        ({
            let p = packet(seq, timestamp, ssrc, marker, payload);
            &&& p.len() == 12 + payload.len()
            &&& p[0] == 0x80
            &&& p[1] == (if marker {
                224int
            } else {
                96
            })
            &&& p[2] * 256 + p[3] == seq
            &&& p[4] * 16777216 + p[5] * 65536 + p[6] * 256 + p[7] == timestamp
            &&& p[8] * 16777216 + p[9] * 65536 + p[10] * 256 + p[11] == ssrc
            &&& forall|i: int| 0 <= i < payload.len() ==> #[trigger] p[12 + i] == payload[i]
        }),
{
    reveal(packet);
}

/// A unit of up to 1200 bytes is its own payload. A longer one is cut behind its first
/// byte: every payload but the last has 1200 bytes, of which the first two tell the
/// importance of the unit and its type, where it begins and where it ends, and the
/// others are those of the unit, in order.
pub proof fn long_units_are_cut_into_full_packets(nal: Seq<u8>, j: int, i: int)
    requires
        0 <= j < payloads(nal).len(),
        2 <= i < payloads(nal)[j].len(),
    ensures
        0 < nal.len() <= 1200 ==> payloads(nal) == seq![nal],
        nal.len() > 1200 ==> {
            let all = payloads(nal);
            let p = all[j];
            &&& 1198 * (all.len() - 1) < nal.len() - 1 <= 1198 * all.len()
            &&& j < all.len() - 1 ==> p.len() == 1200
            &&& j == all.len() - 1 ==> p.len() == 2 + nal.len() - 1 - 1198 * j
            &&& p[0] == nal[0] / 32 % 4 * 32 + 28
            &&& p[1] == (if j == 0 {
                128int
            } else {
                0
            }) + (if j == all.len() - 1 {
                64int
            } else {
                0
            }) + nal[0] % 32
            &&& p[i] == nal[1 + 1198 * j + i - 2]
        },
{
    if nal.len() > RTP_MTU {
        lemma_fragments(nal.len(), j);
        let b = nal[0];
        let first = j == 0;
        let last = j == fragment_count(nal.len()) - 1;
        assert(((b & 0x60) | 28u8) == b / 32 % 4 * 32 + 28) by (bit_vector);
        lemma_header_bits(b, first, last);
    } else if nal.len() > 0 {
        assert(payloads(nal) =~= seq![nal]);
    }
}

proof fn lemma_header_bits(b: u8, first: bool, last: bool)
    ensures
        ((if first {
            0x80u8
        } else {
            0u8
        }) | (if last {
            0x40u8
        } else {
            0u8
        }) | (b & 0x1f)) == (if first {
            128int
        } else {
            0
        }) + (if last {
            64int
        } else {
            0
        }) + b % 32,
{
    assert((0x80u8 | 0x40u8 | (b & 0x1f)) == 192 + b % 32) by (bit_vector);
    assert((0x80u8 | 0u8 | (b & 0x1f)) == 128 + b % 32) by (bit_vector);
    assert((0u8 | 0x40u8 | (b & 0x1f)) == 64 + b % 32) by (bit_vector);
    assert((0u8 | 0u8 | (b & 0x1f)) == b % 32) by (bit_vector);
}

/// The payloads of the units of a frame come one unit after the other.
pub proof fn payloads_come_unit_by_unit(nals: Seq<Seq<u8>>, nal: Seq<u8>)
    ensures
        unit_payloads(Seq::<Seq<u8>>::empty()).len() == 0,
        unit_payloads(nals.push(nal)) == unit_payloads(nals) + payloads(nal),
{
    assert(nals.push(nal).drop_last() =~= nals);
}

} // verus!
