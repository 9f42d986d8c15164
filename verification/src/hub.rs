//! The stream hub: what each channel sends, and to whom.
use std::collections::HashMap;

use vstd::prelude::*;
use vstd::slice::slice_to_vec;

use crate::annexb;
use crate::annexb::{nal_type, split_annexb, RTP_MTU};
use crate::number;
use crate::rtp;
use crate::rtp::{fragment_of, rtp_packet};
use crate::text;

verus! {

broadcast use {vstd::std_specs::hash::group_hash_axioms, vstd::string::group_string_axioms};

/// A client that plays a channel.
#[derive(Clone, Copy, Debug, PartialEq, Eq, Structural)]
pub struct RtspSubscriber {
    /// No access unit is sent until the first IDR after the client connected.
    pub needs_idr: bool,
}

/// The state of one channel.
pub struct ChannelHub {
    pub subscribers: HashMap<u64, RtspSubscriber>,
    pub next_subscriber: u64,
    pub sequence: u16,
    /// The last RTP timestamp sent.
    pub timestamp: u32,
    /// When the first access unit was sent, in nanoseconds.
    pub stream_epoch: Option<u64>,
    pub sps: Option<Vec<u8>>,
    pub pps: Option<Vec<u8>>,
}

/// What a channel holds.
#[verifier::ext_equal]
pub struct Channel {
    pub subscribers: Map<u64, RtspSubscriber>,
    pub next_subscriber: u64,
    pub sequence: u16,
    pub timestamp: u32,
    pub stream_epoch: Option<u64>,
    pub sps: Option<Seq<u8>>,
    pub pps: Option<Seq<u8>>,
}

/// What an optional buffer holds.
pub open spec fn buffer_view(b: Option<Vec<u8>>) -> Option<Seq<u8>> {
    match b {
        Some(v) => Some(v@),
        None => None,
    }
}

impl View for ChannelHub {
    type V = Channel;

    open spec fn view(&self) -> Channel {
        Channel {
            subscribers: self.subscribers@,
            next_subscriber: self.next_subscriber,
            sequence: self.sequence,
            timestamp: self.timestamp,
            stream_epoch: self.stream_epoch,
            sps: buffer_view(self.sps),
            pps: buffer_view(self.pps),
        }
    }
}

impl Channel {
    /// Every subscriber has a number that was given out.
    pub open spec fn wf(self) -> bool {
        1 <= self.next_subscriber && forall|id: u64| #[trigger]
            self.subscribers.contains_key(id) ==> 1 <= id < self.next_subscriber
    }

    /// A channel that nothing has been sent on.
    pub open spec fn fresh() -> Channel {
        Channel {
            subscribers: Map::empty(),
            next_subscriber: 1,
            sequence: 1,
            timestamp: 0,
            stream_epoch: None,
            sps: None,
            pps: None,
        }
    }
}

/// Holds of the NAL units that are sent on: not empty, no access unit delimiter.
pub open spec fn sendable() -> spec_fn(Seq<u8>) -> bool {
    |u: Seq<u8>| u.len() > 0 && annexb::kind(u) != Some(9u8)
}

/// Holds of the slices of a picture.
pub open spec fn slice_data() -> spec_fn(Seq<u8>) -> bool {
    |u: Seq<u8>| annexb::kind(u) == Some(1u8) || annexb::kind(u) == Some(5u8)
}

/// NAL units in the order in which they are decoded: sequence parameter sets,
/// picture parameter sets, supplemental information, slices. Others are left out.
pub open spec fn decode_order(nals: Seq<Seq<u8>>) -> Seq<Seq<u8>> {
    nals.filter(annexb::of_kind(7)) + nals.filter(annexb::of_kind(8)) + nals.filter(
        annexb::of_kind(6),
    ) + nals.filter(slice_data())
}

/// The last of the units of type `k`, or `known` where there is none.
pub open spec fn latest(nals: Seq<Seq<u8>>, k: u8, known: Option<Seq<u8>>) -> Option<Seq<u8>>
    decreases nals.len(),
{
    if nals.len() == 0 {
        known
    } else if annexb::kind(nals.last()) == Some(k) {
        Some(nals.last())
    } else {
        latest(nals.drop_last(), k, known)
    }
}

impl Channel {
    /// The channel with the parameter sets among the units remembered.
    pub open spec fn collected(self, nals: Seq<Seq<u8>>) -> Channel {
        Channel {
            sps: latest(nals, 7, self.sps),
            pps: latest(nals, 8, self.pps),
            ..self
        }
    }
}

/// Puts the NAL units of an access unit in decoding order.
pub fn reorder_nals_for_decode<'a>(nals: Vec<&'a [u8]>) -> (r: Vec<&'a [u8]>)
    ensures
        annexb::views(r@) == decode_order(annexb::views(nals@)),
{
    let mut sps: Vec<&'a [u8]> = Vec::new();
    let mut pps: Vec<&'a [u8]> = Vec::new();
    let mut sei: Vec<&'a [u8]> = Vec::new();
    let mut vcl: Vec<&'a [u8]> = Vec::new();
    let ghost all = annexb::views(nals@);
    proof {
        reveal(Seq::filter);
        assert(all.take(0) =~= seq![]);
        assert(annexb::views(sps@) =~= seq![]);
    }
    let mut i: usize = 0;
    while i < nals.len()
        invariant
            i <= nals@.len(),
            all == annexb::views(nals@),
            annexb::views(sps@) == all.take(i as int).filter(annexb::of_kind(7)),
            annexb::views(pps@) == all.take(i as int).filter(annexb::of_kind(8)),
            annexb::views(sei@) == all.take(i as int).filter(annexb::of_kind(6)),
            annexb::views(vcl@) == all.take(i as int).filter(slice_data()),
        decreases nals@.len() - i,
    {
        let nal = nals[i];
        proof {
            reveal(Seq::filter);
            assert(all.take(i + 1).drop_last() =~= all.take(i as int));
            assert(all.take(i + 1).last() == nal@);
            lemma_views_push(sps@, nal);
            lemma_views_push(pps@, nal);
            lemma_views_push(sei@, nal);
            lemma_views_push(vcl@, nal);
        }
        match nal_type(nal) {
            Some(7) => sps.push(nal),
            Some(8) => pps.push(nal),
            Some(6) => sei.push(nal),
            Some(1) | Some(5) => vcl.push(nal),
            _ => {},
        }
        i += 1;
    }
    assert(all.take(i as int) =~= all);
    let ghost parts = (sps@, pps@, sei@, vcl@);
    sps.append(&mut pps);
    sps.append(&mut sei);
    sps.append(&mut vcl);
    assert(annexb::views(sps@) =~= annexb::views(parts.0) + annexb::views(parts.1) + annexb::views(
        parts.2,
    ) + annexb::views(parts.3));
    sps
}

proof fn lemma_views_push(s: Seq<&[u8]>, n: &[u8])
    ensures
        annexb::views(s.push(n)) == annexb::views(s).push(n@),
{
    assert(annexb::views(s.push(n)) =~= annexb::views(s).push(n@));
}

/// Picks the NAL units to send, and remembers the parameter sets among them.
pub fn collect_rtp_nals<'a>(nals: &[&'a [u8]], ch: &mut ChannelHub) -> (r: Vec<&'a [u8]>)
    ensures
        annexb::views(r@) == annexb::views(nals@).filter(sendable()),
        final(ch)@ == old(ch)@.collected(annexb::views(nals@)),
{
    let mut out: Vec<&'a [u8]> = Vec::new();
    let ghost all = annexb::views(nals@);
    let ghost start = ch@;
    proof {
        reveal(Seq::filter);
        assert(all.take(0) =~= seq![]);
        assert(annexb::views(out@) =~= seq![]);
        assert(start.collected(all.take(0)) =~= start);
    }
    let mut i: usize = 0;
    while i < nals.len()
        invariant
            i <= nals@.len(),
            all == annexb::views(nals@),
            annexb::views(out@) == all.take(i as int).filter(sendable()),
            ch@ == start.collected(all.take(i as int)),
        decreases nals@.len() - i,
    {
        let nal = nals[i];
        proof {
            reveal(Seq::filter);
            assert(all.take(i + 1).drop_last() =~= all.take(i as int));
            assert(all.take(i + 1).last() == nal@);
            lemma_views_push(out@, nal);
        }
        let kind = nal_type(nal);
        match kind {
            Some(7) => {
                ch.sps = Some(slice_to_vec(nal));
            },
            Some(8) => {
                ch.pps = Some(slice_to_vec(nal));
            },
            _ => {},
        }
        match kind {
            None | Some(9) => {},
            _ => {
                out.push(nal);
            },
        }
        i += 1;
    }
    assert(all.take(i as int) =~= all);
    out
}

/// The timestamp that follows `last`: `ticks`, or one more than `last` where
/// that is not above it. The largest timestamp is followed by itself.
pub open spec fn stamp_after(last: u32, ticks: u32) -> u32 {
    if last > 0 && ticks <= last {
        if last < u32::MAX {
            (last + 1) as u32
        } else {
            last
        }
    } else {
        ticks
    }
}

impl Channel {
    /// Nanoseconds since the first access unit was sent, or none yet.
    pub open spec fn elapsed_at(self, now: u64) -> u64 {
        match self.stream_epoch {
            Some(epoch) => if now > epoch {
                (now - epoch) as u64
            } else {
                0
            },
            None => 0,
        }
    }

    /// The channel once a timestamp was taken at `now`.
    pub open spec fn stamped(self, now: u64, ticks: u32) -> Channel {
        Channel {
            stream_epoch: match self.stream_epoch {
                Some(epoch) => Some(epoch),
                None => Some(now),
            },
            timestamp: stamp_after(self.timestamp, ticks),
            ..self
        }
    }

    /// The channel once `n` sequence numbers were taken.
    pub open spec fn numbered(self, n: int) -> Channel {
        Channel { sequence: rtp::sequence_after(self.sequence, n), ..self }
    }
}

impl ChannelHub {
    /// A channel that nothing has been sent on.
    pub fn new() -> (r: ChannelHub)
        ensures
            r@ == Channel::fresh(),
            r@.wf(),
    {
        ChannelHub {
            subscribers: HashMap::new(),
            next_subscriber: 1,
            sequence: 1,
            timestamp: 0,
            stream_epoch: None,
            sps: None,
            pps: None,
        }
    }

    /// Takes the next sequence number; after the largest comes zero.
    pub fn next_sequence(&mut self) -> (r: u16)
        ensures
            r == old(self).sequence,
            final(self)@ == old(self)@.numbered(1),
    {
        let seq: u16 = self.sequence;
        self.sequence = self.sequence.wrapping_add(1);
        seq
    }

    /// How long the stream has been running at `now`, in nanoseconds.
    pub fn elapsed(&self, now: u64) -> (r: u64)
        ensures
            r == self@.elapsed_at(now),
    {
        match self.stream_epoch {
            Some(epoch) => if now > epoch {
                now - epoch
            } else {
                0
            },
            None => 0,
        }
    }
}

/// Takes the RTP timestamp for an access unit that is sent at `now`, where
/// `ticks` is how long the stream has been running by then in units of the
/// 90 kHz clock. The first one starts the clock.
pub fn next_rtp_timestamp(ch: &mut ChannelHub, now: u64, ticks: u32) -> (r: u32)
    ensures
        r == stamp_after(old(ch).timestamp, ticks),
        final(ch)@ == old(ch)@.stamped(now, ticks),
{
    if ch.stream_epoch.is_none() {
        ch.stream_epoch = Some(now);
    }
    let mut ts: u32 = ticks;
    if ch.timestamp > 0 && ts <= ch.timestamp {
        ts = ch.timestamp.saturating_add(1);
    }
    ch.timestamp = ts;
    ts
}

/// A timestamp is never below the one before it, and above it unless the clock
/// has not moved yet or is at its end.
pub proof fn timestamps_do_not_go_back(last: u32, ticks: u32)
    ensures
        stamp_after(last, ticks) >= last,
        last < u32::MAX && (last > 0 || ticks > 0) ==> stamp_after(last, ticks) > last,
        ticks > last ==> stamp_after(last, ticks) == ticks,
{
}

/// Appends the packets that carry a NAL unit.
pub fn packetize_nal(
    nal: &[u8],
    marker: bool,
    timestamp: u32,
    ssrc: u32,
    ch: &mut ChannelHub,
    out: &mut Vec<Vec<u8>>,
)
    ensures
        rtp::packet_views(final(out)@) == rtp::packet_views(old(out)@) + rtp::packets_of(
            rtp::payloads(nal@),
            marker,
            timestamp,
            ssrc,
            old(ch).sequence,
        ),
        final(ch)@ == old(ch)@.numbered(rtp::payloads(nal@).len() as int),
{
    let ghost before = out@;
    let ghost start = ch@;
    let ghost all = rtp::payloads(nal@);
    let ghost goal = rtp::packets_of(all, marker, timestamp, ssrc, start.sequence);
    let len: usize = nal.len();
    if len == 0 {
        assert(rtp::packet_views(before) + goal =~= rtp::packet_views(before));
        return;
    }
    if len <= RTP_MTU {
        let seq: u16 = ch.next_sequence();
        let p = rtp_packet(seq, timestamp, ssrc, marker, nal);
        out.push(p);
        assert(rtp::packet_views(out@) =~= rtp::packet_views(before) + goal);
        return;
    }
    let mut offset: usize = 1;
    let ghost mut j: int = 0;
    assert(rtp::packet_views(out@) =~= rtp::packet_views(before) + goal.take(0));
    while offset < len
        invariant
            len == nal@.len(),
            len > RTP_MTU,
            all == rtp::payloads(nal@),
            goal == rtp::packets_of(all, marker, timestamp, ssrc, start.sequence),
            0 <= j <= all.len(),
            offset == (if j < all.len() {
                rtp::fragment_begin(j)
            } else {
                len as int
            }),
            ch@ == start.numbered(j),
            rtp::packet_views(out@) == rtp::packet_views(before) + goal.take(j),
        decreases len - offset,
    {
        let remaining: usize = len - offset;
        let take: usize = if remaining < RTP_MTU - 2 {
            remaining
        } else {
            RTP_MTU - 2
        };
        let first = offset == 1;
        let end = offset + take >= len;
        proof {
            rtp::lemma_fragments(nal@.len(), j);
            assert(first == (j == 0));
            assert(offset + take == rtp::fragment_end(nal@.len(), j));
        }
        let payload = fragment_of(nal, first, offset, offset + take);
        assert(payload@ == rtp::fragment(nal@, j));
        let ghost so_far = out@;
        let seq: u16 = ch.next_sequence();
        let p = rtp_packet(seq, timestamp, ssrc, marker && end, payload.as_slice());
        out.push(p);
        offset = offset + take;
        proof {
            assert(payload@ == all[j]);
            assert(p@ == goal[j]);
            assert(rtp::packet_views(out@) =~= rtp::packet_views(so_far).push(p@));
            assert(goal.take(j + 1) =~= goal.take(j).push(goal[j]));
            j = j + 1;
        }
    }
    assert(goal.take(j) =~= goal);
}

proof fn lemma_packets_append(
    a: Seq<Seq<u8>>,
    b: Seq<Seq<u8>>,
    marker: bool,
    timestamp: u32,
    ssrc: u32,
    seq: u16,
)
    ensures
        (b.len() > 0 || !marker) ==> rtp::packets_of(a + b, marker, timestamp, ssrc, seq)
            == rtp::packets_of(a, false, timestamp, ssrc, seq) + rtp::packets_of(
            b,
            marker,
            timestamp,
            ssrc,
            rtp::sequence_after(seq, a.len() as int),
        ),
{
    if b.len() > 0 || !marker {
        let n = a.len() as int;
        let next = rtp::sequence_after(seq, n);
        let whole = rtp::packets_of(a + b, marker, timestamp, ssrc, seq);
        let head = rtp::packets_of(a, false, timestamp, ssrc, seq);
        let tail = rtp::packets_of(b, marker, timestamp, ssrc, next);
        assert forall|j: int| 0 <= j < whole.len() implies whole[j] == (head + tail)[j] by {
            if j < n {
                assert((a + b)[j] == a[j]);
                assert(head[j] == rtp::packet(
                    rtp::sequence_after(seq, j),
                    timestamp,
                    ssrc,
                    false,
                    a[j],
                ));
            } else {
                assert((a + b)[j] == b[j - n]);
                assert(rtp::sequence_after(next, j - n) == rtp::sequence_after(seq, j));
                assert(tail[j - n] == rtp::packet(
                    rtp::sequence_after(seq, j),
                    timestamp,
                    ssrc,
                    marker && j - n == b.len() - 1,
                    b[j - n],
                ));
            }
        }
        assert(whole =~= head + tail);
    }
}

/// Appends the packets of an access unit. The last packet is marked.
pub fn packetize_access_unit(
    nals: &[&[u8]],
    timestamp: u32,
    ssrc: u32,
    ch: &mut ChannelHub,
    out: &mut Vec<Vec<u8>>,
)
    ensures
        rtp::packet_views(final(out)@) == rtp::packet_views(old(out)@) + rtp::unit_packets(
            annexb::views(nals@),
            timestamp,
            ssrc,
            old(ch).sequence,
        ),
        final(ch)@ == old(ch)@.numbered(rtp::unit_payloads(annexb::views(nals@)).len() as int),
{
    let ghost before = out@;
    let ghost start = ch@;
    let ghost all = annexb::views(nals@);
    let count: usize = nals.len();
    let mut i: usize = 0;
    proof {
        assert(all.take(0) =~= seq![]);
        assert(rtp::packet_views(out@) =~= rtp::packet_views(before) + rtp::packets_of(
            rtp::unit_payloads(all.take(0)),
            false,
            timestamp,
            ssrc,
            start.sequence,
        ));
    }
    while i < count
        invariant
            i <= count == nals@.len(),
            all == annexb::views(nals@),
            ch@ == start.numbered(rtp::unit_payloads(all.take(i as int)).len() as int),
            rtp::packet_views(out@) == rtp::packet_views(before) + rtp::packets_of(
                rtp::unit_payloads(all.take(i as int)),
                i == count && count > 0 && all.last().len() > 0,
                timestamp,
                ssrc,
                start.sequence,
            ),
        decreases count - i,
    {
        let nal = nals[i];
        let marker = i + 1 == count;
        let ghost so_far = out@;
        let ghost seq = ch@.sequence;
        packetize_nal(nal, marker, timestamp, ssrc, ch, out);
        proof {
            let now = all.take(i + 1);
            assert(now.drop_last() =~= all.take(i as int));
            assert(now.last() == nal@);
            let a = rtp::unit_payloads(now.drop_last());
            let b = rtp::payloads(nal@);
            if nal@.len() == 0 {
                assert(rtp::packets_of(b, marker, timestamp, ssrc, seq) =~= rtp::packets_of(
                    b,
                    false,
                    timestamp,
                    ssrc,
                    seq,
                ));
                lemma_packets_append(a, b, false, timestamp, ssrc, start.sequence);
            } else {
                if nal@.len() > RTP_MTU {
                    rtp::lemma_fragments(nal@.len(), 0);
                }
                lemma_packets_append(a, b, marker, timestamp, ssrc, start.sequence);
            }
            let marked = i + 1 == count && all.last().len() > 0;
            assert(rtp::packet_views(out@) =~= rtp::packet_views(before) + rtp::packets_of(
                rtp::unit_payloads(now),
                marked,
                timestamp,
                ssrc,
                start.sequence,
            ));
        }
        i += 1;
    }
    assert(all.take(i as int) =~= all);
}

/// The access unit that is sent for a frame: its NAL units in decoding order.
pub open spec fn access_unit(data: Seq<u8>) -> Seq<Seq<u8>> {
    decode_order(annexb::nal_units(data).filter(sendable()))
}

/// Whether an access unit holds a slice; one without is not sent.
pub open spec fn has_picture(unit: Seq<Seq<u8>>) -> bool {
    annexb::has_kind(unit, 5) || annexb::has_kind(unit, 1)
}

/// The RTP source identifier of a channel.
pub open spec fn ssrc_of(channel: int) -> u32 {
    (0x4e394d00 + channel) as u32
}

impl Channel {
    /// Whether a client can start with this access unit: it holds an IDR
    /// picture, and a sequence parameter set is known.
    pub open spec fn unlocks(self, unit: Seq<Seq<u8>>) -> bool {
        annexb::has_kind(unit, 5) && self.sps is Some
    }

    /// Whether the access unit goes to the subscriber with this number.
    pub open spec fn receives(self, unit: Seq<Seq<u8>>, id: u64) -> bool {
        self.subscribers.contains_key(id) && (!self.subscribers[id].needs_idr || self.unlocks(
            unit,
        ))
    }

    /// The channel once the access unit was handed out.
    pub open spec fn served(self, unit: Seq<Seq<u8>>) -> Channel {
        Channel {
            subscribers: self.subscribers.map_values(
                |s: RtspSubscriber|
                    RtspSubscriber { needs_idr: s.needs_idr && !self.unlocks(unit) },
            ),
            ..self
        }
    }

    /// The channel once a frame was published on it.
    pub open spec fn published(self, data: Seq<u8>, now: u64, ticks: u32) -> Channel {
        let unit = access_unit(data);
        let known = self.collected(annexb::nal_units(data));
        if has_picture(unit) {
            known.stamped(now, ticks).numbered(rtp::unit_payloads(unit).len() as int).served(unit)
        } else {
            known
        }
    }

    /// The packets that a frame is published in.
    pub open spec fn packets_for(self, channel: int, data: Seq<u8>, ticks: u32) -> Seq<Seq<u8>> {
        rtp::unit_packets(
            access_unit(data),
            stamp_after(self.timestamp, ticks),
            ssrc_of(channel),
            self.sequence,
        )
    }

    /// Whether these are the subscribers that a frame goes to, each once.
    pub open spec fn addressed(self, data: Seq<u8>, ids: Seq<u64>) -> bool {
        let known = self.collected(annexb::nal_units(data));
        &&& ids.no_duplicates()
        &&& forall|id: u64|
            #[trigger] ids.contains(id) <==> known.receives(access_unit(data), id)
    }
}

/// What publishing a frame asks for: packets, and who gets them.
pub struct Delivery {
    pub packets: Vec<Vec<u8>>,
    pub recipients: Vec<u64>,
}

proof fn lemma_contains_push(s: Seq<u64>, x: u64, y: u64)
    ensures
        s.push(x).contains(y) == (s.contains(y) || x == y),
{
    if s.contains(y) {
        let m = s.index_of(y);
        assert(s.push(x)[m] == y);
    }
    assert(s.push(x)[s.len() as int] == x);
    if s.push(x).contains(y) && x != y {
        let m = s.push(x).index_of(y);
        assert(s[m] == y);
    }
}

impl ChannelHub {
    fn numbers(&self) -> (ids: Vec<u64>)
        ensures
            ids@.no_duplicates(),
            ids@.to_set() == self.subscribers@.dom(),
    {
        let mut ids: Vec<u64> = Vec::new();
        for id in it: self.subscribers.keys()
            invariant
                it.seq().no_duplicates(),
                it.seq().unref().to_set() == self.subscribers@.dom(),
                ids@ == it.seq().unref().take(it.index()),
        {
            ids.push(*id);
            assert(ids@ =~= it.seq().unref().take(it.index() + 1));
        }
        proof {
            let keys = vstd::std_specs::iter::IteratorSpec::remaining(&self.subscribers.keys());
            assert(ids@ =~= keys.unref());
            assert forall|i: int, j: int| 0 <= i < j < ids@.len() implies ids@[i] != ids@[j] by {
                assert(keys[i] != keys[j]);
            }
        }
        ids
    }

    fn ready(&self, unlocks: bool) -> (ids: Vec<u64>)
        ensures
            ids@.no_duplicates(),
            forall|id: u64| #[trigger]
                ids@.contains(id) <==> self.subscribers@.contains_key(id) && (
                !self.subscribers@[id].needs_idr || unlocks),
    {
        let all = self.numbers();
        let ghost subs = self.subscribers@;
        let mut ids: Vec<u64> = Vec::new();
        let mut i: usize = 0;
        while i < all.len()
            invariant
                i <= all@.len(),
                subs == self.subscribers@,
                all@.no_duplicates(),
                all@.to_set() == subs.dom(),
                ids@.no_duplicates(),
                forall|k: int|
                    0 <= k < ids@.len() ==> all@.take(i as int).contains(#[trigger] ids@[k]) && (
                    !subs[ids@[k]].needs_idr || unlocks),
                forall|j: int|
                    0 <= j < i && (!subs[all@[j]].needs_idr || unlocks) ==> ids@.contains(
                        #[trigger] all@[j],
                    ),
            decreases all@.len() - i,
        {
            let id: u64 = all[i];
            let ghost before = ids@;
            assert(all@.to_set().contains(all@[i as int]));
            match self.subscribers.get(&id) {
                Some(sub) => {
                    if !sub.needs_idr || unlocks {
                        ids.push(id);
                    }
                },
                None => {},
            }
            proof {
                assert(all@.take(i + 1) =~= all@.take(i as int).push(id));
                assert(!all@.take(i as int).contains(id));
                assert forall|k: int| 0 <= k < ids@.len() implies all@.take(i + 1).contains(
                    #[trigger] ids@[k],
                ) && (!subs[ids@[k]].needs_idr || unlocks) by {
                    if k < before.len() {
                        assert(ids@[k] == before[k]);
                        let m = choose|m: int|
                            0 <= m < all@.take(i as int).len() && all@.take(i as int)[m]
                                == before[k];
                        assert(all@.take(i + 1)[m] == before[k]);
                    } else {
                        assert(all@.take(i + 1)[i as int] == id);
                    }
                }
                assert forall|j: int|
                    0 <= j < i + 1 && (!subs[all@[j]].needs_idr || unlocks) implies ids@.contains(
                    #[trigger] all@[j],
                ) by {
                    if j < i {
                        let m = choose|m: int| 0 <= m < before.len() && before[m] == all@[j];
                        assert(ids@[m] == all@[j]);
                    } else {
                        assert(ids@[ids@.len() - 1] == id);
                    }
                }
            }
            i += 1;
        }
        proof {
            assert(all@.take(i as int) =~= all@);
            assert forall|id: u64| #[trigger] ids@.contains(id) <==> subs.contains_key(id) && (
            !subs[id].needs_idr || unlocks) by {
                if ids@.contains(id) {
                    let k = choose|k: int| 0 <= k < ids@.len() && ids@[k] == id;
                    assert(all@.contains(ids@[k]));
                    assert(all@.to_set().contains(id));
                }
                if subs.contains_key(id) && (!subs[id].needs_idr || unlocks) {
                    assert(all@.to_set().contains(id));
                    let j = choose|j: int| 0 <= j < all@.len() && all@[j] == id;
                    assert(ids@.contains(all@[j]));
                }
            }
        }
        ids
    }

    fn mark_served(&mut self, ids: &Vec<u64>)
        requires
            forall|k: int|
                0 <= k < ids@.len() ==> old(self).subscribers@.contains_key(#[trigger] ids@[k]),
        ensures
            final(self)@ == (Channel { subscribers: final(self).subscribers@, ..old(self)@ }),
            final(self).subscribers@.dom() == old(self).subscribers@.dom(),
            forall|id: u64| #[trigger]
                final(self).subscribers@.contains_key(id) ==> final(self).subscribers@[id].needs_idr
                    == (old(self).subscribers@[id].needs_idr && !ids@.contains(id)),
    {
        let ghost start = self.subscribers@;
        let mut i: usize = 0;
        while i < ids.len()
            invariant
                i <= ids@.len(),
                forall|k: int| 0 <= k < ids@.len() ==> start.contains_key(#[trigger] ids@[k]),
                self@ == (Channel { subscribers: self.subscribers@, ..old(self)@ }),
                start == old(self).subscribers@,
                self.subscribers@.dom() == start.dom(),
                forall|id: u64| #[trigger]
                    self.subscribers@.contains_key(id) ==> self.subscribers@[id].needs_idr == (
                    start[id].needs_idr && !ids@.take(i as int).contains(id)),
            decreases ids@.len() - i,
        {
            let id: u64 = ids[i];
            let ghost before = self.subscribers@;
            self.subscribers.insert(id, RtspSubscriber { needs_idr: false });
            proof {
                assert(start.contains_key(ids@[i as int]));
                assert(self.subscribers@.dom() =~= start.dom());
                assert(ids@.take(i + 1) =~= ids@.take(i as int).push(id));
                assert forall|other: u64| #[trigger]
                    self.subscribers@.contains_key(
                        other,
                    ) implies self.subscribers@[other].needs_idr == (start[other].needs_idr
                    && !ids@.take(i + 1).contains(other)) by {
                    assert(before.contains_key(other));
                    if other == id {
                        assert(ids@.take(i + 1)[i as int] == id);
                    } else {
                        lemma_contains_push(ids@.take(i as int), id, other);
                    }
                }
            }
            i += 1;
        }
        assert(ids@.take(i as int) =~= ids@);
    }

    /// Publishes a frame on this channel: remembers its parameter sets, and
    /// where it holds a picture, says what to send to whom.
    pub fn publish(&mut self, channel: usize, annexb: &[u8], now: u64, ticks: u32) -> (r: Option<
        Delivery,
    >)
        requires
            1 <= channel <= 4,
        ensures
            final(self)@ == old(self)@.published(annexb@, now, ticks),
            r is Some <==> has_picture(access_unit(annexb@)),
            r matches Some(d) ==> {
                &&& rtp::packet_views(d.packets@) == old(self)@.packets_for(
                    channel as int,
                    annexb@,
                    ticks,
                )
                &&& old(self)@.addressed(annexb@, d.recipients@)
            },
    {
        let nals = split_annexb(annexb);
        let unit = reorder_nals_for_decode(collect_rtp_nals(nals.as_slice(), self));
        let ghost views = annexb::views(unit@);
        let mut has_idr: bool = false;
        let mut has_slice: bool = false;
        let mut i: usize = 0;
        while i < unit.len()
            invariant
                i <= unit@.len(),
                views == annexb::views(unit@),
                has_idr == annexb::has_kind(views.take(i as int), 5),
                has_slice == annexb::has_kind(views.take(i as int), 1),
            decreases unit@.len() - i,
        {
            let kind = nal_type(unit[i]);
            proof {
                assert(views.take(i + 1).drop_last() =~= views.take(i as int));
                annexb::lemma_has_kind_push(views.take(i + 1), 5);
                annexb::lemma_has_kind_push(views.take(i + 1), 1);
            }
            match kind {
                Some(5) => {
                    has_idr = true;
                },
                Some(1) => {
                    has_slice = true;
                },
                _ => {},
            }
            i += 1;
        }
        assert(views.take(i as int) =~= views);
        if !has_idr && !has_slice {
            return None;
        }
        let ghost known = self@;
        let timestamp: u32 = next_rtp_timestamp(self, now, ticks);
        let ssrc: u32 = 0x4e394d00 + channel as u32;
        let mut packets: Vec<Vec<u8>> = Vec::new();
        packetize_access_unit(unit.as_slice(), timestamp, ssrc, self, &mut packets);
        let unlocks = has_idr && self.sps.is_some();
        let recipients = self.ready(unlocks);
        let ghost before = self@;
        proof {
            assert forall|k: int| 0 <= k < recipients@.len() implies before.subscribers.contains_key(
                #[trigger] recipients@[k],
            ) by {
                assert(recipients@.contains(recipients@[k]));
            }
        }
        self.mark_served(&recipients);
        proof {
            let done = before.served(views);
            assert(self.subscribers@ =~= done.subscribers) by {
                assert forall|id: u64| self.subscribers@.contains_key(id) implies #[trigger] self.subscribers@[id]
                    == done.subscribers[id] by {
                    assert(recipients@.contains(id) <==> before.subscribers.contains_key(id) && (
                    !before.subscribers[id].needs_idr || unlocks));
                }
            }
            assert(rtp::packet_views(packets@) =~= old(self)@.packets_for(
                channel as int,
                annexb@,
                ticks,
            ));
        }
        Some(Delivery { packets, recipients })
    }
}

/// The state of the four channels.
pub struct StreamHub {
    pub channels: [ChannelHub; 4],
}

impl View for StreamHub {
    type V = Seq<Channel>;

    open spec fn view(&self) -> Seq<Channel> {
        self.channels@.map_values(|c: ChannelHub| c@)
    }
}

/// Whether there is a channel with this number.
pub open spec fn is_channel(channel: int) -> bool {
    1 <= channel <= 4
}

impl Channel {
    /// The channel with one more subscriber, who waits for an IDR picture.
    pub open spec fn joined(self) -> Channel {
        Channel {
            subscribers: self.subscribers.insert(
                self.next_subscriber,
                RtspSubscriber { needs_idr: true },
            ),
            next_subscriber: (self.next_subscriber + 1) as u64,
            ..self
        }
    }

    /// The channel without the subscriber with this number.
    pub open spec fn left(self, id: u64) -> Channel {
        Channel { subscribers: self.subscribers.remove(id), ..self }
    }

    /// The channel without the subscribers with these numbers.
    pub open spec fn left_by(self, ids: Set<u64>) -> Channel {
        Channel { subscribers: self.subscribers.remove_keys(ids), ..self }
    }
}

/// The session description of a channel, as SDP text.
pub open spec fn sdp_text(channel: nat, host: Seq<char>, sps: Option<Seq<u8>>) -> Seq<char> {
    "v=0\r\no=- 0 0 IN IP4 "@ + host + "\r\ns=N9M Channel "@ + number::decimal(channel)
        + "\r\nc=IN IP4 0.0.0.0\r\nt=0 0\r\na=control:*\r\nm=video 0 RTP/AVP 96\r\na=rtpmap:96 H264/90000\r\n"@
        + format_line(sps) + "a=control:trackID=0\r\n"@
}

/// The line of the session description that tells the H.264 profile.
pub open spec fn format_line(sps: Option<Seq<u8>>) -> Seq<char> {
    match sps {
        Some(s) => "a=fmtp:96 packetization-mode=1;profile-level-id="@ + profile(s) + "\r\n"@,
        None => "a=fmtp:96 packetization-mode=1\r\n"@,
    }
}

/// The profile and level in a sequence parameter set, as six hexadecimal digits.
pub open spec fn profile(sps: Seq<u8>) -> Seq<char> {
    if sps.len() >= 4 {
        number::hex_byte(sps[1]) + number::hex_byte(sps[2]) + number::hex_byte(sps[3])
    } else {
        "42e01f"@
    }
}

impl StreamHub {
    /// Every subscriber of every channel has a number that was given out.
    pub open spec fn wf(&self) -> bool {
        forall|i: int| 0 <= i < 4 ==> (#[trigger] self@[i]).wf()
    }

    /// A hub with four channels that nothing has been sent on.
    pub fn new() -> (r: StreamHub)
        ensures
            r.wf(),
            r@ == seq![Channel::fresh(), Channel::fresh(), Channel::fresh(), Channel::fresh()],
    {
        StreamHub {
            channels: [ChannelHub::new(), ChannelHub::new(), ChannelHub::new(), ChannelHub::new()],
        }
    }

    /// Publishes a frame on a channel at `now`, where `ticks` is how long the
    /// stream of the channel has been running by then in units of the 90 kHz
    /// clock. Says what to send to whom; nothing where the frame holds no
    /// picture or there is no such channel.
    pub fn publish_annexb(
        &mut self,
        channel: usize,
        annexb: &[u8],
        now: u64,
        ticks: u32,
    ) -> (r: Option<Delivery>)
        ensures
            old(self).wf() ==> final(self).wf(),
            r is Some <==> is_channel(channel as int) && has_picture(access_unit(annexb@)),
            !is_channel(channel as int) ==> final(self)@ == old(self)@,
            is_channel(channel as int) ==> final(self)@ == old(self)@.update(
                channel - 1,
                old(self)@[channel - 1].published(annexb@, now, ticks),
            ),
            r matches Some(d) ==> {
                &&& rtp::packet_views(d.packets@) == old(self)@[channel - 1].packets_for(
                    channel as int,
                    annexb@,
                    ticks,
                )
                &&& old(self)@[channel - 1].addressed(annexb@, d.recipients@)
            },
    {
        if channel < 1 || channel > 4 {
            return None;
        }
        let ghost before = self@;
        let ch = &mut self.channels[channel - 1];
        let r = ch.publish(channel, annexb, now, ticks);
        proof {
            assert(self@ =~= before.update(
                channel - 1,
                before[channel - 1].published(annexb@, now, ticks),
            ));
        }
        r
    }
}

impl StreamHub {
    /// How long the stream of a channel has been running at `now`, in nanoseconds.
    pub fn elapsed(&self, channel: usize, now: u64) -> (r: u64)
        ensures
            r == (if is_channel(channel as int) {
                self@[channel - 1].elapsed_at(now)
            } else {
                0
            }),
    {
        if channel < 1 || channel > 4 {
            return 0;
        }
        self.channels[channel - 1].elapsed(now)
    }

    /// Adds a subscriber to a channel and gives out its number. There is none
    /// for a channel that does not exist.
    pub fn subscribe(&mut self, channel: usize) -> (r: Option<u64>)
        requires
            is_channel(channel as int) ==> old(self)@[channel - 1].next_subscriber < u64::MAX,
        ensures
            old(self).wf() ==> final(self).wf(),
            r == (if is_channel(channel as int) {
                Some(old(self)@[channel - 1].next_subscriber)
            } else {
                None
            }),
            final(self)@ == (if is_channel(channel as int) {
                old(self)@.update(channel - 1, old(self)@[channel - 1].joined())
            } else {
                old(self)@
            }),
    {
        if channel < 1 || channel > 4 {
            return None;
        }
        let ghost before = self@;
        let ch = &mut self.channels[channel - 1];
        let id: u64 = ch.next_subscriber;
        ch.next_subscriber = id + 1;
        ch.subscribers.insert(id, RtspSubscriber { needs_idr: true });
        proof {
            assert(self@ =~= before.update(channel - 1, before[channel - 1].joined()));
            if old(self).wf() {
                assert(before[channel - 1].wf());
                lemma_joined_wf(before[channel - 1]);
                assert forall|i: int| 0 <= i < 4 implies (#[trigger] self@[i]).wf() by {
                    assert(before[i].wf());
                }
            }
        }
        Some(id)
    }

    /// Removes a subscriber from a channel, if it is there.
    pub fn unsubscribe(&mut self, channel: usize, id: u64)
        ensures
            old(self).wf() ==> final(self).wf(),
            final(self)@ == (if is_channel(channel as int) {
                old(self)@.update(channel - 1, old(self)@[channel - 1].left(id))
            } else {
                old(self)@
            }),
    {
        if channel < 1 || channel > 4 {
            return;
        }
        let ghost before = self@;
        let ch = &mut self.channels[channel - 1];
        ch.subscribers.remove(&id);
        proof {
            assert(self@ =~= before.update(channel - 1, before[channel - 1].left(id)));
            if old(self).wf() {
                assert forall|i: int| 0 <= i < 4 implies (#[trigger] self@[i]).wf() by {
                    assert(before[i].wf());
                }
            }
        }
    }

    /// Removes the subscribers that a delivery did not reach.
    pub fn drop_failed(&mut self, channel: usize, failed: &[u64])
        ensures
            old(self).wf() ==> final(self).wf(),
            final(self)@ == (if is_channel(channel as int) {
                old(self)@.update(channel - 1, old(self)@[channel - 1].left_by(failed@.to_set()))
            } else {
                old(self)@
            }),
    {
        let ghost before = self@;
        let mut i: usize = 0;
        assert(failed@.take(0).to_set() =~= Set::empty());
        if is_channel_number(channel) {
            assert(self@ =~= before.update(
                channel - 1,
                before[channel - 1].left_by(failed@.take(0).to_set()),
            )) by {
                assert(before[channel - 1].left_by(Set::empty()) =~= before[channel - 1]);
            }
        }
        while i < failed.len()
            invariant
                i <= failed@.len(),
                old(self).wf() ==> self.wf(),
                self@ == (if is_channel(channel as int) {
                    before.update(
                        channel - 1,
                        before[channel - 1].left_by(failed@.take(i as int).to_set()),
                    )
                } else {
                    before
                }),
                before.len() == 4,
            decreases failed@.len() - i,
        {
            self.unsubscribe(channel, failed[i]);
            proof {
                let now = failed@.take(i + 1);
                assert(now =~= failed@.take(i as int).push(failed@[i as int]));
                assert(now.to_set() =~= failed@.take(i as int).to_set().insert(
                    failed@[i as int],
                )) by {
                    assert forall|x: u64| now.to_set().contains(x) <==> #[trigger] failed@.take(
                        i as int,
                    ).to_set().insert(failed@[i as int]).contains(x) by {
                        lemma_contains_push(failed@.take(i as int), failed@[i as int], x);
                    }
                }
                if is_channel(channel as int) {
                    let c = before[channel - 1];
                    assert(c.left_by(failed@.take(i as int).to_set()).left(failed@[i as int])
                        =~= c.left_by(now.to_set()));
                    assert(self@ =~= before.update(channel - 1, c.left_by(now.to_set())));
                }
            }
            i += 1;
        }
        assert(failed@.take(i as int) =~= failed@);
    }

    /// How many subscribers a channel has.
    pub fn client_count(&self, channel: usize) -> (r: usize)
        ensures
            r == (if is_channel(channel as int) {
                self@[channel - 1].subscribers.len()
            } else {
                0
            }),
    {
        if channel < 1 || channel > 4 {
            return 0;
        }
        self.channels[channel - 1].subscribers.len()
    }

    /// Describes a channel to a client.
    pub fn sdp(&self, channel: usize, host: &str) -> (r: String)
        requires
            is_channel(channel as int),
        ensures
            r@ == sdp_text(channel as nat, host@, self@[channel - 1].sps),
    {
        let ch = &self.channels[channel - 1];
        let mut out = "v=0\r\no=- 0 0 IN IP4 ".to_owned();
        out.append(host);
        out.append("\r\ns=N9M Channel ");
        number::push_decimal(&mut out, channel as u128);
        out.append(
            "\r\nc=IN IP4 0.0.0.0\r\nt=0 0\r\na=control:*\r\nm=video 0 RTP/AVP 96\r\na=rtpmap:96 H264/90000\r\n",
        );
        let mut line = String::new();
        match &ch.sps {
            Some(sps) => {
                line.append("a=fmtp:96 packetization-mode=1;profile-level-id=");
                let ghost head = line@;
                if sps.len() >= 4 {
                    number::push_hex_byte(&mut line, sps[1]);
                    number::push_hex_byte(&mut line, sps[2]);
                    number::push_hex_byte(&mut line, sps[3]);
                } else {
                    line.append("42e01f");
                }
                assert(line@ =~= head + profile(sps@));
                line.append("\r\n");
            },
            None => {
                line.append("a=fmtp:96 packetization-mode=1\r\n");
            },
        }
        assert(line@ =~= format_line(ch@.sps));
        out.append(line.as_str());
        out.append("a=control:trackID=0\r\n");
        out
    }
}

fn is_channel_number(channel: usize) -> (r: bool)
    ensures
        r == is_channel(channel as int),
{
    1 <= channel && channel <= 4
}

/// A new subscriber gets a number that no subscriber has; the others stay.
pub proof fn numbers_are_given_out_once(ch: Channel)
    requires
        ch.wf(),
        ch.next_subscriber < u64::MAX,
        ch.subscribers.dom().finite(),
    ensures
        !ch.subscribers.contains_key(ch.next_subscriber),
        ch.joined().wf(),
        ch.joined().subscribers.len() == ch.subscribers.len() + 1,
        ch.joined().next_subscriber > ch.next_subscriber,
        ch.joined().left(ch.next_subscriber).subscribers == ch.subscribers,
{
    lemma_joined_wf(ch);
    assert(ch.joined().left(ch.next_subscriber).subscribers =~= ch.subscribers);
}

proof fn lemma_joined_wf(ch: Channel)
    requires
        ch.wf(),
        ch.next_subscriber < u64::MAX,
    ensures
        ch.joined().wf(),
{
    assert forall|id: u64| #[trigger] ch.joined().subscribers.contains_key(id) implies 1 <= id
        < ch.joined().next_subscriber by {
        if id != ch.next_subscriber {
            assert(ch.subscribers.contains_key(id));
        }
    }
}

/// A client that has just connected is sent its first frame with the first IDR
/// picture for which a sequence parameter set is known, and waits no more
/// after it; a frame that it is not sent changes nothing for it.
pub proof fn waiting_ends_with_an_idr_picture(
    ch: Channel,
    data: Seq<u8>,
    now: u64,
    ticks: u32,
    id: u64,
)
    requires
        ch.subscribers.contains_key(id),
        has_picture(access_unit(data)),
    ensures
        ({
            let known = ch.collected(annexb::nal_units(data));
            let after = ch.published(data, now, ticks);
            let sent = known.receives(access_unit(data), id);
            &&& after.subscribers.contains_key(id)
            &&& ch.subscribers[id].needs_idr ==> (sent <==> annexb::has_kind(access_unit(data), 5)
                && known.sps is Some)
            &&& !ch.subscribers[id].needs_idr ==> sent
            &&& sent ==> !after.subscribers[id].needs_idr
            &&& !sent ==> after.subscribers[id] == ch.subscribers[id]
        }),
{
}

/// Publishing adds and removes no subscriber, and gives out no number.
pub proof fn publishing_keeps_the_subscribers(ch: Channel, data: Seq<u8>, now: u64, ticks: u32)
    ensures
        ch.published(data, now, ticks).subscribers.dom() == ch.subscribers.dom(),
        ch.published(data, now, ticks).next_subscriber == ch.next_subscriber,
        ch.wf() ==> ch.published(data, now, ticks).wf(),
{
    assert(ch.published(data, now, ticks).subscribers.dom() =~= ch.subscribers.dom());
}

proof fn lemma_filter_members(s: Seq<Seq<u8>>, p: spec_fn(Seq<u8>) -> bool, i: int)
    requires
        0 <= i < s.filter(p).len(),
    ensures
        p(s.filter(p)[i]),
        s.contains(s.filter(p)[i]),
{
    s.lemma_filter_pred(p, i);
    assert(s.filter(p).contains(s.filter(p)[i]));
    s.lemma_filter_contains_rev(p, s.filter(p)[i]);
}

/// The place of a type of NAL unit in the decoding order.
pub open spec fn decode_rank(kind: Option<u8>) -> int {
    if kind == Some(7u8) {
        0
    } else if kind == Some(8u8) {
        1
    } else if kind == Some(6u8) {
        2
    } else {
        3
    }
}

proof fn lemma_decode_order(nals: Seq<Seq<u8>>, i: int)
    requires
        0 <= i < decode_order(nals).len(),
    ensures
        ({
            let u = decode_order(nals)[i];
            let a = nals.filter(annexb::of_kind(7)).len();
            let b = a + nals.filter(annexb::of_kind(8)).len();
            let c = b + nals.filter(annexb::of_kind(6)).len();
            &&& nals.contains(u)
            &&& decode_rank(annexb::kind(u)) == (if i < a {
                0int
            } else if i < b {
                1
            } else if i < c {
                2
            } else {
                3
            })
            &&& decode_rank(annexb::kind(u)) == 3 ==> slice_data()(u)
        }),
{
    let sps = nals.filter(annexb::of_kind(7));
    let pps = nals.filter(annexb::of_kind(8));
    let sei = nals.filter(annexb::of_kind(6));
    let a = sps.len();
    let b = a + pps.len();
    let c = b + sei.len();
    if i < a {
        lemma_filter_members(nals, annexb::of_kind(7), i);
    } else if i < b {
        lemma_filter_members(nals, annexb::of_kind(8), i - a);
    } else if i < c {
        lemma_filter_members(nals, annexb::of_kind(6), i - b);
    } else {
        lemma_filter_members(nals, slice_data(), i - c);
    }
}

/// An access unit is sent in decoding order: a sequence parameter set comes
/// before the picture parameter sets, these before supplemental information,
/// and that before the slices, wherever they stood in the frame. Nothing is
/// sent that was not in the frame.
pub proof fn units_come_in_decoding_order(nals: Seq<Seq<u8>>, i: int, j: int)
    requires
        0 <= i <= j < decode_order(nals).len(),
    ensures
        decode_rank(annexb::kind(decode_order(nals)[i])) <= decode_rank(
            annexb::kind(decode_order(nals)[j]),
        ),
        nals.contains(decode_order(nals)[i]),
{
    lemma_decode_order(nals, i);
    lemma_decode_order(nals, j);
}

proof fn lemma_filter_none(s: Seq<Seq<u8>>, p: spec_fn(Seq<u8>) -> bool)
    requires
        forall|i: int| 0 <= i < s.len() ==> !p(#[trigger] s[i]),
    ensures
        s.filter(p) == Seq::<Seq<u8>>::empty(),
    decreases s.len(),
{
    reveal(Seq::filter);
    if s.len() > 0 {
        assert forall|i: int| 0 <= i < s.drop_last().len() implies !p(
            #[trigger] s.drop_last()[i],
        ) by {
            assert(!p(s[i]));
        }
        lemma_filter_none(s.drop_last(), p);
        assert(!p(s[s.len() - 1]));
    } else {
        assert(s.filter(p) =~= seq![]);
    }
}

proof fn lemma_filter_every(s: Seq<Seq<u8>>, p: spec_fn(Seq<u8>) -> bool)
    requires
        forall|i: int| 0 <= i < s.len() ==> p(#[trigger] s[i]),
    ensures
        s.filter(p) == s,
    decreases s.len(),
{
    reveal(Seq::filter);
    if s.len() > 0 {
        assert forall|i: int| 0 <= i < s.drop_last().len() implies p(
            #[trigger] s.drop_last()[i],
        ) by {
            assert(p(s[i]));
        }
        lemma_filter_every(s.drop_last(), p);
        assert(p(s[s.len() - 1]));
        assert(s.drop_last().push(s.last()) =~= s);
    }
}

proof fn lemma_filter_same(s: Seq<Seq<u8>>, p: spec_fn(Seq<u8>) -> bool)
    ensures
        s.filter(p).filter(p) == s.filter(p),
{
    let t = s.filter(p);
    assert forall|i: int| 0 <= i < t.len() implies p(#[trigger] t[i]) by {
        lemma_filter_members(s, p, i);
    }
    lemma_filter_every(t, p);
}

proof fn lemma_filter_apart(
    s: Seq<Seq<u8>>,
    p: spec_fn(Seq<u8>) -> bool,
    q: spec_fn(Seq<u8>) -> bool,
)
    requires
        forall|u: Seq<u8>| #[trigger] p(u) ==> !q(u),
    ensures
        s.filter(p).filter(q) == Seq::<Seq<u8>>::empty(),
{
    let t = s.filter(p);
    assert forall|i: int| 0 <= i < t.len() implies !q(#[trigger] t[i]) by {
        lemma_filter_members(s, p, i);
    }
    lemma_filter_none(t, q);
}

proof fn lemma_parts_filtered(nals: Seq<Seq<u8>>, q: spec_fn(Seq<u8>) -> bool)
    ensures
        decode_order(nals).filter(q) == nals.filter(annexb::of_kind(7)).filter(q) + nals.filter(
            annexb::of_kind(8),
        ).filter(q) + nals.filter(annexb::of_kind(6)).filter(q) + nals.filter(slice_data()).filter(
            q,
        ),
{
    let a = nals.filter(annexb::of_kind(7));
    let b = nals.filter(annexb::of_kind(8));
    let c = nals.filter(annexb::of_kind(6));
    let d = nals.filter(slice_data());
    Seq::filter_distributes_over_add(a, b, q);
    Seq::filter_distributes_over_add(a + b, c, q);
    Seq::filter_distributes_over_add(a + b + c, d, q);
}

proof fn lemma_kinds_apart(nals: Seq<Seq<u8>>, k: u8, j: u8)
    requires
        k != j,
    ensures
        nals.filter(annexb::of_kind(k)).filter(annexb::of_kind(j)) == Seq::<Seq<u8>>::empty(),
{
    lemma_filter_apart(nals, annexb::of_kind(k), annexb::of_kind(j));
}

proof fn lemma_slices_apart(nals: Seq<Seq<u8>>, k: u8)
    requires
        k != 1,
        k != 5,
    ensures
        nals.filter(slice_data()).filter(annexb::of_kind(k)) == Seq::<Seq<u8>>::empty(),
        nals.filter(annexb::of_kind(k)).filter(slice_data()) == Seq::<Seq<u8>>::empty(),
{
    lemma_filter_apart(nals, annexb::of_kind(k), slice_data());
    lemma_filter_apart(nals, slice_data(), annexb::of_kind(k));
}

proof fn lemma_kind_kept(nals: Seq<Seq<u8>>, k: u8)
    requires
        k == 7 || k == 8 || k == 6,
    ensures
        decode_order(nals).filter(annexb::of_kind(k)) == nals.filter(annexb::of_kind(k)),
{
    let none = Seq::<Seq<u8>>::empty();
    let kept = nals.filter(annexb::of_kind(k));
    lemma_filter_same(nals, annexb::of_kind(k));
    lemma_slices_apart(nals, k);
    lemma_parts_filtered(nals, annexb::of_kind(k));
    if k == 7 {
        lemma_kinds_apart(nals, 8, 7);
        lemma_kinds_apart(nals, 6, 7);
        assert(kept + none + none + none =~= kept);
    } else if k == 8 {
        lemma_kinds_apart(nals, 7, 8);
        lemma_kinds_apart(nals, 6, 8);
        assert(none + kept + none + none =~= kept);
    } else {
        lemma_kinds_apart(nals, 7, 6);
        lemma_kinds_apart(nals, 8, 6);
        assert(none + none + kept + none =~= kept);
    }
}

proof fn lemma_slices_kept(nals: Seq<Seq<u8>>)
    ensures
        decode_order(nals).filter(slice_data()) == nals.filter(slice_data()),
{
    let none = Seq::<Seq<u8>>::empty();
    let kept = nals.filter(slice_data());
    lemma_filter_same(nals, slice_data());
    lemma_slices_apart(nals, 7);
    lemma_slices_apart(nals, 8);
    lemma_slices_apart(nals, 6);
    lemma_parts_filtered(nals, slice_data());
    assert(none + none + none + kept =~= kept);
}

/// Reordering loses no unit that a decoder needs, adds none, and keeps the
/// order among the units of one type and among the slices.
pub proof fn reordering_keeps_the_units(nals: Seq<Seq<u8>>)
    ensures
        decode_order(nals).filter(annexb::of_kind(7)) == nals.filter(annexb::of_kind(7)),
        decode_order(nals).filter(annexb::of_kind(8)) == nals.filter(annexb::of_kind(8)),
        decode_order(nals).filter(annexb::of_kind(6)) == nals.filter(annexb::of_kind(6)),
        decode_order(nals).filter(slice_data()) == nals.filter(slice_data()),
{
    lemma_kind_kept(nals, 7);
    lemma_kind_kept(nals, 8);
    lemma_kind_kept(nals, 6);
    lemma_slices_kept(nals);
}

proof fn lemma_picture_is_sent(data: Seq<u8>)
    requires
        has_picture(access_unit(data)),
    ensures
        access_unit(data).len() > 0,
        access_unit(data).last().len() > 0,
        rtp::unit_payloads(access_unit(data)).len() > 0,
{
    let unit = access_unit(data);
    let last = unit.len() - 1;
    lemma_decode_order(annexb::nal_units(data).filter(sendable()), last);
    assert(unit.last() == unit[last]);
    assert(unit.last().len() > 0);
    if unit.last().len() > RTP_MTU {
        rtp::lemma_fragments(unit.last().len(), 0);
    }
}

/// The packets of a frame are numbered on from those of the frame before it.
#[verifier::rlimit(40)]
pub proof fn sequence_numbers_run_on(
    ch: Channel,
    channel: int,
    first: Seq<u8>,
    second: Seq<u8>,
    now: u64,
    ticks: u32,
    later: u32,
)
    requires
        has_picture(access_unit(first)),
        has_picture(access_unit(second)),
    ensures
        ({
            let before = ch.packets_for(channel, first, ticks);
            let after = ch.published(first, now, ticks).packets_for(channel, second, later);
            &&& before.len() > 0
            &&& after.len() > 0
            &&& rtp::number_in(after[0]) == (rtp::number_in(before.last()) + 1) % 65536
        }),
{
    lemma_picture_is_sent(first);
    lemma_picture_is_sent(second);
    let next = ch.published(first, now, ticks);
    let n = rtp::unit_payloads(access_unit(first)).len();
    rtp::packets_are_in_order(
        access_unit(first),
        stamp_after(ch.timestamp, ticks),
        ssrc_of(channel),
        ch.sequence,
        n - 1,
    );
    rtp::packets_are_in_order(
        access_unit(second),
        stamp_after(next.timestamp, later),
        ssrc_of(channel),
        next.sequence,
        0,
    );
    lemma_numbers_run_on(ch.sequence, n as int);
}

proof fn lemma_numbers_run_on(sequence: u16, n: int)
    requires
        n > 0,
    ensures
        (rtp::sequence_after(sequence, n) + 0) % 65536 == ((sequence + (n - 1)) % 65536 + 1) % 65536,
{
}

/// Publishing never takes the timestamp of a channel back.
pub proof fn publishing_does_not_go_back_in_time(
    ch: Channel,
    data: Seq<u8>,
    now: u64,
    ticks: u32,
)
    ensures
        ch.published(data, now, ticks).timestamp >= ch.timestamp,
{
    timestamps_do_not_go_back(ch.timestamp, ticks);
}

/// The payloads in packets.
pub open spec fn payloads_in(packets: Seq<Seq<u8>>) -> Seq<Seq<u8>> {
    packets.map_values(|p: Seq<u8>| rtp::payload_in(p))
}

/// What a viewer makes of the packets of a frame is what the device sent: its
/// NAL units as they were, in decoding order, without those that no decoder needs.
/// Units that are fragmented have a first bit of zero, as H.264 demands.
pub proof fn viewers_get_what_the_device_sent(
    ch: Channel,
    channel: int,
    nals: Seq<Seq<u8>>,
    long: Seq<bool>,
    ticks: u32,
)
    requires
        annexb::joinable(nals, long),
        has_picture(decode_order(nals.filter(sendable()))),
        forall|k: int|
            0 <= k < decode_order(nals.filter(sendable())).len() && (
            #[trigger] decode_order(nals.filter(sendable()))[k]).len() > RTP_MTU ==> decode_order(
                nals.filter(sendable()),
            )[k][0] < 0x80,
    ensures
        rtp::Received::nothing().fed_all(
            payloads_in(ch.packets_for(channel, annexb::joined(nals, long), ticks)),
        ).units == decode_order(nals.filter(sendable())),
{
    let data = annexb::joined(nals, long);
    annexb::split_gives_back_what_was_joined(nals, long);
    let sent = nals.filter(sendable());
    let unit = access_unit(data);
    assert(unit == decode_order(sent));
    lemma_picture_is_sent(data);
    assert forall|k: int| 0 <= k < unit.len() implies rtp::sound(#[trigger] unit[k]) by {
        lemma_decode_order(sent, k);
    }
    rtp::receivers_get_the_units_back(unit);
    let packets = ch.packets_for(channel, data, ticks);
    assert forall|j: int| 0 <= j < packets.len() implies #[trigger] payloads_in(packets)[j]
        == rtp::unit_payloads(unit)[j] by {
        rtp::packets_are_in_order(
            unit,
            stamp_after(ch.timestamp, ticks),
            ssrc_of(channel),
            ch.sequence,
            j,
        );
    }
    assert(payloads_in(packets) =~= rtp::unit_payloads(unit));
}

/// A client that has left is sent nothing.
pub proof fn clients_that_left_are_sent_nothing(
    ch: Channel,
    id: u64,
    data: Seq<u8>,
    recipients: Seq<u64>,
)
    requires
        ch.left(id).addressed(data, recipients),
    ensures
        !recipients.contains(id),
{
}

/// Every packet of a published frame carries the timestamp that the channel holds
/// once the frame is published, the next sequence number, the source of its
/// channel, and a marker just on the last; as many sequence numbers are used up as
/// there are packets.
pub proof fn packets_carry_the_time_of_their_frame(
    ch: Channel,
    channel: int,
    data: Seq<u8>,
    now: u64,
    ticks: u32,
    j: int,
)
    requires
        1 <= channel <= 4,
        has_picture(access_unit(data)),
        0 <= j < ch.packets_for(channel, data, ticks).len(),
    ensures
        ({
            let all = ch.packets_for(channel, data, ticks);
            let p = all[j];
            let after = ch.published(data, now, ticks);
            let time = p[4] * 16777216 + p[5] * 65536 + p[6] * 256 + p[7];
            &&& p.len() > 12
            &&& p[0] == 0x80
            &&& p[1] == (if j == all.len() - 1 {
                0xe0int
            } else {
                0x60
            })
            &&& p[2] * 256 + p[3] == (ch.sequence + j) % 65536
            &&& after.sequence == (ch.sequence + all.len()) % 65536
            &&& time == after.timestamp
            &&& time >= ch.timestamp
            &&& ticks > ch.timestamp ==> time == ticks
            &&& ch.timestamp == 0 ==> time == ticks
            &&& ticks <= ch.timestamp && 0 < ch.timestamp < u32::MAX ==> time == ch.timestamp + 1
            &&& p[8] == 'N' as u8 && p[9] == '9' as u8 && p[10] == 'M' as u8
            &&& p[11] == channel
        }),
{
    lemma_picture_is_sent(data);
    let unit = access_unit(data);
    let stamp = stamp_after(ch.timestamp, ticks);
    let all = rtp::unit_payloads(unit);
    rtp::packets_tell_what_they_are(
        rtp::sequence_after(ch.sequence, j),
        stamp,
        ssrc_of(channel),
        j == all.len() - 1,
        all[j],
    );
    rtp::packets_fit(unit, stamp, ssrc_of(channel), ch.sequence, j);
}

/// Frames that are published at later and later ticks carry these ticks, and so
/// different timestamps.
pub proof fn later_frames_carry_later_times(
    ch: Channel,
    channel: int,
    first: Seq<u8>,
    second: Seq<u8>,
    now: u64,
    ticks: u32,
    later: u32,
    i: int,
    j: int,
)
    requires
        1 <= channel <= 4,
        has_picture(access_unit(first)),
        has_picture(access_unit(second)),
        ch.timestamp < ticks < later,
        0 <= i < ch.packets_for(channel, first, ticks).len(),
        0 <= j < ch.published(first, now, ticks).packets_for(channel, second, later).len(),
    ensures
        ({
            let p = ch.packets_for(channel, first, ticks)[i];
            let q = ch.published(first, now, ticks).packets_for(channel, second, later)[j];
            &&& p[4] * 16777216 + p[5] * 65536 + p[6] * 256 + p[7] == ticks
            &&& q[4] * 16777216 + q[5] * 65536 + q[6] * 256 + q[7] == later
            &&& p[4] != q[4] || p[5] != q[5] || p[6] != q[6] || p[7] != q[7]
        }),
{
    packets_carry_the_time_of_their_frame(ch, channel, first, now, ticks, i);
    packets_carry_the_time_of_their_frame(
        ch.published(first, now, ticks),
        channel,
        second,
        now,
        later,
        j,
    );
}

proof fn lemma_unit_members(nals: Seq<Seq<u8>>, k: int)
    requires
        0 <= k < nals.len(),
        nals[k].len() > 0,
        nals[k][0] % 32 == 1 || nals[k][0] % 32 == 5,
    ensures
        decode_order(nals.filter(sendable())).contains(nals[k]),
{
    let u = nals[k];
    let sent = nals.filter(sendable());
    annexb::the_type_is_the_first_byte_modulo_32(u);
    nals.lemma_filter_contains(sendable(), k);
    let i = sent.index_of(u);
    sent.lemma_filter_contains(slice_data(), i);
    let slices = sent.filter(slice_data());
    let m = slices.index_of(u);
    let at = decode_order(sent).len() - slices.len() + m;
    assert(decode_order(sent)[at] == u);
}

/// Whether units hold one whose first byte modulo 32 is `k`.
pub open spec fn holds_type(nals: Seq<Seq<u8>>, k: int) -> bool {
    exists|i: int| 0 <= i < nals.len() && (#[trigger] nals[i])[0] % 32 == k
}

proof fn lemma_unit_kinds(nals: Seq<Seq<u8>>, k: u8)
    requires
        forall|i: int| 0 <= i < nals.len() ==> (#[trigger] nals[i]).len() > 0,
        k == 1 || k == 5,
    ensures
        annexb::has_kind(decode_order(nals.filter(sendable())), k) == holds_type(nals, k as int),
{
    let unit = decode_order(nals.filter(sendable()));
    if holds_type(nals, k as int) {
        let i = choose|i: int| 0 <= i < nals.len() && (#[trigger] nals[i])[0] % 32 == k;
        lemma_unit_members(nals, i);
        let j = unit.index_of(nals[i]);
        annexb::the_type_is_the_first_byte_modulo_32(nals[i]);
        assert(annexb::kind(unit[j]) == Some(k));
    }
    if annexb::has_kind(unit, k) {
        let j = choose|j: int| 0 <= j < unit.len() && annexb::kind(#[trigger] unit[j]) == Some(k);
        lemma_decode_order(nals.filter(sendable()), j);
        let m = nals.filter(sendable()).index_of(unit[j]);
        lemma_filter_members(nals, sendable(), m);
        let i = nals.index_of(unit[j]);
        annexb::the_type_is_the_first_byte_modulo_32(nals[i]);
        assert(nals[i][0] % 32 == k);
    }
}

proof fn lemma_latest_none(nals: Seq<Seq<u8>>, k: u8, known: Option<Seq<u8>>)
    requires
        forall|i: int|
            0 <= i < nals.len() ==> (#[trigger] nals[i]).len() > 0 && nals[i][0] % 32 != k,
    ensures
        latest(nals, k, known) == known,
    decreases nals.len(),
{
    if nals.len() > 0 {
        let before = nals.drop_last();
        assert forall|i: int| 0 <= i < before.len() implies (#[trigger] before[i]).len() > 0
            && before[i][0] % 32 != k by {
            assert(before[i] == nals[i]);
        }
        lemma_latest_none(before, k, known);
        annexb::the_type_is_the_first_byte_modulo_32(nals[nals.len() - 1]);
    }
}

proof fn lemma_latest_at(nals: Seq<Seq<u8>>, k: u8, known: Option<Seq<u8>>, at: int)
    requires
        0 <= at < nals.len(),
        forall|i: int| 0 <= i < nals.len() ==> (#[trigger] nals[i]).len() > 0,
        nals[at][0] % 32 == k,
        forall|i: int| at < i < nals.len() ==> (#[trigger] nals[i])[0] % 32 != k,
    ensures
        latest(nals, k, known) == Some(nals[at]),
    decreases nals.len(),
{
    let before = nals.drop_last();
    let n = nals.len() - 1;
    annexb::the_type_is_the_first_byte_modulo_32(nals[n]);
    if at < n {
        assert(nals[n][0] % 32 != k);
        assert forall|i: int| 0 <= i < before.len() implies (#[trigger] before[i]).len() > 0 by {
            assert(before[i] == nals[i]);
        }
        assert forall|i: int| at < i < before.len() implies (#[trigger] before[i])[0] % 32
            != k by {
            assert(before[i] == nals[i]);
        }
        lemma_latest_at(before, k, known, at);
    }
}

proof fn lemma_latest_some(nals: Seq<Seq<u8>>, k: u8, known: Option<Seq<u8>>, at: int)
    requires
        0 <= at < nals.len(),
        nals[at].len() > 0,
        nals[at][0] % 32 == k,
    ensures
        latest(nals, k, known) is Some,
    decreases nals.len(),
{
    annexb::the_type_is_the_first_byte_modulo_32(nals[at]);
    if annexb::kind(nals.last()) != Some(k) {
        assert(nals.drop_last()[at] == nals[at]);
        lemma_latest_some(nals.drop_last(), k, known, at);
    }
}

proof fn lemma_latest_known(nals: Seq<Seq<u8>>, k: u8, known: Option<Seq<u8>>)
    requires
        forall|i: int| 0 <= i < nals.len() ==> (#[trigger] nals[i]).len() > 0,
    ensures
        holds_type(nals, k as int) ==> latest(nals, k, known) is Some,
        !holds_type(nals, k as int) ==> latest(nals, k, known) == known,
{
    if holds_type(nals, k as int) {
        let i = choose|i: int| 0 <= i < nals.len() && (#[trigger] nals[i])[0] % 32 == k;
        lemma_latest_some(nals, k, known, i);
    } else {
        lemma_latest_none(nals, k, known);
    }
}

proof fn lemma_joinable_units(nals: Seq<Seq<u8>>, long: Seq<bool>)
    requires
        annexb::joinable(nals, long),
    ensures
        annexb::nal_units(annexb::joined(nals, long)) == nals,
        forall|i: int| 0 <= i < nals.len() ==> (#[trigger] nals[i]).len() > 0,
{
    annexb::split_gives_back_what_was_joined(nals, long);
    assert forall|i: int| 0 <= i < nals.len() implies (#[trigger] nals[i]).len() > 0 by {
        assert(annexb::proper(nals[i]));
    }
}

/// A frame is sent just where it holds a slice, of whatever place and length.
pub proof fn frames_with_a_slice_are_sent(nals: Seq<Seq<u8>>, long: Seq<bool>)
    requires
        annexb::joinable(nals, long),
    ensures
        has_picture(access_unit(annexb::joined(nals, long))) <==> holds_type(nals, 1) || holds_type(
            nals,
            5,
        ),
{
    lemma_joinable_units(nals, long);
    lemma_unit_kinds(nals, 1);
    lemma_unit_kinds(nals, 5);
}

/// The last sequence parameter set and the last picture parameter set of a frame
/// are remembered, also where the frame is not sent; without one, the one before
/// stays.
pub proof fn parameter_sets_are_remembered(
    ch: Channel,
    nals: Seq<Seq<u8>>,
    long: Seq<bool>,
    now: u64,
    ticks: u32,
    k: int,
)
    requires
        annexb::joinable(nals, long),
        0 <= k < nals.len(),
    ensures
        ({
            let after = ch.published(annexb::joined(nals, long), now, ticks);
            &&& nals[k][0] % 32 == 7 && (forall|j: int|
                k < j < nals.len() ==> (#[trigger] nals[j])[0] % 32 != 7) ==> after.sps == Some(
                nals[k],
            )
            &&& nals[k][0] % 32 == 8 && (forall|j: int|
                k < j < nals.len() ==> (#[trigger] nals[j])[0] % 32 != 8) ==> after.pps == Some(
                nals[k],
            )
            &&& !holds_type(nals, 7) ==> after.sps == ch.sps
            &&& !holds_type(nals, 8) ==> after.pps == ch.pps
        }),
{
    lemma_joinable_units(nals, long);
    lemma_latest_known(nals, 7, ch.sps);
    lemma_latest_known(nals, 8, ch.pps);
    if nals[k][0] % 32 == 7 && (forall|j: int|
        k < j < nals.len() ==> (#[trigger] nals[j])[0] % 32 != 7) {
        lemma_latest_at(nals, 7, ch.sps, k);
    }
    if nals[k][0] % 32 == 8 && (forall|j: int|
        k < j < nals.len() ==> (#[trigger] nals[j])[0] % 32 != 8) {
        lemma_latest_at(nals, 8, ch.pps, k);
    }
}

/// A frame goes to the clients that play already, and to those that wait just
/// where it holds an IDR slice and a sequence parameter set came with it or
/// before; these wait no more, and nothing else changes for a client.
pub proof fn frames_go_to_those_who_can_start(
    ch: Channel,
    nals: Seq<Seq<u8>>,
    long: Seq<bool>,
    now: u64,
    ticks: u32,
    recipients: Seq<u64>,
    id: u64,
)
    requires
        annexb::joinable(nals, long),
        holds_type(nals, 1) || holds_type(nals, 5),
        ch.addressed(annexb::joined(nals, long), recipients),
        ch.subscribers.contains_key(id),
    ensures
        ({
            let after = ch.published(annexb::joined(nals, long), now, ticks);
            let starts = holds_type(nals, 5) && (holds_type(nals, 7) || ch.sps is Some);
            &&& recipients.contains(id) <==> !ch.subscribers[id].needs_idr || starts
            &&& after.subscribers.contains_key(id)
            &&& after.subscribers[id].needs_idr <==> ch.subscribers[id].needs_idr && !starts
        }),
{
    frames_with_a_slice_are_sent(nals, long);
    lemma_joinable_units(nals, long);
    lemma_unit_kinds(nals, 5);
    lemma_latest_known(nals, 7, ch.sps);
}

/// The clock of a channel starts with the first frame that is sent, and later
/// frames leave it.
pub proof fn the_clock_starts_with_the_first_frame(
    ch: Channel,
    data: Seq<u8>,
    now: u64,
    ticks: u32,
    later: u64,
)
    requires
        has_picture(access_unit(data)),
        now <= later,
    ensures
        ch.stream_epoch is None ==> ch.published(data, now, ticks).elapsed_at(later) == later - now,
        ch.stream_epoch is Some ==> ch.published(data, now, ticks).elapsed_at(later)
            == ch.elapsed_at(later),
        ch.stream_epoch matches Some(e) && e <= later ==> ch.elapsed_at(later) == later
            - ch.stream_epoch->0,
{
}

/// A new client waits for an IDR picture, and one that leaves, alone or with
/// others, changes nothing for the rest.
pub proof fn clients_come_and_go(ch: Channel, id: u64, ids: Set<u64>, other: u64)
    requires
        ch.wf(),
        ch.next_subscriber < u64::MAX,
    ensures
        ch.joined().subscribers.contains_key(ch.next_subscriber),
        ch.joined().subscribers[ch.next_subscriber].needs_idr,
        ch.joined().next_subscriber == ch.next_subscriber + 1,
        ch.subscribers.contains_key(other) ==> ch.joined().subscribers.contains_key(other)
            && ch.joined().subscribers[other] == ch.subscribers[other],
        !ch.left(id).subscribers.contains_key(id),
        other != id ==> ch.left(id).subscribers.contains_key(other) == ch.subscribers.contains_key(
            other,
        ),
        other != id && ch.subscribers.contains_key(other) ==> ch.left(id).subscribers[other]
            == ch.subscribers[other],
        ch.left_by(ids).subscribers.contains_key(other) <==> ch.subscribers.contains_key(other)
            && !ids.contains(other),
        ch.subscribers.contains_key(other) && !ids.contains(other) ==> ch.left_by(
            ids,
        ).subscribers[other] == ch.subscribers[other],
        ch.left(id).sequence == ch.sequence && ch.left(id).timestamp == ch.timestamp,
        ch.left(id).sps == ch.sps && ch.left_by(ids).sps == ch.sps && ch.joined().sps == ch.sps,
        ch.joined().sequence == ch.sequence && ch.joined().timestamp == ch.timestamp,
        ch.left_by(ids).sequence == ch.sequence && ch.left_by(ids).timestamp == ch.timestamp,
        ch.left(id).next_subscriber == ch.next_subscriber && ch.left_by(ids).next_subscriber
            == ch.next_subscriber,
        ch.left(id).pps == ch.pps && ch.left_by(ids).pps == ch.pps && ch.joined().pps == ch.pps,
        ch.joined().stream_epoch == ch.stream_epoch && ch.left(id).stream_epoch == ch.stream_epoch
            && ch.left_by(ids).stream_epoch == ch.stream_epoch,
{
    numbers_stay_below(ch);
}

proof fn numbers_stay_below(ch: Channel)
    requires
        ch.wf(),
    ensures
        !ch.subscribers.contains_key(ch.next_subscriber),
{
}

proof fn lemma_sdp_literals()
    ensures
        ({
            let e = seq!['\r', '\n'];
            &&& "v=0\r\no=- 0 0 IN IP4 "@ == "v=0"@ + e + "o=- 0 0 IN IP4 "@
            &&& "\r\ns=N9M Channel "@ == e + "s=N9M Channel "@
            &&& "\r\nc=IN IP4 0.0.0.0\r\nt=0 0\r\na=control:*\r\nm=video 0 RTP/AVP 96\r\na=rtpmap:96 H264/90000\r\n"@
                == e + "c=IN IP4 0.0.0.0"@ + e + "t=0 0"@ + e + "a=control:*"@ + e
                + "m=video 0 RTP/AVP 96"@ + e + "a=rtpmap:96 H264/90000"@ + e
            &&& "a=control:trackID=0\r\n"@ == "a=control:trackID=0"@ + e
            &&& "a=fmtp:96 packetization-mode=1\r\n"@ == "a=fmtp:96 packetization-mode=1"@ + e
            &&& "\r\n"@ == e
        }),
{
    reveal_strlit("v=0\r\no=- 0 0 IN IP4 ");
    reveal_strlit("v=0");
    reveal_strlit("o=- 0 0 IN IP4 ");
    reveal_strlit("\r\ns=N9M Channel ");
    reveal_strlit("s=N9M Channel ");
    reveal_strlit("\r\nc=IN IP4 0.0.0.0\r\nt=0 0\r\na=control:*\r\nm=video 0 RTP/AVP 96\r\na=rtpmap:96 H264/90000\r\n");
    reveal_strlit("c=IN IP4 0.0.0.0");
    reveal_strlit("t=0 0");
    reveal_strlit("a=control:*");
    reveal_strlit("m=video 0 RTP/AVP 96");
    reveal_strlit("a=rtpmap:96 H264/90000");
    reveal_strlit("a=control:trackID=0\r\n");
    reveal_strlit("a=control:trackID=0");
    reveal_strlit("a=fmtp:96 packetization-mode=1\r\n");
    reveal_strlit("a=fmtp:96 packetization-mode=1");
    reveal_strlit("\r\n");
    let e = seq!['\r', '\n'];
    assert("v=0\r\no=- 0 0 IN IP4 "@ =~= "v=0"@ + e + "o=- 0 0 IN IP4 "@);
    assert("\r\ns=N9M Channel "@ =~= e + "s=N9M Channel "@);
    assert("\r\nc=IN IP4 0.0.0.0\r\nt=0 0\r\na=control:*\r\nm=video 0 RTP/AVP 96\r\na=rtpmap:96 H264/90000\r\n"@
        =~= e + "c=IN IP4 0.0.0.0"@ + e + "t=0 0"@ + e + "a=control:*"@ + e
        + "m=video 0 RTP/AVP 96"@ + e + "a=rtpmap:96 H264/90000"@ + e);
    assert("a=control:trackID=0\r\n"@ =~= "a=control:trackID=0"@ + e);
    assert("a=fmtp:96 packetization-mode=1\r\n"@ =~= "a=fmtp:96 packetization-mode=1"@ + e);
    assert("\r\n"@ =~= e);
}

proof fn lemma_sdp_lines_hold_no_line_feed()
    ensures
        text::lacks("v=0"@, '\n') && text::lacks("o=- 0 0 IN IP4 "@, '\n') && text::lacks(
            "s=N9M Channel "@,
            '\n',
        ) && text::lacks("c=IN IP4 0.0.0.0"@, '\n') && text::lacks("t=0 0"@, '\n') && text::lacks(
            "a=control:*"@,
            '\n',
        ) && text::lacks("m=video 0 RTP/AVP 96"@, '\n') && text::lacks(
            "a=rtpmap:96 H264/90000"@,
            '\n',
        ) && text::lacks("a=control:trackID=0"@, '\n') && text::lacks(
            "a=fmtp:96 packetization-mode=1"@,
            '\n',
        ) && text::lacks("a=fmtp:96 packetization-mode=1;profile-level-id="@, '\n')
            && text::lacks("42e01f"@, '\n'),
{
    reveal_strlit("v=0");
    reveal_strlit("o=- 0 0 IN IP4 ");
    reveal_strlit("s=N9M Channel ");
    reveal_strlit("c=IN IP4 0.0.0.0");
    reveal_strlit("t=0 0");
    reveal_strlit("a=control:*");
    reveal_strlit("m=video 0 RTP/AVP 96");
    reveal_strlit("a=rtpmap:96 H264/90000");
    reveal_strlit("a=control:trackID=0");
    reveal_strlit("a=fmtp:96 packetization-mode=1");
    reveal_strlit("a=fmtp:96 packetization-mode=1;profile-level-id=");
    reveal_strlit("42e01f");
}

proof fn lemma_sdp_regroup(
    e: Seq<char>,
    a: Seq<char>,
    b: Seq<char>,
    h: Seq<char>,
    c: Seq<char>,
    n: Seq<char>,
    m: Seq<char>,
    f: Seq<char>,
    z: Seq<char>,
)
    ensures
        (a + e + b) + h + (e + c) + n + (e + m) + (f + e) + (z + e) == a + e + ((b + h) + e + ((c
            + n) + e + (m + (f + e + (z + e))))),
{
    assert((a + e + b) + h + (e + c) + n + (e + m) + (f + e) + (z + e) =~= a + e + ((b + h) + e + ((
    c + n) + e + (m + (f + e + (z + e))))));
}

proof fn lemma_media_regroup(
    e: Seq<char>,
    a: Seq<char>,
    b: Seq<char>,
    c: Seq<char>,
    d: Seq<char>,
    g: Seq<char>,
    rest: Seq<char>,
)
    ensures
        (a + e + b + e + c + e + d + e + g + e) + rest == a + e + (b + e + (c + e + (d + e + (g + e
            + rest)))),
{
    assert((a + e + b + e + c + e + d + e + g + e) + rest =~= a + e + (b + e + (c + e + (d + e + (g
        + e + rest)))));
}

/// The line of the session description that tells the H.264 profile, without its ending.
spec fn bare_format_line(sps: Option<Seq<u8>>) -> Seq<char> {
    match sps {
        Some(s) => "a=fmtp:96 packetization-mode=1;profile-level-id="@ + profile(s),
        None => "a=fmtp:96 packetization-mode=1"@,
    }
}

proof fn lemma_format_line(sps: Option<Seq<u8>>)
    ensures
        format_line(sps) == bare_format_line(sps) + seq!['\r', '\n'],
        text::lacks(bare_format_line(sps), '\n'),
{
    lemma_sdp_literals();
    lemma_sdp_lines_hold_no_line_feed();
    match sps {
        Some(s) => {
            let lead = "a=fmtp:96 packetization-mode=1;profile-level-id="@;
            let p = profile(s);
            assert(text::lacks(p, '\n'));
            let line = lead + p;
            assert forall|i: int| 0 <= i < line.len() implies (#[trigger] line[i]) != '\n' by {
                if i < lead.len() {
                    assert(line[i] == lead[i]);
                } else {
                    assert(line[i] == p[i - lead.len()]);
                }
            }
        },
        None => {},
    }
}

/// The session description of a channel has ten lines. They name the host, the
/// channel, one H.264 video stream with payload type 96 and a clock of 90 kHz, and,
/// where a sequence parameter set of four bytes or more is known, what its second,
/// third and fourth byte tell of the profile, each in two hexadecimal digits.
pub proof fn descriptions_are_made_of_lines(channel: nat, host: Seq<char>, sps: Option<Seq<u8>>)
    requires
        text::lacks(host, '\n'),
    ensures
        ({
            let ls = text::lines(sdp_text(channel, host, sps));
            &&& ls.len() == 10
            &&& ls[0] == "v=0"@
            &&& ls[1] == "o=- 0 0 IN IP4 "@ + host
            &&& ls[2] == "s=N9M Channel "@ + number::decimal(channel)
            &&& ls[3] == "c=IN IP4 0.0.0.0"@
            &&& ls[4] == "t=0 0"@
            &&& ls[5] == "a=control:*"@
            &&& ls[6] == "m=video 0 RTP/AVP 96"@
            &&& ls[7] == "a=rtpmap:96 H264/90000"@
            &&& sps is None ==> ls[8] == "a=fmtp:96 packetization-mode=1"@
            &&& sps matches Some(s) ==> s.len() < 4 ==> ls[8]
                == "a=fmtp:96 packetization-mode=1;profile-level-id="@ + "42e01f"@
            &&& sps matches Some(s) ==> s.len() >= 4 ==> ls[8]
                == "a=fmtp:96 packetization-mode=1;profile-level-id="@ + (number::hex_byte(s[1])
                + number::hex_byte(s[2]) + number::hex_byte(s[3]))
            &&& ls[9] == "a=control:trackID=0"@
        }),
{
    let e = seq!['\r', '\n'];
    let n = number::decimal(channel);
    let f = bare_format_line(sps);
    lemma_sdp_literals();
    lemma_sdp_lines_hold_no_line_feed();
    lemma_format_line(sps);
    number::lemma_decimal_lacks(channel, '\n');
    let origin = "o=- 0 0 IN IP4 "@ + host;
    let title = "s=N9M Channel "@ + n;
    assert(text::lacks(origin, '\n')) by {
        assert forall|i: int| 0 <= i < origin.len() implies (#[trigger] origin[i]) != '\n' by {
            if i < "o=- 0 0 IN IP4 "@.len() {
                assert(origin[i] == "o=- 0 0 IN IP4 "@[i]);
            } else {
                assert(origin[i] == host[i - "o=- 0 0 IN IP4 "@.len()]);
            }
        }
    }
    assert(text::lacks(title, '\n')) by {
        assert forall|i: int| 0 <= i < title.len() implies (#[trigger] title[i]) != '\n' by {
            if i < "s=N9M Channel "@.len() {
                assert(title[i] == "s=N9M Channel "@[i]);
            } else {
                assert(title[i] == n[i - "s=N9M Channel "@.len()]);
            }
        }
    }
    let m0 = "c=IN IP4 0.0.0.0"@;
    let m1 = "t=0 0"@;
    let m2 = "a=control:*"@;
    let m3 = "m=video 0 RTP/AVP 96"@;
    let m4 = "a=rtpmap:96 H264/90000"@;
    let z = "a=control:trackID=0"@;
    let m = m0 + e + m1 + e + m2 + e + m3 + e + m4 + e;
    assert(e + m0 + e + m1 + e + m2 + e + m3 + e + m4 + e =~= e + m);
    lemma_sdp_regroup(e, "v=0"@, "o=- 0 0 IN IP4 "@, host, "s=N9M Channel "@, n, m, f, z);
    let r9 = z + e + Seq::<char>::empty();
    assert(z + e =~= r9);
    let r8 = f + e + r9;
    lemma_media_regroup(e, m0, m1, m2, m3, m4, r8);
    let r7 = m4 + e + r8;
    let r6 = m3 + e + r7;
    let r5 = m2 + e + r6;
    let r4 = m1 + e + r5;
    let r3 = m0 + e + r4;
    let r2 = title + e + r3;
    let r1 = origin + e + r2;
    text::lemma_line_off("v=0"@, r1);
    text::lemma_line_off(origin, r2);
    text::lemma_line_off(title, r3);
    text::lemma_line_off(m0, r4);
    text::lemma_line_off(m1, r5);
    text::lemma_line_off(m2, r6);
    text::lemma_line_off(m3, r7);
    text::lemma_line_off(m4, r8);
    text::lemma_line_off(f, r9);
    text::lemma_line_off(z, seq![]);
    assert(sdp_text(channel, host, sps) == "v=0"@ + e + r1);
}

proof fn lemma_filter_twice(
    s: Seq<Seq<u8>>,
    p: spec_fn(Seq<u8>) -> bool,
    q: spec_fn(Seq<u8>) -> bool,
)
    requires
        forall|u: Seq<u8>| #[trigger] q(u) ==> p(u),
    ensures
        s.filter(p).filter(q) == s.filter(q),
    decreases s.len(),
{
    reveal(Seq::filter);
    if s.len() > 0 {
        let before = s.drop_last();
        let u = s.last();
        lemma_filter_twice(before, p, q);
        if p(u) {
            assert(s.filter(p) =~= before.filter(p).push(u));
            assert(before.filter(p).push(u).drop_last() =~= before.filter(p));
        }
    }
}

/// Holds of units whose first byte modulo 32 is `k`.
pub open spec fn of_type(k: int) -> spec_fn(Seq<u8>) -> bool {
    |u: Seq<u8>| u.len() > 0 && u[0] % 32 == k
}

/// Holds of units whose first byte modulo 32 is that of a slice, 1 or 5.
pub open spec fn is_slice() -> spec_fn(Seq<u8>) -> bool {
    |u: Seq<u8>| u.len() > 0 && (u[0] % 32 == 1 || u[0] % 32 == 5)
}

proof fn lemma_types()
    ensures
        annexb::of_kind(7) == of_type(7),
        annexb::of_kind(8) == of_type(8),
        annexb::of_kind(6) == of_type(6),
        slice_data() == is_slice(),
{
    assert forall|u: Seq<u8>| u.len() > 0 implies #[trigger] annexb::kind(u) == Some(
        (u[0] % 32) as u8,
    ) by {
        annexb::the_type_is_the_first_byte_modulo_32(u);
    }
    assert forall|u: Seq<u8>| u.len() == 0 implies #[trigger] annexb::kind(u) is None by {
        annexb::the_type_is_the_first_byte_modulo_32(u);
    }
    assert(annexb::of_kind(7) =~= of_type(7));
    assert(annexb::of_kind(8) =~= of_type(8));
    assert(annexb::of_kind(6) =~= of_type(6));
    assert(slice_data() =~= is_slice());
}

/// What is sent of a frame is all that a decoder needs of it, each unit as often as the
/// device sent it and in the order in which it sent them: the sequence parameter sets,
/// the picture parameter sets, the supplemental information and the slices. Units of
/// other types are not sent.
pub proof fn all_that_a_decoder_needs_is_sent(nals: Seq<Seq<u8>>, long: Seq<bool>, k: int)
    requires
        annexb::joinable(nals, long),
    ensures
        ({
            let unit = access_unit(annexb::joined(nals, long));
            &&& unit.filter(of_type(7)) == nals.filter(of_type(7))
            &&& unit.filter(of_type(8)) == nals.filter(of_type(8))
            &&& unit.filter(of_type(6)) == nals.filter(of_type(6))
            &&& unit.filter(is_slice()) == nals.filter(is_slice())
            &&& unit.len() == nals.filter(of_type(7)).len() + nals.filter(of_type(8)).len()
                + nals.filter(of_type(6)).len() + nals.filter(is_slice()).len()
            &&& 0 <= k < unit.len() ==> nals.contains(unit[k])
        }),
{
    annexb::split_gives_back_what_was_joined(nals, long);
    let sent = nals.filter(sendable());
    let unit = decode_order(sent);
    lemma_needed_units(nals);
    if 0 <= k < unit.len() {
        units_come_in_decoding_order(sent, k, k);
        nals.lemma_filter_contains_rev(sendable(), unit[k]);
    }
}

proof fn lemma_needed_units(nals: Seq<Seq<u8>>)
    ensures
        ({
            let unit = decode_order(nals.filter(sendable()));
            &&& unit.filter(of_type(7)) == nals.filter(of_type(7))
            &&& unit.filter(of_type(8)) == nals.filter(of_type(8))
            &&& unit.filter(of_type(6)) == nals.filter(of_type(6))
            &&& unit.filter(is_slice()) == nals.filter(is_slice())
            &&& unit.len() == nals.filter(of_type(7)).len() + nals.filter(of_type(8)).len()
                + nals.filter(of_type(6)).len() + nals.filter(is_slice()).len()
        }),
{
    lemma_needed_kinds(nals);
    lemma_types();
}

proof fn lemma_needed_kinds(nals: Seq<Seq<u8>>)
    ensures
        ({
            let unit = decode_order(nals.filter(sendable()));
            &&& unit.filter(annexb::of_kind(7)) == nals.filter(annexb::of_kind(7))
            &&& unit.filter(annexb::of_kind(8)) == nals.filter(annexb::of_kind(8))
            &&& unit.filter(annexb::of_kind(6)) == nals.filter(annexb::of_kind(6))
            &&& unit.filter(slice_data()) == nals.filter(slice_data())
            &&& unit.len() == nals.filter(annexb::of_kind(7)).len() + nals.filter(
                annexb::of_kind(8),
            ).len() + nals.filter(annexb::of_kind(6)).len() + nals.filter(slice_data()).len()
        }),
{
    lemma_kind_sent(nals, 7);
    lemma_kind_sent(nals, 8);
    lemma_kind_sent(nals, 6);
    lemma_slices_sent(nals);
    reordering_keeps_the_units(nals.filter(sendable()));
}

proof fn lemma_kind_sent(nals: Seq<Seq<u8>>, k: u8)
    requires
        k != 9,
    ensures
        nals.filter(sendable()).filter(annexb::of_kind(k)) == nals.filter(annexb::of_kind(k)),
{
    lemma_filter_twice(nals, sendable(), annexb::of_kind(k));
}

proof fn lemma_slices_sent(nals: Seq<Seq<u8>>)
    ensures
        nals.filter(sendable()).filter(slice_data()) == nals.filter(slice_data()),
{
    lemma_filter_twice(nals, sendable(), slice_data());
}

/// Parameter sets come first, the sequence before the picture parameter sets, then
/// supplemental information, and then the slices.
pub proof fn what_is_sent_first_is_decoded_first(data: Seq<u8>, i: int, j: int)
    requires
        0 <= i < j < access_unit(data).len(),
    ensures
        ({
            let first = access_unit(data)[i][0] % 32;
            let second = access_unit(data)[j][0] % 32;
            &&& second == 7 ==> first == 7
            &&& second == 8 ==> first == 7 || first == 8
            &&& second == 6 ==> first == 7 || first == 8 || first == 6
            &&& second == 1 || second == 5 || second == 6 || second == 7 || second == 8
        }),
{
    let sent = annexb::nal_units(data).filter(sendable());
    units_come_in_decoding_order(sent, i, j);
    lemma_decode_order(sent, i);
    lemma_decode_order(sent, j);
    annexb::the_type_is_the_first_byte_modulo_32(access_unit(data)[i]);
    annexb::the_type_is_the_first_byte_modulo_32(access_unit(data)[j]);
}

/// A frame without a slice is sent to nobody, and changes no more than the parameter
/// sets: no number and no timestamp is used up, the clock is not started, and who
/// waits goes on waiting.
pub proof fn frames_without_a_slice_change_little(
    ch: Channel,
    nals: Seq<Seq<u8>>,
    long: Seq<bool>,
    now: u64,
    ticks: u32,
)
    requires
        annexb::joinable(nals, long),
        !holds_type(nals, 1),
        !holds_type(nals, 5),
    ensures
        ({
            let after = ch.published(annexb::joined(nals, long), now, ticks);
            &&& after.sequence == ch.sequence
            &&& after.timestamp == ch.timestamp
            &&& after.stream_epoch == ch.stream_epoch
            &&& after.subscribers == ch.subscribers
            &&& after.next_subscriber == ch.next_subscriber
        }),
{
    frames_with_a_slice_are_sent(nals, long);
}

/// A channel starts without clients, without parameter sets and without a clock; the
/// first client and the first packet get number 1.
pub proof fn channels_start_empty()
    ensures
        ({
            let ch = Channel::fresh();
            &&& ch.subscribers.len() == 0
            &&& ch.next_subscriber == 1
            &&& ch.sequence == 1
            &&& ch.sps is None && ch.pps is None
            &&& ch.stream_epoch is None
            &&& ch.timestamp == 0
        }),
{
}

/// There are four channels, numbered from 1.
pub proof fn there_are_four_channels(channel: int)
    ensures
        is_channel(channel) <==> channel == 1 || channel == 2 || channel == 3 || channel == 4,
{
}

/// A frame is handed out once to each client that it goes to, and to clients of the
/// channel alone.
pub proof fn each_client_is_sent_a_frame_once(ch: Channel, data: Seq<u8>, recipients: Seq<u64>)
    requires
        ch.addressed(data, recipients),
    ensures
        forall|i: int, j: int|
            0 <= i < j < recipients.len() ==> #[trigger] recipients[i] != #[trigger] recipients[j],
        forall|i: int|
            0 <= i < recipients.len() ==> ch.subscribers.contains_key(#[trigger] recipients[i]),
{
    assert forall|i: int| 0 <= i < recipients.len() implies ch.subscribers.contains_key(
        #[trigger] recipients[i],
    ) by {
        assert(recipients.contains(recipients[i]));
    }
}

/// Before its first frame, and for times before it, a channel has not been running. At
/// the largest timestamp the time stands still.
pub proof fn clocks_start_at_zero(ch: Channel, now: u64, ticks: u32)
    ensures
        ch.stream_epoch is None ==> ch.elapsed_at(now) == 0,
        ch.stream_epoch matches Some(e) && now <= e ==> ch.elapsed_at(now) == 0,
        stamp_after(u32::MAX, ticks) == u32::MAX,
        stamp_after(0, ticks) == ticks,
{
}

/// Of a frame its units alone matter: bytes that hold the same units are sent in the
/// same packets, to the same clients, and change the channel in the same way.
pub proof fn only_the_units_of_a_frame_matter(
    ch: Channel,
    channel: int,
    a: Seq<u8>,
    b: Seq<u8>,
    now: u64,
    ticks: u32,
    recipients: Seq<u64>,
)
    requires
        annexb::nal_units(a) == annexb::nal_units(b),
    ensures
        access_unit(a) == access_unit(b),
        ch.packets_for(channel, a, ticks) == ch.packets_for(channel, b, ticks),
        ch.published(a, now, ticks) == ch.published(b, now, ticks),
        ch.addressed(a, recipients) == ch.addressed(b, recipients),
{
}

} // verus!
