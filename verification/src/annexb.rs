//! H.264 byte streams in the Annex-B format: NAL units behind start codes.
use vstd::prelude::*;
use vstd::slice::slice_subrange;

verus! {

/// The largest RTP payload that a NAL unit is sent in as it is.
pub const RTP_MTU: usize = 1200;

/// What a list of byte slices holds.
pub open spec fn views(nals: Seq<&[u8]>) -> Seq<Seq<u8>> {
    nals.map_values(|n: &[u8]| n@)
}

/// A start code of three bytes at `i`, with something behind it.
pub open spec fn short_code(d: Seq<u8>, i: int) -> bool {
    0 <= i && i + 3 < d.len() && d[i] == 0 && d[i + 1] == 0 && d[i + 2] == 1
}

/// A start code of four bytes at `i`, with something behind it.
pub open spec fn long_code(d: Seq<u8>, i: int) -> bool {
    0 <= i && i + 4 < d.len() && d[i] == 0 && d[i + 1] == 0 && d[i + 2] == 0 && d[i + 3] == 1
}

/// The start codes from `i` on: where each stands, and its length.
pub open spec fn start_codes(d: Seq<u8>, i: int) -> Seq<(int, int)>
    decreases d.len() - i,
{
    if i + 3 >= d.len() {
        seq![]
    } else if short_code(d, i) {
        seq![(i, 3int)] + start_codes(d, i + 3)
    } else if long_code(d, i) {
        seq![(i, 4int)] + start_codes(d, i + 4)
    } else {
        start_codes(d, i + 1)
    }
}

/// Where the unit behind start code `k` begins.
pub open spec fn unit_begin(codes: Seq<(int, int)>, k: int) -> int {
    codes[k].0 + codes[k].1
}

/// Where the unit behind start code `k` ends: at the next one, or with the data.
pub open spec fn unit_end(d: Seq<u8>, codes: Seq<(int, int)>, k: int) -> int {
    if k + 1 < codes.len() {
        codes[k + 1].0
    } else {
        d.len() as int
    }
}

/// What stands behind each of the start codes.
pub open spec fn between(d: Seq<u8>, codes: Seq<(int, int)>) -> Seq<Seq<u8>> {
    Seq::new(codes.len(), |k: int| d.subrange(unit_begin(codes, k), unit_end(d, codes, k)))
}

/// Holds of byte sequences that are not empty.
pub open spec fn not_empty() -> spec_fn(Seq<u8>) -> bool {
    |u: Seq<u8>| u.len() > 0
}

/// The NAL units of a byte stream, without the empty ones.
pub open spec fn nal_units(d: Seq<u8>) -> Seq<Seq<u8>> {
    between(d, start_codes(d, 0)).filter(not_empty())
}

/// The type of a NAL unit: the low five bits of its first byte.
pub open spec fn kind(nal: Seq<u8>) -> Option<u8> {
    if nal.len() > 0 {
        Some(nal[0] & 0x1f)
    } else {
        None
    }
}

/// The type of a NAL unit.
pub fn nal_type(nal: &[u8]) -> (r: Option<u8>)
    ensures
        r == kind(nal@),
{
    if nal.len() > 0 {
        Some(nal[0] & 0x1f)
    } else {
        None
    }
}

/// Start codes in order, apart from each other, within the data from `i` on.
spec fn in_order(d: Seq<u8>, codes: Seq<(int, int)>, i: int) -> bool {
    forall|k: int|
        0 <= k < codes.len() ==> i <= (#[trigger] codes[k]).0 && 0 < codes[k].1 && unit_begin(
            codes,
            k,
        ) < d.len() && unit_begin(codes, k) <= unit_end(d, codes, k)
}

proof fn lemma_start_codes(d: Seq<u8>, i: int)
    requires
        0 <= i,
    ensures
        in_order(d, start_codes(d, i), i),
    decreases d.len() - i,
{
    if i + 3 >= d.len() {
    } else if short_code(d, i) {
        lemma_start_codes(d, i + 3);
        lemma_prepend_code(d, start_codes(d, i + 3), i, 3);
    } else if long_code(d, i) {
        lemma_start_codes(d, i + 4);
        lemma_prepend_code(d, start_codes(d, i + 4), i, 4);
    } else {
        lemma_start_codes(d, i + 1);
    }
}

proof fn lemma_prepend_code(d: Seq<u8>, tail: Seq<(int, int)>, i: int, n: int)
    requires
        0 <= i,
        0 < n,
        i + n < d.len(),
        in_order(d, tail, i + n),
    ensures
        in_order(d, seq![(i, n)] + tail, i),
{
    let codes = seq![(i, n)] + tail;
    assert forall|k: int| 0 <= k < codes.len() implies i <= (#[trigger] codes[k]).0 && 0
        < codes[k].1 && unit_begin(codes, k) < d.len() && unit_begin(codes, k) <= unit_end(
        d,
        codes,
        k,
    ) by {
        if k > 0 {
            assert(codes[k] == tail[k - 1]);
            if k + 1 < codes.len() {
                assert(codes[k + 1] == tail[k]);
            }
        } else if codes.len() > 1 {
            assert(codes[1] == tail[0]);
        }
    }
}

/// Pairs of machine integers as mathematical ones.
spec fn as_codes(s: Seq<(usize, usize)>) -> Seq<(int, int)> {
    s.map_values(|p: (usize, usize)| (p.0 as int, p.1 as int))
}

fn scan_codes(data: &[u8]) -> (r: Vec<(usize, usize)>)
    ensures
        as_codes(r@) == start_codes(data@, 0),
{
    let len: usize = data.len();
    let mut starts: Vec<(usize, usize)> = Vec::new();
    let mut i: usize = 0;
    assert(as_codes(starts@) + start_codes(data@, 0) =~= start_codes(data@, 0));
    while len > 3 && i < len - 3
        invariant
            len == data@.len(),
            i <= len,
            as_codes(starts@) + start_codes(data@, i as int) == start_codes(data@, 0),
        decreases len - i,
    {
        let ghost before = as_codes(starts@);
        if data[i] == 0 && data[i + 1] == 0 && data[i + 2] == 1 {
            starts.push((i, 3));
            assert(as_codes(starts@) =~= before + seq![(i as int, 3int)]);
            assert(before + start_codes(data@, i as int) =~= as_codes(starts@) + start_codes(
                data@,
                i + 3,
            ));
            i += 3;
        } else if len > 4 && i < len - 4 && data[i] == 0 && data[i + 1] == 0 && data[i + 2] == 0
            && data[i + 3] == 1 {
            starts.push((i, 4));
            assert(as_codes(starts@) =~= before + seq![(i as int, 4int)]);
            assert(before + start_codes(data@, i as int) =~= as_codes(starts@) + start_codes(
                data@,
                i + 4,
            ));
            i += 4;
        } else {
            i += 1;
        }
    }
    assert(as_codes(starts@) + start_codes(data@, i as int) =~= as_codes(starts@));
    starts
}

/// Splits a byte stream into its NAL units.
pub fn split_annexb<'a>(data: &'a [u8]) -> (r: Vec<&'a [u8]>)
    ensures
        views(r@) == nal_units(data@),
{
    let starts = scan_codes(data);
    let mut nals: Vec<&'a [u8]> = Vec::new();
    let ghost codes = start_codes(data@, 0);
    let ghost all = between(data@, codes);
    proof {
        lemma_start_codes(data@, 0);
        reveal(Seq::filter);
        assert(all.take(0) =~= seq![]);
        assert(views(nals@) =~= all.take(0).filter(not_empty()));
    }
    let mut k: usize = 0;
    while k < starts.len()
        invariant
            k <= starts@.len(),
            codes == start_codes(data@, 0),
            as_codes(starts@) == codes,
            all == between(data@, codes),
            in_order(data@, codes, 0),
            views(nals@) == all.take(k as int).filter(not_empty()),
        decreases starts@.len() - k,
    {
        assert(codes[k as int] == (starts@[k as int].0 as int, starts@[k as int].1 as int));
        let len: usize = data.len();
        let begin: usize = starts[k].0 + starts[k].1;
        let end: usize = if k + 1 < starts.len() {
            assert(codes[k + 1] == (starts@[k + 1].0 as int, starts@[k + 1].1 as int));
            assert(unit_begin(codes, k + 1) < data@.len());
            starts[k + 1].0
        } else {
            len
        };
        proof {
            reveal(Seq::filter);
            assert(all.take(k + 1).drop_last() =~= all.take(k as int));
            assert(all.take(k + 1).last() == data@.subrange(begin as int, end as int));
        }
        let ghost before = nals@;
        if begin < end {
            nals.push(slice_subrange(data, begin, end));
            assert(views(nals@) =~= views(before).push(data@.subrange(begin as int, end as int)));
        }
        k += 1;
    }
    assert(all.take(k as int) =~= all);
    nals
}

/// What a frame holds, counted.
#[derive(Clone, Copy, Debug, PartialEq, Eq, Structural)]
pub struct H264Summary {
    pub nal_units: u64,
    pub has_idr: bool,
    pub sps_units: u64,
    pub pps_units: u64,
    pub fragmented_nals: u64,
    pub max_nal_bytes: u64,
}

/// Holds of NAL units of the given type.
pub open spec fn of_kind(k: u8) -> spec_fn(Seq<u8>) -> bool {
    |u: Seq<u8>| kind(u) == Some(k)
}

/// Holds of NAL units too long for one RTP packet.
pub open spec fn too_long() -> spec_fn(Seq<u8>) -> bool {
    |u: Seq<u8>| u.len() > RTP_MTU
}

/// Whether one of the units is of the given type.
pub open spec fn has_kind(units: Seq<Seq<u8>>, k: u8) -> bool {
    exists|i: int| 0 <= i < units.len() && kind(#[trigger] units[i]) == Some(k)
}

/// The length of the longest unit.
pub open spec fn longest(units: Seq<Seq<u8>>) -> nat
    decreases units.len(),
{
    if units.len() == 0 {
        0
    } else if units.last().len() > longest(units.drop_last()) {
        units.last().len()
    } else {
        longest(units.drop_last())
    }
}

/// Whether a summary counts just the given units.
pub open spec fn sums_up(s: H264Summary, units: Seq<Seq<u8>>) -> bool {
    &&& s.nal_units == units.len()
    &&& s.has_idr == has_kind(units, 5)
    &&& s.sps_units == units.filter(of_kind(7)).len()
    &&& s.pps_units == units.filter(of_kind(8)).len()
    &&& s.fragmented_nals == units.filter(too_long()).len()
    &&& s.max_nal_bytes == longest(units)
}

/// A unit more is of a type, or one of those before it is.
pub proof fn lemma_has_kind_push(units: Seq<Seq<u8>>, k: u8)
    requires
        units.len() > 0,
    ensures
        has_kind(units, k) == (has_kind(units.drop_last(), k) || kind(units.last()) == Some(k)),
{
    if has_kind(units.drop_last(), k) {
        let i = choose|i: int|
            0 <= i < units.drop_last().len() && kind(#[trigger] units.drop_last()[i]) == Some(k);
        assert(kind(units[i]) == Some(k));
    }
    if has_kind(units, k) {
        let i = choose|i: int| 0 <= i < units.len() && kind(#[trigger] units[i]) == Some(k);
        if i < units.len() - 1 {
            assert(kind(units.drop_last()[i]) == Some(k));
        }
    }
    if kind(units.last()) == Some(k) {
        assert(kind(units[units.len() - 1]) == Some(k));
    }
}

/// No unit of a byte stream is longer than the stream.
pub proof fn lemma_longest_fits(d: Seq<u8>)
    ensures
        longest(nal_units(d)) <= d.len(),
{
    let codes = start_codes(d, 0);
    let all = between(d, codes);
    lemma_start_codes(d, 0);
    assert forall|i: int| 0 <= i < nal_units(d).len() implies (#[trigger] nal_units(d)[i]).len()
        <= d.len() by {
        let u = nal_units(d)[i];
        assert(nal_units(d).contains(u));
        all.lemma_filter_contains_rev(not_empty(), u);
        let k = all.index_of(u);
        assert(0 <= codes[k].0);
        if k + 1 < codes.len() {
            assert(unit_begin(codes, k + 1) < d.len() && 0 < codes[k + 1].1);
        }
        assert(u == d.subrange(unit_begin(codes, k), unit_end(d, codes, k)));
    }
    lemma_longest_bound(nal_units(d), d.len());
}

proof fn lemma_longest_bound(units: Seq<Seq<u8>>, n: nat)
    requires
        forall|i: int| 0 <= i < units.len() ==> (#[trigger] units[i]).len() <= n,
    ensures
        longest(units) <= n,
    decreases units.len(),
{
    if units.len() > 0 {
        assert(units[units.len() - 1].len() <= n);
        assert forall|i: int| 0 <= i < units.drop_last().len() implies (
        #[trigger] units.drop_last()[i]).len() <= n by {
            assert(units[i].len() <= n);
        }
        lemma_longest_bound(units.drop_last(), n);
    }
}

/// Units are of one type each, and a type that is there is there once at least.
pub proof fn lemma_kinds_counted(units: Seq<Seq<u8>>)
    ensures
        units.filter(of_kind(7)).len() + units.filter(of_kind(8)).len() + (if has_kind(units, 5) {
            1int
        } else {
            0
        }) <= units.len(),
        units.filter(too_long()).len() <= units.len(),
    decreases units.len(),
{
    reveal(Seq::filter);
    if units.len() > 0 {
        lemma_kinds_counted(units.drop_last());
        lemma_has_kind_push(units, 5);
    }
}

/// Counts the NAL units of a frame.
pub fn inspect_annexb(data: &[u8]) -> (r: H264Summary)
    ensures
        sums_up(r, nal_units(data@)),
{
    let nals = split_annexb(data);
    let ghost units = nal_units(data@);
    let mut s = H264Summary {
        nal_units: 0,
        has_idr: false,
        sps_units: 0,
        pps_units: 0,
        fragmented_nals: 0,
        max_nal_bytes: 0,
    };
    proof {
        reveal(Seq::filter);
        assert(units.take(0) =~= seq![]);
    }
    let mut i: usize = 0;
    while i < nals.len()
        invariant
            i <= nals@.len(),
            units == views(nals@),
            sums_up(s, units.take(i as int)),
        decreases nals@.len() - i,
    {
        let nal = nals[i];
        let ghost now = units.take(i + 1);
        proof {
            reveal(Seq::filter);
            assert(now.drop_last() =~= units.take(i as int));
            assert(now.last() == nal@);
            lemma_has_kind_push(now, 5);
            units.take(i as int).lemma_filter_len(of_kind(7));
            units.take(i as int).lemma_filter_len(of_kind(8));
            units.take(i as int).lemma_filter_len(too_long());
        }
        let len: u64 = nal.len() as u64;
        s.nal_units = s.nal_units + 1;
        if len > s.max_nal_bytes {
            s.max_nal_bytes = len;
        }
        if len > RTP_MTU as u64 {
            s.fragmented_nals = s.fragmented_nals + 1;
        }
        match nal_type(nal) {
            Some(5) => {
                s.has_idr = true;
            },
            Some(7) => {
                s.sps_units = s.sps_units + 1;
            },
            Some(8) => {
                s.pps_units = s.pps_units + 1;
            },
            _ => {},
        }
        i += 1;
    }
    assert(units.take(i as int) =~= units);
    s
}

/// A start code of either length at `i`, whatever follows it.
pub open spec fn code_at(d: Seq<u8>, i: int) -> bool {
    d[i] == 0 && d[i + 1] == 0 && (d[i + 2] == 1 || (d[i + 2] == 0 && d[i + 3] == 1))
}

/// The first start code from `i` on; the last three bytes are not looked at.
pub open spec fn first_code(d: Seq<u8>, i: int) -> Option<int>
    decreases d.len() - i,
{
    if i + 4 > d.len() {
        None
    } else if code_at(d, i) {
        Some(i)
    } else {
        first_code(d, i + 1)
    }
}

/// Finds where the first start code stands.
pub fn find_annexb_start(buf: &[u8]) -> (r: Option<usize>)
    ensures
        match r {
            Some(i) => first_code(buf@, 0) == Some(i as int) && i + 4 <= buf@.len(),
            None => first_code(buf@, 0) is None,
        },
{
    let len: usize = buf.len();
    let mut i: usize = 0;
    while len >= 4 && i <= len - 4
        invariant
            len == buf@.len(),
            i <= len,
            first_code(buf@, 0) == first_code(buf@, i as int),
        decreases len - i,
    {
        if buf[i] == 0 && buf[i + 1] == 0 {
            if buf[i + 2] == 1 {
                return Some(i);
            }
            if buf[i + 2] == 0 && buf[i + 3] == 1 {
                return Some(i);
            }
        }
        i += 1;
    }
    None
}

/// A start code of four bytes, or of three.
pub open spec fn start_code(long: bool) -> Seq<u8> {
    if long {
        seq![0u8, 0u8, 0u8, 1u8]
    } else {
        seq![0u8, 0u8, 1u8]
    }
}

/// NAL units as a byte stream, each behind a start code, which is long where
/// `long` tells so.
pub open spec fn joined(nals: Seq<Seq<u8>>, long: Seq<bool>) -> Seq<u8>
    decreases nals.len(),
{
    if nals.len() == 0 {
        seq![]
    } else {
        start_code(long[0]) + nals[0] + joined(nals.drop_first(), long.drop_first())
    }
}

/// Whether the NAL units can stand in a byte stream with such start codes: they
/// are proper, and none that ends in a zero comes before a short code, which
/// would take that zero for its own.
pub open spec fn joinable(nals: Seq<Seq<u8>>, long: Seq<bool>) -> bool {
    &&& long.len() == nals.len()
    &&& forall|k: int| 0 <= k < nals.len() ==> proper(#[trigger] nals[k])
    &&& forall|k: int|
        0 <= k && k + 1 < nals.len() && (#[trigger] nals[k]).last() == 0 ==> long[k + 1]
}

/// A NAL unit that can stand in a byte stream: not empty, no start code inside.
pub open spec fn proper(nal: Seq<u8>) -> bool {
    nal.len() > 0 && forall|i: int|
        0 <= i && i + 3 <= nal.len() ==> !(#[trigger] nal[i] == 0 && nal[i + 1] == 0 && nal[i + 2]
            == 1)
}

spec fn code_len(long: bool) -> int {
    if long {
        4
    } else {
        3
    }
}

spec fn codes_of(nals: Seq<Seq<u8>>, long: Seq<bool>, at: int) -> Seq<(int, int)>
    decreases nals.len(),
{
    if nals.len() == 0 {
        seq![]
    } else {
        seq![(at, code_len(long[0]))] + codes_of(
            nals.drop_first(),
            long.drop_first(),
            at + code_len(long[0]) + nals[0].len(),
        )
    }
}

proof fn lemma_scan_past(d: Seq<u8>, i: int, e: int)
    requires
        0 <= i <= e,
        forall|j: int| i <= j < e ==> !short_code(d, j) && !long_code(d, j),
    ensures
        start_codes(d, i) == start_codes(d, e),
    decreases e - i,
{
    if i < e {
        if i + 3 < d.len() {
            assert(!short_code(d, i) && !long_code(d, i));
        }
        lemma_scan_past(d, i + 1, e);
    }
}

/// Whether the units behind the start codes are the given ones.
spec fn placed(d: Seq<u8>, codes: Seq<(int, int)>, nals: Seq<Seq<u8>>) -> bool {
    codes.len() == nals.len() && forall|k: int|
        0 <= k < nals.len() ==> d.subrange(unit_begin(codes, k), unit_end(d, codes, k))
            == #[trigger] nals[k]
}

proof fn lemma_rest_joinable(nals: Seq<Seq<u8>>, long: Seq<bool>)
    requires
        joinable(nals, long),
        nals.len() > 0,
    ensures
        joinable(nals.drop_first(), long.drop_first()),
{
    let rest = nals.drop_first();
    assert forall|k: int| 0 <= k < rest.len() implies proper(#[trigger] rest[k]) by {
        assert(proper(nals[k + 1]));
    }
    assert forall|k: int|
        0 <= k && k + 1 < rest.len() && (#[trigger] rest[k]).last() == 0 implies long.drop_first()[k
        + 1] by {
        assert(nals[k + 1].last() == 0);
    }
}

proof fn lemma_no_code_inside(d: Seq<u8>, nal: Seq<u8>, begin: int, end: int, next_long: bool)
    requires
        proper(nal),
        0 <= begin,
        end == begin + nal.len(),
        end <= d.len(),
        forall|j: int| 0 <= j < nal.len() ==> d[begin + j] == nal[j],
        end == d.len() || (end + 3 < d.len() && d[end] == 0 && d[end + 1] == 0 && (next_long
            ==> d[end + 2] == 0)),
        end < d.len() && nal.last() == 0 ==> next_long,
    ensures
        forall|j: int| begin <= j < end ==> !short_code(d, j) && !long_code(d, j),
{
    assert forall|j: int| begin <= j < end implies !short_code(d, j) && !long_code(d, j) by {
        if short_code(d, j) {
            if j + 3 <= end {
                let i = j - begin;
                assert(nal[i] == d[begin + i] && nal[i + 1] == d[begin + (i + 1)] && nal[i + 2]
                    == d[begin + (i + 2)]);
                assert(nal[i] == 0 && nal[i + 1] == 0 && nal[i + 2] == 1);
            } else {
                assert(d[j + 2] == 1);
            }
        }
        if long_code(d, j) {
            if j + 4 <= end {
                let i = j + 1 - begin;
                assert(nal[i] == d[begin + i] && nal[i + 1] == d[begin + (i + 1)] && nal[i + 2]
                    == d[begin + (i + 2)]);
                assert(nal[i] == 0 && nal[i + 1] == 0 && nal[i + 2] == 1);
            } else {
                assert(d[j + 3] == 1);
                if j + 1 == end {
                    assert(nal[nal.len() - 1] == d[begin + (nal.len() - 1)]);
                }
            }
        }
    }
}

proof fn lemma_codes_of(d: Seq<u8>, at: int, nals: Seq<Seq<u8>>, long: Seq<bool>)
    requires
        0 <= at <= d.len(),
        d.skip(at) == joined(nals, long),
        joinable(nals, long),
    ensures
        start_codes(d, at) == codes_of(nals, long, at),
        placed(d, codes_of(nals, long, at), nals),
    decreases nals.len(),
{
    if nals.len() == 0 {
        assert(d.skip(at).len() == 0);
    } else {
        let nal = nals[0];
        let rest = nals.drop_first();
        let longs = long.drop_first();
        let n = code_len(long[0]);
        let begin = at + n;
        let end = begin + nal.len();
        let tail = d.skip(at);
        assert(tail == start_code(long[0]) + nal + joined(rest, longs));
        assert(proper(nal));
        assert(tail[0] == d[at] && tail[1] == d[at + 1] && tail[2] == d[at + 2] && tail[3] == d[at
            + 3]);
        assert forall|j: int| 0 <= j < nal.len() implies d[begin + j] == nal[j] by {
            assert(tail[n + j] == d[begin + j]);
        }
        assert(short_code(d, at) == !long[0]);
        assert(long[0] ==> long_code(d, at));
        assert(d.skip(end) =~= joined(rest, longs)) by {
            assert forall|j: int| 0 <= j < joined(rest, longs).len() implies d[end + j] == joined(
                rest,
                longs,
            )[j] by {
                assert(tail[n + nal.len() + j] == d[end + j]);
            }
        }
        lemma_rest_joinable(nals, long);
        let next_long = rest.len() > 0 && longs[0];
        if rest.len() > 0 {
            let next = d.skip(end);
            assert(proper(rest[0]));
            assert(next.len() > 3);
            assert(next[0] == d[end] && next[1] == d[end + 1] && next[2] == d[end + 2]);
            assert(nals[0].last() == 0 ==> long[1]);
        }
        lemma_no_code_inside(d, nal, begin, end, next_long);
        lemma_scan_past(d, begin, end);
        lemma_codes_of(d, end, rest, longs);
        let codes = codes_of(nals, long, at);
        let more = codes_of(rest, longs, end);
        assert(codes == seq![(at, n)] + more);
        assert forall|k: int| 0 <= k < nals.len() implies d.subrange(
            unit_begin(codes, k),
            unit_end(d, codes, k),
        ) == #[trigger] nals[k] by {
            if k == 0 {
                if rest.len() > 0 {
                    assert(codes[1] == more[0]);
                    assert(more[0].0 == end);
                }
                assert(d.subrange(begin, end) =~= nal);
            } else {
                assert(codes[k] == more[k - 1]);
                if k + 1 < codes.len() {
                    assert(codes[k + 1] == more[k]);
                }
                assert(unit_begin(codes, k) == unit_begin(more, k - 1));
                assert(unit_end(d, codes, k) == unit_end(d, more, k - 1));
                assert(nals[k] == rest[k - 1]);
            }
        }
    }
}

proof fn lemma_filter_all(s: Seq<Seq<u8>>)
    requires
        forall|k: int| 0 <= k < s.len() ==> (#[trigger] s[k]).len() > 0,
    ensures
        s.filter(not_empty()) == s,
    decreases s.len(),
{
    reveal(Seq::filter);
    if s.len() > 0 {
        assert forall|k: int| 0 <= k < s.drop_last().len() implies (
        #[trigger] s.drop_last()[k]).len() > 0 by {
            assert(s[k].len() > 0);
        }
        lemma_filter_all(s.drop_last());
        assert(s.last() == s[s.len() - 1]);
        assert(s.drop_last().push(s.last()) =~= s);
    }
}

/// Splitting a byte stream gives back the NAL units that it was made of,
/// whether they stand behind long or short start codes.
pub proof fn split_gives_back_what_was_joined(nals: Seq<Seq<u8>>, long: Seq<bool>)
    requires
        joinable(nals, long),
    ensures
        nal_units(joined(nals, long)) == nals,
{
    let d = joined(nals, long);
    assert(d.skip(0) =~= d);
    lemma_codes_of(d, 0, nals, long);
    assert(between(d, start_codes(d, 0)) =~= nals);
    assert forall|k: int| 0 <= k < nals.len() implies (#[trigger] nals[k]).len() > 0 by {
        assert(proper(nals[k]));
    }
    lemma_filter_all(nals);
}

/// The search for a start code gives the first place where two zeros and a one,
/// or three zeros and a one, stand; places with less than four bytes behind them
/// are not looked at. It gives none just where there is no such place.
pub proof fn the_first_start_code_is_found(d: Seq<u8>)
    ensures
        match first_code(d, 0) {
            Some(i) => {
                &&& 0 <= i
                &&& i + 4 <= d.len()
                &&& d[i] == 0 && d[i + 1] == 0
                &&& d[i + 2] == 1 || (d[i + 2] == 0 && d[i + 3] == 1)
                &&& forall|j: int|
                    0 <= j < i ==> !(#[trigger] d[j] == 0 && d[j + 1] == 0 && (d[j + 2] == 1 || (
                    d[j + 2] == 0 && d[j + 3] == 1)))
            },
            None => forall|j: int|
                0 <= j && j + 4 <= d.len() ==> !(#[trigger] d[j] == 0 && d[j + 1] == 0 && (d[j + 2]
                    == 1 || (d[j + 2] == 0 && d[j + 3] == 1))),
        },
{
    lemma_first_code(d, 0);
}

proof fn lemma_first_code(d: Seq<u8>, i: int)
    requires
        0 <= i,
    ensures
        match first_code(d, i) {
            Some(k) => {
                &&& i <= k
                &&& k + 4 <= d.len()
                &&& d[k] == 0 && d[k + 1] == 0
                &&& d[k + 2] == 1 || (d[k + 2] == 0 && d[k + 3] == 1)
                &&& forall|j: int|
                    i <= j < k ==> !(#[trigger] d[j] == 0 && d[j + 1] == 0 && (d[j + 2] == 1 || (
                    d[j + 2] == 0 && d[j + 3] == 1)))
            },
            None => forall|j: int|
                i <= j && j + 4 <= d.len() ==> !(#[trigger] d[j] == 0 && d[j + 1] == 0 && (d[j + 2]
                    == 1 || (d[j + 2] == 0 && d[j + 3] == 1))),
        },
    decreases d.len() - i,
{
    if i + 4 <= d.len() && !code_at(d, i) {
        lemma_first_code(d, i + 1);
    }
}

/// The type of a NAL unit is its first byte modulo 32; an empty one has none.
pub proof fn the_type_is_the_first_byte_modulo_32(nal: Seq<u8>)
    ensures
        nal.len() == 0 ==> kind(nal) is None,
        nal.len() > 0 ==> kind(nal) == Some((nal[0] % 32) as u8),
{
    if nal.len() > 0 {
        let b = nal[0];
        assert(b & 0x1f == b % 32) by (bit_vector);
    }
}

/// What stands before the first start code of a byte stream belongs to no unit.
pub proof fn bytes_before_the_first_code_are_skipped(
    junk: Seq<u8>,
    nals: Seq<Seq<u8>>,
    long: Seq<bool>,
)
    requires
        joinable(nals, long),
        forall|j: int|
            0 <= j < junk.len() ==> !short_code(junk + joined(nals, long), j) && !long_code(
                junk + joined(nals, long),
                j,
            ),
    ensures
        nal_units(junk + joined(nals, long)) == nals,
{
    let d = junk + joined(nals, long);
    let at = junk.len() as int;
    assert(d.skip(at) =~= joined(nals, long));
    lemma_scan_past(d, 0, at);
    lemma_codes_of(d, at, nals, long);
    assert(between(d, start_codes(d, 0)) =~= nals);
    assert forall|k: int| 0 <= k < nals.len() implies (#[trigger] nals[k]).len() > 0 by {
        assert(proper(nals[k]));
    }
    lemma_filter_all(nals);
}

/// The summary of no units is all zero, and each further unit adds to it what it
/// is: one unit, one of its type, one that is fragmented where it has more than
/// 1200 bytes, and a new maximum where it is longer than all before it.
pub proof fn each_unit_adds_to_the_summary(
    s: H264Summary,
    units: Seq<Seq<u8>>,
    t: H264Summary,
    u: Seq<u8>,
)
    requires
        sums_up(s, units),
        sums_up(t, units.push(u)),
        u.len() > 0,
    ensures
        units.len() == 0 ==> s.nal_units == 0 && !s.has_idr && s.sps_units == 0 && s.pps_units == 0
            && s.fragmented_nals == 0 && s.max_nal_bytes == 0,
        t.nal_units == s.nal_units + 1,
        t.has_idr == (s.has_idr || u[0] % 32 == 5),
        t.sps_units == s.sps_units + (if u[0] % 32 == 7 {
            1int
        } else {
            0
        }),
        t.pps_units == s.pps_units + (if u[0] % 32 == 8 {
            1int
        } else {
            0
        }),
        t.fragmented_nals == s.fragmented_nals + (if u.len() > 1200 {
            1int
        } else {
            0
        }),
        t.max_nal_bytes == (if u.len() > s.max_nal_bytes {
            u.len() as int
        } else {
            s.max_nal_bytes as int
        }),
{
    reveal(Seq::filter);
    the_type_is_the_first_byte_modulo_32(u);
    assert(units.push(u).drop_last() =~= units);
    lemma_has_kind_push(units.push(u), 5);
}

/// A byte stream holds no more units than bytes.
pub proof fn lemma_units_fit(d: Seq<u8>)
    ensures
        nal_units(d).len() <= d.len(),
{
    lemma_codes_fit(d, 0);
    between(d, start_codes(d, 0)).lemma_filter_len(not_empty());
}

proof fn lemma_codes_fit(d: Seq<u8>, i: int)
    requires
        0 <= i <= d.len(),
    ensures
        start_codes(d, i).len() <= d.len() - i,
    decreases d.len() - i,
{
    if i + 3 < d.len() {
        if short_code(d, i) {
            lemma_codes_fit(d, i + 3);
        } else if long_code(d, i) {
            lemma_codes_fit(d, i + 4);
        } else {
            lemma_codes_fit(d, i + 1);
        }
    }
}

/// No unit of a byte stream is empty. Each stands right behind a start code, of three
/// bytes or four, and goes up to the next one or the end.
pub proof fn units_stand_between_start_codes(d: Seq<u8>, k: int)
    requires
        0 <= k < nal_units(d).len(),
    ensures
        nal_units(d)[k].len() > 0,
        exists|b: int, e: int|
            3 <= b < e <= d.len() && #[trigger] d.subrange(b, e) == nal_units(d)[k] && d[b - 1] == 1
                && d[b - 2] == 0 && d[b - 3] == 0 && (e == d.len() || (e + 3 <= d.len() && d[e] == 0
                && d[e + 1] == 0 && (d[e + 2] == 1 || (d[e + 2] == 0 && d[e + 3] == 1)))),
{
    let codes = start_codes(d, 0);
    let all = between(d, codes);
    let u = nal_units(d)[k];
    all.lemma_filter_pred(not_empty(), k);
    assert(nal_units(d).contains(u));
    all.lemma_filter_contains_rev(not_empty(), u);
    let i = all.index_of(u);
    lemma_start_codes(d, 0);
    lemma_codes_are_codes(d, 0, i);
    let b = unit_begin(codes, i);
    let e = unit_end(d, codes, i);
    assert(d.subrange(b, e) == u);
    if i + 1 < codes.len() {
        lemma_codes_are_codes(d, 0, i + 1);
    }
}

proof fn lemma_codes_are_codes(d: Seq<u8>, from: int, i: int)
    requires
        0 <= from,
        0 <= i < start_codes(d, from).len(),
    ensures
        ({
            let (at, n) = start_codes(d, from)[i];
            &&& from <= at && at + n <= d.len()
            &&& n == 3 || n == 4
            &&& d[at] == 0 && d[at + 1] == 0
            &&& d[at + 2] == 1 || (d[at + 2] == 0 && d[at + 3] == 1)
            &&& d[at + n - 1] == 1 && d[at + n - 2] == 0 && d[at + n - 3] == 0
        }),
    decreases d.len() - from,
{
    if from + 3 < d.len() {
        if short_code(d, from) {
            if i > 0 {
                lemma_codes_are_codes(d, from + 3, i - 1);
            }
        } else if long_code(d, from) {
            if i > 0 {
                lemma_codes_are_codes(d, from + 4, i - 1);
            }
        } else {
            lemma_codes_are_codes(d, from + 1, i);
        }
    }
}

/// Units of up to 1200 bytes are sent in one packet.
pub proof fn packets_hold_up_to_1200_bytes(u: Seq<u8>)
    ensures
        too_long()(u) <==> u.len() > 1200,
{
}

} // verus!
