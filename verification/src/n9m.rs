//! The N9M device protocol: packages behind 12-byte headers, JSON messages,
//! and media payloads.
use vstd::prelude::*;
use vstd::slice::{slice_subrange, slice_to_vec};

use crate::annexb;
use crate::annexb::find_annexb_start;
use crate::bytes;
use crate::crypto;
use crate::crypto::hmac_md5_hex;
use crate::json;
use crate::json::push_escaped;
use crate::number;
use crate::text;
use crate::text::{chars_of, decode_lossy, find, trim};

verus! {

broadcast use vstd::string::group_string_axioms;

/// The largest payload that a package can carry.
pub const MAX_PAYLOAD: usize = 16777216;

/// A package: a payload behind a header.
#[derive(Debug)]
pub struct Package {
    pub payload: Vec<u8>,
}

/// The bytes of a package: four zeros, the length of the payload, the marker,
/// the payload.
pub open spec fn package_bytes(payload: Seq<u8>) -> Seq<u8> {
    seq![0u8, 0u8, 0u8, 0u8] + bytes::be32((payload.len() % 0x1_0000_0000) as u32) + seq![
        0x52u8,
        0u8,
        0u8,
        0u8,
    ] + payload
}

/// The payload of a JSON message: its bytes and a zero.
pub open spec fn message_payload(json: Seq<char>) -> Seq<u8> {
    vstd::utf8::encode_utf8(json).push(0u8)
}

/// The package that carries a JSON message.
pub fn frame_json(json: &str) -> (r: Vec<u8>)
    ensures
        r@ == package_bytes(message_payload(json@)),
{
    let mut payload: Vec<u8> = Vec::new();
    bytes::append_bytes(&mut payload, json.as_bytes());
    payload.push(0);
    assert(payload@ =~= message_payload(json@));
    let mut out: Vec<u8> = vec![0u8, 0u8, 0u8, 0u8];
    let len: u32 = (payload.len() as u64 % 0x1_0000_0000) as u32;
    bytes::push_be32(&mut out, len);
    let ghost head = out@;
    out.push(0x52);
    out.push(0);
    out.push(0);
    out.push(0);
    assert(out@ =~= head + seq![0x52u8, 0u8, 0u8, 0u8]);
    bytes::append_bytes(&mut out, payload.as_slice());
    out
}

/// The length of the payload that the header at `k` announces.
pub open spec fn announced(b: Seq<u8>, k: int) -> nat {
    bytes::from_be32(b.subrange(k + 4, k + 8))
}

/// Whether a header stands at `k`: the marker, and a length that is allowed.
pub open spec fn header_at(b: Seq<u8>, k: int) -> bool {
    b[k + 8] == 0x52 && b[k + 9] == 0 && b[k + 10] == 0 && b[k + 11] == 0 && announced(b, k)
        <= MAX_PAYLOAD
}

/// The first place from `k` on where a header stands, or where there is not
/// enough left to tell.
pub open spec fn sync(b: Seq<u8>, k: int) -> int
    decreases b.len() - k,
{
    if k + 12 > b.len() || header_at(b, k) {
        k
    } else {
        sync(b, k + 1)
    }
}

/// The first package in a buffer, if it is complete, and what is left of the
/// buffer. Bytes before a header are dropped.
pub open spec fn first_package(b: Seq<u8>) -> (Option<Seq<u8>>, Seq<u8>) {
    let k = sync(b, 0);
    if k + 12 > b.len() || k + 12 + announced(b, k) > b.len() {
        (None, b.skip(k))
    } else {
        let end = k + 12 + announced(b, k);
        (Some(b.subrange(k + 12, end)), b.skip(end))
    }
}

/// All complete packages in a buffer, and what is left of the buffer.
pub open spec fn all_packages(b: Seq<u8>) -> (Seq<Seq<u8>>, Seq<u8>)
    decreases b.len(),
{
    match first_package(b) {
        (Some(p), rest) => if rest.len() < b.len() {
            let (more, left) = all_packages(rest);
            (seq![p] + more, left)
        } else {
            (seq![], rest)
        },
        (None, rest) => (seq![], rest),
    }
}

/// The payloads of packages.
pub open spec fn payload_views(packages: Seq<Package>) -> Seq<Seq<u8>> {
    packages.map_values(|p: Package| p.payload@)
}

/// Bytes from a device that have not become packages yet.
pub struct PacketReader {
    pub buf: Vec<u8>,
}

/// How a read from a device went.
pub enum ReadOutcome {
    /// These bytes came.
    Data(Vec<u8>),
    /// The device closed the connection.
    Closed,
    /// Nothing came in time.
    Quiet,
    /// The read failed.
    Failed(String),
}

/// The message for a connection that the device closed.
pub open spec fn closed_message() -> Seq<char> {
    "device closed the connection"@
}

proof fn lemma_sync(b: Seq<u8>, k: int)
    requires
        0 <= k,
    ensures
        k <= sync(b, k),
        k <= b.len() ==> sync(b, k) <= b.len(),
        sync(b, k) + 12 <= b.len() ==> header_at(b, sync(b, k)),
        sync(b, k) > k ==> sync(b, k) + 11 <= b.len(),
        forall|j: int| k <= j < sync(b, k) ==> !(#[trigger] header_at(b, j)),
    decreases b.len() - k,
{
    if !(k + 12 > b.len() || header_at(b, k)) {
        lemma_sync(b, k + 1);
    }
}

impl PacketReader {
    /// A reader that has been given nothing.
    pub fn new() -> (r: PacketReader)
        ensures
            r.buf@ == Seq::<u8>::empty(),
    {
        PacketReader { buf: Vec::new() }
    }

    /// Takes the first complete package out of the buffer.
    pub fn try_parse(&mut self) -> (r: Option<Package>)
        ensures
            final(self).buf@ == first_package(old(self).buf@).1,
            match r {
                Some(p) => first_package(old(self).buf@).0 == Some(p.payload@),
                None => first_package(old(self).buf@).0 is None,
            },
            r is Some ==> final(self).buf@.len() < old(self).buf@.len(),
    {
        let len: usize = self.buf.len();
        let mut k: usize = 0;
        let mut n: usize = 0;
        let mut synced = false;
        while !synced && len >= 12 && k <= len - 12
            invariant
                len == self.buf@.len(),
                self.buf@ == old(self).buf@,
                k <= len,
                k + 11 <= len || k == 0,
                sync(self.buf@, 0) == sync(self.buf@, k as int),
                synced ==> k + 12 <= len && header_at(self.buf@, k as int) && n == announced(
                    self.buf@,
                    k as int,
                ),
            decreases
                    (if synced {
                        0
                    } else {
                        1 + len - k
                    }),
        {
            n = self.buf[k + 4] as usize * 16777216 + self.buf[k + 5] as usize * 65536
                + self.buf[k + 6] as usize * 256 + self.buf[k + 7] as usize;
            assert(n == announced(self.buf@, k as int));
            if self.buf[k + 8] == 0x52 && self.buf[k + 9] == 0 && self.buf[k + 10] == 0
                && self.buf[k + 11] == 0 && n <= MAX_PAYLOAD {
                synced = true;
            } else {
                k += 1;
            }
        }
        let whole = self.buf.as_slice();
        if !synced || len - k - 12 < n {
            let rest = slice_to_vec(slice_subrange(whole, k, len));
            assert(rest@ =~= whole@.skip(k as int));
            self.buf = rest;
            return None;
        }
        let payload = slice_to_vec(slice_subrange(whole, k + 12, k + 12 + n));
        let rest = slice_to_vec(slice_subrange(whole, k + 12 + n, len));
        assert(rest@ =~= whole@.skip(k + 12 + n));
        self.buf = rest;
        Some(Package { payload })
    }

    /// Takes all complete packages out of the buffer.
    pub fn take_packages(&mut self) -> (r: Vec<Package>)
        ensures
            payload_views(r@) == all_packages(old(self).buf@).0,
            final(self).buf@ == all_packages(old(self).buf@).1,
    {
        let mut out: Vec<Package> = Vec::new();
        let mut more = true;
        let ghost goal = all_packages(self.buf@);
        assert(payload_views(out@) + goal.0 =~= goal.0);
        while more
            invariant
                goal == all_packages(old(self).buf@),
                if more {
                    &&& payload_views(out@) + all_packages(self.buf@).0 == goal.0
                    &&& all_packages(self.buf@).1 == goal.1
                } else {
                    &&& payload_views(out@) == goal.0
                    &&& self.buf@ == goal.1
                },
            decreases
                    (if more {
                        1 + self.buf@.len()
                    } else {
                        0
                    }),
        {
            let ghost before = out@;
            match self.try_parse() {
                Some(p) => {
                    out.push(p);
                    assert(payload_views(out@) =~= payload_views(before).push(p.payload@));
                    assert(payload_views(before) + (seq![p.payload@] + all_packages(self.buf@).0)
                        =~= payload_views(out@) + all_packages(self.buf@).0);
                },
                None => {
                    more = false;
                    assert(payload_views(before) + Seq::<Seq<u8>>::empty() =~= payload_views(
                        before,
                    ));
                },
            }
        }
        out
    }

    /// Takes note of a read. Tells whether there may be more to read; a
    /// connection that is closed or broken is an error.
    pub fn accept(&mut self, outcome: ReadOutcome) -> (r: Result<bool, String>)
        ensures
            match outcome {
                ReadOutcome::Data(data) => r == Ok::<bool, String>(true) && final(self).buf@ == old(self).buf@ + data@,
                ReadOutcome::Closed => (r matches Err(e) && e@ == closed_message()) && final(self).buf@ == old(self).buf@,
                ReadOutcome::Quiet => r == Ok::<bool, String>(false) && final(self).buf@ == old(self).buf@,
                ReadOutcome::Failed(message) => r == Err::<bool, String>(message) && final(self).buf@ == old(self).buf@,
            },
    {
        match outcome {
            ReadOutcome::Data(data) => {
                bytes::append_bytes(&mut self.buf, data.as_slice());
                Ok(true)
            },
            ReadOutcome::Closed => Err("device closed the connection".to_owned()),
            ReadOutcome::Quiet => Ok(false),
            ReadOutcome::Failed(message) => Err(message),
        }
    }
}

proof fn lemma_header_in_front(a: Seq<u8>, b: Seq<u8>, k: int)
    requires
        0 <= k,
        k + 12 <= a.len(),
    ensures
        header_at(a + b, k) == header_at(a, k),
        announced(a + b, k) == announced(a, k),
{
    assert((a + b).subrange(k + 4, k + 8) =~= a.subrange(k + 4, k + 8));
}

proof fn lemma_sync_in_front(a: Seq<u8>, b: Seq<u8>, k: int)
    requires
        0 <= k,
    ensures
        sync(a + b, k) == sync(a + b, sync(a, k)),
    decreases a.len() - k,
{
    if k + 12 <= a.len() {
        lemma_header_in_front(a, b, k);
        if !header_at(a, k) {
            lemma_sync_in_front(a, b, k + 1);
        }
    }
}

proof fn lemma_header_shift(b: Seq<u8>, k: int, i: int)
    requires
        0 <= k,
        0 <= i,
        k + i + 12 <= b.len(),
    ensures
        header_at(b.skip(k), i) == header_at(b, k + i),
        announced(b.skip(k), i) == announced(b, k + i),
{
    assert(b.skip(k).subrange(i + 4, i + 8) =~= b.subrange(k + i + 4, k + i + 8));
}

proof fn lemma_sync_shift(b: Seq<u8>, k: int, i: int)
    requires
        0 <= k <= b.len(),
        0 <= i,
    ensures
        sync(b, k + i) == k + sync(b.skip(k), i),
    decreases b.len() - k - i,
{
    if k + i + 12 <= b.len() {
        lemma_header_shift(b, k, i);
        if !header_at(b, k + i) {
            lemma_sync_shift(b, k, i + 1);
        }
    }
}

proof fn lemma_rest_shorter(b: Seq<u8>)
    ensures
        first_package(b).0 is Some ==> first_package(b).1.len() < b.len(),
        first_package(b).1.len() <= b.len(),
{
    lemma_sync(b, 0);
}

proof fn lemma_first_package(a: Seq<u8>, b: Seq<u8>)
    ensures
        match first_package(a) {
            (Some(p), rest) => first_package(a + b) == (Some(p), rest + b),
            (None, rest) => first_package(a + b) == first_package(rest + b),
        },
{
    let k = sync(a, 0);
    lemma_sync(a, 0);
    lemma_sync_in_front(a, b, 0);
    if k + 12 <= a.len() {
        lemma_header_in_front(a, b, k);
        assert(sync(a + b, 0) == k);
    }
    match first_package(a) {
        (Some(p), rest) => {
            let end = k + 12 + announced(a, k);
            assert((a + b).subrange(k + 12, end) =~= a.subrange(k + 12, end));
            assert((a + b).skip(end) =~= rest + b);
        },
        (None, rest) => {
            let c = a + b;
            assert(c.skip(k) =~= rest + b);
            lemma_sync_shift(c, k, 0);
            let i = sync(c.skip(k), 0);
            lemma_sync(c.skip(k), 0);
            assert(sync(c, 0) == k + i);
            if k + i + 12 <= c.len() {
                lemma_header_shift(c, k, i);
                let end = i + 12 + announced(c.skip(k), i);
                if k + end <= c.len() {
                    assert(c.skip(k).subrange(i + 12, end) =~= c.subrange(k + i + 12, k + end));
                    assert(c.skip(k).skip(end) =~= c.skip(k + end));
                }
            }
            assert(c.skip(k).skip(i) =~= c.skip(k + i));
        },
    }
}

/// How the bytes from a device are cut into reads makes no difference: the
/// packages that come out are those of all the bytes at once.
pub proof fn packages_do_not_depend_on_the_reads(a: Seq<u8>, b: Seq<u8>)
    ensures
        all_packages(a + b).0 == all_packages(a).0 + all_packages(all_packages(a).1 + b).0,
        all_packages(a + b).1 == all_packages(all_packages(a).1 + b).1,
    decreases a.len(),
{
    lemma_first_package(a, b);
    lemma_rest_shorter(a);
    lemma_rest_shorter(a + b);
    match first_package(a) {
        (Some(p), rest) => {
            packages_do_not_depend_on_the_reads(rest, b);
            assert(all_packages(a + b).0 =~= all_packages(a).0 + all_packages(
                all_packages(a).1 + b,
            ).0);
        },
        (None, rest) => {
            lemma_rest_shorter(rest + b);
            assert(all_packages(a + b) == all_packages(rest + b));
            assert(all_packages(a).0 + all_packages(rest + b).0 =~= all_packages(rest + b).0);
        },
    }
}

/// What was sent as a package is read as that package.
pub proof fn packages_are_read_back(payload: Seq<u8>, rest: Seq<u8>)
    requires
        payload.len() <= MAX_PAYLOAD,
    ensures
        first_package(package_bytes(payload) + rest) == (Some(payload), rest),
{
    let b = package_bytes(payload) + rest;
    let len = (payload.len() % 0x1_0000_0000) as u32;
    assert(b.subrange(4, 8) =~= bytes::be32(len));
    bytes::lemma_from_be32(len);
    assert(header_at(b, 0));
    assert(b.subrange(12, 12 + payload.len() as int) =~= payload);
    assert(b.skip(12 + payload.len() as int) =~= rest);
}

/// The bytes that may follow a message: zeros and line ends.
pub open spec fn is_filler(b: u8) -> bool {
    b == 0 || b == 10 || b == 13
}

/// `s` without the filler that it ends with.
pub open spec fn without_filler(s: Seq<u8>) -> Seq<u8>
    decreases s.len(),
{
    if s.len() > 0 && is_filler(s.last()) {
        without_filler(s.drop_last())
    } else {
        s
    }
}

/// A payload without the filler at its end; one of nothing else stays as it is.
pub open spec fn message_bytes(payload: Seq<u8>) -> Seq<u8> {
    if without_filler(payload).len() > 0 {
        without_filler(payload)
    } else {
        payload
    }
}

/// Drops the zeros and line ends at the end of a payload.
pub fn trim_nul<'a>(payload: &'a [u8]) -> (r: &'a [u8])
    ensures
        r@ == message_bytes(payload@),
{
    let mut n: usize = payload.len();
    assert(payload@.take(n as int) =~= payload@);
    while n > 0 && (payload[n - 1] == 0 || payload[n - 1] == 10 || payload[n - 1] == 13)
        invariant
            n <= payload@.len(),
            without_filler(payload@) == without_filler(payload@.take(n as int)),
        decreases n,
    {
        assert(payload@.take(n as int).drop_last() =~= payload@.take(n - 1));
        n -= 1;
    }
    assert(payload@.take(n as int) =~= payload@.subrange(0, n as int));
    if n > 0 {
        slice_subrange(payload, 0, n)
    } else {
        payload
    }
}

/// Whether a payload is a JSON message: it starts with a brace.
pub open spec fn holds_json(payload: Seq<u8>) -> bool {
    message_bytes(payload).len() > 0 && message_bytes(payload)[0] == 0x7b
}

/// Whether a payload is a JSON message.
pub fn is_json(payload: &[u8]) -> (r: bool)
    ensures
        r == holds_json(payload@),
{
    let t = trim_nul(payload);
    t.len() > 0 && t[0] == 0x7b
}

/// The text of a JSON message.
pub fn message_text(payload: &[u8]) -> (r: String)
    ensures
        r@ == text::utf8_lossy(message_bytes(payload@)),
        vstd::utf8::valid_utf8(message_bytes(payload@)) ==> r@ == vstd::utf8::decode_utf8(
            message_bytes(payload@),
        ),
{
    decode_lossy(trim_nul(payload))
}

/// An optional member of a message.
pub open spec fn member(head: Seq<char>, value: Option<Seq<char>>) -> Seq<char> {
    match value {
        Some(v) => head + v,
        None => seq![],
    }
}

/// A message to the device.
pub open spec fn packet_text(
    module: Seq<char>,
    operation: Seq<char>,
    parameter: Option<Seq<char>>,
    response: Option<Seq<char>>,
    session: Seq<char>,
) -> Seq<char> {
    "{\"MODULE\":\""@ + json::escaped(module) + "\",\"OPERATION\":\""@ + json::escaped(operation)
        + "\""@ + member(",\"PARAMETER\":"@, parameter) + member(",\"RESPONSE\":"@, response)
        + ",\"SESSION\":\""@ + json::escaped(session) + "\"}"@
}

/// What an optional text holds.
pub open spec fn text_view(t: Option<&str>) -> Option<Seq<char>> {
    match t {
        Some(s) => Some(s@),
        None => None,
    }
}

/// Writes a message to the device.
pub fn json_packet(
    module: &str,
    operation: &str,
    parameter: Option<&str>,
    response: Option<&str>,
    session: &str,
) -> (r: String)
    ensures
        r@ == packet_text(
            module@,
            operation@,
            text_view(parameter),
            text_view(response),
            session@,
        ),
{
    let mut s = "{\"MODULE\":\"".to_owned();
    push_escaped(&mut s, module);
    s.append("\",\"OPERATION\":\"");
    push_escaped(&mut s, operation);
    s.append("\"");
    let ghost head = s@;
    match parameter {
        Some(p) => {
            s.append(",\"PARAMETER\":");
            s.append(p);
        },
        None => {},
    }
    assert(s@ =~= head + member(",\"PARAMETER\":"@, text_view(parameter)));
    let ghost longer = s@;
    match response {
        Some(p) => {
            s.append(",\"RESPONSE\":");
            s.append(p);
        },
        None => {},
    }
    assert(s@ =~= longer + member(",\"RESPONSE\":"@, text_view(response)));
    s.append(",\"SESSION\":\"");
    push_escaped(&mut s, session);
    s.append("\"}");
    s
}

/// The frame that keeps a session alive.
pub open spec fn keepalive_bytes(session: Seq<char>) -> Seq<u8> {
    package_bytes(
        message_payload(packet_text("CERTIFICATE"@, "KEEPALIVE"@, None, None, session)),
    )
}

/// The package that keeps a session alive.
pub fn keepalive_frame(session: &str) -> (r: Vec<u8>)
    ensures
        r@ == keepalive_bytes(session@),
{
    let packet = json_packet("CERTIFICATE", "KEEPALIVE", None, None, session);
    frame_json(packet.as_str())
}

/// Whether the device asks for a sign of life.
pub open spec fn asks_keepalive(message: Seq<char>) -> bool {
    text::found(message, "\"OPERATION\":\"KEEPALIVE\""@) is Some
}

/// Whether the device asks for a sign of life.
pub fn is_keepalive(message: &str) -> (r: bool)
    ensures
        r == asks_keepalive(message@),
{
    let s = chars_of(message);
    let n = chars_of("\"OPERATION\":\"KEEPALIVE\"");
    find(s.as_slice(), n.as_slice()).is_some()
}

/// Answers a message from the device that calls for an answer: a request for
/// a sign of life gets one.
pub fn handle_json_package(session: &str, payload: &[u8]) -> (r: Option<Vec<u8>>)
    ensures
        match r {
            Some(frame) => asks_keepalive(text::utf8_lossy(payload@)) && frame@ == keepalive_bytes(
                session@,
            ),
            None => !asks_keepalive(text::utf8_lossy(payload@)),
        },
        vstd::utf8::valid_utf8(payload@) ==> (r is Some <==> asks_keepalive(
            vstd::utf8::decode_utf8(payload@),
        )),
{
    let message = decode_lossy(payload);
    if is_keepalive(message.as_str()) {
        Some(keepalive_frame(session))
    } else {
        None
    }
}

/// The channel number and the frame in a media payload. The frame starts with
/// the first start code and has the length that the payload tells, or ends
/// with the payload.
pub open spec fn media_frame(p: Seq<u8>) -> Option<(int, Seq<u8>)> {
    if p.len() < 16 || p[2] != 0x64 || p[3] != 0x63 || (p[1] != 0x32 && p[1] != 0x33) {
        None
    } else {
        match annexb::first_code(p, 0) {
            None => None,
            Some(start) => {
                let told = start + p[4] + p[5] * 256;
                let end = if told < p.len() {
                    told
                } else {
                    p.len() as int
                };
                if end <= start {
                    None
                } else {
                    Some((p[0] + 1, p.subrange(start, end)))
                }
            },
        }
    }
}

/// Takes the channel number and the frame out of a media payload.
pub fn parse_media_payload(payload: &[u8]) -> (r: Option<(usize, Vec<u8>)>)
    ensures
        match r {
            Some((channel, frame)) => media_frame(payload@) == Some((channel as int, frame@))
                && channel >= 1 && frame@.len() > 0,
            None => media_frame(payload@) is None,
        },
{
    let len: usize = payload.len();
    if len < 16 || payload[2] != 0x64 || payload[3] != 0x63 {
        return None;
    }
    if payload[1] != 0x32 && payload[1] != 0x33 {
        return None;
    }
    match find_annexb_start(payload) {
        None => None,
        Some(start) => {
            let video_len: usize = payload[4] as usize + payload[5] as usize * 256;
            let end: usize = if video_len < len - start {
                start + video_len
            } else {
                len
            };
            if end <= start {
                return None;
            }
            let frame = slice_to_vec(slice_subrange(payload, start, end));
            Some((payload[0] as usize + 1, frame))
        },
    }
}

/// A frame that a payload carries whole, behind a head without a start code, is
/// taken out of it as it is, for the channel that the head tells.
pub proof fn frames_are_taken_out_of_their_payloads(
    head: Seq<u8>,
    frame: Seq<u8>,
    rest: Seq<u8>,
)
    requires
        head.len() >= 6,
        head.len() + frame.len() + rest.len() >= 16,
        head[1] == 0x32 || head[1] == 0x33,
        head[2] == 0x64,
        head[3] == 0x63,
        frame.len() > 0,
        frame.len() == head[4] + head[5] * 256,
        annexb::first_code(head + frame + rest, 0) == Some(head.len() as int),
    ensures
        media_frame(head + frame + rest) == Some((head[0] + 1, frame)),
{
    let p = head + frame + rest;
    assert(p.subrange(head.len() as int, (head.len() + frame.len()) as int) =~= frame);
}

/// The hexadecimal digits, in either case.
pub open spec fn is_hex_digit(c: char) -> bool {
    '0' <= c <= '9' || 'a' <= c <= 'f' || 'A' <= c <= 'F'
}

/// Whether a text is 32 hexadecimal digits.
pub open spec fn is_digest(s: Seq<char>) -> bool {
    s.len() == 32 && forall|i: int| 0 <= i < 32 ==> is_hex_digit(#[trigger] s[i])
}

/// What is sent for a password: nothing for a blank one, 32 hexadecimal digits
/// as they are, and for others the HMAC-MD5 code under the key `streaming`.
pub open spec fn password_field(password: Seq<char>) -> Seq<char> {
    if text::trimmed(password).len() == 0 {
        seq![]
    } else if is_digest(password) {
        password
    } else {
        number::hex_bytes(
            crypto::hmac_md5_of(
                vstd::utf8::encode_utf8("streaming"@),
                vstd::utf8::encode_utf8(password),
            ),
        )
    }
}

/// The password as the device wants it.
pub fn login_password_field(password: &str) -> (r: String)
    ensures
        r@ == password_field(password@),
{
    let s = chars_of(password);
    if trim(s.as_slice()).len() == 0 {
        return String::new();
    }
    if s.len() == 32 {
        let mut i: usize = 0;
        while i < 32 && (('0' <= s[i] && s[i] <= '9') || ('a' <= s[i] && s[i] <= 'f') || ('A'
            <= s[i] && s[i] <= 'F'))
            invariant
                i <= 32,
                s@.len() == 32,
                forall|j: int| 0 <= j < i ==> is_hex_digit(#[trigger] s@[j]),
            decreases 32 - i,
        {
            i += 1;
        }
        if i == 32 {
            return password.to_owned();
        }
        assert(!is_hex_digit(s@[i as int]));
    }
    hmac_md5_hex("streaming".as_bytes(), password.as_bytes())
}

/// A password is sent as 32 hexadecimal digits or, where it is blank, as nothing.
/// What is sent can itself be supplied as the password: it is left unchanged.
pub proof fn sent_passwords_are_left_unchanged(password: Seq<char>)
    ensures
        password_field(password).len() == 0 || is_digest(password_field(password)),
        password_field(password_field(password)) == password_field(password),
{
    let sent = password_field(password);
    if text::trimmed(password).len() > 0 && !is_digest(password) {
        crypto::codes_are_hexadecimal_digits(
            vstd::utf8::encode_utf8("streaming"@),
            vstd::utf8::encode_utf8(password),
        );
        assert(is_digest(sent));
        assert(is_hex_digit(sent[0]) && is_hex_digit(sent[31]));
        assert(text::trimmed(sent) == sent);
    }
}

proof fn lemma_encode_push(s: Seq<char>, c: char)
    ensures
        vstd::utf8::encode_utf8(s.push(c)) == vstd::utf8::encode_utf8(s)
            + vstd::utf8::encode_scalar(c as u32),
    decreases s.len(),
{
    if s.len() == 0 {
        assert(s.push(c).drop_first() =~= s);
        assert(vstd::utf8::encode_utf8(s.push(c)) =~= vstd::utf8::encode_utf8(s)
            + vstd::utf8::encode_scalar(c as u32));
    } else {
        lemma_encode_push(s.drop_first(), c);
        assert(s.push(c).drop_first() =~= s.drop_first().push(c));
        assert(vstd::utf8::encode_utf8(s.push(c)) =~= vstd::utf8::encode_utf8(s)
            + vstd::utf8::encode_scalar(c as u32));
    }
}

proof fn lemma_encode_ascii(c: char)
    requires
        c <= '\u{7f}',
    ensures
        vstd::utf8::encode_scalar(c as u32) == seq![c as u8],
{
    let s = seq![c];
    assert(vstd::utf8::is_ascii_chars(s));
    vstd::utf8::is_ascii_chars_encode_utf8(s);
    assert(s.drop_first() =~= seq![]);
    reveal_with_fuel(vstd::utf8::encode_utf8, 2);
    assert(vstd::utf8::encode_utf8(s) =~= vstd::utf8::encode_scalar(c as u32));
    assert(vstd::utf8::encode_scalar(c as u32) =~= seq![c as u8]) by {
        assert(vstd::utf8::encode_utf8(s)[0] == s[0] as u8);
    }
}

/// A message that is sent as a payload is recognised as a JSON message, and
/// its text is the one that was sent.
pub proof fn messages_are_read_back(
    module: Seq<char>,
    operation: Seq<char>,
    parameter: Option<Seq<char>>,
    response: Option<Seq<char>>,
    session: Seq<char>,
)
    ensures
        ({
            let message = packet_text(module, operation, parameter, response, session);
            let payload = message_payload(message);
            &&& holds_json(payload)
            &&& vstd::utf8::valid_utf8(message_bytes(payload))
            &&& vstd::utf8::decode_utf8(message_bytes(payload)) == message
        }),
{
    let message = packet_text(module, operation, parameter, response, session);
    let payload = message_payload(message);
    reveal_strlit("{\"MODULE\":\"");
    reveal_strlit("\"}");
    assert(message[0] == '{');
    assert(message.last() == '}');
    lemma_encode_push(message.drop_last(), '}');
    assert(message.drop_last().push('}') =~= message);
    lemma_encode_ascii('}');
    lemma_encode_ascii('{');
    let code = vstd::utf8::encode_utf8(message);
    assert(code.last() == 0x7d);
    assert(code[0] == 0x7b);
    assert(payload.drop_last() =~= code);
    reveal_with_fuel(without_filler, 3);
    assert(without_filler(payload) == code);
    vstd::utf8::encode_utf8_valid_utf8(message);
    vstd::utf8::encode_utf8_decode_utf8(message);
}

proof fn lemma_cut_plain(value: Seq<char>, rest: Seq<char>)
    requires
        json::plain(value),
        rest.len() > 0,
        rest[0] == '"',
    ensures
        text::cut_at(value + rest, '"') == Some((value, rest.skip(1))),
{
    let s = value + rest;
    text::lemma_char_from(s, '"', 0);
    assert(s[value.len() as int] == '"');
    match text::char_index(s, '"') {
        Some(i) => {
            if i < value.len() {
                assert(s[i] == value[i]);
            }
            assert(i == value.len());
        },
        None => {},
    }
    assert(s.take(value.len() as int) =~= value);
    assert(s.skip(value.len() as int + 1) =~= rest.skip(1));
}

/// What follows the operation in a message.
spec fn operation_tail(
    parameter: Option<Seq<char>>,
    response: Option<Seq<char>>,
    session: Seq<char>,
) -> Seq<char> {
    "\""@ + member(",\"PARAMETER\":"@, parameter) + member(",\"RESPONSE\":"@, response)
        + ",\"SESSION\":\""@ + json::escaped(session) + "\"}"@
}

proof fn lemma_packet_shape(
    module: Seq<char>,
    operation: Seq<char>,
    parameter: Option<Seq<char>>,
    response: Option<Seq<char>>,
    session: Seq<char>,
)
    requires
        json::plain(module),
        json::plain(operation),
    ensures
        packet_text(module, operation, parameter, response, session) == "{\"MODULE\":\""@ + module
            + "\",\"OPERATION\":\""@ + operation + operation_tail(parameter, response, session),
        operation_tail(parameter, response, session).len() > 0,
        operation_tail(parameter, response, session)[0] == '"',
{
    let t = packet_text(module, operation, parameter, response, session);
    let tail = operation_tail(parameter, response, session);
    json::lemma_plain(module);
    json::lemma_plain(operation);
    reveal_strlit("\"");
    assert(tail[0] == '"');
    assert(t =~= "{\"MODULE\":\""@ + module + "\",\"OPERATION\":\""@ + operation + tail);
}

proof fn lemma_module_named(module: Seq<char>, rest: Seq<char>)
    requires
        json::plain(module),
        rest.len() > 0,
        rest[0] == '"',
    ensures
        json::string_of_field("{\"MODULE\":\""@ + module + rest, "MODULE"@) == Some(module),
{
    let t = "{\"MODULE\":\""@ + module + rest;
    let needle = json::string_field("MODULE"@);
    reveal_strlit("{\"MODULE\":\"");
    reveal_strlit("\"");
    reveal_strlit("\":\"");
    reveal_strlit("MODULE");
    assert(needle.len() == 10 && needle[0] == '"');
    assert(t.subrange(1, 11) =~= needle);
    assert(!text::occurs_at(t, needle, 0)) by {
        if text::occurs_at(t, needle, 0) {
            assert(t.subrange(0, 10)[0] == needle[0]);
        }
    }
    text::lemma_first_found(t, needle, 1);
    assert(t.skip(11) =~= module + rest);
    lemma_cut_plain(module, rest);
}

proof fn lemma_no_earlier_operation(module: Seq<char>, rest: Seq<char>, j: int)
    requires
        json::plain(module),
        0 <= j < 13 + module.len(),
    ensures
        !text::occurs_at(
            "{\"MODULE\":\""@ + module + "\",\"OPERATION\":\""@ + rest,
            json::string_field("OPERATION"@),
            j,
        ),
{
    let t = "{\"MODULE\":\""@ + module + "\",\"OPERATION\":\""@ + rest;
    let needle = json::string_field("OPERATION"@);
    let m = module.len() as int;
    reveal_strlit("{\"MODULE\":\"");
    reveal_strlit("\",\"OPERATION\":\"");
    reveal_strlit("\"");
    reveal_strlit("\":\"");
    reveal_strlit("OPERATION");
    assert(needle.len() == 13);
    if text::occurs_at(t, needle, j) {
        let w = t.subrange(j, j + 13);
        assert(w[0] == t[j] && w[1] == t[j + 1] && w[10] == t[j + 10]);
        assert(needle[0] == '"' && needle[1] == 'O' && needle[10] == '"');
        if 11 <= j < 11 + m {
            assert(t[j] == module[j - 11]);
        } else if j == 10 {
            if 9 < m {
                assert(t[20] == module[9]);
            } else if m < 9 {
                assert(t[11 + m] == '"');
                assert(w[1 + m] == t[11 + m]);
                assert(needle[1 + m] != '"');
            } else {
                assert(w[11] == t[21]);
                assert(t[21] == ',' && needle[11] == ':');
            }
        }
    }
}

proof fn lemma_operation_named(module: Seq<char>, operation: Seq<char>, tail: Seq<char>)
    requires
        json::plain(module),
        json::plain(operation),
        tail.len() > 0,
        tail[0] == '"',
    ensures
        json::string_of_field(
            "{\"MODULE\":\""@ + module + "\",\"OPERATION\":\""@ + (operation + tail),
            "OPERATION"@,
        ) == Some(operation),
{
    let rest = operation + tail;
    let t = "{\"MODULE\":\""@ + module + "\",\"OPERATION\":\""@ + rest;
    let needle = json::string_field("OPERATION"@);
    let at = 13 + module.len() as int;
    reveal_strlit("{\"MODULE\":\"");
    reveal_strlit("\",\"OPERATION\":\"");
    reveal_strlit("\"");
    reveal_strlit("\":\"");
    reveal_strlit("OPERATION");
    assert(needle.len() == 13);
    assert(t.subrange(at, at + 13) =~= needle);
    assert forall|j: int| 0 <= j < at implies !text::occurs_at(t, needle, j) by {
        lemma_no_earlier_operation(module, rest, j);
    }
    text::lemma_first_found(t, needle, at);
    assert(t.skip(at + 13) =~= rest);
    lemma_cut_plain(operation, tail);
}

/// A message names its module and its operation, where these are plain text.
pub proof fn messages_name_their_operation(
    module: Seq<char>,
    operation: Seq<char>,
    parameter: Option<Seq<char>>,
    response: Option<Seq<char>>,
    session: Seq<char>,
)
    requires
        json::plain(module),
        json::plain(operation),
    ensures
        json::is_operation(
            packet_text(module, operation, parameter, response, session),
            module,
            operation,
        ),
{
    let head = "{\"MODULE\":\""@ + module;
    let middle = "\",\"OPERATION\":\""@;
    let tail = operation_tail(parameter, response, session);
    lemma_packet_shape(module, operation, parameter, response, session);
    assert(head + middle + operation + tail =~= head + (middle + operation + tail));
    assert(head + middle + operation + tail =~= head + middle + (operation + tail));
    assert((middle + operation + tail)[0] == '"') by {
        reveal_strlit("\",\"OPERATION\":\"");
    }
    lemma_module_named(module, middle + operation + tail);
    lemma_operation_named(module, operation, tail);
}

/// A message about the operation KEEPALIVE, of whatever module, is recognised as
/// a request for a sign of life.
pub proof fn signs_of_life_are_recognised(
    module: Seq<char>,
    parameter: Option<Seq<char>>,
    response: Option<Seq<char>>,
    session: Seq<char>,
)
    ensures
        asks_keepalive(packet_text(module, "KEEPALIVE"@, parameter, response, session)),
{
    let t = packet_text(module, "KEEPALIVE"@, parameter, response, session);
    let wanted = "\"OPERATION\":\"KEEPALIVE\""@;
    let head = "{\"MODULE\":\""@ + json::escaped(module);
    reveal_strlit("\"OPERATION\":\"KEEPALIVE\"");
    reveal_strlit("\",\"OPERATION\":\"");
    reveal_strlit("KEEPALIVE");
    reveal_strlit("\"");
    json::lemma_plain("KEEPALIVE"@);
    let middle = "\",\"OPERATION\":\""@ + "KEEPALIVE"@ + "\""@;
    let tail = member(",\"PARAMETER\":"@, parameter) + member(",\"RESPONSE\":"@, response)
        + ",\"SESSION\":\""@ + json::escaped(session) + "\"}"@;
    assert(t =~= head + middle + tail);
    let at = head.len() as int + 2;
    assert(middle.subrange(2, 2 + wanted.len() as int) =~= wanted);
    assert(t.subrange(at, at + wanted.len()) =~= wanted) by {
        assert forall|i: int| 0 <= i < wanted.len() implies t[at + i] == wanted[i] by {
            assert(t[at + i] == middle[2 + i]);
        }
    }
    assert(text::occurs_at(t, wanted, at));
    text::lemma_find_from(t, wanted, 0);
}

/// A package is four zeros, the length of the payload in four bytes with the most
/// significant first, the byte 0x52, three zeros, and the payload.
pub proof fn packages_have_a_header_of_twelve_bytes(payload: Seq<u8>)
    requires
        payload.len() < 0x1_0000_0000,
    ensures
        ({
            let b = package_bytes(payload);
            &&& b.len() == 12 + payload.len()
            &&& b[0] == 0 && b[1] == 0 && b[2] == 0 && b[3] == 0
            &&& b[4] * 16777216 + b[5] * 65536 + b[6] * 256 + b[7] == payload.len()
            &&& b[8] == 0x52 && b[9] == 0 && b[10] == 0 && b[11] == 0
            &&& forall|i: int| 0 <= i < payload.len() ==> #[trigger] b[12 + i] == payload[i]
        }),
{
}

/// Whatever its payload, a package that was sent comes out, and what follows it
/// comes out as if it stood alone.
pub proof fn packages_come_out_in_order(payload: Seq<u8>, rest: Seq<u8>)
    requires
        payload.len() <= 16777216,
    ensures
        all_packages(package_bytes(payload) + rest).0 == seq![payload] + all_packages(rest).0,
        all_packages(package_bytes(payload) + rest).1 == all_packages(rest).1,
{
    packages_are_read_back(payload, rest);
}

/// The bytes of packages, one behind the other.
pub open spec fn packages_bytes(payloads: Seq<Seq<u8>>) -> Seq<u8>
    decreases payloads.len(),
{
    if payloads.len() == 0 {
        seq![]
    } else {
        package_bytes(payloads[0]) + packages_bytes(payloads.drop_first())
    }
}

/// All packages that were sent come out, each once, in order, and nothing is left.
pub proof fn all_that_was_sent_comes_out(payloads: Seq<Seq<u8>>)
    requires
        forall|i: int| 0 <= i < payloads.len() ==> (#[trigger] payloads[i]).len() <= 16777216,
    ensures
        all_packages(packages_bytes(payloads)).0 == payloads,
        all_packages(packages_bytes(payloads)).1.len() == 0,
    decreases payloads.len(),
{
    if payloads.len() == 0 {
        assert(all_packages(packages_bytes(payloads)).0 =~= payloads);
    } else {
        let rest = payloads.drop_first();
        assert forall|i: int| 0 <= i < rest.len() implies (#[trigger] rest[i]).len()
            <= 16777216 by {
            assert(payloads[i + 1].len() <= 16777216);
        }
        assert(payloads[0].len() <= 16777216);
        all_that_was_sent_comes_out(rest);
        packages_come_out_in_order(payloads[0], packages_bytes(rest));
        assert(seq![payloads[0]] + rest =~= payloads);
    }
}

/// A package of which a part is still missing stays in the buffer as it is.
pub proof fn incomplete_packages_wait(payload: Seq<u8>, n: int)
    requires
        payload.len() <= 16777216,
        0 <= n < 12 + payload.len(),
    ensures
        first_package(package_bytes(payload).take(n)) == (
            None::<Seq<u8>>,
            package_bytes(payload).take(n),
        ),
        all_packages(package_bytes(payload).take(n)) == (
            Seq::<Seq<u8>>::empty(),
            package_bytes(payload).take(n),
        ),
{
    let whole = package_bytes(payload);
    let b = whole.take(n);
    assert(b.skip(0) =~= b);
    if n >= 12 {
        let len = (payload.len() % 0x1_0000_0000) as u32;
        assert(b.subrange(4, 8) =~= bytes::be32(len));
        bytes::lemma_from_be32(len);
        assert(header_at(b, 0));
    }
}

/// Bytes before a header are dropped: those at which no marker stands, or a length
/// above 16 MiB.
pub proof fn bytes_before_a_header_are_skipped(junk: Seq<u8>, b: Seq<u8>)
    requires
        b.len() >= 12,
        forall|j: int|
            0 <= j < junk.len() ==> !(#[trigger] (junk + b)[j + 8] == 0x52 && (junk + b)[j + 9] == 0
                && (junk + b)[j + 10] == 0 && (junk + b)[j + 11] == 0 && (junk + b)[j + 4]
                * 16777216 + (junk + b)[j + 5] * 65536 + (junk + b)[j + 6] * 256 + (junk + b)[j + 7]
                <= 16777216),
    ensures
        first_package(junk + b) == first_package(b),
        all_packages(junk + b) == all_packages(b),
{
    let c = junk + b;
    let k = junk.len() as int;
    lemma_no_header_before(c, 0, k);
    assert(c.skip(k) =~= b);
    lemma_sync_shift(c, k, 0);
    lemma_sync(b, 0);
    let i = sync(b, 0);
    if i + 12 <= b.len() {
        lemma_header_shift(c, k, i);
        let end = i + 12 + announced(b, i);
        if end <= b.len() {
            assert(c.subrange(k + i + 12, k + end) =~= b.subrange(i + 12, end));
            assert(c.skip(k + end) =~= b.skip(end));
        }
    }
    assert(c.skip(k + i) =~= b.skip(i));
    lemma_rest_shorter(c);
    lemma_rest_shorter(b);
}

proof fn lemma_no_header_before(c: Seq<u8>, i: int, k: int)
    requires
        0 <= i <= k,
        k + 12 <= c.len(),
        forall|j: int|
            i <= j < k ==> !(#[trigger] c[j + 8] == 0x52 && c[j + 9] == 0 && c[j + 10] == 0 && c[j
                + 11] == 0 && c[j + 4] * 16777216 + c[j + 5] * 65536 + c[j + 6] * 256 + c[j + 7]
                <= 16777216),
    ensures
        sync(c, i) == sync(c, k),
    decreases k - i,
{
    if i < k {
        let w = c.subrange(i + 4, i + 8);
        assert(w[0] == c[i + 4] && w[1] == c[i + 5] && w[2] == c[i + 6] && w[3] == c[i + 7]);
        assert(c[i + 8] == c[i + 8]);
        assert(!header_at(c, i));
        lemma_no_header_before(c, i + 1, k);
    }
}

/// A media payload yields a frame just where it has sixteen bytes or more, the
/// second of them `2` or `3`, the next two `dc`, and a start code stands in it with
/// a length told that is not zero. The channel is one more than the first byte
/// tells, and the frame is what stands from the first start code on, as long as
/// the fifth and sixth byte tell, or up to the end.
pub proof fn media_payloads_yield_their_frame(p: Seq<u8>, start: int)
    requires
        p.len() >= 16,
        0 <= start,
        start + 4 <= p.len(),
        p[start] == 0 && p[start + 1] == 0,
        p[start + 2] == 1 || (p[start + 2] == 0 && p[start + 3] == 1),
        forall|j: int|
            0 <= j < start ==> !(#[trigger] p[j] == 0 && p[j + 1] == 0 && (p[j + 2] == 1 || (p[j + 2]
                == 0 && p[j + 3] == 1))),
    ensures
        match media_frame(p) {
            Some((channel, frame)) => {
                &&& p[1] == '2' as u8 || p[1] == '3' as u8
                &&& p[2] == 'd' as u8 && p[3] == 'c' as u8
                &&& channel == p[0] + 1
                &&& frame.len() == (if start + p[4] + p[5] * 256 <= p.len() {
                    p[4] + p[5] * 256
                } else {
                    p.len() - start
                })
                &&& frame.len() > 0
                &&& forall|i: int| 0 <= i < frame.len() ==> #[trigger] frame[i] == p[start + i]
            },
            None => !((p[1] == '2' as u8 || p[1] == '3' as u8) && p[2] == 'd' as u8 && p[3]
                == 'c' as u8) || (p[4] == 0 && p[5] == 0),
        },
{
    annexb::the_first_start_code_is_found(p);
    assert(annexb::first_code(p, 0) == Some(start)) by {
        match annexb::first_code(p, 0) {
            Some(i) => {
                if i < start {
                    assert(p[i] == 0);
                } else if i > start {
                    assert(p[start] == 0);
                }
            },
            None => {
                assert(p[start] == 0);
            },
        }
    }
}

/// A payload in which no start code stands, or that is too short, yields no frame.
pub proof fn payloads_without_a_start_code_yield_nothing(p: Seq<u8>)
    requires
        p.len() < 16 || forall|j: int|
            0 <= j && j + 4 <= p.len() ==> !(#[trigger] p[j] == 0 && p[j + 1] == 0 && (p[j + 2] == 1
                || (p[j + 2] == 0 && p[j + 3] == 1))),
    ensures
        media_frame(p) is None,
{
    annexb::the_first_start_code_is_found(p);
}

/// A frame of several NAL units, behind a head without a start code that tells its
/// length, comes out whole, whatever stands behind it.
pub proof fn frames_of_several_units_come_out_whole(
    head: Seq<u8>,
    nals: Seq<Seq<u8>>,
    long: Seq<bool>,
    rest: Seq<u8>,
)
    requires
        nals.len() > 0,
        annexb::joinable(nals, long),
        ({
            let frame = annexb::joined(nals, long);
            let p = head + frame + rest;
            &&& head.len() >= 6
            &&& p.len() >= 16
            &&& head[1] == '2' as u8 || head[1] == '3' as u8
            &&& head[2] == 'd' as u8 && head[3] == 'c' as u8
            &&& frame.len() == head[4] + head[5] * 256
            &&& forall|j: int|
                0 <= j < head.len() ==> !(#[trigger] p[j] == 0 && p[j + 1] == 0 && (p[j + 2] == 1
                    || (p[j + 2] == 0 && p[j + 3] == 1)))
        }),
    ensures
        media_frame(head + annexb::joined(nals, long) + rest) == Some(
            (head[0] + 1, annexb::joined(nals, long)),
        ),
        annexb::nal_units(annexb::joined(nals, long)) == nals,
{
    let frame = annexb::joined(nals, long);
    let p = head + frame + rest;
    let at = head.len() as int;
    assert(annexb::proper(nals[0]));
    assert(frame.len() >= 4);
    assert(p[at] == frame[0] && p[at + 1] == frame[1] && p[at + 2] == frame[2] && p[at + 3]
        == frame[3]);
    media_payloads_yield_their_frame(p, at);
    assert(p[4] == head[4] && p[5] == head[5]);
    match media_frame(p) {
        Some((channel, f)) => {
            assert forall|i: int| 0 <= i < f.len() implies f[i] == frame[i] by {
                assert(f[i] == p[at + i]);
            }
            assert(f =~= frame);
        },
        None => {},
    }
    annexb::split_gives_back_what_was_joined(nals, long);
}

/// Zeros and line ends behind a message are dropped, and nothing else is.
pub proof fn filler_is_dropped(message: Seq<u8>, filler: Seq<u8>)
    requires
        message.len() > 0,
        message.last() != 0 && message.last() != 10 && message.last() != 13,
        forall|i: int|
            0 <= i < filler.len() ==> #[trigger] filler[i] == 0 || filler[i] == 10 || filler[i]
                == 13,
    ensures
        message_bytes(message + filler) == message,
        holds_json(message + filler) == (message[0] == '{' as u8),
{
    lemma_without_filler(message, filler);
}

proof fn lemma_without_filler(message: Seq<u8>, filler: Seq<u8>)
    requires
        message.len() > 0,
        message.last() != 0 && message.last() != 10 && message.last() != 13,
        forall|i: int|
            0 <= i < filler.len() ==> #[trigger] filler[i] == 0 || filler[i] == 10 || filler[i]
                == 13,
    ensures
        without_filler(message + filler) == message,
    decreases filler.len(),
{
    let s = message + filler;
    if filler.len() == 0 {
        assert(s =~= message);
    } else {
        assert(s.drop_last() =~= message + filler.drop_last());
        assert(filler[filler.len() - 1] == s.last());
        assert forall|i: int| 0 <= i < filler.drop_last().len() implies #[trigger]
            filler.drop_last()[i] == 0 || filler.drop_last()[i] == 10 || filler.drop_last()[i]
            == 13 by {
            assert(filler[i] == 0 || filler[i] == 10 || filler[i] == 13);
        }
        lemma_without_filler(message, filler.drop_last());
    }
}

/// A payload of nothing but zeros and line ends, or none, is no message.
pub proof fn filler_alone_is_no_message(filler: Seq<u8>)
    requires
        forall|i: int|
            0 <= i < filler.len() ==> #[trigger] filler[i] == 0 || filler[i] == 10 || filler[i]
                == 13,
    ensures
        !holds_json(filler),
{
    lemma_only_filler(filler);
    if filler.len() > 0 {
        assert(filler[0] == 0 || filler[0] == 10 || filler[0] == 13);
    }
}

proof fn lemma_only_filler(filler: Seq<u8>)
    requires
        forall|i: int|
            0 <= i < filler.len() ==> #[trigger] filler[i] == 0 || filler[i] == 10 || filler[i]
                == 13,
    ensures
        without_filler(filler).len() == 0,
    decreases filler.len(),
{
    if filler.len() > 0 {
        assert(filler.last() == filler[filler.len() - 1]);
        assert forall|i: int| 0 <= i < filler.drop_last().len() implies #[trigger]
            filler.drop_last()[i] == 0 || filler.drop_last()[i] == 10 || filler.drop_last()[i]
            == 13 by {
            assert(filler[i] == 0 || filler[i] == 10 || filler[i] == 13);
        }
        lemma_only_filler(filler.drop_last());
    }
}

/// What is sent for a password: nothing for white space alone, 32 hexadecimal
/// digits of either case as they are, and for everything else the code under the
/// key `streaming`.
pub proof fn passwords_are_sent_as_codes(password: Seq<char>)
    ensures
        (forall|i: int| 0 <= i < password.len() ==> text::is_space(#[trigger] password[i]))
            ==> password_field(password).len() == 0,
        password.len() == 32 && (forall|i: int|
            0 <= i < 32 ==> '0' <= #[trigger] password[i] <= '9' || 'a' <= password[i] <= 'f' || 'A'
                <= password[i] <= 'F') ==> password_field(password) == password,
        (exists|i: int| 0 <= i < password.len() && !text::is_space(#[trigger] password[i])) && (
        password.len() != 32 || exists|i: int|
            0 <= i < 32 && !('0' <= #[trigger] password[i] <= '9' || 'a' <= password[i] <= 'f'
                || 'A' <= password[i] <= 'F')) ==> password_field(password) == number::hex_bytes(
            crypto::hmac_md5_of(
                vstd::utf8::encode_utf8("streaming"@),
                vstd::utf8::encode_utf8(password),
            ),
        ),
{
    text::lemma_trimmed_blank(password);
    if is_digest(password) {
        assert(is_hex_digit(password[0]));
        assert(!text::is_space(password[0]));
    }
}

proof fn lemma_member_names()
    ensures
        json::is_field_name("MODULE"@) && json::is_field_name("OPERATION"@) && json::is_field_name(
            "PARAMETER"@,
        ) && json::is_field_name("SESSION"@),
        "MODULE"@.len() == 6 && "OPERATION"@.len() == 9 && "PARAMETER"@.len() == 9
            && "SESSION"@.len() == 7,
        "OPERATION"@[0] == 'O' && "PARAMETER"@[0] == 'P',
{
    reveal_strlit("MODULE");
    reveal_strlit("OPERATION");
    reveal_strlit("PARAMETER");
    reveal_strlit("SESSION");
}

proof fn lemma_packet_pieces(module: Seq<char>, operation: Seq<char>, session: Seq<char>)
    ensures
        "{\"MODULE\":\""@ + json::escaped(module) + "\",\"OPERATION\":\""@ + json::escaped(operation)
            + "\""@ == seq!['{'] + json::entries_text(
            seq!["MODULE"@, "OPERATION"@],
            seq![json::Value::Text(module), json::Value::Text(operation)],
        ),
        ",\"SESSION\":\""@ + json::escaped(session) + "\"}"@ == seq![','] + json::entries_text(
            seq!["SESSION"@],
            seq![json::Value::Text(session)],
        ) + seq!['}'],
        ",\"PARAMETER\":"@ == seq![','] + (seq!['"'] + "PARAMETER"@ + seq!['"'] + seq![':']),
{
    json::lemma_entries_2(
        "MODULE"@,
        json::Value::Text(module),
        "OPERATION"@,
        json::Value::Text(operation),
    );
    json::lemma_entries_1("SESSION"@, json::Value::Text(session));
    reveal_strlit("{\"MODULE\":\"");
    reveal_strlit("\",\"OPERATION\":\"");
    reveal_strlit("\"");
    reveal_strlit("MODULE");
    reveal_strlit("OPERATION");
    reveal_strlit(",\"SESSION\":\"");
    reveal_strlit("SESSION");
    reveal_strlit("\"}");
    reveal_strlit(",\"PARAMETER\":");
    reveal_strlit("PARAMETER");
    let m = json::escaped(module);
    let o = json::escaped(operation);
    let s = json::escaped(session);
    assert("{\"MODULE\":\""@ =~= seq!['{'] + (seq!['"'] + "MODULE"@ + seq!['"'] + seq![':'])
        + seq!['"']);
    assert("\",\"OPERATION\":\""@ =~= seq!['"'] + seq![','] + (seq!['"'] + "OPERATION"@ + seq!['"']
        + seq![':']) + seq!['"']);
    assert("\""@ =~= seq!['"']);
    assert("{\"MODULE\":\""@ + m + "\",\"OPERATION\":\""@ + o + "\""@ =~= seq!['{'] + (
    json::entry_text("MODULE"@, json::Value::Text(module)) + seq![','] + (json::entry_text(
        "OPERATION"@,
        json::Value::Text(operation),
    ))));
    assert(",\"SESSION\":\""@ =~= seq![','] + (seq!['"'] + "SESSION"@ + seq!['"'] + seq![':'])
        + seq!['"']);
    assert("\"}"@ =~= seq!['"', '}']);
    assert(",\"SESSION\":\""@ + s + "\"}"@ =~= seq![','] + json::entry_text(
        "SESSION"@,
        json::Value::Text(session),
    ) + seq!['}']);
    assert(",\"PARAMETER\":"@ =~= seq![','] + (seq!['"'] + "PARAMETER"@ + seq!['"'] + seq![':']));
}

/// The parameters of a request, as they are written.
pub open spec fn parameters_text(keys: Seq<Seq<char>>, vs: Seq<json::Value>) -> Seq<char> {
    seq!['{'] + json::entries_text(keys, vs) + seq!['}']
}

proof fn lemma_two_hide_nothing(module: Seq<char>, operation: Seq<char>, key: Seq<char>)
    requires
        key != "MODULE"@,
        key != "OPERATION"@,
        !json::closes_as(module, key),
        !json::closes_as(operation, key),
    ensures
        json::hide_nothing(
            seq!["MODULE"@, "OPERATION"@],
            seq![json::Value::Text(module), json::Value::Text(operation)],
            key,
        ),
{
    lemma_member_names();
}

proof fn lemma_behind_parameters(
    module: Seq<char>,
    operation: Seq<char>,
    keys: Seq<Seq<char>>,
    vs: Seq<json::Value>,
    session: Seq<char>,
    key: Seq<char>,
)
    requires
        keys.len() > 0,
        json::is_field_name(key),
        key != "MODULE"@,
        key != "OPERATION"@,
        key != "PARAMETER"@,
        !json::closes_as(module, key),
        !json::closes_as(operation, key),
    ensures
        json::behind(
            packet_text(module, operation, Some(parameters_text(keys, vs)), None, session),
            json::name(key),
        ) == json::behind(
            json::entries_text(keys, vs) + (seq!['}', ','] + (json::entries_text(
                seq!["SESSION"@],
                seq![json::Value::Text(session)],
            ) + seq!['}'])),
            json::name(key),
        ),
{
    let m = packet_text(module, operation, Some(parameters_text(keys, vs)), None, session);
    let e1 = json::entries_text(
        seq!["MODULE"@, "OPERATION"@],
        seq![json::Value::Text(module), json::Value::Text(operation)],
    );
    let e2 = json::entries_text(keys, vs);
    let e3 = json::entries_text(seq!["SESSION"@], seq![json::Value::Text(session)]);
    let end = seq!['}', ','] + (e3 + seq!['}']);
    let list = e2 + end;
    lemma_packet_pieces(module, operation, session);
    lemma_member_names();
    assert(e2[0] == '"');
    let inner = seq![':', '{'] + list;
    let tail = "PARAMETER"@ + seq!['"'] + inner;
    assert(m =~= seq!['{'] + (e1 + seq![','] + (seq!['"'] + tail))) by {
        assert(m == seq!['{'] + e1 + (",\"PARAMETER\":"@ + parameters_text(keys, vs)) + seq![]
            + (seq![','] + e3 + seq!['}'])) by {
            let head = "{\"MODULE\":\""@ + json::escaped(module) + "\",\"OPERATION\":\""@
                + json::escaped(operation) + "\""@;
            let p = ",\"PARAMETER\":"@ + parameters_text(keys, vs);
            assert(m =~= head + p + Seq::<char>::empty() + (",\"SESSION\":\""@ + json::escaped(
                session,
            ) + "\"}"@));
        }
    }
    json::lemma_name_behind_lead(seq!['{'], key, e1 + seq![','] + (seq!['"'] + tail));
    lemma_two_hide_nothing(module, operation, key);
    json::lemma_past_entries(
        seq!["MODULE"@, "OPERATION"@],
        seq![json::Value::Text(module), json::Value::Text(operation)],
        key,
        seq![','],
        tail,
    );
    assert(seq!['"'] + tail =~= seq!['"'] + "PARAMETER"@ + seq!['"'] + inner);
    json::lemma_name_behind_quoted("PARAMETER"@, key, inner);
    assert(seq!['"'] + inner =~= seq!['"'] + seq![':', '{'] + seq!['"'] + list.skip(1));
    json::lemma_name_behind_quoted(seq![':', '{'], key, list.skip(1));
    assert(seq!['"'] + list.skip(1) =~= list);
}

/// A parameter of a request is read back by its name as it was written, behind
/// others that hide nothing.
pub proof fn parameters_are_read_back(
    module: Seq<char>,
    operation: Seq<char>,
    keys: Seq<Seq<char>>,
    vs: Seq<json::Value>,
    session: Seq<char>,
    at: int,
)
    requires
        0 <= at < keys.len(),
        keys.len() == vs.len(),
        json::is_field_name(keys[at]),
        keys[at] != "MODULE"@,
        keys[at] != "OPERATION"@,
        keys[at] != "PARAMETER"@,
        !json::closes_as(module, keys[at]),
        !json::closes_as(operation, keys[at]),
        json::hide_nothing(keys.take(at), vs.take(at), keys[at]),
    ensures
        ({
            let m = packet_text(module, operation, Some(parameters_text(keys, vs)), None, session);
            &&& vs[at] matches json::Value::Text(t) ==> json::text_of_field(m, keys[at]) == Some(t)
            &&& vs[at] matches json::Value::Number(n) ==> n <= u64::MAX ==> json::number_of_field(
                m,
                keys[at],
            ) == Some(n)
        }),
{
    let m = packet_text(module, operation, Some(parameters_text(keys, vs)), None, session);
    lemma_behind_parameters(module, operation, keys, vs, session, keys[at]);
    json::fields_are_read_back(
        m,
        keys,
        vs,
        at,
        seq!['}', ','] + (json::entries_text(seq!["SESSION"@], seq![json::Value::Text(session)])
            + seq!['}']),
    );
}

/// The session of a request is read back as it was written, behind parameters that
/// do not hide it.
pub proof fn sessions_are_read_back(
    module: Seq<char>,
    operation: Seq<char>,
    keys: Seq<Seq<char>>,
    vs: Seq<json::Value>,
    session: Seq<char>,
)
    requires
        keys.len() > 0,
        !json::closes_as(module, "SESSION"@),
        !json::closes_as(operation, "SESSION"@),
        json::hide_nothing(keys, vs, "SESSION"@),
    ensures
        json::text_of_field(
            packet_text(module, operation, Some(parameters_text(keys, vs)), None, session),
            "SESSION"@,
        ) == Some(session),
{
    let m = packet_text(module, operation, Some(parameters_text(keys, vs)), None, session);
    let names = seq!["SESSION"@];
    let values = seq![json::Value::Text(session)];
    let e3 = json::entries_text(names, values);
    lemma_member_names();
    lemma_behind_parameters(module, operation, keys, vs, session, "SESSION"@);
    let last = e3 + seq!['}'];
    assert(e3[0] == '"');
    json::lemma_past_entries(keys, vs, "SESSION"@, seq!['}', ','], last.skip(1));
    assert(seq!['"'] + last.skip(1) =~= last);
    assert(json::entries_text(keys, vs) + seq!['}', ','] + (seq!['"'] + last.skip(1))
        =~= json::entries_text(keys, vs) + (seq!['}', ','] + last));
    json::fields_are_read_back(m, names, values, 0, seq!['}']);
}

/// The session of a message without parameters is read back as it was written; so
/// it is of a sign of life.
pub proof fn sessions_of_bare_messages_are_read_back(
    module: Seq<char>,
    operation: Seq<char>,
    session: Seq<char>,
)
    requires
        !json::closes_as(module, "SESSION"@),
        !json::closes_as(operation, "SESSION"@),
    ensures
        json::text_of_field(packet_text(module, operation, None, None, session), "SESSION"@)
            == Some(session),
{
    let m = packet_text(module, operation, None, None, session);
    let e1 = json::entries_text(
        seq!["MODULE"@, "OPERATION"@],
        seq![json::Value::Text(module), json::Value::Text(operation)],
    );
    let names = seq!["SESSION"@];
    let values = seq![json::Value::Text(session)];
    let e3 = json::entries_text(names, values);
    let last = e3 + seq!['}'];
    lemma_packet_pieces(module, operation, session);
    lemma_member_names();
    assert(e3[0] == '"');
    assert(m == seq!['{'] + (e1 + seq![','] + (seq!['"'] + last.skip(1)))) by {
        let head = "{\"MODULE\":\""@ + json::escaped(module) + "\",\"OPERATION\":\""@
            + json::escaped(operation) + "\""@;
        assert(m =~= head + (",\"SESSION\":\""@ + json::escaped(session) + "\"}"@));
        assert(seq!['"'] + last.skip(1) =~= last);
        assert((seq!['{'] + e1) + (seq![','] + e3 + seq!['}']) =~= seq!['{'] + (e1 + seq![',']
            + last));
    }
    json::lemma_name_behind_lead(
        seq!['{'],
        "SESSION"@,
        e1 + seq![','] + (seq!['"'] + last.skip(1)),
    );
    lemma_two_hide_nothing(module, operation, "SESSION"@);
    json::lemma_past_entries(
        seq!["MODULE"@, "OPERATION"@],
        seq![json::Value::Text(module), json::Value::Text(operation)],
        "SESSION"@,
        seq![','],
        last.skip(1),
    );
    assert(seq!['"'] + last.skip(1) =~= last);
    json::fields_are_read_back(m, names, values, 0, seq!['}']);
}

/// The text that a frame of a message carries: what stands between its header and
/// its last byte.
pub open spec fn text_in(frame: Seq<u8>) -> Seq<char> {
    vstd::utf8::decode_utf8(frame.subrange(12, frame.len() - 1))
}

/// A message is sent as a package of its bytes and a zero, so that its text can be
/// had from the frame.
pub proof fn frames_carry_their_message(message: Seq<char>)
    ensures
        ({
            let frame = package_bytes(message_payload(message));
            &&& frame.len() >= 13
            &&& frame.last() == 0
            &&& text_in(frame) == message
        }),
{
    let frame = package_bytes(message_payload(message));
    assert(frame.subrange(12, frame.len() - 1) =~= vstd::utf8::encode_utf8(message));
    vstd::utf8::encode_utf8_decode_utf8(message);
}

/// A sign of life tells what it is and in which session.
pub proof fn signs_of_life_tell_their_session(session: Seq<char>)
    ensures
        ({
            let m = text_in(keepalive_bytes(session));
            &&& json::is_operation(m, "CERTIFICATE"@, "KEEPALIVE"@)
            &&& json::text_of_field(m, "SESSION"@) == Some(session)
            &&& asks_keepalive(m)
        }),
{
    let m = packet_text("CERTIFICATE"@, "KEEPALIVE"@, None, None, session);
    frames_carry_their_message(m);
    reveal_strlit("CERTIFICATE");
    reveal_strlit("KEEPALIVE");
    reveal_strlit("SESSION");
    messages_name_their_operation("CERTIFICATE"@, "KEEPALIVE"@, None, None, session);
    signs_of_life_are_recognised("CERTIFICATE"@, None, None, session);
    assert("CERTIFICATE"@.len() == 11 && "KEEPALIVE"@.len() == 9 && "SESSION"@.len() == 7);
    json::lemma_closes_without_quotes("CERTIFICATE"@, "SESSION"@);
    json::lemma_closes_without_quotes("KEEPALIVE"@, "SESSION"@);
    sessions_of_bare_messages_are_read_back("CERTIFICATE"@, "KEEPALIVE"@, session);
}

/// A payload may have up to sixteen megabytes.
pub proof fn payloads_have_up_to_sixteen_megabytes()
    ensures
        MAX_PAYLOAD == 16 * 1024 * 1024,
{
}

/// A payload is a message just where its first byte is an opening brace.
pub proof fn messages_start_with_a_brace(payload: Seq<u8>)
    ensures
        holds_json(payload) <==> payload.len() > 0 && payload[0] == 0x7b,
{
    lemma_first_byte_stays(payload);
}

proof fn lemma_first_byte_stays(s: Seq<u8>)
    ensures
        without_filler(s).len() <= s.len(),
        without_filler(s).len() > 0 ==> without_filler(s)[0] == s[0],
        without_filler(s).len() == 0 && s.len() > 0 ==> is_filler(s[0]),
    decreases s.len(),
{
    if s.len() > 0 && is_filler(s.last()) {
        lemma_first_byte_stays(s.drop_last());
    }
}

/// The device asks for a sign of life just where its message names the operation
/// KEEPALIVE at some place.
pub proof fn requests_for_a_sign_of_life_name_it(message: Seq<char>)
    ensures
        asks_keepalive(message) <==> exists|i: int| #[trigger]
            text::occurs_at(message, "\"OPERATION\":\"KEEPALIVE\""@, i),
{
    text::lemma_find_from(message, "\"OPERATION\":\"KEEPALIVE\""@, 0);
    if asks_keepalive(message) {
        let i = text::found(message, "\"OPERATION\":\"KEEPALIVE\""@)->0;
        assert(text::occurs_at(message, "\"OPERATION\":\"KEEPALIVE\""@, i));
    }
}

/// A message has its members in this order: module, operation, the parameters and the
/// response where they are given, and the session.
pub proof fn members_come_in_order(
    module: Seq<char>,
    operation: Seq<char>,
    parameter: Seq<char>,
    response: Seq<char>,
    session: Seq<char>,
)
    ensures
        ({
            let head = seq!['{'] + json::entries_text(
                seq!["MODULE"@, "OPERATION"@],
                seq![json::Value::Text(module), json::Value::Text(operation)],
            );
            let tail = seq![','] + json::entries_text(
                seq!["SESSION"@],
                seq![json::Value::Text(session)],
            ) + seq!['}'];
            let p = ",\"PARAMETER\":"@ + parameter;
            let r = ",\"RESPONSE\":"@ + response;
            &&& packet_text(module, operation, None, None, session) == head + tail
            &&& packet_text(module, operation, Some(parameter), None, session) == head + p + tail
            &&& packet_text(module, operation, None, Some(response), session) == head + r + tail
            &&& packet_text(module, operation, Some(parameter), Some(response), session) == head + p
                + r + tail
        }),
{
    lemma_packet_pieces(module, operation, session);
    let head = "{\"MODULE\":\""@ + json::escaped(module) + "\",\"OPERATION\":\""@ + json::escaped(
        operation,
    ) + "\""@;
    let tail = ",\"SESSION\":\""@ + json::escaped(session) + "\"}"@;
    let p = ",\"PARAMETER\":"@ + parameter;
    let r = ",\"RESPONSE\":"@ + response;
    let none = Seq::<char>::empty();
    lemma_tail_regroup(head, none, none, json::escaped(session));
    lemma_tail_regroup(head, p, none, json::escaped(session));
    lemma_tail_regroup(head, none, r, json::escaped(session));
    lemma_tail_regroup(head, p, r, json::escaped(session));
    assert(head + none + none + tail =~= head + tail);
    assert(head + p + none + tail =~= head + p + tail);
    assert(head + none + r + tail =~= head + r + tail);
}

proof fn lemma_tail_regroup(head: Seq<char>, p: Seq<char>, r: Seq<char>, s: Seq<char>)
    ensures
        head + p + r + ",\"SESSION\":\""@ + s + "\"}"@ == head + p + r + (",\"SESSION\":\""@ + s
            + "\"}"@),
{
    assert(head + p + r + ",\"SESSION\":\""@ + s + "\"}"@ =~= head + p + r + (",\"SESSION\":\""@ + s
        + "\"}"@));
}

/// What stands in the first four bytes of a header makes no difference.
pub proof fn the_first_four_bytes_may_be_any(lead: Seq<u8>, payload: Seq<u8>, rest: Seq<u8>)
    requires
        lead.len() == 4,
        payload.len() <= 16777216,
    ensures
        first_package(lead + package_bytes(payload).skip(4) + rest) == (Some(payload), rest),
        all_packages(lead + package_bytes(payload).skip(4) + rest).0 == seq![payload]
            + all_packages(rest).0,
        all_packages(lead + package_bytes(payload).skip(4) + rest).1 == all_packages(rest).1,
{
    let b = lead + package_bytes(payload).skip(4) + rest;
    let len = (payload.len() % 0x1_0000_0000) as u32;
    assert(b.subrange(4, 8) =~= bytes::be32(len));
    bytes::lemma_from_be32(len);
    assert(header_at(b, 0));
    assert(b.subrange(12, 12 + payload.len() as int) =~= payload);
    assert(b.skip(12 + payload.len() as int) =~= rest);
}

/// Where no header stands in a buffer, all is dropped but the last eleven bytes, with
/// which one may begin; fewer bytes than a header has are kept.
pub proof fn what_may_begin_a_header_is_kept(b: Seq<u8>)
    requires
        forall|j: int|
            0 <= j && j + 12 <= b.len() ==> !(#[trigger] b[j + 8] == 0x52 && b[j + 9] == 0 && b[j
                + 10] == 0 && b[j + 11] == 0 && b[j + 4] * 16777216 + b[j + 5] * 65536 + b[j + 6]
                * 256 + b[j + 7] <= 16777216),
    ensures
        first_package(b) == (
            None::<Seq<u8>>,
            if b.len() < 12 {
                b
            } else {
                b.skip(b.len() - 11)
            },
        ),
        all_packages(b) == (
            Seq::<Seq<u8>>::empty(),
            if b.len() < 12 {
                b
            } else {
                b.skip(b.len() - 11)
            },
        ),
{
    assert(b.skip(0) =~= b);
    lemma_no_header_at_all(b, 0);
}

proof fn lemma_no_header_at_all(b: Seq<u8>, k: int)
    requires
        0 <= k,
        forall|j: int|
            k <= j && j + 12 <= b.len() ==> !(#[trigger] b[j + 8] == 0x52 && b[j + 9] == 0 && b[j
                + 10] == 0 && b[j + 11] == 0 && b[j + 4] * 16777216 + b[j + 5] * 65536 + b[j + 6]
                * 256 + b[j + 7] <= 16777216),
    ensures
        k + 12 <= b.len() ==> sync(b, k) == b.len() - 11,
        k + 12 > b.len() ==> sync(b, k) == k,
    decreases b.len() - k,
{
    if k + 12 <= b.len() {
        let w = b.subrange(k + 4, k + 8);
        assert(w[0] == b[k + 4] && w[1] == b[k + 5] && w[2] == b[k + 6] && w[3] == b[k + 7]);
        assert(b[k + 8] == b[k + 8]);
        assert(!header_at(b, k));
        lemma_no_header_at_all(b, k + 1);
    }
}

} // verus!
