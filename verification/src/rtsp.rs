//! The RTSP server: requests, responses, and frames between them.
use vstd::prelude::*;
use vstd::slice::slice_subrange;

use crate::bytes;
use crate::hub;
use crate::hub::StreamHub;
use crate::number;
use crate::number::{parse_number, push_decimal, push_hex, take_digits};
use crate::rtp;
use crate::text;
use crate::text::{chars_of, decode_lossy, find, first_line, header_field, is_text};

verus! {

broadcast use vstd::string::group_string_axioms;

/// The most bytes that a request can have.
pub const MAX_REQUEST: usize = 16384;

/// Whether bytes end in an empty line.
pub open spec fn ends_blank(b: Seq<u8>) -> bool {
    b.len() >= 4 && b[b.len() - 4] == 13 && b[b.len() - 3] == 10 && b[b.len() - 2] == 13 && b[b.len()
        - 1] == 10
}

/// How far a request has been read.
pub enum RequestRead {
    /// There is more to come.
    More,
    /// This is the request.
    Complete(String),
    /// It is too long.
    TooLong,
}

/// Takes the next byte of a request.
pub fn read_rtsp_request(buf: &mut Vec<u8>, byte: u8) -> (r: RequestRead)
    ensures
        final(buf)@ == old(buf)@.push(byte),
        if old(buf)@.len() + 1 > MAX_REQUEST {
            r is TooLong
        } else if ends_blank(old(buf)@.push(byte)) {
            &&& r matches RequestRead::Complete(t)
            &&& t@ == text::utf8_lossy(old(buf)@.push(byte))
        } else {
            r is More
        },
        r matches RequestRead::Complete(t) ==> vstd::utf8::valid_utf8(old(buf)@.push(byte)) ==> t@
            == vstd::utf8::decode_utf8(old(buf)@.push(byte)),
{
    buf.push(byte);
    let n: usize = buf.len();
    if n > MAX_REQUEST {
        RequestRead::TooLong
    } else if n >= 4 && buf[n - 4] == 13 && buf[n - 3] == 10 && buf[n - 2] == 13 && buf[n - 1]
        == 10 {
        RequestRead::Complete(decode_lossy(buf.as_slice()))
    } else {
        RequestRead::More
    }
}

/// The number of the channel in a path: the digits behind the first `/channel/`.
pub open spec fn channel_of(path: Seq<char>) -> Option<nat> {
    match text::found(path, "/channel/"@) {
        Some(i) => match number::parsed(number::leading_digits(path.skip(i + 9)), 4) {
            Some(n) => if n >= 1 {
                Some(n)
            } else {
                None
            },
            None => None,
        },
        None => None,
    }
}

/// Finds the number of the channel in a path.
pub fn parse_channel(path: &[char]) -> (r: Option<usize>)
    ensures
        match r {
            Some(n) => channel_of(path@) == Some(n as nat) && 1 <= n <= 4,
            None => channel_of(path@) is None,
        },
{
    let marker = chars_of("/channel/");
    proof {
        reveal_strlit("/channel/");
        text::lemma_find_from(path@, "/channel/"@, 0);
    }
    match find(path, marker.as_slice()) {
        Some(i) => {
            let len: usize = path.len();
            let rest = slice_subrange(path, i + 9, len);
            assert(rest@ =~= path@.skip(i + 9));
            match parse_number(take_digits(rest), 4) {
                Some(n) => if n >= 1 {
                    Some(n as usize)
                } else {
                    None
                },
                None => None,
            }
        },
        None => None,
    }
}

/// The word for a status code.
pub open spec fn reason(code: u16) -> Seq<char> {
    if code == 200 {
        "OK"@
    } else if code == 404 {
        "Not Found"@
    } else if code == 405 {
        "Method Not Allowed"@
    } else {
        "Error"@
    }
}

/// A header field, written out.
pub open spec fn header_line(name: Seq<char>, value: Seq<char>) -> Seq<char> {
    name + ": "@ + value + "\r\n"@
}

/// A response with the given header fields, written out, and a body.
pub open spec fn response_text(
    code: u16,
    cseq: Seq<char>,
    fields: Seq<char>,
    body: Seq<char>,
) -> Seq<char> {
    "RTSP/1.0 "@ + number::decimal(code as nat) + " "@ + reason(code) + "\r\nCSeq: "@ + cseq
        + "\r\n"@ + fields + "Content-Length: "@ + number::decimal(
        vstd::utf8::encode_utf8(body).len(),
    ) + "\r\n\r\n"@ + body
}

fn reason_of(code: u16) -> (r: &'static str)
    ensures
        r@ == reason(code),
{
    if code == 200 {
        "OK"
    } else if code == 404 {
        "Not Found"
    } else if code == 405 {
        "Method Not Allowed"
    } else {
        "Error"
    }
}

fn push_field(out: &mut String, name: &str, value: &str)
    ensures
        final(out)@ == old(out)@ + header_line(name@, value@),
{
    out.append(name);
    out.append(": ");
    out.append(value);
    out.append("\r\n");
    assert(out@ =~= old(out)@ + header_line(name@, value@));
}

/// Writes a response.
pub fn write_response(code: u16, cseq: &str, fields: &str, body: &str) -> (r: String)
    ensures
        r@ == response_text(code, cseq@, fields@, body@),
{
    let mut out = "RTSP/1.0 ".to_owned();
    push_decimal(&mut out, code as u128);
    out.append(" ");
    out.append(reason_of(code));
    out.append("\r\nCSeq: ");
    out.append(cseq);
    out.append("\r\n");
    out.append(fields);
    out.append("Content-Length: ");
    push_decimal(&mut out, body.as_bytes().len() as u128);
    out.append("\r\n\r\n");
    out.append(body);
    out
}

/// A packet between RTSP messages: a dollar sign, the number of the stream, the
/// length and the packet.
pub open spec fn interleaved(channel: u8, payload: Seq<u8>) -> Seq<u8> {
    seq![0x24u8, channel] + bytes::be16((payload.len() % 65536) as u16) + payload
}

/// Frames a packet so that it can stand between RTSP messages.
pub fn write_interleaved_frame(channel: u8, payload: &[u8]) -> (r: Vec<u8>)
    ensures
        r@ == interleaved(channel, payload@),
{
    let mut out: Vec<u8> = vec![0x24u8, channel];
    assert(out@ =~= seq![0x24u8, channel]);
    bytes::push_be16(&mut out, (payload.len() % 65536) as u16);
    bytes::append_bytes(&mut out, payload);
    out
}

/// The first packet in a stream of interleaved packets: its stream and contents,
/// and what follows it.
pub open spec fn first_interleaved(b: Seq<u8>) -> Option<(u8, Seq<u8>, Seq<u8>)> {
    if b.len() < 4 || b[0] != 0x24 {
        None
    } else {
        let n = b[2] * 256 + b[3];
        if b.len() < 4 + n {
            None
        } else {
            Some((b[1], b.subrange(4, 4 + n), b.skip(4 + n)))
        }
    }
}

/// A client reads back each interleaved packet, which is always short enough
/// for its length to be told.
pub proof fn interleaved_packets_are_read_back(
    nals: Seq<Seq<u8>>,
    timestamp: u32,
    ssrc: u32,
    seq: u16,
    j: int,
    channel: u8,
    rest: Seq<u8>,
)
    requires
        0 <= j < rtp::unit_packets(nals, timestamp, ssrc, seq).len(),
    ensures
        ({
            let p = rtp::unit_packets(nals, timestamp, ssrc, seq)[j];
            first_interleaved(interleaved(channel, p) + rest) == Some((channel, p, rest))
        }),
{
    let p = rtp::unit_packets(nals, timestamp, ssrc, seq)[j];
    rtp::packets_fit(nals, timestamp, ssrc, seq, j);
    let b = interleaved(channel, p) + rest;
    let n = p.len() as int;
    assert(b[2] * 256 + b[3] == n);
    assert(b.subrange(4, 4 + n) =~= p);
    assert(b.skip(4 + n) =~= rest);
}

/// The session number for a time in nanoseconds: the time in hexadecimal.
pub fn new_session_id(nanos: u128) -> (r: String)
    ensures
        r@ == number::hex(nanos as nat),
{
    let mut s = String::new();
    push_hex(&mut s, nanos);
    assert(s@ =~= number::hex(nanos as nat));
    s
}

/// Whether a request asks for the description of a channel, which is made of
/// what the channel has sent.
pub fn asks_for_description(request: &str) -> (r: bool)
    ensures
        r == (text::method_of(request@) == "DESCRIBE"@),
{
    let all = chars_of(request);
    is_text(first_line(all.as_slice()).0, "DESCRIBE")
}

/// What the server knows of a client: the channel it asked for, and its session.
pub struct RtspClient {
    pub channel: usize,
    pub session: String,
}

/// What to do for a request.
pub enum RtspAction {
    /// Send this response and wait for the next request.
    Reply(String),
    /// Add the client to the subscribers of this channel, and answer the
    /// request with this sequence number accordingly.
    Play(usize, String),
    /// Send this response and end.
    Close(String),
}

/// The sequence number of a request; `1` where it has none.
pub open spec fn cseq_of(request: Seq<char>) -> Seq<char> {
    match text::header_in(text::lines(request), "CSeq"@) {
        Some(v) => v,
        None => "1"@,
    }
}

/// The channel of a client after a request: the one that the path names, or
/// the one before.
pub open spec fn channel_after(channel: usize, request: Seq<char>) -> usize {
    match channel_of(text::path_of(request)) {
        Some(n) => n as usize,
        None => channel,
    }
}

/// The header fields of the answer to DESCRIBE.
pub open spec fn describe_fields(host: Seq<char>, channel: usize) -> Seq<char> {
    header_line("Content-Type"@, "application/sdp"@) + header_line(
        "Content-Base"@,
        "rtsp://"@ + host + "/channel/"@ + number::decimal(channel as nat) + "/"@,
    )
}

/// The header fields of the answer to SETUP.
pub open spec fn setup_fields(session: Seq<char>) -> Seq<char> {
    header_line("Transport"@, "RTP/AVP/TCP;unicast;interleaved=0-1"@) + header_line(
        "Session"@,
        session,
    )
}

/// The header fields of the answer to PLAY.
pub open spec fn play_fields(session: Seq<char>) -> Seq<char> {
    header_line("Session"@, session) + header_line("RTP-Info"@, "url=trackID=0;seq=0;rtptime=0"@)
}

/// The methods that the server knows.
pub open spec fn is_known(method: Seq<char>) -> bool {
    method == "OPTIONS"@ || method == "DESCRIBE"@ || method == "SETUP"@ || method == "PLAY"@
        || method == "TEARDOWN"@
}

/// Whether an action is the one for a request to a client's channel, in the
/// client's session.
pub open spec fn acted(
    action: RtspAction,
    request: Seq<char>,
    channel: usize,
    session: Seq<char>,
    host: Seq<char>,
    sps: Option<Seq<u8>>,
) -> bool {
    let method = text::method_of(request);
    let cseq = cseq_of(request);
    if method == "OPTIONS"@ {
        &&& action matches RtspAction::Reply(t)
        &&& t@ == response_text(
            200,
            cseq,
            header_line("Public"@, "OPTIONS, DESCRIBE, SETUP, PLAY, TEARDOWN"@),
            seq![],
        )
    } else if method == "DESCRIBE"@ {
        &&& action matches RtspAction::Reply(t)
        &&& t@ == response_text(
            200,
            cseq,
            describe_fields(host, channel),
            hub::sdp_text(channel as nat, host, sps),
        )
    } else if method == "SETUP"@ {
        &&& action matches RtspAction::Reply(t)
        &&& t@ == response_text(200, cseq, setup_fields(session), seq![])
    } else if method == "PLAY"@ {
        &&& action matches RtspAction::Play(c, q)
        &&& c == channel
        &&& q@ == cseq
    } else if method == "TEARDOWN"@ {
        &&& action matches RtspAction::Close(t)
        &&& t@ == response_text(200, cseq, header_line("Session"@, session), seq![])
    } else {
        &&& action matches RtspAction::Reply(t)
        &&& t@ == response_text(405, cseq, seq![], seq![])
    }
}

proof fn lemma_methods_differ()
    ensures
        "OPTIONS"@ != "DESCRIBE"@,
        "OPTIONS"@ != "SETUP"@,
        "OPTIONS"@ != "PLAY"@,
        "OPTIONS"@ != "TEARDOWN"@,
        "DESCRIBE"@ != "SETUP"@,
        "DESCRIBE"@ != "PLAY"@,
        "DESCRIBE"@ != "TEARDOWN"@,
        "SETUP"@ != "PLAY"@,
        "SETUP"@ != "TEARDOWN"@,
        "PLAY"@ != "TEARDOWN"@,
{
    reveal_strlit("OPTIONS");
    reveal_strlit("DESCRIBE");
    reveal_strlit("SETUP");
    reveal_strlit("PLAY");
    reveal_strlit("TEARDOWN");
    assert("OPTIONS"@.len() == 7 && "DESCRIBE"@.len() == 8 && "SETUP"@.len() == 5);
    assert("PLAY"@.len() == 4 && "TEARDOWN"@.len() == 8);
    assert("DESCRIBE"@[0] == 'D' && "TEARDOWN"@[0] == 'T');
}

impl RtspClient {
    /// The client's channel is one of the four.
    pub open spec fn wf(&self) -> bool {
        1 <= self.channel <= 4
    }

    /// A client that has just connected.
    pub fn new() -> (r: RtspClient)
        ensures
            r.wf(),
            r.channel == 1,
            r.session@ == Seq::<char>::empty(),
    {
        RtspClient { channel: 1, session: String::new() }
    }

    /// Takes a request. SETUP begins the session with the given number.
    pub fn handle_request(
        &mut self,
        streams: &StreamHub,
        request: &str,
        host: &str,
        session_id: String,
    ) -> (r: RtspAction)
        requires
            old(self).wf(),
        ensures
            final(self).wf(),
            final(self).channel == channel_after(old(self).channel, request@),
            final(self).session@ == (if text::method_of(request@) == "SETUP"@ {
                session_id@
            } else {
                old(self).session@
            }),
            acted(
                r,
                request@,
                final(self).channel,
                final(self).session@,
                host@,
                streams@[final(self).channel - 1].sps,
            ),
    {
        proof {
            lemma_methods_differ();
            reveal_strlit("");
        }
        let cseq = match header_field(request, "CSeq") {
            Some(v) => v,
            None => "1".to_owned(),
        };
        let all = chars_of(request);
        let (method, path) = first_line(all.as_slice());
        match parse_channel(path) {
            Some(n) => {
                self.channel = n;
            },
            None => {},
        }
        if is_text(method, "OPTIONS") {
            let mut fields = String::new();
            push_field(&mut fields, "Public", "OPTIONS, DESCRIBE, SETUP, PLAY, TEARDOWN");
            assert(fields@ =~= header_line(
                "Public"@,
                "OPTIONS, DESCRIBE, SETUP, PLAY, TEARDOWN"@,
            ));
            assert(""@ =~= seq![]);
            RtspAction::Reply(write_response(200, cseq.as_str(), fields.as_str(), ""))
        } else if is_text(method, "DESCRIBE") {
            let body = streams.sdp(self.channel, host);
            let mut base = "rtsp://".to_owned();
            base.append(host);
            base.append("/channel/");
            push_decimal(&mut base, self.channel as u128);
            base.append("/");
            let mut fields = String::new();
            push_field(&mut fields, "Content-Type", "application/sdp");
            push_field(&mut fields, "Content-Base", base.as_str());
            assert(fields@ =~= describe_fields(host@, self.channel));
            RtspAction::Reply(write_response(200, cseq.as_str(), fields.as_str(), body.as_str()))
        } else if is_text(method, "SETUP") {
            self.session = session_id;
            let mut fields = String::new();
            push_field(&mut fields, "Transport", "RTP/AVP/TCP;unicast;interleaved=0-1");
            push_field(&mut fields, "Session", self.session.as_str());
            assert(fields@ =~= setup_fields(self.session@));
            assert(""@ =~= seq![]);
            RtspAction::Reply(write_response(200, cseq.as_str(), fields.as_str(), ""))
        } else if is_text(method, "PLAY") {
            RtspAction::Play(self.channel, cseq)
        } else if is_text(method, "TEARDOWN") {
            let mut fields = String::new();
            push_field(&mut fields, "Session", self.session.as_str());
            assert(fields@ =~= header_line("Session"@, self.session@));
            assert(""@ =~= seq![]);
            RtspAction::Close(write_response(200, cseq.as_str(), fields.as_str(), ""))
        } else {
            assert(""@ =~= seq![]);
            RtspAction::Reply(write_response(405, cseq.as_str(), "", ""))
        }
    }

    /// The answer to PLAY, once it is known whether the client could subscribe.
    pub fn play_response(&self, cseq: &str, subscribed: bool) -> (r: String)
        ensures
            r@ == (if subscribed {
                response_text(200, cseq@, play_fields(self.session@), seq![])
            } else {
                response_text(404, cseq@, seq![], seq![])
            }),
    {
        proof {
            reveal_strlit("");
            assert(""@ =~= seq![]);
        }
        if subscribed {
            let mut fields = String::new();
            push_field(&mut fields, "Session", self.session.as_str());
            push_field(&mut fields, "RTP-Info", "url=trackID=0;seq=0;rtptime=0");
            assert(fields@ =~= play_fields(self.session@));
            write_response(200, cseq, fields.as_str(), "")
        } else {
            write_response(404, cseq, "", "")
        }
    }
}

/// A request with a method that is not known is refused, and ends nothing.
pub proof fn unknown_methods_are_refused(
    action: RtspAction,
    request: Seq<char>,
    channel: usize,
    session: Seq<char>,
    host: Seq<char>,
    sps: Option<Seq<u8>>,
)
    requires
        acted(action, request, channel, session, host, sps),
    ensures
        !is_known(text::method_of(request)) <==> (action matches RtspAction::Reply(t) && t@
            == response_text(405, cseq_of(request), seq![], seq![])),
        action is Close <==> text::method_of(request) == "TEARDOWN"@,
        action is Play <==> text::method_of(request) == "PLAY"@,
{
    lemma_methods_differ();
    reveal_strlit("RTSP/1.0 ");
    let bad = response_text(405, cseq_of(request), seq![], seq![]);
    assert(number::decimal(405)[0] == '4' && number::decimal(200)[0] == '2') by {
        reveal_with_fuel(number::decimal, 4);
    }
    assert(number::decimal(405).len() > 0 && number::decimal(200).len() > 0) by {
        reveal_with_fuel(number::decimal, 4);
    }
    assert(bad[9] == '4');
    match action {
        RtspAction::Reply(t) => {
            if is_known(text::method_of(request)) {
                assert(t@[9] == '2');
            }
        },
        _ => {},
    }
}

/// The path of a channel, behind any address without the marker, names it. A
/// number that is not from one to four names none.
pub proof fn paths_name_their_channel(prefix: Seq<char>, n: nat, rest: Seq<char>)
    requires
        rest.len() > 0 ==> !number::is_digit(rest[0]),
        text::found(prefix + "/channel/"@ + number::decimal(n) + rest, "/channel/"@) == Some(
            prefix.len() as int,
        ),
    ensures
        channel_of(prefix + "/channel/"@ + number::decimal(n) + rest) == (if 1 <= n <= 4 {
            Some(n)
        } else {
            None
        }),
{
    reveal_strlit("/channel/");
    let path = prefix + "/channel/"@ + number::decimal(n) + rest;
    assert(path.skip(prefix.len() + 9 as int) =~= number::decimal(n) + rest);
    number::lemma_decimal_parsed(n, 4);
    number::lemma_digit_run(number::decimal(n), rest);
}

proof fn lemma_marker_found(prefix: Seq<char>, rest: Seq<char>)
    requires
        forall|j: int|
            0 <= j < prefix.len() ==> #[trigger] (prefix + "/channel/"@ + rest).subrange(j, j + 9)
                != "/channel/"@,
    ensures
        text::found(prefix + "/channel/"@ + rest, "/channel/"@) == Some(prefix.len() as int),
{
    let path = prefix + "/channel/"@ + rest;
    let at = prefix.len() as int;
    reveal_strlit("/channel/");
    assert(path.subrange(at, at + 9) =~= "/channel/"@);
    assert forall|j: int| 0 <= j < at implies !text::occurs_at(path, "/channel/"@, j) by {
        assert(path.subrange(j, j + 9) != "/channel/"@);
    }
    text::lemma_first_found(path, "/channel/"@, at);
}

/// After a request whose path names a channel from one to four behind its first
/// `/channel/`, the channel of the client is that one, whatever it was and whatever
/// the method; a number outside leaves it.
pub proof fn requests_choose_their_channel(
    channel: usize,
    method: Seq<char>,
    prefix: Seq<char>,
    n: nat,
    rest: Seq<char>,
    more: Seq<char>,
)
    requires
        text::is_word(method),
        text::is_word(prefix + "/channel/"@ + (number::decimal(n) + rest)),
        rest.len() > 0 ==> rest[0] < '0' || rest[0] > '9',
        more.len() > 0 ==> text::is_space(more[0]),
        forall|j: int|
            0 <= j < prefix.len() ==> #[trigger] (prefix + "/channel/"@ + (number::decimal(n)
                + rest)).subrange(j, j + 9) != "/channel/"@,
    ensures
        channel_after(
            channel,
            method + seq![' '] + (prefix + "/channel/"@ + (number::decimal(n) + rest)) + more,
        ) == (if 1 <= n <= 4 {
            n as usize
        } else {
            channel
        }),
{
    let path = prefix + "/channel/"@ + (number::decimal(n) + rest);
    text::requests_name_method_and_path(method, path, more);
    lemma_marker_found(prefix, number::decimal(n) + rest);
    assert(path =~= prefix + "/channel/"@ + number::decimal(n) + rest);
    paths_name_their_channel(prefix, n, rest);
}

/// A request whose path has no `/channel/`, or no digit behind the first one,
/// leaves the channel of the client.
pub proof fn other_requests_keep_the_channel(
    channel: usize,
    method: Seq<char>,
    path: Seq<char>,
    more: Seq<char>,
)
    requires
        text::is_word(method),
        text::is_word(path),
        more.len() > 0 ==> text::is_space(more[0]),
        forall|j: int|
            0 <= j && j + 9 <= path.len() ==> #[trigger] path.subrange(j, j + 9) != "/channel/"@,
    ensures
        channel_after(channel, method + seq![' '] + path + more) == channel,
{
    text::requests_name_method_and_path(method, path, more);
    reveal_strlit("/channel/");
    text::searches_give_the_first_place(path, "/channel/"@);
    match text::found(path, "/channel/"@) {
        Some(i) => {
            assert(path.subrange(i, i + 9) =~= "/channel/"@);
        },
        None => {},
    }
}

/// What a viewer asks to play is what it is subscribed to, and what it asks to
/// have described is what is described to it: the channel that the path names.
pub proof fn viewers_get_the_channel_they_ask_for(
    action: RtspAction,
    channel: usize,
    method: Seq<char>,
    prefix: Seq<char>,
    n: nat,
    rest: Seq<char>,
    more: Seq<char>,
    session: Seq<char>,
    host: Seq<char>,
    sps: Option<Seq<u8>>,
)
    requires
        1 <= n <= 4,
        text::is_word(method),
        text::is_word(prefix + "/channel/"@ + (number::decimal(n) + rest)),
        rest.len() > 0 ==> rest[0] < '0' || rest[0] > '9',
        more.len() > 0 ==> text::is_space(more[0]),
        forall|j: int|
            0 <= j < prefix.len() ==> #[trigger] (prefix + "/channel/"@ + (number::decimal(n)
                + rest)).subrange(j, j + 9) != "/channel/"@,
        ({
            let request = method + seq![' '] + (prefix + "/channel/"@ + (number::decimal(n)
                + rest)) + more;
            acted(action, request, channel_after(channel, request), session, host, sps)
        }),
        text::lacks(host, '\n'),
    ensures
        method == "PLAY"@ ==> (action matches RtspAction::Play(c, _) && c == n),
        method == "DESCRIBE"@ ==> {
            let request = method + seq![' '] + (prefix + "/channel/"@ + (number::decimal(n)
                + rest)) + more;
            let body = hub::sdp_text(n, host, sps);
            &&& action matches RtspAction::Reply(t)
            &&& t@ == response_text(
                200,
                cseq_of(request),
                header_line("Content-Type"@, "application/sdp"@) + header_line(
                    "Content-Base"@,
                    "rtsp://"@ + host + "/channel/"@ + number::decimal(n) + "/"@,
                ),
                body,
            )
            &&& text::lines(body)[2] == "s=N9M Channel "@ + number::decimal(n)
        },
{
    requests_choose_their_channel(channel, method, prefix, n, rest, more);
    text::requests_name_method_and_path(
        method,
        prefix + "/channel/"@ + (number::decimal(n) + rest),
        more,
    );
    lemma_methods_differ();
    hub::descriptions_are_made_of_lines(n, host, sps);
}

/// An answer carries the sequence number of its request, where the first line of
/// that has a colon, as every address with a scheme does.
pub proof fn answers_carry_the_sequence_number(
    method: Seq<char>,
    scheme: Seq<char>,
    address: Seq<char>,
    number: Seq<char>,
    more: Seq<char>,
)
    requires
        text::lacks(method, ':') && text::lacks(method, '\n'),
        text::lacks(scheme, ':') && text::lacks(scheme, '\n'),
        text::lacks(address, '\n'),
        text::is_word(number),
    ensures
        cseq_of(
            method + seq![' '] + scheme + seq![':'] + address + seq!['\r', '\n'] + ("CSeq: "@ + number
                + seq!['\r', '\n'] + more),
        ) == number,
{
    let key = method + seq![' '] + scheme;
    let first = key + seq![':'] + address;
    let field = "CSeq: "@ + number;
    let after = field + seq!['\r', '\n'] + more;
    reveal_strlit("CSeq: ");
    reveal_strlit("CSeq");
    assert(method + seq![' '] + scheme + seq![':'] + address =~= first);
    assert forall|i: int| 0 <= i < first.len() implies (#[trigger] first[i]) != '\n' by {
        if i < method.len() {
            assert(first[i] == method[i]);
        } else if i > method.len() && i < key.len() {
            assert(first[i] == scheme[i - method.len() - 1]);
        } else if i > key.len() {
            assert(first[i] == address[i - key.len() - 1]);
        }
    }
    assert forall|i: int| 0 <= i < key.len() implies (#[trigger] key[i]) != ':' by {
        if i < method.len() {
            assert(key[i] == method[i]);
        } else if i > method.len() {
            assert(key[i] == scheme[i - method.len() - 1]);
        }
    }
    assert forall|i: int| 0 <= i < field.len() implies (#[trigger] field[i]) != '\n' by {
        if i >= 6 {
            assert(field[i] == number[i - 6]);
            assert(!text::is_space(number[i - 6]));
        }
    }
    text::lemma_line_off(first, after);
    text::lemma_line_off(field, more);
    let ls = text::lines(first + seq!['\r', '\n'] + after);
    assert(!text::same_but_case(key, "CSeq"@)) by {
        if text::same_but_case(key, "CSeq"@) {
            let m = method.len() as int;
            assert(text::lower(key[m]) == text::lower("CSeq"@[m]));
            assert(key[m] == ' ');
        }
    }
    let value = seq![' '] + number;
    assert(field =~= "CSeq"@ + seq![':'] + value);
    assert(text::same_but_case("CSeq"@, "CSeq"@));
    let keys = seq![key];
    let values = seq![address];
    text::header_fields_are_found(keys, values, "CSeq"@, "CSeq"@, value, text::lines(more));
    assert(ls =~= Seq::new(keys.len(), |i: int| keys[i] + seq![':'] + values[i]) + seq![
        "CSeq"@ + seq![':'] + value,
    ] + text::lines(more));
    assert(!text::is_space(number[0]) && !text::is_space(number[number.len() - 1]));
    text::trimming_takes_white_space_off_the_ends(seq![' '], number, seq![]);
    assert(seq![' '] + number + Seq::<char>::empty() =~= value);
}

/// A request whose first line has no colon is answered with the number 1.
pub proof fn requests_without_an_address_are_number_one(first: Seq<char>, more: Seq<char>)
    requires
        text::lacks(first, ':'),
        text::lacks(first, '\n'),
    ensures
        cseq_of(first + seq!['\r', '\n'] + more) == "1"@,
{
    text::lemma_line_off(first, more);
    text::a_line_without_a_colon_ends_the_search(first, text::lines(more), "CSeq"@);
}

proof fn lemma_response_literals()
    ensures
        ({
            let e = seq!['\r', '\n'];
            &&& "\r\nCSeq: "@ == e + "CSeq: "@
            &&& "\r\n"@ == e
            &&& "\r\n\r\n"@ == e + e
        }),
{
    reveal_strlit("\r\nCSeq: ");
    reveal_strlit("CSeq: ");
    reveal_strlit("\r\n");
    reveal_strlit("\r\n\r\n");
    let e = seq!['\r', '\n'];
    assert("\r\nCSeq: "@ =~= e + "CSeq: "@);
    assert("\r\n"@ =~= e);
    assert("\r\n\r\n"@ =~= e + e);
}

proof fn lemma_response_regroup(
    e: Seq<char>,
    a: Seq<char>,
    b: Seq<char>,
    c: Seq<char>,
    d: Seq<char>,
    q: Seq<char>,
    s: Seq<char>,
    f: Seq<char>,
    l: Seq<char>,
    n: Seq<char>,
    body: Seq<char>,
)
    ensures
        a + b + c + d + (e + q) + s + e + f + l + n + (e + e) + body == (a + b + c + d) + e + ((q
            + s) + e + (f + ((l + n) + e + (Seq::<char>::empty() + e + body)))),
{
    assert(a + b + c + d + (e + q) + s + e + f + l + n + (e + e) + body =~= (a + b + c + d) + e + ((q
        + s) + e + (f + ((l + n) + e + (Seq::<char>::empty() + e + body)))));
}

proof fn lemma_lacks_add(a: Seq<char>, b: Seq<char>, c: char)
    requires
        text::lacks(a, c),
        text::lacks(b, c),
    ensures
        text::lacks(a + b, c),
{
    let t = a + b;
    assert forall|i: int| 0 <= i < t.len() implies (#[trigger] t[i]) != c by {
        if i < a.len() {
            assert(t[i] == a[i]);
        } else {
            assert(t[i] == b[i - a.len()]);
        }
    }
}

/// A response is made of lines: the status, with the code and its word, the
/// sequence number, the fields, the length of the body in bytes, an empty line, and
/// then the body.
pub proof fn responses_are_made_of_lines(
    code: u16,
    cseq: Seq<char>,
    fields: Seq<Seq<char>>,
    body: Seq<char>,
)
    requires
        text::lacks(cseq, '\n'),
        forall|i: int| 0 <= i < fields.len() ==> text::lacks(#[trigger] fields[i], '\n'),
        code == 200 || code == 404 || code == 405,
    ensures
        text::lines(response_text(code, cseq, text::with_line_ends(fields), body)) == seq![
            if code == 200 {
                "RTSP/1.0 "@ + number::decimal(200) + " "@ + "OK"@
            } else if code == 404 {
                "RTSP/1.0 "@ + number::decimal(404) + " "@ + "Not Found"@
            } else {
                "RTSP/1.0 "@ + number::decimal(405) + " "@ + "Method Not Allowed"@
            },
            "CSeq: "@ + cseq,
        ] + fields + seq![
            "Content-Length: "@ + number::decimal(vstd::utf8::encode_utf8(body).len()),
            Seq::<char>::empty(),
        ] + text::lines(body),
{
    let e = seq!['\r', '\n'];
    let d = number::decimal(code as nat);
    let n = number::decimal(vstd::utf8::encode_utf8(body).len());
    let status = "RTSP/1.0 "@ + d + " "@ + reason(code);
    let number = "CSeq: "@ + cseq;
    let length = "Content-Length: "@ + n;
    let f = text::with_line_ends(fields);
    lemma_response_literals();
    lemma_response_regroup(
        e,
        "RTSP/1.0 "@,
        d,
        " "@,
        reason(code),
        "CSeq: "@,
        cseq,
        f,
        "Content-Length: "@,
        n,
        body,
    );
    number::lemma_decimal_lacks(code as nat, '\n');
    number::lemma_decimal_lacks(vstd::utf8::encode_utf8(body).len(), '\n');
    reveal_strlit("RTSP/1.0 ");
    reveal_strlit(" ");
    reveal_strlit("OK");
    reveal_strlit("Not Found");
    reveal_strlit("Method Not Allowed");
    reveal_strlit("CSeq: ");
    reveal_strlit("Content-Length: ");
    lemma_lacks_add("RTSP/1.0 "@, d, '\n');
    lemma_lacks_add("RTSP/1.0 "@ + d, " "@, '\n');
    lemma_lacks_add("RTSP/1.0 "@ + d + " "@, reason(code), '\n');
    lemma_lacks_add("CSeq: "@, cseq, '\n');
    lemma_lacks_add("Content-Length: "@, n, '\n');
    let none = Seq::<char>::empty();
    let r4 = none + e + body;
    let r3 = length + e + r4;
    let r2 = f + r3;
    let r1 = number + e + r2;
    text::lemma_line_off(none, body);
    text::lemma_line_off(length, r4);
    text::lines_are_told_apart(fields, r3);
    text::lemma_line_off(number, r2);
    text::lemma_line_off(status, r1);
    assert(seq![status] + (seq![number] + (fields + (seq![length] + (seq![none] + text::lines(
        body,
    ))))) =~= seq![status, number] + fields + seq![length, none] + text::lines(body));
}

proof fn lemma_field_line(name: Seq<char>, value: Seq<char>)
    ensures
        header_line(name, value) == text::with_line_ends(seq![name + ": "@ + value]),
{
    lemma_response_literals();
    text::lemma_line_end(name + ": "@ + value);
}

proof fn lemma_two_field_lines(a: Seq<char>, b: Seq<char>, c: Seq<char>, d: Seq<char>)
    ensures
        header_line(a, b) + header_line(c, d) == text::with_line_ends(
            seq![a + ": "@ + b, c + ": "@ + d],
        ),
{
    lemma_field_line(a, b);
    lemma_field_line(c, d);
    text::lemma_line_ends_add(seq![a + ": "@ + b], seq![c + ": "@ + d]);
    assert(seq![a + ": "@ + b] + seq![c + ": "@ + d] =~= seq![a + ": "@ + b, c + ": "@ + d]);
}

proof fn lemma_field_names()
    ensures
        text::lacks("Public"@, '\n') && text::lacks("Content-Type"@, '\n') && text::lacks(
            "Content-Base"@,
            '\n',
        ) && text::lacks("Transport"@, '\n') && text::lacks("Session"@, '\n') && text::lacks(
            "RTP-Info"@,
            '\n',
        ) && text::lacks(": "@, '\n') && text::lacks(
            "OPTIONS, DESCRIBE, SETUP, PLAY, TEARDOWN"@,
            '\n',
        ) && text::lacks("application/sdp"@, '\n') && text::lacks(
            "RTP/AVP/TCP;unicast;interleaved=0-1"@,
            '\n',
        ) && text::lacks("url=trackID=0;seq=0;rtptime=0"@, '\n') && text::lacks("rtsp://"@, '\n')
            && text::lacks("/channel/"@, '\n') && text::lacks("/"@, '\n'),
{
    reveal_strlit("Public");
    reveal_strlit("Content-Type");
    reveal_strlit("Content-Base");
    reveal_strlit("Transport");
    reveal_strlit("Session");
    reveal_strlit("RTP-Info");
    reveal_strlit(": ");
    reveal_strlit("OPTIONS, DESCRIBE, SETUP, PLAY, TEARDOWN");
    reveal_strlit("application/sdp");
    reveal_strlit("RTP/AVP/TCP;unicast;interleaved=0-1");
    reveal_strlit("url=trackID=0;seq=0;rtptime=0");
    reveal_strlit("rtsp://");
    reveal_strlit("/channel/");
    reveal_strlit("/");
}

proof fn lemma_field_lacks(name: Seq<char>, value: Seq<char>)
    requires
        text::lacks(name, '\n'),
        text::lacks(value, '\n'),
    ensures
        text::lacks(name + ": "@ + value, '\n'),
{
    lemma_field_names();
    lemma_lacks_add(name, ": "@, '\n');
    lemma_lacks_add(name + ": "@, value, '\n');
}

proof fn lemma_base_lacks(host: Seq<char>, channel: usize)
    requires
        text::lacks(host, '\n'),
    ensures
        text::lacks(
            "rtsp://"@ + host + "/channel/"@ + number::decimal(channel as nat) + "/"@,
            '\n',
        ),
{
    let d = number::decimal(channel as nat);
    lemma_field_names();
    number::lemma_decimal_lacks(channel as nat, '\n');
    lemma_lacks_add("rtsp://"@, host, '\n');
    lemma_lacks_add("rtsp://"@ + host, "/channel/"@, '\n');
    lemma_lacks_add("rtsp://"@ + host + "/channel/"@, d, '\n');
    lemma_lacks_add("rtsp://"@ + host + "/channel/"@ + d, "/"@, '\n');
}

/// The answers of the server, line by line: what it offers to OPTIONS, the
/// description behind its base to DESCRIBE, the transport and the session to SETUP,
/// the session to TEARDOWN, and a refusal to what it does not know. Every one
/// carries the sequence number of its request.
pub proof fn answers_are_made_of_these_lines(
    action: RtspAction,
    request: Seq<char>,
    channel: usize,
    session: Seq<char>,
    host: Seq<char>,
    sps: Option<Seq<u8>>,
)
    requires
        acted(action, request, channel, session, host, sps),
        text::lacks(cseq_of(request), '\n'),
        text::lacks(session, '\n'),
        text::lacks(host, '\n'),
    ensures
        ({
            let method = text::method_of(request);
            let ok = "RTSP/1.0 "@ + number::decimal(200) + " "@ + "OK"@;
            let number = "CSeq: "@ + cseq_of(request);
            let nothing = "Content-Length: "@ + number::decimal(0);
            let blank = Seq::<char>::empty();
            let body = hub::sdp_text(channel as nat, host, sps);
            &&& method == "OPTIONS"@ ==> (action matches RtspAction::Reply(t) && text::lines(t@)
                == seq![
                ok,
                number,
                "Public"@ + ": "@ + "OPTIONS, DESCRIBE, SETUP, PLAY, TEARDOWN"@,
                nothing,
                blank,
            ])
            &&& method == "DESCRIBE"@ ==> (action matches RtspAction::Reply(t) && text::lines(t@)
                == seq![
                ok,
                number,
                "Content-Type"@ + ": "@ + "application/sdp"@,
                "Content-Base"@ + ": "@ + ("rtsp://"@ + host + "/channel/"@ + number::decimal(
                    channel as nat,
                ) + "/"@),
                "Content-Length: "@ + number::decimal(vstd::utf8::encode_utf8(body).len()),
                blank,
            ] + text::lines(body))
            &&& method == "SETUP"@ ==> (action matches RtspAction::Reply(t) && text::lines(t@)
                == seq![
                ok,
                number,
                "Transport"@ + ": "@ + "RTP/AVP/TCP;unicast;interleaved=0-1"@,
                "Session"@ + ": "@ + session,
                nothing,
                blank,
            ])
            &&& method == "PLAY"@ ==> (action matches RtspAction::Play(c, q) && c == channel && q@
                == cseq_of(request))
            &&& method == "TEARDOWN"@ ==> (action matches RtspAction::Close(t) && text::lines(t@)
                == seq![ok, number, "Session"@ + ": "@ + session, nothing, blank])
            &&& method != "OPTIONS"@ && method != "DESCRIBE"@ && method != "SETUP"@ && method
                != "PLAY"@ && method != "TEARDOWN"@ ==> (action matches RtspAction::Reply(t)
                && text::lines(t@) == seq![
                "RTSP/1.0 "@ + number::decimal(405) + " "@ + "Method Not Allowed"@,
                number,
                nothing,
                blank,
            ])
        }),
{
    let method = text::method_of(request);
    let cseq = cseq_of(request);
    let none = Seq::<Seq<char>>::empty();
    let empty = Seq::<char>::empty();
    lemma_methods_differ();
    lemma_field_names();
    assert(vstd::utf8::encode_utf8(empty).len() == 0);
    assert(text::lines(empty) =~= none);
    assert(text::with_line_ends(none) =~= empty);
    let public = seq!["Public"@ + ": "@ + "OPTIONS, DESCRIBE, SETUP, PLAY, TEARDOWN"@];
    let base = "rtsp://"@ + host + "/channel/"@ + number::decimal(channel as nat) + "/"@;
    let described = seq![
        "Content-Type"@ + ": "@ + "application/sdp"@,
        "Content-Base"@ + ": "@ + base,
    ];
    let set_up = seq![
        "Transport"@ + ": "@ + "RTP/AVP/TCP;unicast;interleaved=0-1"@,
        "Session"@ + ": "@ + session,
    ];
    let ended = seq!["Session"@ + ": "@ + session];
    let body = hub::sdp_text(channel as nat, host, sps);
    lemma_field_lacks("Public"@, "OPTIONS, DESCRIBE, SETUP, PLAY, TEARDOWN"@);
    lemma_field_lacks("Content-Type"@, "application/sdp"@);
    lemma_base_lacks(host, channel);
    lemma_field_lacks("Content-Base"@, base);
    lemma_field_lacks("Transport"@, "RTP/AVP/TCP;unicast;interleaved=0-1"@);
    lemma_field_lacks("Session"@, session);
    if method == "OPTIONS"@ {
        lemma_field_line("Public"@, "OPTIONS, DESCRIBE, SETUP, PLAY, TEARDOWN"@);
        responses_are_made_of_lines(200, cseq, public, empty);
    } else if method == "DESCRIBE"@ {
        lemma_two_field_lines("Content-Type"@, "application/sdp"@, "Content-Base"@, base);
        responses_are_made_of_lines(200, cseq, described, body);
    } else if method == "SETUP"@ {
        lemma_two_field_lines(
            "Transport"@,
            "RTP/AVP/TCP;unicast;interleaved=0-1"@,
            "Session"@,
            session,
        );
        responses_are_made_of_lines(200, cseq, set_up, empty);
    } else if method == "TEARDOWN"@ {
        lemma_field_line("Session"@, session);
        responses_are_made_of_lines(200, cseq, ended, empty);
    } else if method != "PLAY"@ {
        responses_are_made_of_lines(405, cseq, none, empty);
    }
    match action {
        RtspAction::Reply(t) => {
            assert(method == "OPTIONS"@ ==> text::lines(t@) =~= seq![
                "RTSP/1.0 "@ + number::decimal(200) + " "@ + "OK"@,
                "CSeq: "@ + cseq,
                public[0],
                "Content-Length: "@ + number::decimal(0),
                empty,
            ]);
            assert(method == "DESCRIBE"@ ==> text::lines(t@) =~= seq![
                "RTSP/1.0 "@ + number::decimal(200) + " "@ + "OK"@,
                "CSeq: "@ + cseq,
                described[0],
                described[1],
                "Content-Length: "@ + number::decimal(vstd::utf8::encode_utf8(body).len()),
                empty,
            ] + text::lines(body));
            assert(method == "SETUP"@ ==> text::lines(t@) =~= seq![
                "RTSP/1.0 "@ + number::decimal(200) + " "@ + "OK"@,
                "CSeq: "@ + cseq,
                set_up[0],
                set_up[1],
                "Content-Length: "@ + number::decimal(0),
                empty,
            ]);
            assert(!is_known(method) ==> text::lines(t@) =~= seq![
                "RTSP/1.0 "@ + number::decimal(405) + " "@ + "Method Not Allowed"@,
                "CSeq: "@ + cseq,
                "Content-Length: "@ + number::decimal(0),
                empty,
            ]);
        },
        RtspAction::Close(t) => {
            assert(method == "TEARDOWN"@ ==> text::lines(t@) =~= seq![
                "RTSP/1.0 "@ + number::decimal(200) + " "@ + "OK"@,
                "CSeq: "@ + cseq,
                ended[0],
                "Content-Length: "@ + number::decimal(0),
                empty,
            ]);
        },
        _ => {},
    }
}

/// The answer to PLAY, line by line.
pub proof fn play_is_answered_with_the_session(cseq: Seq<char>, session: Seq<char>)
    requires
        text::lacks(cseq, '\n'),
        text::lacks(session, '\n'),
    ensures
        text::lines(response_text(200, cseq, play_fields(session), seq![])) == seq![
            "RTSP/1.0 "@ + number::decimal(200) + " "@ + "OK"@,
            "CSeq: "@ + cseq,
            "Session"@ + ": "@ + session,
            "RTP-Info"@ + ": "@ + "url=trackID=0;seq=0;rtptime=0"@,
            "Content-Length: "@ + number::decimal(0),
            Seq::<char>::empty(),
        ],
{
    let empty = Seq::<char>::empty();
    let fields = seq![
        "Session"@ + ": "@ + session,
        "RTP-Info"@ + ": "@ + "url=trackID=0;seq=0;rtptime=0"@,
    ];
    lemma_field_names();
    lemma_field_lacks("Session"@, session);
    lemma_field_lacks("RTP-Info"@, "url=trackID=0;seq=0;rtptime=0"@);
    lemma_two_field_lines("Session"@, session, "RTP-Info"@, "url=trackID=0;seq=0;rtptime=0"@);
    responses_are_made_of_lines(200, cseq, fields, empty);
    assert(text::lines(empty) =~= Seq::<Seq<char>>::empty());
    assert(text::lines(response_text(200, cseq, play_fields(session), empty)) =~= seq![
        "RTSP/1.0 "@ + number::decimal(200) + " "@ + "OK"@,
        "CSeq: "@ + cseq,
        fields[0],
        fields[1],
        "Content-Length: "@ + number::decimal(0),
        empty,
    ]);
}

/// A request ends with the first empty line, and may have up to sixteen kilobytes.
pub proof fn requests_end_with_an_empty_line(b: Seq<u8>, byte: u8)
    ensures
        MAX_REQUEST == 16 * 1024,
        ends_blank(b + seq![13u8, 10u8, 13u8, 10u8]),
        ends_blank(b.push(byte)) ==> byte == 10 && b.len() >= 3 && b.skip(b.len() - 3) == seq![
            13u8,
            10u8,
            13u8,
        ],
{
    if ends_blank(b.push(byte)) {
        assert(b.skip(b.len() - 3) =~= seq![13u8, 10u8, 13u8]);
    }
}

/// The session of a client is the time in hexadecimal digits; different times give
/// different sessions.
pub proof fn sessions_differ(a: nat, b: nat)
    ensures
        a != b ==> number::hex(a) != number::hex(b),
    decreases a,
{
    number::numbers_are_written_in_hexadecimal(a);
    number::numbers_are_written_in_hexadecimal(b);
    if number::hex(a) == number::hex(b) {
        if a >= 16 {
            if b >= 16 {
                sessions_differ(a / 16, b / 16);
            } else {
                number::numbers_are_written_in_hexadecimal(a / 16);
                assert(number::hex(a).len() == 1);
                assert(number::hex(a).drop_last().len() == 0);
            }
        } else if b >= 16 {
            number::numbers_are_written_in_hexadecimal(b / 16);
            assert(number::hex(b).drop_last().len() == 0);
        }
    }
}

/// The channel that a path names is the number that all digits behind the first
/// `/channel/` make, where it is from one to four.
pub proof fn all_digits_name_the_channel(prefix: Seq<char>, digits: Seq<char>, rest: Seq<char>)
    requires
        number::all_digits(digits),
        rest.len() > 0 ==> rest[0] < '0' || rest[0] > '9',
        forall|j: int|
            0 <= j < prefix.len() ==> #[trigger] (prefix + "/channel/"@ + (digits + rest)).subrange(
                j,
                j + 9,
            ) != "/channel/"@,
    ensures
        channel_of(prefix + "/channel/"@ + (digits + rest)) == (if digits.len() > 0 && 1
            <= number::digits_value(digits) <= 4 {
            Some(number::digits_value(digits))
        } else {
            None
        }),
{
    let path = prefix + "/channel/"@ + (digits + rest);
    lemma_marker_found(prefix, digits + rest);
    reveal_strlit("/channel/");
    assert(path.skip(prefix.len() + 9 as int) =~= digits + rest);
    number::lemma_digit_run(digits, rest);
    if digits.len() > 0 {
        assert(number::is_digit(digits[0]));
    }
}

} // verus!
