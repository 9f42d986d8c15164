//! The web page: HTTP requests, and the JSON that the page reads and writes.
use vstd::prelude::*;
use vstd::slice::slice_subrange;

use crate::bytes;
use crate::config::{AppConfig, Settings};
use crate::hub::StreamHub;
use crate::json;
use crate::json::{bool_json, json_bool_array, json_string, json_u16, push_escaped};
use crate::number;
use crate::number::{parse_number, push_decimal};
use crate::state::{ChannelStats, Shared, SharedState};
use crate::text;
use crate::text::{chars_of, decode_lossy, find, first_line, header_field, is_text, string_of};

verus! {

broadcast use vstd::string::group_string_axioms;

/// A request that has no empty line after more bytes than this is too large.
pub const MAX_HEAD: usize = 131072;

/// Whether an empty line stands at `i`.
pub open spec fn blank_at(b: Seq<u8>, i: int) -> bool {
    0 <= i && i + 4 <= b.len() && b[i] == 13 && b[i + 1] == 10 && b[i + 2] == 13 && b[i + 3] == 10
}

/// Whether there is an empty line.
pub open spec fn has_blank(b: Seq<u8>) -> bool {
    exists|i: int| #[trigger] blank_at(b, i)
}

fn find_blank(b: &[u8]) -> (r: bool)
    ensures
        r == has_blank(b@),
{
    let len: usize = b.len();
    let mut i: usize = 0;
    while len >= 4 && i <= len - 4
        invariant
            len == b@.len(),
            i <= len,
            forall|j: int| 0 <= j < i ==> !#[trigger] blank_at(b@, j),
        decreases len - i,
    {
        if b[i] == 13 && b[i + 1] == 10 && b[i + 2] == 13 && b[i + 3] == 10 {
            assert(blank_at(b@, i as int));
            return true;
        }
        i += 1;
    }
    false
}

/// How long a request says that its body is; zero where it does not say.
pub open spec fn body_length(head: Seq<char>) -> nat {
    match text::header_in(text::lines(head), "Content-Length"@) {
        Some(v) => match number::parsed(v, usize::MAX as nat) {
            Some(n) => n,
            None => 0,
        },
        None => 0,
    }
}

/// How many bytes a request has, by what came of it first: up to its empty
/// line and so many more as its body has.
pub open spec fn whole_length(head: Seq<char>) -> Option<nat> {
    match text::found(head, "\r\n\r\n"@) {
        Some(i) => Some(vstd::utf8::encode_utf8(head.take(i)).len() + 4 + body_length(head)),
        None => None,
    }
}

/// Tells how many bytes a request has, by what came of it first.
pub fn request_length(head: &str) -> (r: Option<u128>)
    ensures
        match r {
            Some(n) => whole_length(head@) == Some(n as nat),
            None => whole_length(head@) is None,
        },
{
    let s = chars_of(head);
    let blank = chars_of("\r\n\r\n");
    match find(s.as_slice(), blank.as_slice()) {
        Some(i) => {
            proof {
                text::lemma_find_from(head@, "\r\n\r\n"@, 0);
            }
            let before = string_of(slice_subrange(s.as_slice(), 0, i));
            assert(before@ =~= head@.take(i as int));
            let body: u64 = match header_field(head, "Content-Length") {
                Some(v) => {
                    let digits = chars_of(v.as_str());
                    match parse_number(digits.as_slice(), usize::MAX as u64) {
                        Some(n) => n,
                        None => 0,
                    }
                },
                None => 0,
            };
            Some(before.as_str().as_bytes().len() as u128 + 4 + body as u128)
        },
        None => None,
    }
}

proof fn lemma_decode_ascii(b: Seq<u8>)
    requires
        vstd::utf8::valid_utf8(b),
        b.len() > 0,
        b[0] < 0x80,
    ensures
        vstd::utf8::valid_utf8(b.skip(1)),
        vstd::utf8::decode_utf8(b) == seq![b[0] as char] + vstd::utf8::decode_utf8(b.skip(1)),
{
    let first = b[0];
    assert(first & 0x7f == first) by (bit_vector)
        requires
            first < 0x80,
    ;
    assert(vstd::utf8::pop_first_scalar(b) =~= b.skip(1));
}

proof fn lemma_blank_decoded(b: Seq<u8>, i: int) -> (k: int)
    requires
        vstd::utf8::valid_utf8(b),
        blank_at(b, i),
    ensures
        text::occurs_at(vstd::utf8::decode_utf8(b), "\r\n\r\n"@, k),
    decreases b.len(),
{
    let t = vstd::utf8::decode_utf8(b);
    reveal_strlit("\r\n\r\n");
    if i == 0 {
        lemma_decode_ascii(b);
        lemma_decode_ascii(b.skip(1));
        lemma_decode_ascii(b.skip(1).skip(1));
        lemma_decode_ascii(b.skip(1).skip(1).skip(1));
        assert(t.subrange(0, 4) =~= "\r\n\r\n"@);
        0
    } else {
        let n = vstd::utf8::length_of_first_scalar(b);
        let rest = vstd::utf8::pop_first_scalar(b);
        assert(n <= i);
        assert(blank_at(rest, i - n));
        let k = lemma_blank_decoded(rest, i - n);
        let u = vstd::utf8::decode_utf8(rest);
        assert(t.subrange(k + 1, k + 5) =~= u.subrange(k, k + 4));
        k + 1
    }
}

/// Once the empty line of a request is there, its length is known.
pub proof fn an_empty_line_tells_the_length(b: Seq<u8>)
    requires
        vstd::utf8::valid_utf8(b),
        has_blank(b),
    ensures
        whole_length(vstd::utf8::decode_utf8(b)) is Some,
{
    let i = choose|i: int| blank_at(b, i);
    let k = lemma_blank_decoded(b, i);
    text::lemma_find_from(vstd::utf8::decode_utf8(b), "\r\n\r\n"@, 0);
}

/// A request that is being read.
pub struct HttpReader {
    pub buf: Vec<u8>,
    /// How many bytes it has, once that is known.
    pub length: Option<u128>,
}

/// How far a request has been read.
#[derive(Clone, Copy, Debug, PartialEq, Eq, Structural)]
pub enum HttpRead {
    /// There is more to come.
    More,
    /// All of it is there.
    Complete,
    /// It is too large.
    TooLarge,
}

/// How many bytes a request has, when these are there with its empty line. Their
/// text tells it; were the empty line not in it, these would be the request.
pub open spec fn length_told(buf: Seq<u8>) -> nat {
    match whole_length(text::utf8_lossy(buf)) {
        Some(n) => n,
        None => buf.len(),
    }
}

/// How many bytes a request has, when these are there; what was known before stays.
pub open spec fn length_known(known: Option<u128>, buf: Seq<u8>) -> Option<nat> {
    match known {
        Some(n) => Some(n as nat),
        None => if has_blank(buf) {
            Some(length_told(buf))
        } else {
            None
        },
    }
}

impl HttpReader {
    /// A request of which nothing has come.
    pub fn new() -> (r: HttpReader)
        ensures
            r.buf@ == Seq::<u8>::empty(),
            r.length is None,
    {
        HttpReader { buf: Vec::new(), length: None }
    }

    /// Takes the next bytes of a request; none where the client has ended it.
    pub fn accept(&mut self, data: &[u8]) -> (r: HttpRead)
        ensures
            final(self).buf@ == old(self).buf@ + data@,
            data@.len() == 0 ==> r == HttpRead::Complete && final(self).length == old(self).length,
            data@.len() > 0 ==> {
                let known = length_known(old(self).length, final(self).buf@);
                &&& match final(self).length {
                    Some(n) => known == Some(n as nat),
                    None => known is None,
                }
                &&& r == (match known {
                    Some(n) => if final(self).buf@.len() >= n {
                        HttpRead::Complete
                    } else {
                        HttpRead::More
                    },
                    None => if final(self).buf@.len() > MAX_HEAD {
                        HttpRead::TooLarge
                    } else {
                        HttpRead::More
                    },
                })
            },
            data@.len() > 0 && old(self).length is None && has_blank(final(self).buf@)
                && vstd::utf8::valid_utf8(final(self).buf@) ==> {
                &&& final(self).length matches Some(n)
                &&& whole_length(vstd::utf8::decode_utf8(final(self).buf@)) == Some(n as nat)
            },
            has_blank(final(self).buf@) ==> r != HttpRead::TooLarge,
            data@.len() > 0 && has_blank(final(self).buf@) ==> final(self).length is Some,
    {
        if data.len() == 0 {
            assert(self.buf@ + data@ =~= self.buf@);
            return HttpRead::Complete;
        }
        bytes::append_bytes(&mut self.buf, data);
        if self.length.is_none() && find_blank(self.buf.as_slice()) {
            let head = decode_lossy(self.buf.as_slice());
            self.length = match request_length(head.as_str()) {
                Some(n) => Some(n),
                None => Some(self.buf.len() as u128),
            };
            proof {
                if vstd::utf8::valid_utf8(self.buf@) {
                    an_empty_line_tells_the_length(self.buf@);
                }
            }
        }
        match self.length {
            Some(n) => {
                if self.buf.len() as u128 >= n {
                    HttpRead::Complete
                } else {
                    HttpRead::More
                }
            },
            None => {
                if self.buf.len() > MAX_HEAD {
                    HttpRead::TooLarge
                } else {
                    HttpRead::More
                }
            },
        }
    }

    /// The text of the request.
    pub fn text(&self) -> (r: String)
        ensures
            r@ == text::utf8_lossy(self.buf@),
            vstd::utf8::valid_utf8(self.buf@) ==> r@ == vstd::utf8::decode_utf8(self.buf@),
    {
        decode_lossy(self.buf.as_slice())
    }
}

/// The word for a status code.
pub open spec fn reason(code: u16) -> Seq<char> {
    if code == 200 {
        "OK"@
    } else if code == 400 {
        "Bad Request"@
    } else if code == 404 {
        "Not Found"@
    } else if code == 409 {
        "Conflict"@
    } else {
        "Error"@
    }
}

/// A response.
pub open spec fn response_text(code: u16, content_type: Seq<char>, body: Seq<char>) -> Seq<char> {
    "HTTP/1.1 "@ + number::decimal(code as nat) + " "@ + reason(code) + "\r\nContent-Type: "@
        + content_type + "\r\nContent-Length: "@ + number::decimal(
        vstd::utf8::encode_utf8(body).len(),
    ) + "\r\nCache-Control: no-store\r\nConnection: close\r\n\r\n"@ + body
}

/// A response with JSON.
pub open spec fn json_response(code: u16, body: Seq<char>) -> Seq<char> {
    response_text(code, "application/json; charset=utf-8"@, body)
}

fn reason_of(code: u16) -> (r: &'static str)
    ensures
        r@ == reason(code),
{
    if code == 200 {
        "OK"
    } else if code == 400 {
        "Bad Request"
    } else if code == 404 {
        "Not Found"
    } else if code == 409 {
        "Conflict"
    } else {
        "Error"
    }
}

/// Writes a response.
pub fn write_response(code: u16, content_type: &str, body: &str) -> (r: String)
    ensures
        r@ == response_text(code, content_type@, body@),
{
    let mut out = "HTTP/1.1 ".to_owned();
    push_decimal(&mut out, code as u128);
    out.append(" ");
    out.append(reason_of(code));
    out.append("\r\nContent-Type: ");
    out.append(content_type);
    out.append("\r\nContent-Length: ");
    push_decimal(&mut out, body.as_bytes().len() as u128);
    out.append("\r\nCache-Control: no-store\r\nConnection: close\r\n\r\n");
    out.append(body);
    out
}

/// Writes a response with JSON.
pub fn write_json(code: u16, body: &str) -> (r: String)
    ensures
        r@ == json_response(code, body@),
{
    write_response(code, "application/json; charset=utf-8", body)
}

/// The settings in JSON.
pub open spec fn config_text(c: Settings) -> Seq<char> {
    "{\"host\":\""@ + json::escaped(c.host) + "\",\"port\":"@ + number::decimal(c.port as nat)
        + ",\"user\":\""@ + json::escaped(c.user) + "\",\"password\":\""@ + json::escaped(
        c.password,
    ) + "\",\"streamName\":\""@ + json::escaped(c.stream_name) + "\",\"channels\":["@
        + json::bool_text(c.channels[0]) + ","@ + json::bool_text(c.channels[1]) + ","@
        + json::bool_text(c.channels[2]) + ","@ + json::bool_text(c.channels[3])
        + "],\"httpBind\":\""@ + json::escaped(c.http_bind) + "\",\"rtspBind\":\""@
        + json::escaped(c.rtsp_bind) + "\"}"@
}

/// Writes the settings in JSON.
pub fn config_json(config: &AppConfig) -> (r: String)
    ensures
        r@ == config_text(config@),
{
    let mut s = "{\"host\":\"".to_owned();
    push_escaped(&mut s, config.host.as_str());
    s.append("\",\"port\":");
    push_decimal(&mut s, config.port as u128);
    s.append(",\"user\":\"");
    push_escaped(&mut s, config.user.as_str());
    s.append("\",\"password\":\"");
    push_escaped(&mut s, config.password.as_str());
    s.append("\",\"streamName\":\"");
    push_escaped(&mut s, config.stream_name.as_str());
    s.append("\",\"channels\":[");
    s.append(bool_json(config.channels[0]));
    s.append(",");
    s.append(bool_json(config.channels[1]));
    s.append(",");
    s.append(bool_json(config.channels[2]));
    s.append(",");
    s.append(bool_json(config.channels[3]));
    s.append("],\"httpBind\":\"");
    push_escaped(&mut s, config.http_bind.as_str());
    s.append("\",\"rtspBind\":\"");
    push_escaped(&mut s, config.rtsp_bind.as_str());
    s.append("\"}");
    s
}

/// A text where there is one, else another.
pub open spec fn text_or(new: Option<Seq<char>>, old_text: Seq<char>) -> Seq<char> {
    match new {
        Some(t) => t,
        None => old_text,
    }
}

/// The settings with those changed that a JSON text holds. The addresses that
/// the servers listen on stay.
pub open spec fn config_with(c: Settings, body: Seq<char>) -> Settings {
    Settings {
        host: text_or(json::text_of_field(body, "host"@), c.host),
        port: match json::small_number_of_field(body, "port"@) {
            Some(n) => n as u16,
            None => c.port,
        },
        user: text_or(json::text_of_field(body, "user"@), c.user),
        password: text_or(json::text_of_field(body, "password"@), c.password),
        stream_name: text_or(json::text_of_field(body, "streamName"@), c.stream_name),
        channels: match json::flags_of_field(body, "channels"@) {
            Some(flags) => flags,
            None => c.channels,
        },
        ..c
    }
}

/// The state once the settings were changed. While the bridge runs, it is
/// noted that they take effect later.
pub open spec fn state_with(s: Shared, body: Seq<char>) -> Shared {
    Shared {
        config: config_with(s.config, body),
        status: if s.running {
            "configuration changes apply after stop/start"@
        } else {
            s.status
        },
        ..s
    }
}

/// Changes the settings that a JSON text holds.
pub fn update_config(state: &mut SharedState, body: &str)
    ensures
        final(state)@ == state_with(old(state)@, body@),
{
    if state.running {
        state.status = "configuration changes apply after stop/start".to_owned();
    }
    match json_string(body, "host") {
        Some(host) => {
            state.config.host = host;
        },
        None => {},
    }
    match json_u16(body, "port") {
        Some(port) => {
            state.config.port = port;
        },
        None => {},
    }
    match json_string(body, "user") {
        Some(user) => {
            state.config.user = user;
        },
        None => {},
    }
    match json_string(body, "password") {
        Some(password) => {
            state.config.password = password;
        },
        None => {},
    }
    match json_string(body, "streamName") {
        Some(stream_name) => {
            state.config.stream_name = stream_name;
        },
        None => {},
    }
    match json_bool_array(body, "channels") {
        Some(channels) => {
            state.config.channels = channels;
        },
        None => {},
    }
}

/// A field with a number, behind another.
pub open spec fn number_member(name: Seq<char>, n: nat) -> Seq<char> {
    ",\""@ + name + "\":"@ + number::decimal(n)
}

/// The statistics of a channel in JSON. The frame rate is given as text.
#[verifier::opaque]
pub open spec fn channel_text(s: ChannelStats, enabled: bool, fps: Seq<char>) -> Seq<char> {
    "{\"channel\":"@ + number::decimal(s.channel as nat) + ",\"enabled\":"@ + json::bool_text(
        enabled,
    ) + number_member("frames"@, s.frames as nat) + number_member("bytes"@, s.bytes as nat)
        + number_member("clients"@, s.clients as nat) + ",\"fps\":"@ + fps + number_member(
        "lastFrameMs"@,
        s.last_frame_ms as nat,
    ) + number_member("nalUnits"@, s.nal_units as nat) + number_member(
        "idrFrames"@,
        s.idr_frames as nat,
    ) + number_member("spsUnits"@, s.sps_units as nat) + number_member(
        "ppsUnits"@,
        s.pps_units as nat,
    ) + number_member("multiNalFrames"@, s.multi_nal_frames as nat) + number_member(
        "fragmentedNals"@,
        s.fragmented_nals as nat,
    ) + number_member("maxFrameBytes"@, s.max_frame_bytes as nat) + number_member(
        "maxNalBytes"@,
        s.max_nal_bytes as nat,
    ) + ",\"rtspUrl\":\"rtsp://localhost:8554/channel/"@ + number::decimal(s.channel as nat)
        + "\"}"@
}

/// The statistics of the first `n` channels in JSON, with commas between.
pub open spec fn channels_text(s: Shared, fps: Seq<Seq<char>>, n: int) -> Seq<char>
    decreases n,
{
    if n <= 0 {
        seq![]
    } else {
        channels_text(s, fps, n - 1) + (if n > 1 {
            ","@
        } else {
            seq![]
        }) + channel_text(s.stats[n - 1], s.config.channels[n - 1], fps[n - 1])
    }
}

/// The state of the bridge in JSON.
pub open spec fn status_text(s: Shared, fps: Seq<Seq<char>>) -> Seq<char> {
    "{\"running\":"@ + json::bool_text(s.running) + ",\"status\":\""@ + json::escaped(s.status)
        + "\",\"source\":\""@ + json::escaped(s.config.host) + ":"@ + number::decimal(
        s.config.port as nat,
    ) + "\",\"channels\":["@ + channels_text(s, fps, 4) + "]}"@
}

/// The state with the numbers of clients brought up to date.
pub open spec fn with_clients(s: Shared, counts: Seq<nat>) -> Shared {
    Shared {
        stats: Seq::new(
            s.stats.len(),
            |i: int| ChannelStats { clients: counts[i] as usize, ..s.stats[i] },
        ),
        ..s
    }
}

/// How many subscribers each channel has.
pub open spec fn client_counts(streams: StreamHub) -> Seq<nat> {
    streams@.map_values(|c: crate::hub::Channel| c.subscribers.len())
}

fn push_member(out: &mut String, name: &str, n: u128)
    ensures
        final(out)@ == old(out)@ + number_member(name@, n as nat),
{
    out.append(",\"");
    out.append(name);
    out.append("\":");
    push_decimal(out, n);
    assert(out@ =~= old(out)@ + number_member(name@, n as nat));
}

fn channel_json(s: &ChannelStats, enabled: bool, fps: &str) -> (r: String)
    ensures
        r@ == channel_text(*s, enabled, fps@),
{
    reveal(channel_text);
    let mut out = "{\"channel\":".to_owned();
    push_decimal(&mut out, s.channel as u128);
    out.append(",\"enabled\":");
    out.append(bool_json(enabled));
    push_member(&mut out, "frames", s.frames as u128);
    push_member(&mut out, "bytes", s.bytes as u128);
    push_member(&mut out, "clients", s.clients as u128);
    out.append(",\"fps\":");
    out.append(fps);
    push_member(&mut out, "lastFrameMs", s.last_frame_ms);
    push_member(&mut out, "nalUnits", s.nal_units as u128);
    push_member(&mut out, "idrFrames", s.idr_frames as u128);
    push_member(&mut out, "spsUnits", s.sps_units as u128);
    push_member(&mut out, "ppsUnits", s.pps_units as u128);
    push_member(&mut out, "multiNalFrames", s.multi_nal_frames as u128);
    push_member(&mut out, "fragmentedNals", s.fragmented_nals as u128);
    push_member(&mut out, "maxFrameBytes", s.max_frame_bytes as u128);
    push_member(&mut out, "maxNalBytes", s.max_nal_bytes as u128);
    out.append(",\"rtspUrl\":\"rtsp://localhost:8554/channel/");
    push_decimal(&mut out, s.channel as u128);
    out.append("\"}");
    out
}

fn count_clients(state: &mut SharedState, streams: &StreamHub)
    ensures
        final(state)@ == with_clients(old(state)@, client_counts(*streams)),
{
    let ghost before = state.stats@;
    let mut i: usize = 0;
    while i < 4
        invariant
            i <= 4,
            before == old(state).stats@,
            before.len() == 4,
            streams@.len() == 4,
            state.stats@.len() == 4,
            state.config == old(state).config,
            state.running == old(state).running,
            state.stop == old(state).stop,
            state.status == old(state).status,
            forall|j: int|
                0 <= j < 4 ==> #[trigger] state.stats@[j] == (if j < i {
                    ChannelStats {
                        clients: client_counts(*streams)[j] as usize,
                        ..before[j]
                    }
                } else {
                    before[j]
                }),
        decreases 4 - i,
    {
        let n: usize = streams.client_count(i + 1);
        state.stats[i].clients = n;
        i += 1;
    }
    assert(state@ =~= with_clients(old(state)@, client_counts(*streams)));
}

/// What a list of texts holds.
pub open spec fn text_views(s: Seq<String>) -> Seq<Seq<char>> {
    s.map_values(|t: String| t@)
}

/// Brings the numbers of clients up to date, and writes the state in JSON. The
/// frame rates of the channels are given as text.
pub fn status_json(state: &mut SharedState, streams: &StreamHub, fps: &[String; 4]) -> (r: String)
    ensures
        final(state)@ == with_clients(old(state)@, client_counts(*streams)),
        r@ == status_text(final(state)@, text_views(fps@)),
{
    count_clients(state, streams);
    let mut channels = String::new();
    let mut i: usize = 0;
    while i < 4
        invariant
            i <= 4,
            fps@.len() == 4,
            state.stats@.len() == 4,
            channels@ == channels_text(state@, text_views(fps@), i as int),
        decreases 4 - i,
    {
        if i > 0 {
            channels.append(",");
        }
        let one = channel_json(
            &state.stats[i],
            state.config.channels[i],
            fps[i].as_str(),
        );
        channels.append(one.as_str());
        i += 1;
        assert(channels@ =~= channels_text(state@, text_views(fps@), i as int));
    }
    let mut s = "{\"running\":".to_owned();
    s.append(bool_json(state.running));
    s.append(",\"status\":\"");
    push_escaped(&mut s, state.status.as_str());
    s.append("\",\"source\":\"");
    push_escaped(&mut s, state.config.host.as_str());
    s.append(":");
    push_decimal(&mut s, state.config.port as u128);
    s.append("\",\"channels\":[");
    s.append(channels.as_str());
    s.append("]}");
    s
}

/// The files of the page.
pub struct Pages {
    pub index: String,
    pub style: String,
    pub script: String,
}

/// What a request asks for.
#[derive(Clone, Copy, Debug, PartialEq, Eq, Structural)]
pub enum Route {
    Index,
    Style,
    Script,
    Status,
    Config,
    SetConfig,
    Start,
    Stop,
    NotFound,
}

/// What a method and a path ask for.
pub open spec fn route_of(method: Seq<char>, path: Seq<char>) -> Route {
    if method == "GET"@ {
        if path == "/"@ || path == "/index.html"@ {
            Route::Index
        } else if path == "/styles.css"@ {
            Route::Style
        } else if path == "/app.js"@ {
            Route::Script
        } else if path == "/api/status"@ {
            Route::Status
        } else if path == "/api/config"@ {
            Route::Config
        } else {
            Route::NotFound
        }
    } else if method == "POST"@ {
        if path == "/api/config"@ {
            Route::SetConfig
        } else if path == "/api/start"@ {
            Route::Start
        } else if path == "/api/stop"@ {
            Route::Stop
        } else {
            Route::NotFound
        }
    } else {
        Route::NotFound
    }
}

/// Tells what a request asks for.
pub fn route(request: &str) -> (r: Route)
    ensures
        r == route_of(text::method_of(request@), text::path_of(request@)),
{
    let s = chars_of(request);
    let (method, path) = first_line(s.as_slice());
    if is_text(method, "GET") {
        if is_text(path, "/") || is_text(path, "/index.html") {
            Route::Index
        } else if is_text(path, "/styles.css") {
            Route::Style
        } else if is_text(path, "/app.js") {
            Route::Script
        } else if is_text(path, "/api/status") {
            Route::Status
        } else if is_text(path, "/api/config") {
            Route::Config
        } else {
            Route::NotFound
        }
    } else if is_text(method, "POST") {
        if is_text(path, "/api/config") {
            Route::SetConfig
        } else if is_text(path, "/api/start") {
            Route::Start
        } else if is_text(path, "/api/stop") {
            Route::Stop
        } else {
            Route::NotFound
        }
    } else {
        Route::NotFound
    }
}

/// The body of a request: what follows its empty line.
pub open spec fn body_of(request: Seq<char>) -> Seq<char> {
    match text::found(request, "\r\n\r\n"@) {
        Some(i) => request.skip(i + 4),
        None => seq![],
    }
}

/// Takes the body out of a request.
pub fn request_body(request: &str) -> (r: String)
    ensures
        r@ == body_of(request@),
{
    let s = chars_of(request);
    let blank = chars_of("\r\n\r\n");
    proof {
        reveal_strlit("\r\n\r\n");
        text::lemma_find_from(request@, "\r\n\r\n"@, 0);
    }
    match find(s.as_slice(), blank.as_slice()) {
        Some(i) => {
            let len: usize = s.len();
            let rest = slice_subrange(s.as_slice(), i + 4, len);
            assert(rest@ =~= request@.skip(i + 4));
            string_of(rest)
        },
        None => String::new(),
    }
}

/// What to do for a request.
pub enum HttpAction {
    /// Send this response.
    Reply(String),
    /// Start the bridge, and answer accordingly.
    Start,
    /// Stop the bridge, and answer.
    Stop,
}

/// The state after a request was taken.
pub open spec fn state_after(s: Shared, request: Seq<char>, counts: Seq<nat>) -> Shared {
    match route_of(text::method_of(request), text::path_of(request)) {
        Route::Status => with_clients(s, counts),
        Route::SetConfig => state_with(s, body_of(request)),
        _ => s,
    }
}

/// Whether an action is the one for a request, where `after` is the state once
/// the request was taken.
pub open spec fn acted(
    action: HttpAction,
    request: Seq<char>,
    after: Shared,
    pages: Pages,
    fps: Seq<Seq<char>>,
) -> bool {
    match route_of(text::method_of(request), text::path_of(request)) {
        Route::Start => action is Start,
        Route::Stop => action is Stop,
        route => (action matches HttpAction::Reply(t) && t@ == (match page_text(route, pages) {
            Some(page) => page,
            None => if route is Status {
                json_response(200, status_text(after, fps))
            } else {
                json_response(200, config_text(after.config))
            },
        })),
    }
}

/// The answer to a request that the shared state has no part in: for the files
/// of the page, and for what is not there.
pub open spec fn page_text(route: Route, pages: Pages) -> Option<Seq<char>> {
    match route {
        Route::Index => Some(response_text(200, "text/html; charset=utf-8"@, pages.index@)),
        Route::Style => Some(response_text(200, "text/css; charset=utf-8"@, pages.style@)),
        Route::Script => Some(
            response_text(200, "application/javascript; charset=utf-8"@, pages.script@),
        ),
        Route::NotFound => Some(
            response_text(404, "text/plain; charset=utf-8"@, "not found"@),
        ),
        _ => None,
    }
}

/// Answers a request that the shared state has no part in.
pub fn page_response(route: Route, pages: &Pages) -> (r: Option<String>)
    ensures
        match r {
            Some(t) => page_text(route, *pages) == Some(t@),
            None => page_text(route, *pages) is None,
        },
{
    match route {
        Route::Index => Some(
            write_response(200, "text/html; charset=utf-8", pages.index.as_str()),
        ),
        Route::Style => Some(write_response(200, "text/css; charset=utf-8", pages.style.as_str())),
        Route::Script => Some(
            write_response(200, "application/javascript; charset=utf-8", pages.script.as_str()),
        ),
        Route::NotFound => Some(write_response(404, "text/plain; charset=utf-8", "not found")),
        _ => None,
    }
}

/// Takes a request. The frame rates of the channels are given as text.
pub fn handle_http(
    state: &mut SharedState,
    streams: &StreamHub,
    request: &str,
    pages: &Pages,
    fps: &[String; 4],
) -> (r: HttpAction)
    ensures
        final(state)@ == state_after(old(state)@, request@, client_counts(*streams)),
        acted(r, request@, final(state)@, *pages, text_views(fps@)),
{
    let asked = route(request);
    match page_response(asked, pages) {
        Some(response) => {
            return HttpAction::Reply(response);
        },
        None => {},
    }
    match asked {
        Route::Status => {
            let body = status_json(state, streams, fps);
            HttpAction::Reply(write_json(200, body.as_str()))
        },
        Route::SetConfig => {
            let new = request_body(request);
            update_config(state, new.as_str());
            let body = config_json(&state.config);
            HttpAction::Reply(write_json(200, body.as_str()))
        },
        Route::Start => HttpAction::Start,
        Route::Stop => HttpAction::Stop,
        // What is left is the request for the settings.
        _ => {
            let body = config_json(&state.config);
            HttpAction::Reply(write_json(200, body.as_str()))
        },
    }
}

/// The answer to a request that started or stopped the bridge, or could not.
pub fn outcome_response(result: Result<(), String>) -> (r: String)
    ensures
        r@ == (match result {
            Ok(_) => json_response(200, "{\"ok\":true}"@),
            Err(e) => json_response(
                409,
                "{\"ok\":false,\"error\":\""@ + json::escaped(e@) + "\"}"@,
            ),
        }),
{
    match result {
        Ok(_) => write_json(200, "{\"ok\":true}"),
        Err(e) => {
            let mut body = "{\"ok\":false,\"error\":\"".to_owned();
            push_escaped(&mut body, e.as_str());
            body.append("\"}");
            write_json(409, body.as_str())
        },
    }
}

/// The answer to a request that could not be read.
pub fn bad_request(message: &str) -> (r: String)
    ensures
        r@ == response_text(400, "text/plain"@, message@),
{
    write_response(400, "text/plain", message)
}

spec fn before_port(c: Settings) -> Seq<char> {
    "{\"host\":\""@ + json::escaped(c.host) + "\","@
}

spec fn before_user(c: Settings) -> Seq<char> {
    before_port(c) + "\"port\":"@ + number::decimal(c.port as nat) + ","@
}

spec fn before_password(c: Settings) -> Seq<char> {
    before_user(c) + "\"user\":\""@ + json::escaped(c.user) + "\","@
}

spec fn before_stream_name(c: Settings) -> Seq<char> {
    before_password(c) + "\"password\":\""@ + json::escaped(c.password) + "\","@
}

spec fn before_channels(c: Settings) -> Seq<char> {
    before_stream_name(c) + "\"streamName\":\""@ + json::escaped(c.stream_name) + "\","@
}

proof fn lemma_lacks_add(a: Seq<char>, b: Seq<char>, c: char)
    requires
        text::lacks(a, c),
        text::lacks(b, c),
    ensures
        text::lacks(a + b, c),
{
    let t = a + b;
    assert forall|i: int| 0 <= i < t.len() implies (#[trigger] t[i]) != c by {
        if i < a.len() {
            assert(t[i] == a[i]);
        } else {
            assert(t[i] == b[i - a.len()]);
        }
    }
}

proof fn lemma_first_part(item: Seq<char>, rest: Seq<char>)
    requires
        text::lacks(item, ','),
    ensures
        text::parts(item + seq![','] + rest, ',') == seq![item] + text::parts(rest, ','),
        text::parts(item, ',') == seq![item],
{
    text::lemma_cut_behind(item, ',', rest);
}

proof fn lemma_bool_text(b: bool)
    ensures
        text::lacks(json::bool_text(b), ','),
        text::lacks(json::bool_text(b), ']'),
        text::trimmed(json::bool_text(b)) == json::bool_text(b),
        (json::bool_text(b) == "true"@) == b,
{
    reveal_strlit("true");
    reveal_strlit("false");
    let t = json::bool_text(b);
    assert(t.len() > 0 && !text::is_space(t[0]) && !text::is_space(t.last()));
    assert("true"@.len() == 4 && "false"@.len() == 5);
}

proof fn lemma_channel_list(a: Seq<char>, b: Seq<char>, c: Seq<char>, d: Seq<char>)
    requires
        text::lacks(a, ',') && text::lacks(b, ',') && text::lacks(c, ',') && text::lacks(d, ','),
        text::lacks(a, ']') && text::lacks(b, ']') && text::lacks(c, ']') && text::lacks(d, ']'),
    ensures
        ({
            let list = a + seq![','] + b + seq![','] + c + seq![','] + d;
            &&& text::lacks(list, ']')
            &&& text::parts(list, ',') == seq![a, b, c, d]
        }),
{
    let l3 = c + seq![','] + d;
    let l2 = b + seq![','] + l3;
    let l1 = a + seq![','] + l2;
    lemma_lacks_add(c, seq![','], ']');
    lemma_lacks_add(c + seq![','], d, ']');
    lemma_lacks_add(b, seq![','], ']');
    lemma_lacks_add(b + seq![','], l3, ']');
    lemma_lacks_add(a, seq![','], ']');
    lemma_lacks_add(a + seq![','], l2, ']');
    lemma_first_part(c, d);
    lemma_first_part(b, l3);
    lemma_first_part(a, l2);
    lemma_first_part(d, seq![]);
    assert(a + seq![','] + b + seq![','] + c + seq![','] + d =~= l1);
    assert(seq![a] + (seq![b] + (seq![c] + seq![d])) =~= seq![a, b, c, d]);
}

proof fn lemma_flags(a: bool, b: bool, c: bool, d: bool, rest: Seq<char>)
    ensures
        ({
            let list = json::bool_text(a) + seq![','] + json::bool_text(b) + seq![',']
                + json::bool_text(c) + seq![','] + json::bool_text(d);
            &&& text::cut_at(list + seq![']'] + rest, ']') == Some((list, rest))
            &&& json::flags_in(list) == Some(seq![a, b, c, d])
        }),
{
    let list = json::bool_text(a) + seq![','] + json::bool_text(b) + seq![',']
        + json::bool_text(c) + seq![','] + json::bool_text(d);
    lemma_bool_text(a);
    lemma_bool_text(b);
    lemma_bool_text(c);
    lemma_bool_text(d);
    lemma_channel_list(
        json::bool_text(a),
        json::bool_text(b),
        json::bool_text(c),
        json::bool_text(d),
    );
    text::lemma_cut_behind(list, ']', rest);
    assert(json::flags_in(list)->0 =~= seq![a, b, c, d]);
}

spec fn after_channels(c: Settings) -> Seq<char> {
    ",\"httpBind\":\""@ + json::escaped(c.http_bind) + "\",\"rtspBind\":\""@ + json::escaped(
        c.rtsp_bind,
    ) + "\"}"@
}

spec fn channel_list(c: Settings) -> Seq<char> {
    json::bool_text(c.channels[0]) + seq![','] + json::bool_text(c.channels[1]) + seq![',']
        + json::bool_text(c.channels[2]) + seq![','] + json::bool_text(c.channels[3])
}

spec fn from_channels(c: Settings) -> Seq<char> {
    json::name("channels"@) + seq![':', '['] + channel_list(c) + seq![']'] + after_channels(c)
}

spec fn string_member(key: Seq<char>, value: Seq<char>) -> Seq<char> {
    json::name(key) + seq![':', '"'] + json::escaped(value) + seq!['"']
}

spec fn from_stream_name(c: Settings) -> Seq<char> {
    string_member("streamName"@, c.stream_name) + (","@ + from_channels(c))
}

spec fn from_password(c: Settings) -> Seq<char> {
    string_member("password"@, c.password) + (","@ + from_stream_name(c))
}

spec fn from_user(c: Settings) -> Seq<char> {
    string_member("user"@, c.user) + (","@ + from_password(c))
}

spec fn from_port(c: Settings) -> Seq<char> {
    json::name("port"@) + seq![':'] + number::decimal(c.port as nat) + (","@ + from_user(c))
}

spec fn from_host(c: Settings) -> Seq<char> {
    string_member("host"@, c.host) + (","@ + from_port(c))
}

proof fn lemma_past_string(
    before: Seq<char>,
    head: Seq<char>,
    key: Seq<char>,
    value: Seq<char>,
    rest: Seq<char>,
)
    requires
        head == json::name(key) + seq![':', '"'],
    ensures
        before + head + json::escaped(value) + "\","@ + rest == before + (string_member(key, value)
            + (","@ + rest)),
{
    reveal_strlit("\",");
    reveal_strlit(",");
    assert("\","@ =~= seq!['"', ',']);
    assert(","@ =~= seq![',']);
    let e = json::escaped(value);
    assert(before + head + e + "\","@ + rest =~= before + (string_member(key, value) + (","@
        + rest)));
}

proof fn lemma_names()
    ensures
        "\"user\":\""@ == json::name("user"@) + seq![':', '"'],
        "\"password\":\""@ == json::name("password"@) + seq![':', '"'],
        "\"streamName\":\""@ == json::name("streamName"@) + seq![':', '"'],
        "{\"host\":\""@ == "{"@ + (json::name("host"@) + seq![':', '"']),
        "\"port\":"@ == json::name("port"@) + seq![':'],
        "\"channels\":["@ == json::name("channels"@) + seq![':', '['],
{
    reveal_strlit("\"");
    reveal_strlit("{");
    reveal_strlit("user");
    reveal_strlit("password");
    reveal_strlit("streamName");
    reveal_strlit("host");
    reveal_strlit("port");
    reveal_strlit("channels");
    reveal_strlit("\"user\":\"");
    reveal_strlit("\"password\":\"");
    reveal_strlit("\"streamName\":\"");
    reveal_strlit("{\"host\":\"");
    reveal_strlit("\"port\":");
    reveal_strlit("\"channels\":[");
    assert("\"user\":\""@ =~= json::name("user"@) + seq![':', '"']);
    assert("\"password\":\""@ =~= json::name("password"@) + seq![':', '"']);
    assert("\"streamName\":\""@ =~= json::name("streamName"@) + seq![':', '"']);
    assert("{\"host\":\""@ =~= "{"@ + (json::name("host"@) + seq![':', '"']));
    assert("\"port\":"@ =~= json::name("port"@) + seq![':']);
    assert("\"channels\":["@ =~= json::name("channels"@) + seq![':', '[']);
}

proof fn lemma_from_each(c: Settings)
    ensures
        before_channels(c) + from_channels(c) == "{"@ + from_host(c),
{
    lemma_names();
    let open = "{"@;
    assert(before_port(c) + from_port(c) == open + from_host(c)) by {
        lemma_past_string(
            open,
            json::name("host"@) + seq![':', '"'],
            "host"@,
            c.host,
            from_port(c),
        );
    }
    assert(before_user(c) + from_user(c) == before_port(c) + from_port(c)) by {
        let d = number::decimal(c.port as nat);
        assert(before_port(c) + "\"port\":"@ + d + ","@ + from_user(c) =~= before_port(c) + (
        json::name("port"@) + seq![':'] + d + (","@ + from_user(c))));
    }
    lemma_past_string(before_user(c), "\"user\":\""@, "user"@, c.user, from_password(c));
    lemma_past_string(
        before_password(c),
        "\"password\":\""@,
        "password"@,
        c.password,
        from_stream_name(c),
    );
    lemma_past_string(
        before_stream_name(c),
        "\"streamName\":\""@,
        "streamName"@,
        c.stream_name,
        from_channels(c),
    );
}

proof fn lemma_literals()
    ensures
        "\",\"port\":"@ == "\","@ + "\"port\":"@,
        ",\"user\":\""@ == ","@ + "\"user\":\""@,
        "\",\"password\":\""@ == "\","@ + "\"password\":\""@,
        "\",\"streamName\":\""@ == "\","@ + "\"streamName\":\""@,
        "\",\"channels\":["@ == "\","@ + "\"channels\":["@,
        "],\"httpBind\":\""@ == seq![']'] + ",\"httpBind\":\""@,
        ","@ == seq![','],
{
    reveal_strlit(",");
    reveal_strlit("\",");
    reveal_strlit("\",\"port\":");
    reveal_strlit("\"port\":");
    reveal_strlit(",\"user\":\"");
    reveal_strlit("\"user\":\"");
    reveal_strlit("\",\"password\":\"");
    reveal_strlit("\"password\":\"");
    reveal_strlit("\",\"streamName\":\"");
    reveal_strlit("\"streamName\":\"");
    reveal_strlit("\",\"channels\":[");
    reveal_strlit("\"channels\":[");
    reveal_strlit("],\"httpBind\":\"");
    reveal_strlit(",\"httpBind\":\"");
    assert("\",\"port\":"@ =~= "\","@ + "\"port\":"@);
    assert(",\"user\":\""@ =~= ","@ + "\"user\":\""@);
    assert("\",\"password\":\""@ =~= "\","@ + "\"password\":\""@);
    assert("\",\"streamName\":\""@ =~= "\","@ + "\"streamName\":\""@);
    assert("\",\"channels\":["@ =~= "\","@ + "\"channels\":["@);
    assert("],\"httpBind\":\""@ =~= seq![']'] + ",\"httpBind\":\""@);
    assert(","@ =~= seq![',']);
}

proof fn lemma_regroup(a: Seq<char>, b: Seq<char>, c: Seq<char>)
    ensures
        a + (b + c) == a + b + c,
{
    assert(a + (b + c) =~= a + b + c);
}

proof fn lemma_list_end(s: Seq<char>, a: Seq<char>, b: Seq<char>, c: Seq<char>, d: Seq<char>)
    ensures
        s + a + seq![','] + b + seq![','] + c + seq![','] + d == s + (a + seq![','] + b + seq![',']
            + c + seq![','] + d),
{
    assert(s + a + seq![','] + b + seq![','] + c + seq![','] + d =~= s + (a + seq![','] + b
        + seq![','] + c + seq![','] + d));
}

proof fn lemma_tail(
    s: Seq<char>,
    m: Seq<char>,
    l: Seq<char>,
    x: Seq<char>,
    h: Seq<char>,
    y: Seq<char>,
    r: Seq<char>,
    z: Seq<char>,
)
    ensures
        s + m + l + (seq![']'] + x) + h + y + r + z == s + (m + l + seq![']'] + (x + h + y + r + z)),
{
    assert(s + m + l + (seq![']'] + x) + h + y + r + z =~= s + (m + l + seq![']'] + (x + h + y + r
        + z)));
}

proof fn lemma_config_text(c: Settings)
    ensures
        config_text(c) == "{"@ + from_host(c),
{
    lemma_from_each(c);
    lemma_names();
    lemma_literals();
    let h = json::escaped(c.host);
    let p = number::decimal(c.port as nat);
    let u = json::escaped(c.user);
    let w = json::escaped(c.password);
    let n = json::escaped(c.stream_name);
    let end = "\","@;
    lemma_regroup("{\"host\":\""@ + h, end, "\"port\":"@);
    lemma_regroup(before_port(c) + "\"port\":"@ + p, ","@, "\"user\":\""@);
    lemma_regroup(before_user(c) + "\"user\":\""@ + u, end, "\"password\":\""@);
    lemma_regroup(before_password(c) + "\"password\":\""@ + w, end, "\"streamName\":\""@);
    lemma_regroup(before_stream_name(c) + "\"streamName\":\""@ + n, end, "\"channels\":["@);
    lemma_list_end(
        before_channels(c) + "\"channels\":["@,
        json::bool_text(c.channels[0]),
        json::bool_text(c.channels[1]),
        json::bool_text(c.channels[2]),
        json::bool_text(c.channels[3]),
    );
    lemma_tail(
        before_channels(c),
        "\"channels\":["@,
        channel_list(c),
        ",\"httpBind\":\""@,
        json::escaped(c.http_bind),
        "\",\"rtspBind\":\""@,
        json::escaped(c.rtsp_bind),
        "\"}"@,
    );
}

/// What every name of a setting has: it is plain, not empty, and starts with
/// neither a colon nor a comma.
spec fn is_key(key: Seq<char>) -> bool {
    json::plain(key) && key.len() > 0 && key[0] != ':' && key[0] != ','
}

proof fn lemma_keys()
    ensures
        is_key("host"@) && is_key("port"@) && is_key("user"@) && is_key("password"@) && is_key(
            "streamName"@,
        ) && is_key("channels"@),
        "host"@.len() == 4 && "port"@.len() == 4 && "user"@.len() == 4 && "password"@.len() == 8
            && "streamName"@.len() == 10 && "channels"@.len() == 8,
        "host"@[0] == 'h' && "port"@[0] == 'p' && "user"@[0] == 'u' && "password"@[0] == 'p'
            && "streamName"@[0] == 's' && "channels"@[0] == 'c',
        text::lacks("port"@, '[') && text::lacks("user"@, '[') && text::lacks("password"@, '[')
            && text::lacks("streamName"@, '[') && text::lacks("channels"@, '['),
        text::lacks("port"@, ':') && text::lacks("password"@, ':') && text::lacks(
            "streamName"@,
            ':',
        ),
{
    reveal_strlit("host");
    reveal_strlit("port");
    reveal_strlit("user");
    reveal_strlit("password");
    reveal_strlit("streamName");
    reveal_strlit("channels");
}

proof fn lemma_at_member(key: Seq<char>, value: Seq<char>, rest: Seq<char>)
    requires
        is_key(key),
    ensures
        json::behind(string_member(key, value) + rest, json::name(key)) == Some(
            seq![':', '"'] + json::escaped(value) + seq!['"'] + rest,
        ),
{
    let tail = seq![':', '"'] + json::escaped(value) + seq!['"'] + rest;
    reveal_strlit("\"");
    assert(string_member(key, value) + rest =~= seq!['"'] + key + seq!['"'] + tail);
    json::lemma_name_behind_quoted(key, key, tail);
}

proof fn lemma_past_member(other: Seq<char>, value: Seq<char>, key: Seq<char>, next: Seq<char>)
    requires
        is_key(other),
        is_key(key),
        other != key,
        next.len() > 0,
        next[0] == '"',
    ensures
        json::behind(string_member(other, value) + (","@ + next), json::name(key)) == (
        if json::closes_as(value, key) {
            Some(","@ + next)
        } else {
            json::behind(next, json::name(key))
        }),
{
    let rest = ","@ + next;
    let string = json::escaped(value) + seq!['"'] + rest;
    reveal_strlit("\"");
    reveal_strlit(",");
    assert(string_member(other, value) + rest =~= seq!['"'] + other + seq!['"'] + (seq![':']
        + seq!['"'] + string));
    json::lemma_name_behind_quoted(other, key, seq![':'] + seq!['"'] + string);
    assert(seq!['"'] + (seq![':'] + seq!['"'] + string) =~= seq!['"'] + seq![':'] + seq!['"']
        + string);
    json::lemma_name_behind_quoted(seq![':'], key, string);
    assert(seq!['"'] + string =~= seq!['"'] + json::escaped(value) + seq!['"'] + rest);
    json::lemma_name_behind_string(value, key, rest);
    assert(seq!['"'] + rest =~= seq!['"'] + seq![','] + seq!['"'] + next.skip(1));
    json::lemma_name_behind_quoted(seq![','], key, next.skip(1));
    assert(seq!['"'] + next.skip(1) =~= next);
}

proof fn lemma_past_port(c: Settings, key: Seq<char>)
    requires
        is_key(key),
        key != "port"@,
    ensures
        json::behind(from_port(c), json::name(key)) == json::behind(from_user(c), json::name(key)),
{
    let d = number::decimal(c.port as nat);
    let next = from_user(c);
    let item = seq![':'] + d + seq![','];
    lemma_keys();
    number::lemma_decimal_parsed(c.port as nat, u16::MAX as nat);
    reveal_strlit("\"");
    reveal_strlit(",");
    assert(next[0] == '"');
    assert(from_port(c) =~= seq!['"'] + "port"@ + seq!['"'] + (item + next));
    json::lemma_name_behind_quoted("port"@, key, item + next);
    assert forall|i: int| 0 <= i < item.len() implies (#[trigger] item[i]) != '"' by {
        if 0 < i <= d.len() {
            assert(item[i] == d[i - 1]);
            assert(number::is_digit(d[i - 1]));
        }
    }
    assert(item[0] == ':');
    assert(seq!['"'] + (item + next) =~= seq!['"'] + item + seq!['"'] + next.skip(1));
    json::lemma_name_behind_quoted(item, key, next.skip(1));
    assert(seq!['"'] + next.skip(1) =~= next);
}

proof fn lemma_behind_host(c: Settings, key: Seq<char>)
    requires
        is_key(key),
        key != "host"@,
    ensures
        json::behind(config_text(c), json::name(key)) == (if json::closes_as(c.host, key) {
            Some(","@ + from_port(c))
        } else {
            json::behind(from_port(c), json::name(key))
        }),
{
    lemma_config_text(c);
    lemma_keys();
    reveal_strlit("{");
    reveal_strlit("\"");
    json::lemma_name_behind_lead("{"@, key, from_host(c));
    assert(from_port(c)[0] == '"');
    lemma_past_member("host"@, c.host, key, from_port(c));
}

proof fn lemma_behind_user(c: Settings, key: Seq<char>)
    requires
        is_key(key),
        key != "user"@,
    ensures
        json::behind(from_user(c), json::name(key)) == (if json::closes_as(c.user, key) {
            Some(","@ + from_password(c))
        } else {
            json::behind(from_password(c), json::name(key))
        }),
{
    lemma_keys();
    reveal_strlit("\"");
    assert(from_password(c)[0] == '"');
    lemma_past_member("user"@, c.user, key, from_password(c));
}

proof fn lemma_behind_password(c: Settings, key: Seq<char>)
    requires
        is_key(key),
        key != "password"@,
    ensures
        json::behind(from_password(c), json::name(key)) == (if json::closes_as(c.password, key) {
            Some(","@ + from_stream_name(c))
        } else {
            json::behind(from_stream_name(c), json::name(key))
        }),
{
    lemma_keys();
    reveal_strlit("\"");
    assert(from_stream_name(c)[0] == '"');
    lemma_past_member("password"@, c.password, key, from_stream_name(c));
}

proof fn lemma_colon_behind_name(key: Seq<char>, rest: Seq<char>)
    requires
        text::lacks(key, ':'),
    ensures
        text::cut_at(","@ + json::name(key) + seq![':'] + rest, ':') == Some(
            (","@ + json::name(key), rest),
        ),
        text::lacks(","@ + json::name(key), ':'),
{
    reveal_strlit(",");
    reveal_strlit("\"");
    let lead = ","@ + json::name(key);
    assert(lead =~= seq![',', '"'] + key + seq!['"']);
    assert forall|i: int| 0 <= i < lead.len() implies (#[trigger] lead[i]) != ':' by {
        if 2 <= i < 2 + key.len() {
            assert(lead[i] == key[i - 2]);
        }
    }
    text::lemma_cut_behind(lead, ':', rest);
}

proof fn lemma_value_is_port(c: Settings, key: Seq<char>)
    requires
        json::behind(config_text(c), json::name(key)) == Some(","@ + from_port(c))
            || json::behind(config_text(c), json::name(key)) == Some(
            seq![':'] + number::decimal(c.port as nat) + (","@ + from_user(c)),
        ),
    ensures
        json::small_number_of_field(config_text(c), key) == Some(c.port as nat),
        json::text_of_field(config_text(c), key) is None,
{
    let d = number::decimal(c.port as nat);
    let rest = ","@ + from_user(c);
    let value = d + rest;
    lemma_keys();
    reveal_strlit(",");
    assert(rest[0] == ',');
    lemma_colon_behind_name("port"@, value);
    assert(","@ + from_port(c) =~= ","@ + json::name("port"@) + seq![':'] + value);
    text::lemma_cut_behind(seq![], ':', value);
    assert(seq![':'] + d + rest =~= Seq::<char>::empty() + seq![':'] + value);
    number::lemma_decimal_parsed(c.port as nat, u16::MAX as nat);
    assert(number::is_digit(d[0]));
    assert(value[0] == d[0]);
    assert(text::trimmed_start(value) == value);
    number::lemma_digit_run(d, rest);
}

proof fn lemma_value_is_string(
    c: Settings,
    key: Seq<char>,
    other: Seq<char>,
    value: Seq<char>,
    rest: Seq<char>,
)
    requires
        text::lacks(other, ':'),
        json::behind(config_text(c), json::name(key)) == Some(
            ","@ + (string_member(other, value) + rest),
        ),
    ensures
        json::text_of_field(config_text(c), key) == Some(value),
{
    let lead = ","@ + json::name(other);
    lemma_colon_behind_name(other, seq![]);
    assert(","@ + (string_member(other, value) + rest) =~= lead + seq![':', '"'] + json::escaped(
        value,
    ) + seq!['"'] + rest);
    json::lemma_string_behind(config_text(c), key, lead, value, rest);
}

proof fn lemma_value_is_own(c: Settings, key: Seq<char>, value: Seq<char>, rest: Seq<char>)
    requires
        is_key(key),
        json::behind(config_text(c), json::name(key)) == json::behind(
            string_member(key, value) + rest,
            json::name(key),
        ),
    ensures
        json::text_of_field(config_text(c), key) == Some(value),
{
    lemma_at_member(key, value, rest);
    assert(seq![':', '"'] + json::escaped(value) + seq!['"'] + rest =~= Seq::<char>::empty()
        + seq![':', '"'] + json::escaped(value) + seq!['"'] + rest);
    json::lemma_string_behind(config_text(c), key, seq![], value, rest);
}

proof fn lemma_host_kept(c: Settings)
    ensures
        json::text_of_field(config_text(c), "host"@) == Some(c.host),
{
    lemma_keys();
    lemma_config_text(c);
    reveal_strlit("{");
    json::lemma_name_behind_lead("{"@, "host"@, from_host(c));
    lemma_value_is_own(c, "host"@, c.host, ","@ + from_port(c));
}

proof fn lemma_port_kept(c: Settings)
    ensures
        json::small_number_of_field(config_text(c), "port"@) == Some(c.port as nat),
{
    let tail = seq![':'] + number::decimal(c.port as nat) + (","@ + from_user(c));
    lemma_keys();
    lemma_behind_host(c, "port"@);
    reveal_strlit("\"");
    assert(from_port(c) =~= seq!['"'] + "port"@ + seq!['"'] + tail);
    json::lemma_name_behind_quoted("port"@, "port"@, tail);
    lemma_value_is_port(c, "port"@);
}

proof fn lemma_user_found(c: Settings)
    ensures
        json::text_of_field(config_text(c), "user"@) == (if json::closes_as(c.host, "user"@) {
            None
        } else {
            Some(c.user)
        }),
{
    let key = "user"@;
    lemma_keys();
    lemma_behind_host(c, key);
    if json::closes_as(c.host, key) {
        lemma_value_is_port(c, key);
    } else {
        lemma_past_port(c, key);
        lemma_value_is_own(c, key, c.user, ","@ + from_password(c));
    }
}

proof fn lemma_password_found(c: Settings)
    ensures
        json::text_of_field(config_text(c), "password"@) == (if json::closes_as(
            c.host,
            "password"@,
        ) {
            None
        } else {
            Some(c.password)
        }),
{
    let key = "password"@;
    lemma_keys();
    lemma_behind_host(c, key);
    if json::closes_as(c.host, key) {
        lemma_value_is_port(c, key);
    } else {
        lemma_past_port(c, key);
        lemma_behind_user(c, key);
        if json::closes_as(c.user, key) {
            lemma_value_is_string(c, key, key, c.password, ","@ + from_stream_name(c));
        } else {
            lemma_value_is_own(c, key, c.password, ","@ + from_stream_name(c));
        }
    }
}

/// Whether the stream name is the text that is found behind its own name in the
/// settings in JSON. Where the user closes as that name, the password is found,
/// unless the host closes so too.
pub open spec fn finds_stream_name(c: Settings) -> bool {
    json::closes_as(c.user, "streamName"@) && !json::closes_as(c.host, "streamName"@)
        ==> c.password == c.stream_name
}

proof fn lemma_stream_name_found(c: Settings)
    ensures
        json::text_of_field(config_text(c), "streamName"@) == (if json::closes_as(
            c.host,
            "streamName"@,
        ) {
            None
        } else if json::closes_as(c.user, "streamName"@) {
            Some(c.password)
        } else {
            Some(c.stream_name)
        }),
{
    let key = "streamName"@;
    lemma_keys();
    lemma_behind_host(c, key);
    if json::closes_as(c.host, key) {
        lemma_value_is_port(c, key);
    } else {
        lemma_past_port(c, key);
        lemma_behind_user(c, key);
        lemma_behind_password(c, key);
        if json::closes_as(c.user, key) {
            lemma_value_is_string(c, key, "password"@, c.password, ","@ + from_stream_name(c));
        } else if json::closes_as(c.password, key) {
            lemma_value_is_string(c, key, key, c.stream_name, ","@ + from_channels(c));
        } else {
            lemma_value_is_own(c, key, c.stream_name, ","@ + from_channels(c));
        }
    }
}

/// Whether the list of channels is the one that is found behind its name in the
/// settings in JSON. Where an earlier text closes as that name, no text behind
/// it may open a list.
pub open spec fn finds_channels(c: Settings) -> bool {
    if json::closes_as(c.host, "channels"@) {
        text::lacks(c.user, '[') && text::lacks(c.password, '[') && text::lacks(
            c.stream_name,
            '[',
        )
    } else if json::closes_as(c.user, "channels"@) {
        text::lacks(c.password, '[') && text::lacks(c.stream_name, '[')
    } else if json::closes_as(c.password, "channels"@) {
        text::lacks(c.stream_name, '[')
    } else {
        true
    }
}

spec fn list_on(c: Settings) -> Seq<char> {
    channel_list(c) + seq![']'] + after_channels(c)
}

proof fn lemma_list_read(c: Settings, lead: Seq<char>)
    requires
        c.channels.len() == 4,
        text::lacks(lead, '['),
        json::behind(config_text(c), json::name("channels"@)) == Some(
            lead + seq!['['] + list_on(c),
        ),
    ensures
        json::flags_of_field(config_text(c), "channels"@) == Some(c.channels),
{
    text::lemma_cut_behind(lead, '[', list_on(c));
    lemma_flags(
        c.channels[0],
        c.channels[1],
        c.channels[2],
        c.channels[3],
        after_channels(c),
    );
    assert(seq![c.channels[0], c.channels[1], c.channels[2], c.channels[3]] =~= c.channels);
}

spec fn lead_channels() -> Seq<char> {
    json::name("channels"@) + seq![':']
}

spec fn lead_stream_name(c: Settings) -> Seq<char> {
    string_member("streamName"@, c.stream_name) + (","@ + lead_channels())
}

spec fn lead_password(c: Settings) -> Seq<char> {
    string_member("password"@, c.password) + (","@ + lead_stream_name(c))
}

spec fn lead_user(c: Settings) -> Seq<char> {
    string_member("user"@, c.user) + (","@ + lead_password(c))
}

spec fn lead_port(c: Settings) -> Seq<char> {
    json::name("port"@) + seq![':'] + number::decimal(c.port as nat) + (","@ + lead_user(c))
}

proof fn lemma_lead_step(member: Seq<char>, lead: Seq<char>, rest: Seq<char>)
    ensures
        member + (","@ + (lead + seq!['['] + rest)) == (member + (","@ + lead)) + seq!['['] + rest,
{
    assert(member + (","@ + (lead + seq!['['] + rest)) =~= (member + (","@ + lead)) + seq!['[']
        + rest);
}

proof fn lemma_leads(c: Settings)
    ensures
        from_channels(c) == lead_channels() + seq!['['] + list_on(c),
        from_stream_name(c) == lead_stream_name(c) + seq!['['] + list_on(c),
        from_password(c) == lead_password(c) + seq!['['] + list_on(c),
        from_user(c) == lead_user(c) + seq!['['] + list_on(c),
        from_port(c) == lead_port(c) + seq!['['] + list_on(c),
{
    let list = list_on(c);
    assert(from_channels(c) =~= lead_channels() + seq!['['] + list);
    lemma_lead_step(string_member("streamName"@, c.stream_name), lead_channels(), list);
    lemma_lead_step(string_member("password"@, c.password), lead_stream_name(c), list);
    lemma_lead_step(string_member("user"@, c.user), lead_password(c), list);
    lemma_lead_step(
        json::name("port"@) + seq![':'] + number::decimal(c.port as nat),
        lead_user(c),
        list,
    );
}

proof fn lemma_name_opens_nothing(key: Seq<char>)
    requires
        text::lacks(key, '['),
    ensures
        text::lacks(json::name(key), '['),
{
    reveal_strlit("\"");
    lemma_lacks_add("\""@, key, '[');
    lemma_lacks_add("\""@ + key, "\""@, '[');
}

proof fn lemma_comma_opens_nothing(lead: Seq<char>)
    requires
        text::lacks(lead, '['),
    ensures
        text::lacks(","@ + lead, '['),
{
    reveal_strlit(",");
    lemma_lacks_add(","@, lead, '[');
}

proof fn lemma_member_opens_nothing(key: Seq<char>, value: Seq<char>, lead: Seq<char>)
    requires
        text::lacks(key, '['),
        text::lacks(value, '['),
        text::lacks(lead, '['),
    ensures
        text::lacks(string_member(key, value) + (","@ + lead), '['),
{
    let e = json::escaped(value);
    lemma_name_opens_nothing(key);
    lemma_comma_opens_nothing(lead);
    json::lemma_escaped_lacks(value, '[');
    lemma_lacks_add(json::name(key), seq![':', '"'], '[');
    lemma_lacks_add(json::name(key) + seq![':', '"'], e, '[');
    lemma_lacks_add(json::name(key) + seq![':', '"'] + e, seq!['"'], '[');
    lemma_lacks_add(string_member(key, value), ","@ + lead, '[');
}

proof fn lemma_port_opens_nothing(c: Settings)
    requires
        text::lacks(lead_user(c), '['),
    ensures
        text::lacks(lead_port(c), '['),
{
    let d = number::decimal(c.port as nat);
    lemma_keys();
    number::lemma_decimal_parsed(c.port as nat, u16::MAX as nat);
    assert forall|i: int| 0 <= i < d.len() implies (#[trigger] d[i]) != '[' by {
        assert(number::is_digit(d[i]));
    }
    lemma_name_opens_nothing("port"@);
    lemma_comma_opens_nothing(lead_user(c));
    lemma_lacks_add(json::name("port"@), seq![':'], '[');
    lemma_lacks_add(json::name("port"@) + seq![':'], d, '[');
    lemma_lacks_add(json::name("port"@) + seq![':'] + d, ","@ + lead_user(c), '[');
}

proof fn lemma_channels_kept(c: Settings)
    requires
        c.channels.len() == 4,
        finds_channels(c),
    ensures
        json::flags_of_field(config_text(c), "channels"@) == Some(c.channels),
{
    let key = "channels"@;
    let list = list_on(c);
    lemma_keys();
    lemma_leads(c);
    lemma_behind_host(c, key);
    lemma_past_port(c, key);
    lemma_behind_user(c, key);
    lemma_behind_password(c, key);
    lemma_name_opens_nothing(key);
    lemma_lacks_add(json::name(key), seq![':'], '[');
    if text::lacks(c.stream_name, '[') {
        lemma_member_opens_nothing("streamName"@, c.stream_name, lead_channels());
        if text::lacks(c.password, '[') {
            lemma_member_opens_nothing("password"@, c.password, lead_stream_name(c));
            if text::lacks(c.user, '[') {
                lemma_member_opens_nothing("user"@, c.user, lead_password(c));
                lemma_port_opens_nothing(c);
            }
        }
    }
    let lead = if json::closes_as(c.host, key) {
        lead_port(c)
    } else if json::closes_as(c.user, key) {
        lead_password(c)
    } else if json::closes_as(c.password, key) {
        lead_stream_name(c)
    } else {
        lead_channels()
    };
    assert(","@ + (lead + seq!['['] + list) =~= ","@ + lead + seq!['['] + list);
    lemma_comma_opens_nothing(lead);
    if json::closes_as(c.host, key) || json::closes_as(c.user, key) || json::closes_as(
        c.password,
        key,
    ) {
        lemma_list_read(c, ","@ + lead);
    } else {
        reveal_strlit("\"");
        assert(from_channels(c)[0] == '"');
        lemma_past_member("streamName"@, c.stream_name, key, from_channels(c));
        if json::closes_as(c.stream_name, key) {
            lemma_list_read(c, ","@ + lead);
        } else {
            let tail = seq![':'] + seq!['['] + list;
            assert(from_channels(c) =~= seq!['"'] + key + seq!['"'] + tail);
            json::lemma_name_behind_quoted(key, key, tail);
            lemma_list_read(c, seq![':']);
        }
    }
}

/// Settings that the page read and posts back unchanged stay as they are, where
/// the stream name and the channels are found in what it posts. The others are
/// found whatever they hold.
pub proof fn posting_back_changes_nothing(c: Settings)
    requires
        c.channels.len() == 4,
        finds_stream_name(c),
        finds_channels(c),
    ensures
        config_with(c, config_text(c)) == c,
{
    lemma_host_kept(c);
    lemma_port_kept(c);
    lemma_user_found(c);
    lemma_password_found(c);
    lemma_stream_name_found(c);
    lemma_channels_kept(c);
    assert(config_with(c, config_text(c)) =~= c);
}

/// Settings that are posted take effect, whatever was set before; the addresses
/// that the servers listen on stay. The host closes as the name of no text
/// behind it, and where the user closes as the name of the stream name, the
/// password is that name too.
pub proof fn posted_settings_take_effect(known: Settings, c: Settings)
    requires
        c.channels.len() == 4,
        !json::closes_as(c.host, "user"@),
        !json::closes_as(c.host, "password"@),
        !json::closes_as(c.host, "streamName"@),
        finds_stream_name(c),
        finds_channels(c),
    ensures
        config_with(known, config_text(c)) == (Settings {
            http_bind: known.http_bind,
            rtsp_bind: known.rtsp_bind,
            ..c
        }),
{
    lemma_host_kept(c);
    lemma_port_kept(c);
    lemma_user_found(c);
    lemma_password_found(c);
    lemma_stream_name_found(c);
    lemma_channels_kept(c);
    assert(config_with(known, config_text(c)) =~= Settings {
        http_bind: known.http_bind,
        rtsp_bind: known.rtsp_bind,
        ..c
    });
}

/// Whether a text has no quote, and is the name of none of the settings that
/// may stand behind it.
pub open spec fn is_unlike_names(value: Seq<char>) -> bool {
    &&& text::lacks(value, '"')
    &&& value != "port"@
    &&& value != "user"@
    &&& value != "password"@
    &&& value != "streamName"@
    &&& value != "channels"@
}

/// Settings whose texts have no quotes and are no names of settings take effect
/// when they are posted, whatever was set before. Backslashes and line breaks
/// in them survive.
pub proof fn ordinary_settings_take_effect(known: Settings, c: Settings)
    requires
        c.channels.len() == 4,
        is_unlike_names(c.host),
        is_unlike_names(c.user),
        is_unlike_names(c.password),
        is_unlike_names(c.stream_name),
    ensures
        config_with(known, config_text(c)) == (Settings {
            http_bind: known.http_bind,
            rtsp_bind: known.rtsp_bind,
            ..c
        }),
{
    json::lemma_closes_without_quotes(c.host, "user"@);
    json::lemma_closes_without_quotes(c.host, "password"@);
    json::lemma_closes_without_quotes(c.host, "streamName"@);
    json::lemma_closes_without_quotes(c.host, "channels"@);
    json::lemma_closes_without_quotes(c.user, "streamName"@);
    json::lemma_closes_without_quotes(c.user, "channels"@);
    json::lemma_closes_without_quotes(c.password, "channels"@);
    posted_settings_take_effect(known, c);
}

/// The names of the statistics, in the order in which they are shown.
pub open spec fn statistics_names() -> Seq<Seq<char>> {
    seq![
        "channel"@,
        "enabled"@,
        "frames"@,
        "bytes"@,
        "clients"@,
        "fps"@,
        "lastFrameMs"@,
        "nalUnits"@,
        "idrFrames"@,
        "spsUnits"@,
        "ppsUnits"@,
        "multiNalFrames"@,
        "fragmentedNals"@,
        "maxFrameBytes"@,
        "maxNalBytes"@,
        "rtspUrl"@,
    ]
}

/// The statistics of a channel, in the order in which they are shown.
pub open spec fn statistics_values(s: ChannelStats, enabled: bool, fps: Seq<char>) -> Seq<json::Value> {
    seq![
        json::Value::Number(s.channel as nat),
        json::Value::Word(json::bool_text(enabled)),
        json::Value::Number(s.frames as nat),
        json::Value::Number(s.bytes as nat),
        json::Value::Number(s.clients as nat),
        json::Value::Word(fps),
        json::Value::Number(s.last_frame_ms as nat),
        json::Value::Number(s.nal_units as nat),
        json::Value::Number(s.idr_frames as nat),
        json::Value::Number(s.sps_units as nat),
        json::Value::Number(s.pps_units as nat),
        json::Value::Number(s.multi_nal_frames as nat),
        json::Value::Number(s.fragmented_nals as nat),
        json::Value::Number(s.max_frame_bytes as nat),
        json::Value::Number(s.max_nal_bytes as nat),
        json::Value::Text("rtsp://localhost:8554/channel/"@ + number::decimal(s.channel as nat)),
    ]
}

proof fn lemma_statistics_names()
    ensures
        json::is_field_name("channel"@) && "channel"@.len() == 7 && "channel"@[0] == 'c',
        json::is_field_name("enabled"@) && "enabled"@.len() == 7 && "enabled"@[0] == 'e',
        json::is_field_name("frames"@) && "frames"@.len() == 6 && "frames"@[0] == 'f',
        json::is_field_name("bytes"@) && "bytes"@.len() == 5 && "bytes"@[0] == 'b',
        json::is_field_name("clients"@) && "clients"@.len() == 7 && "clients"@[0] == 'c',
        json::is_field_name("fps"@) && "fps"@.len() == 3 && "fps"@[0] == 'f',
        json::is_field_name("lastFrameMs"@) && "lastFrameMs"@.len() == 11 && "lastFrameMs"@[0] == 'l',
        json::is_field_name("nalUnits"@) && "nalUnits"@.len() == 8 && "nalUnits"@[0] == 'n',
        json::is_field_name("idrFrames"@) && "idrFrames"@.len() == 9 && "idrFrames"@[0] == 'i',
        json::is_field_name("spsUnits"@) && "spsUnits"@.len() == 8 && "spsUnits"@[0] == 's',
        json::is_field_name("ppsUnits"@) && "ppsUnits"@.len() == 8 && "ppsUnits"@[0] == 'p',
        json::is_field_name("multiNalFrames"@) && "multiNalFrames"@.len() == 14 && "multiNalFrames"@[0] == 'm',
        json::is_field_name("fragmentedNals"@) && "fragmentedNals"@.len() == 14 && "fragmentedNals"@[0] == 'f',
        json::is_field_name("maxFrameBytes"@) && "maxFrameBytes"@.len() == 13 && "maxFrameBytes"@[0] == 'm',
        json::is_field_name("maxNalBytes"@) && "maxNalBytes"@.len() == 11 && "maxNalBytes"@[0] == 'm',
        json::is_field_name("rtspUrl"@) && "rtspUrl"@.len() == 7 && "rtspUrl"@[0] == 'r',
        "channel"@[1] == 'h' && "clients"@[1] == 'l',
{
    reveal_strlit("channel");
    reveal_strlit("enabled");
    reveal_strlit("frames");
    reveal_strlit("bytes");
    reveal_strlit("clients");
    reveal_strlit("fps");
    reveal_strlit("lastFrameMs");
    reveal_strlit("nalUnits");
    reveal_strlit("idrFrames");
    reveal_strlit("spsUnits");
    reveal_strlit("ppsUnits");
    reveal_strlit("multiNalFrames");
    reveal_strlit("fragmentedNals");
    reveal_strlit("maxFrameBytes");
    reveal_strlit("maxNalBytes");
    reveal_strlit("rtspUrl");
}

proof fn lemma_names_before(at: int)
    requires
        0 <= at < 16,
    ensures
        forall|i: int|
            0 <= i < at ==> json::is_field_name(#[trigger] statistics_names()[i])
                && statistics_names()[i] != statistics_names()[at],
        json::is_field_name(statistics_names()[at]),
{
    lemma_statistics_names();
}

proof fn lemma_one_more(
    written: Seq<char>,
    keys: Seq<Seq<char>>,
    vs: Seq<json::Value>,
    key: Seq<char>,
    v: json::Value,
)
    requires
        written == seq!['{'] + json::entries_text(keys, vs),
        keys.len() > 0,
        keys.len() == vs.len(),
    ensures
        written + (seq![','] + json::entry_text(key, v)) == seq!['{'] + json::entries_text(
            keys.push(key),
            vs.push(v),
        ),
        keys.push(key).len() == vs.push(v).len(),
{
    json::lemma_entries_add(keys, vs, seq![key], seq![v]);
    assert(keys + seq![key] =~= keys.push(key));
    assert(vs + seq![v] =~= vs.push(v));
    let e = json::entries_text(keys, vs);
    assert((seq!['{'] + e) + (seq![','] + json::entry_text(key, v)) =~= seq!['{'] + (e + seq![',']
        + json::entry_text(key, v)));
}

proof fn lemma_number_member(name: Seq<char>, n: nat)
    ensures
        number_member(name, n) == seq![','] + json::entry_text(name, json::Value::Number(n)),
{
    reveal_strlit(",\"");
    reveal_strlit("\":");
    assert(number_member(name, n) =~= seq![','] + json::entry_text(name, json::Value::Number(n)));
}

proof fn lemma_channel_literals(s: ChannelStats, enabled: bool, fps: Seq<char>)
    ensures
        "{\"channel\":"@ + number::decimal(s.channel as nat) == seq!['{'] + json::entry_text(
            "channel"@,
            json::Value::Number(s.channel as nat),
        ),
        ",\"enabled\":"@ + json::bool_text(enabled) == seq![','] + json::entry_text(
            "enabled"@,
            json::Value::Word(json::bool_text(enabled)),
        ),
        ",\"fps\":"@ + fps == seq![','] + json::entry_text("fps"@, json::Value::Word(fps)),
        ",\"rtspUrl\":\"rtsp://localhost:8554/channel/"@ + number::decimal(s.channel as nat) + "\"}"@
            == seq![','] + json::entry_text(
            "rtspUrl"@,
            json::Value::Text(
                "rtsp://localhost:8554/channel/"@ + number::decimal(s.channel as nat),
            ),
        ) + seq!['}'],
{
    reveal_strlit("{\"channel\":");
    reveal_strlit("channel");
    reveal_strlit(",\"enabled\":");
    reveal_strlit("enabled");
    reveal_strlit(",\"fps\":");
    reveal_strlit("fps");
    assert("{\"channel\":"@ =~= seq!['{'] + (seq!['"'] + "channel"@ + seq!['"'] + seq![':']));
    assert(",\"enabled\":"@ =~= seq![','] + (seq!['"'] + "enabled"@ + seq!['"'] + seq![':']));
    assert(",\"fps\":"@ =~= seq![','] + (seq!['"'] + "fps"@ + seq!['"'] + seq![':']));
    assert("{\"channel\":"@ + number::decimal(s.channel as nat) =~= seq!['{'] + json::entry_text(
        "channel"@,
        json::Value::Number(s.channel as nat),
    ));
    assert(",\"enabled\":"@ + json::bool_text(enabled) =~= seq![','] + json::entry_text(
        "enabled"@,
        json::Value::Word(json::bool_text(enabled)),
    ));
    assert(",\"fps\":"@ + fps =~= seq![','] + json::entry_text("fps"@, json::Value::Word(fps)));
    lemma_address_literal(s.channel as nat);
}

proof fn lemma_address_literal(n: nat)
    ensures
        ",\"rtspUrl\":\"rtsp://localhost:8554/channel/"@ + number::decimal(n) + "\"}"@ == seq![',']
            + json::entry_text(
            "rtspUrl"@,
            json::Value::Text("rtsp://localhost:8554/channel/"@ + number::decimal(n)),
        ) + seq!['}'],
{
    let head = "rtsp://localhost:8554/channel/"@;
    let d = number::decimal(n);
    reveal_strlit(",\"rtspUrl\":\"rtsp://localhost:8554/channel/");
    reveal_strlit("rtsp://localhost:8554/channel/");
    reveal_strlit("rtspUrl");
    reveal_strlit("\"}");
    assert(",\"rtspUrl\":\"rtsp://localhost:8554/channel/"@ =~= seq![','] + (seq!['"'] + "rtspUrl"@
        + seq!['"'] + seq![':']) + seq!['"'] + head);
    assert("\"}"@ =~= seq!['"'] + seq!['}']);
    assert(json::plain(head + d)) by {
        number::lemma_decimal_parsed(n, n);
        assert forall|i: int| 0 <= i < (head + d).len() implies (#[trigger] (head + d)[i]) != '\\'
            && (head + d)[i] != '"' && (head + d)[i] != '\n' && (head + d)[i] != '\r' by {
            if i >= head.len() {
                assert(number::is_digit(d[i - head.len()]));
            }
        }
    }
    json::lemma_plain(head + d);
    lemma_address_regroup(seq!['"'] + "rtspUrl"@ + seq!['"'] + seq![':'], head, d);
}

proof fn lemma_address_regroup(k: Seq<char>, head: Seq<char>, d: Seq<char>)
    ensures
        seq![','] + k + seq!['"'] + head + d + (seq!['"'] + seq!['}']) == seq![','] + (k + (seq!['"']
            + (head + d) + seq!['"'])) + seq!['}'],
{
    assert(seq![','] + k + seq!['"'] + head + d + (seq!['"'] + seq!['}']) =~= seq![','] + (k + (seq![
        '"',
    ] + (head + d) + seq!['"'])) + seq!['}']);
}

proof fn lemma_regroup_two(a: Seq<char>, b: Seq<char>, c: Seq<char>)
    ensures
        a + b + c == a + (b + c),
{
    assert(a + b + c =~= a + (b + c));
}

proof fn lemma_regroup_three(a: Seq<char>, b: Seq<char>, c: Seq<char>, d: Seq<char>)
    ensures
        a + b + c + d == a + (b + c + d),
{
    assert(a + b + c + d =~= a + (b + c + d));
}

proof fn lemma_five_more(
    written: Seq<char>,
    keys: Seq<Seq<char>>,
    vs: Seq<json::Value>,
    k: Seq<Seq<char>>,
    v: Seq<json::Value>,
)
    requires
        written == seq!['{'] + json::entries_text(keys, vs),
        keys.len() > 0,
        keys.len() == vs.len(),
        k.len() == 5,
        v.len() == 5,
    ensures
        written + (seq![','] + json::entry_text(k[0], v[0])) + (seq![','] + json::entry_text(
            k[1],
            v[1],
        )) + (seq![','] + json::entry_text(k[2], v[2])) + (seq![','] + json::entry_text(k[3], v[3]))
            + (seq![','] + json::entry_text(k[4], v[4])) == seq!['{'] + json::entries_text(
            keys + k,
            vs + v,
        ),
{
    let k1 = keys.push(k[0]);
    let v1 = vs.push(v[0]);
    let k2 = k1.push(k[1]);
    let v2 = v1.push(v[1]);
    let k3 = k2.push(k[2]);
    let v3 = v2.push(v[2]);
    let k4 = k3.push(k[3]);
    let v4 = v3.push(v[3]);
    let t1 = written + (seq![','] + json::entry_text(k[0], v[0]));
    let t2 = t1 + (seq![','] + json::entry_text(k[1], v[1]));
    let t3 = t2 + (seq![','] + json::entry_text(k[2], v[2]));
    let t4 = t3 + (seq![','] + json::entry_text(k[3], v[3]));
    lemma_one_more(written, keys, vs, k[0], v[0]);
    lemma_one_more(t1, k1, v1, k[1], v[1]);
    lemma_one_more(t2, k2, v2, k[2], v[2]);
    lemma_one_more(t3, k3, v3, k[3], v[3]);
    lemma_one_more(t4, k4, v4, k[4], v[4]);
    assert(k4.push(k[4]) =~= keys + k);
    assert(v4.push(v[4]) =~= vs + v);
}

proof fn lemma_channel_members(s: ChannelStats, enabled: bool, fps: Seq<char>)
    ensures
        ({
            let k = statistics_names();
            let v = statistics_values(s, enabled, fps);
            let t0 = seq!['{'] + json::entry_text(k[0], v[0]);
            let t5 = t0 + (seq![','] + json::entry_text(k[1], v[1])) + (seq![',']
                + json::entry_text(k[2], v[2])) + (seq![','] + json::entry_text(k[3], v[3])) + (
            seq![','] + json::entry_text(k[4], v[4])) + (seq![','] + json::entry_text(k[5], v[5]));
            let t10 = t5 + (seq![','] + json::entry_text(k[6], v[6])) + (seq![',']
                + json::entry_text(k[7], v[7])) + (seq![','] + json::entry_text(k[8], v[8])) + (
            seq![','] + json::entry_text(k[9], v[9])) + (seq![','] + json::entry_text(k[10], v[10]));
            let t15 = t10 + (seq![','] + json::entry_text(k[11], v[11])) + (seq![',']
                + json::entry_text(k[12], v[12])) + (seq![','] + json::entry_text(k[13], v[13])) + (
            seq![','] + json::entry_text(k[14], v[14])) + (seq![','] + json::entry_text(k[15], v[15]));
            channel_text(s, enabled, fps) == t15 + seq!['}']
        }),
{
    reveal(channel_text);
    lemma_channel_literals(s, enabled, fps);
    let t0 = "{\"channel\":"@ + number::decimal(s.channel as nat);
    lemma_regroup_two(t0, ",\"enabled\":"@, json::bool_text(enabled));
    let t1 = t0 + ",\"enabled\":"@ + json::bool_text(enabled);
    lemma_number_member("frames"@, s.frames as nat);
    let t2 = t1 + number_member("frames"@, s.frames as nat);
    lemma_number_member("bytes"@, s.bytes as nat);
    let t3 = t2 + number_member("bytes"@, s.bytes as nat);
    lemma_number_member("clients"@, s.clients as nat);
    let t4 = t3 + number_member("clients"@, s.clients as nat);
    lemma_regroup_two(t4, ",\"fps\":"@, fps);
    let t5 = t4 + ",\"fps\":"@ + fps;
    lemma_number_member("lastFrameMs"@, s.last_frame_ms as nat);
    let t6 = t5 + number_member("lastFrameMs"@, s.last_frame_ms as nat);
    lemma_number_member("nalUnits"@, s.nal_units as nat);
    let t7 = t6 + number_member("nalUnits"@, s.nal_units as nat);
    lemma_number_member("idrFrames"@, s.idr_frames as nat);
    let t8 = t7 + number_member("idrFrames"@, s.idr_frames as nat);
    lemma_number_member("spsUnits"@, s.sps_units as nat);
    let t9 = t8 + number_member("spsUnits"@, s.sps_units as nat);
    lemma_number_member("ppsUnits"@, s.pps_units as nat);
    let t10 = t9 + number_member("ppsUnits"@, s.pps_units as nat);
    lemma_number_member("multiNalFrames"@, s.multi_nal_frames as nat);
    let t11 = t10 + number_member("multiNalFrames"@, s.multi_nal_frames as nat);
    lemma_number_member("fragmentedNals"@, s.fragmented_nals as nat);
    let t12 = t11 + number_member("fragmentedNals"@, s.fragmented_nals as nat);
    lemma_number_member("maxFrameBytes"@, s.max_frame_bytes as nat);
    let t13 = t12 + number_member("maxFrameBytes"@, s.max_frame_bytes as nat);
    lemma_number_member("maxNalBytes"@, s.max_nal_bytes as nat);
    let t14 = t13 + number_member("maxNalBytes"@, s.max_nal_bytes as nat);
    lemma_regroup_three(
        t14,
        ",\"rtspUrl\":\"rtsp://localhost:8554/channel/"@,
        number::decimal(s.channel as nat),
        "\"}"@,
    );
    lemma_regroup_two(
        t14,
        seq![','] + json::entry_text(
            "rtspUrl"@,
            json::Value::Text(
                "rtsp://localhost:8554/channel/"@ + number::decimal(s.channel as nat),
            ),
        ),
        seq!['}'],
    );
}

/// The statistics of a channel are shown as fields, in order.
pub proof fn statistics_are_shown_in_order(s: ChannelStats, enabled: bool, fps: Seq<char>)
    ensures
        channel_text(s, enabled, fps) == seq!['{'] + json::entries_text(
            statistics_names(),
            statistics_values(s, enabled, fps),
        ) + seq!['}'],
{
    let k = statistics_names();
    let v = statistics_values(s, enabled, fps);
    lemma_channel_members(s, enabled, fps);
    lemma_entries_of_sixteen(k, v);
}

proof fn lemma_entries_of_sixteen(k: Seq<Seq<char>>, v: Seq<json::Value>)
    requires
        k.len() == 16,
        v.len() == 16,
    ensures
        ({
            let t0 = seq!['{'] + json::entry_text(k[0], v[0]);
            let t5 = t0 + (seq![','] + json::entry_text(k[1], v[1])) + (seq![',']
                + json::entry_text(k[2], v[2])) + (seq![','] + json::entry_text(k[3], v[3])) + (
            seq![','] + json::entry_text(k[4], v[4])) + (seq![','] + json::entry_text(k[5], v[5]));
            let t10 = t5 + (seq![','] + json::entry_text(k[6], v[6])) + (seq![',']
                + json::entry_text(k[7], v[7])) + (seq![','] + json::entry_text(k[8], v[8])) + (
            seq![','] + json::entry_text(k[9], v[9])) + (seq![','] + json::entry_text(k[10], v[10]));
            let t15 = t10 + (seq![','] + json::entry_text(k[11], v[11])) + (seq![',']
                + json::entry_text(k[12], v[12])) + (seq![','] + json::entry_text(k[13], v[13])) + (
            seq![','] + json::entry_text(k[14], v[14])) + (seq![','] + json::entry_text(k[15], v[15]));
            t15 == seq!['{'] + json::entries_text(k, v)
        }),
{
    let t0 = seq!['{'] + json::entry_text(k[0], v[0]);
    let t5 = t0 + (seq![','] + json::entry_text(k[1], v[1])) + (seq![','] + json::entry_text(
        k[2],
        v[2],
    )) + (seq![','] + json::entry_text(k[3], v[3])) + (seq![','] + json::entry_text(k[4], v[4])) + (
    seq![','] + json::entry_text(k[5], v[5]));
    let t10 = t5 + (seq![','] + json::entry_text(k[6], v[6])) + (seq![','] + json::entry_text(
        k[7],
        v[7],
    )) + (seq![','] + json::entry_text(k[8], v[8])) + (seq![','] + json::entry_text(k[9], v[9])) + (
    seq![','] + json::entry_text(k[10], v[10]));
    let k0 = seq![k[0]];
    let v0 = seq![v[0]];
    let k5 = k.subrange(1, 6);
    let v5 = v.subrange(1, 6);
    let k10 = k.subrange(6, 11);
    let v10 = v.subrange(6, 11);
    let k15 = k.subrange(11, 16);
    let v15 = v.subrange(11, 16);
    lemma_five_more(t0, k0, v0, k5, v5);
    lemma_five_more(t5, k0 + k5, v0 + v5, k10, v10);
    lemma_five_more(t10, k0 + k5 + k10, v0 + v5 + v10, k15, v15);
    assert(k0 + k5 + k10 + k15 =~= k);
    assert(v0 + v5 + v10 + v15 =~= v);
}

proof fn lemma_statistic_read(s: ChannelStats, enabled: bool, fps: Seq<char>, at: int)
    requires
        0 <= at < 16,
        text::lacks(fps, '"'),
    ensures
        ({
            let m = channel_text(s, enabled, fps);
            let key = statistics_names()[at];
            let v = statistics_values(s, enabled, fps)[at];
            &&& v matches json::Value::Text(t) ==> json::text_of_field(m, key) == Some(t)
            &&& v matches json::Value::Number(n) ==> n <= u64::MAX ==> json::number_of_field(m, key)
                == Some(n)
            &&& v matches json::Value::Word(w) ==> w.len() > 0 && !text::is_space(w[0]) ==> {
                &&& json::value_behind(m, key) matches Some(rest)
                &&& rest.len() > w.len()
                &&& rest.take(w.len() as int) == w
                &&& rest[w.len() as int] == ',' || rest[w.len() as int] == '}'
            }
        }),
{
    let keys = statistics_names();
    let vs = statistics_values(s, enabled, fps);
    let key = keys[at];
    let m = channel_text(s, enabled, fps);
    statistics_are_shown_in_order(s, enabled, fps);
    lemma_names_before(at);
    assert(text::lacks(json::bool_text(enabled), '"')) by {
        reveal_strlit("true");
        reveal_strlit("false");
    }
    assert(json::hide_nothing(keys.take(at), vs.take(at), key)) by {
        assert forall|i: int| 0 <= i < at implies json::is_field_name(#[trigger] keys.take(at)[i])
            && keys.take(at)[i] != key && !json::hides(vs.take(at)[i], key) by {
            assert(keys.take(at)[i] == keys[i]);
            assert(vs.take(at)[i] == vs[i]);
        }
    }
    let e = json::entries_text(keys, vs);
    lemma_regroup_two(seq!['{'], e, seq!['}']);
    json::lemma_name_behind_lead(seq!['{'], key, e + seq!['}']);
    json::fields_are_read_back(m, keys, vs, at, seq!['}']);
}

/// The statistics of a channel are written under their names, and are read back by
/// them.
pub proof fn statistics_are_read_back(s: ChannelStats, enabled: bool, fps: Seq<char>)
    requires
        text::lacks(fps, '"'),
        fps.len() > 0,
        !text::is_space(fps[0]),
    ensures
        ({
            let m = channel_text(s, enabled, fps);
            &&& json::number_of_field(m, "channel"@) == Some(s.channel as nat)
            &&& json::value_behind(m, "enabled"@) matches Some(v) && (v.len() > 4 && v.take(4)
                == "true"@ <==> enabled)
            &&& json::number_of_field(m, "frames"@) == Some(s.frames as nat)
            &&& json::number_of_field(m, "bytes"@) == Some(s.bytes as nat)
            &&& json::number_of_field(m, "clients"@) == Some(s.clients as nat)
            &&& json::value_behind(m, "fps"@) matches Some(v) && v.len() > fps.len() && v.take(
                fps.len() as int,
            ) == fps && (v[fps.len() as int] == ',' || v[fps.len() as int] == '}')
            &&& s.last_frame_ms <= u64::MAX ==> json::number_of_field(m, "lastFrameMs"@) == Some(
                s.last_frame_ms as nat,
            )
            &&& json::number_of_field(m, "nalUnits"@) == Some(s.nal_units as nat)
            &&& json::number_of_field(m, "idrFrames"@) == Some(s.idr_frames as nat)
            &&& json::number_of_field(m, "spsUnits"@) == Some(s.sps_units as nat)
            &&& json::number_of_field(m, "ppsUnits"@) == Some(s.pps_units as nat)
            &&& json::number_of_field(m, "multiNalFrames"@) == Some(s.multi_nal_frames as nat)
            &&& json::number_of_field(m, "fragmentedNals"@) == Some(s.fragmented_nals as nat)
            &&& json::number_of_field(m, "maxFrameBytes"@) == Some(s.max_frame_bytes as nat)
            &&& json::number_of_field(m, "maxNalBytes"@) == Some(s.max_nal_bytes as nat)
            &&& json::text_of_field(m, "rtspUrl"@) == Some(
                "rtsp://localhost:8554/channel/"@ + number::decimal(s.channel as nat),
            )
        }),
{
    lemma_statistic_read(s, enabled, fps, 0);
    lemma_statistic_read(s, enabled, fps, 1);
    lemma_statistic_read(s, enabled, fps, 2);
    lemma_statistic_read(s, enabled, fps, 3);
    lemma_statistic_read(s, enabled, fps, 4);
    lemma_statistic_read(s, enabled, fps, 5);
    lemma_statistic_read(s, enabled, fps, 6);
    lemma_statistic_read(s, enabled, fps, 7);
    lemma_statistic_read(s, enabled, fps, 8);
    lemma_statistic_read(s, enabled, fps, 9);
    lemma_statistic_read(s, enabled, fps, 10);
    lemma_statistic_read(s, enabled, fps, 11);
    lemma_statistic_read(s, enabled, fps, 12);
    lemma_statistic_read(s, enabled, fps, 13);
    lemma_statistic_read(s, enabled, fps, 14);
    lemma_statistic_read(s, enabled, fps, 15);
    assert(json::value_behind(channel_text(s, enabled, fps), "enabled"@) matches Some(v) && (v.len()
        > 4 && v.take(4) == "true"@ <==> enabled)) by {
        reveal_strlit("true");
        reveal_strlit("false");
        let v = json::value_behind(channel_text(s, enabled, fps), "enabled"@)->0;
        if !enabled {
            assert(v.take(5)[0] == v.take(4)[0]);
            assert("false"@[0] != "true"@[0]);
        }
    }
}

/// The names of the settings, in the order in which they are shown.
pub open spec fn settings_names() -> Seq<Seq<char>> {
    seq![
        "host"@,
        "port"@,
        "user"@,
        "password"@,
        "streamName"@,
        "channels"@,
        "httpBind"@,
        "rtspBind"@,
    ]
}

/// The four flags of the channels in a list, as they are shown.
pub open spec fn flags_text(channels: Seq<bool>) -> Seq<char> {
    seq!['['] + json::bool_text(channels[0]) + seq![','] + json::bool_text(channels[1]) + seq![',']
        + json::bool_text(channels[2]) + seq![','] + json::bool_text(channels[3]) + seq![']']
}

/// The settings, in the order in which they are shown.
pub open spec fn settings_values(c: Settings) -> Seq<json::Value> {
    seq![
        json::Value::Text(c.host),
        json::Value::Number(c.port as nat),
        json::Value::Text(c.user),
        json::Value::Text(c.password),
        json::Value::Text(c.stream_name),
        json::Value::Word(flags_text(c.channels)),
        json::Value::Text(c.http_bind),
        json::Value::Text(c.rtsp_bind),
    ]
}

proof fn lemma_settings_names()
    ensures
        json::is_field_name("host"@) && "host"@.len() == 4 && "host"@[0] == 'h',
        json::is_field_name("port"@) && "port"@.len() == 4 && "port"@[0] == 'p',
        json::is_field_name("user"@) && "user"@.len() == 4 && "user"@[0] == 'u',
        json::is_field_name("password"@) && "password"@.len() == 8 && "password"@[0] == 'p',
        json::is_field_name("streamName"@) && "streamName"@.len() == 10,
        json::is_field_name("channels"@) && "channels"@.len() == 8 && "channels"@[0] == 'c',
        json::is_field_name("httpBind"@) && "httpBind"@.len() == 8 && "httpBind"@[0] == 'h',
        json::is_field_name("rtspBind"@) && "rtspBind"@.len() == 8 && "rtspBind"@[0] == 'r',
{
    reveal_strlit("host");
    reveal_strlit("port");
    reveal_strlit("user");
    reveal_strlit("password");
    reveal_strlit("streamName");
    reveal_strlit("channels");
    reveal_strlit("httpBind");
    reveal_strlit("rtspBind");
}

proof fn lemma_settings_literals()
    ensures
        "{\"host\":\""@ == seq!['{'] + (seq!['"'] + "host"@ + seq!['"'] + seq![':']) + seq!['"'],
        "\",\"port\":"@ == seq!['"'] + (seq![','] + (seq!['"'] + "port"@ + seq!['"'] + seq![':'])),
        ",\"user\":\""@ == seq![','] + (seq!['"'] + "user"@ + seq!['"'] + seq![':']) + seq!['"'],
        "\",\"password\":\""@ == seq!['"'] + (seq![','] + (seq!['"'] + "password"@ + seq!['"']
            + seq![':']) + seq!['"']),
        "\",\"streamName\":\""@ == seq!['"'] + (seq![','] + (seq!['"'] + "streamName"@ + seq!['"']
            + seq![':']) + seq!['"']),
        "\",\"channels\":["@ == seq!['"'] + (seq![','] + (seq!['"'] + "channels"@ + seq!['"']
            + seq![':']) + seq!['[']),
        ","@ == seq![','],
        "],\"httpBind\":\""@ == seq![']'] + (seq![','] + (seq!['"'] + "httpBind"@ + seq!['"']
            + seq![':']) + seq!['"']),
        "\",\"rtspBind\":\""@ == seq!['"'] + (seq![','] + (seq!['"'] + "rtspBind"@ + seq!['"']
            + seq![':']) + seq!['"']),
        "\"}"@ == seq!['"'] + seq!['}'],
{
    lemma_settings_literals_1();
    lemma_settings_literals_2();
}

proof fn lemma_settings_literals_1()
    ensures
        "{\"host\":\""@ == seq!['{'] + (seq!['"'] + "host"@ + seq!['"'] + seq![':']) + seq!['"'],
        "\",\"port\":"@ == seq!['"'] + (seq![','] + (seq!['"'] + "port"@ + seq!['"'] + seq![':'])),
        ",\"user\":\""@ == seq![','] + (seq!['"'] + "user"@ + seq!['"'] + seq![':']) + seq!['"'],
        "\",\"password\":\""@ == seq!['"'] + (seq![','] + (seq!['"'] + "password"@ + seq!['"']
            + seq![':']) + seq!['"']),
        "\",\"streamName\":\""@ == seq!['"'] + (seq![','] + (seq!['"'] + "streamName"@ + seq!['"']
            + seq![':']) + seq!['"']),
{
    reveal_strlit("host");
    reveal_strlit("port");
    reveal_strlit("user");
    reveal_strlit("password");
    reveal_strlit("streamName");
    reveal_strlit("{\"host\":\"");
    reveal_strlit("\",\"port\":");
    reveal_strlit(",\"user\":\"");
    reveal_strlit("\",\"password\":\"");
    reveal_strlit("\",\"streamName\":\"");
}

proof fn lemma_settings_literals_2()
    ensures
        "\",\"channels\":["@ == seq!['"'] + (seq![','] + (seq!['"'] + "channels"@ + seq!['"']
            + seq![':']) + seq!['[']),
        ","@ == seq![','],
        "],\"httpBind\":\""@ == seq![']'] + (seq![','] + (seq!['"'] + "httpBind"@ + seq!['"']
            + seq![':']) + seq!['"']),
        "\",\"rtspBind\":\""@ == seq!['"'] + (seq![','] + (seq!['"'] + "rtspBind"@ + seq!['"']
            + seq![':']) + seq!['"']),
        "\"}"@ == seq!['"'] + seq!['}'],
{
    reveal_strlit("channels");
    reveal_strlit("httpBind");
    reveal_strlit("rtspBind");
    reveal_strlit("\",\"channels\":[");
    reveal_strlit(",");
    reveal_strlit("],\"httpBind\":\"");
    reveal_strlit("\",\"rtspBind\":\"");
    reveal_strlit("\"}");
}

proof fn lemma_settings_regroup(
    k0: Seq<char>,
    k1: Seq<char>,
    k2: Seq<char>,
    k3: Seq<char>,
    k4: Seq<char>,
    k5: Seq<char>,
    k6: Seq<char>,
    k7: Seq<char>,
    host: Seq<char>,
    port: Seq<char>,
    user: Seq<char>,
    password: Seq<char>,
    stream: Seq<char>,
    b0: Seq<char>,
    b1: Seq<char>,
    b2: Seq<char>,
    b3: Seq<char>,
    http: Seq<char>,
    rtsp: Seq<char>,
)
    ensures
        ({
            let q = seq!['"'];
            let c = seq![','];
            (seq!['{'] + k0 + q) + host + (q + (c + k1)) + port + (c + k2 + q) + user + (q + (c + k3
                + q)) + password + (q + (c + k4 + q)) + stream + (q + (c + k5 + seq!['['])) + b0 + c
                + b1 + c + b2 + c + b3 + (seq![']'] + (c + k6 + q)) + http + (q + (c + k7 + q))
                + rtsp + (q + seq!['}']) == (seq!['{'] + (k0 + (q + host + q))) + (c + (k1 + port))
                + (c + (k2 + (q + user + q))) + (c + (k3 + (q + password + q))) + (c + (k4 + (q
                + stream + q))) + (c + (k5 + (seq!['['] + b0 + c + b1 + c + b2 + c + b3 + seq![
                ']',
            ]))) + (c + (k6 + (q + http + q))) + (c + (k7 + (q + rtsp + q))) + seq!['}']
        }),
{
    let q = seq!['"'];
    let c = seq![','];
    let b = seq!['{'];
    let list = seq!['['] + b0 + c + b1 + c + b2 + c + b3 + seq![']'];
    let e0 = b + (k0 + (q + host + q));
    let e1 = e0 + (c + (k1 + port));
    let e2 = e1 + (c + (k2 + (q + user + q)));
    let e3 = e2 + (c + (k3 + (q + password + q)));
    let e4 = e3 + (c + (k4 + (q + stream + q)));
    let e5 = e4 + (c + (k5 + list));
    let e6 = e5 + (c + (k6 + (q + http + q)));
    let a0 = (b + k0 + q) + host;
    lemma_first_closed(k0, host);
    lemma_regroup_two(a0, q, c + k1);
    lemma_bare_closed(e0, k1, port);
    let a2 = e1 + (c + k2 + q) + user;
    lemma_text_closed(e1, k2, user);
    lemma_regroup_two(a2, q, c + k3 + q);
    let a3 = e2 + (c + k3 + q) + password;
    lemma_text_closed(e2, k3, password);
    lemma_regroup_two(a3, q, c + k4 + q);
    let a4 = e3 + (c + k4 + q) + stream;
    lemma_text_closed(e3, k4, stream);
    lemma_regroup_two(a4, q, c + k5 + seq!['[']);
    let a5 = e4 + (c + k5 + seq!['[']) + b0 + c + b1 + c + b2 + c + b3;
    lemma_list_closed(e4, k5, b0, b1, b2, b3);
    lemma_regroup_two(a5, seq![']'], c + k6 + q);
    let a6 = e5 + (c + k6 + q) + http;
    lemma_text_closed(e5, k6, http);
    lemma_regroup_two(a6, q, c + k7 + q);
    let a7 = e6 + (c + k7 + q) + rtsp;
    lemma_text_closed(e6, k7, rtsp);
    lemma_regroup_two(a7, q, seq!['}']);
}

proof fn lemma_first_closed(k: Seq<char>, v: Seq<char>)
    ensures
        (seq!['{'] + k + seq!['"']) + v + seq!['"'] == seq!['{'] + (k + (seq!['"'] + v + seq!['"'])),
{
    assert((seq!['{'] + k + seq!['"']) + v + seq!['"'] =~= seq!['{'] + (k + (seq!['"'] + v + seq![
        '"',
    ])));
}

proof fn lemma_bare_closed(t: Seq<char>, k: Seq<char>, v: Seq<char>)
    ensures
        t + (seq![','] + k) + v == t + (seq![','] + (k + v)),
{
    assert(t + (seq![','] + k) + v =~= t + (seq![','] + (k + v)));
}

proof fn lemma_text_closed(t: Seq<char>, k: Seq<char>, v: Seq<char>)
    ensures
        t + (seq![','] + k + seq!['"']) + v + seq!['"'] == t + (seq![','] + (k + (seq!['"'] + v
            + seq!['"']))),
{
    assert(t + (seq![','] + k + seq!['"']) + v + seq!['"'] =~= t + (seq![','] + (k + (seq!['"'] + v
        + seq!['"']))));
}

proof fn lemma_list_closed(
    t: Seq<char>,
    k: Seq<char>,
    b0: Seq<char>,
    b1: Seq<char>,
    b2: Seq<char>,
    b3: Seq<char>,
)
    ensures
        ({
            let c = seq![','];
            t + (c + k + seq!['[']) + b0 + c + b1 + c + b2 + c + b3 + seq![']'] == t + (c + (k + (
            seq!['['] + b0 + c + b1 + c + b2 + c + b3 + seq![']'])))
        }),
{
    let c = seq![','];
    assert(t + (c + k + seq!['[']) + b0 + c + b1 + c + b2 + c + b3 + seq![']'] =~= t + (c + (k + (
    seq!['['] + b0 + c + b1 + c + b2 + c + b3 + seq![']']))));
}

spec fn key_text(key: Seq<char>) -> Seq<char> {
    seq!['"'] + key + seq!['"'] + seq![':']
}

/// The settings are shown as fields, in order, whatever they hold.
pub proof fn settings_are_shown_in_order(c: Settings)
    ensures
        config_text(c) == seq!['{'] + json::entries_text(settings_names(), settings_values(c))
            + seq!['}'],
{
    lemma_settings_literals();
    lemma_settings_regroup(
        key_text("host"@),
        key_text("port"@),
        key_text("user"@),
        key_text("password"@),
        key_text("streamName"@),
        key_text("channels"@),
        key_text("httpBind"@),
        key_text("rtspBind"@),
        json::escaped(c.host),
        number::decimal(c.port as nat),
        json::escaped(c.user),
        json::escaped(c.password),
        json::escaped(c.stream_name),
        json::bool_text(c.channels[0]),
        json::bool_text(c.channels[1]),
        json::bool_text(c.channels[2]),
        json::bool_text(c.channels[3]),
        json::escaped(c.http_bind),
        json::escaped(c.rtsp_bind),
    );
    lemma_settings_entries(c);
}

proof fn lemma_settings_entries(c: Settings)
    ensures
        ({
            let v = settings_values(c);
            (seq!['{'] + json::entry_text("host"@, v[0])) + (seq![','] + json::entry_text(
                "port"@,
                v[1],
            )) + (seq![','] + json::entry_text("user"@, v[2])) + (seq![','] + json::entry_text(
                "password"@,
                v[3],
            )) + (seq![','] + json::entry_text("streamName"@, v[4])) + (seq![',']
                + json::entry_text("channels"@, v[5])) + (seq![','] + json::entry_text(
                "httpBind"@,
                v[6],
            )) + (seq![','] + json::entry_text("rtspBind"@, v[7])) == seq!['{']
                + json::entries_text(settings_names(), v)
        }),
{
    let v = settings_values(c);
    let t0 = seq!['{'] + json::entry_text("host"@, v[0]);
    let k0 = seq!["host"@];
    let v0 = seq![v[0]];
    let t1 = t0 + (seq![','] + json::entry_text("port"@, v[1]));
    lemma_one_more(t0, k0, v0, "port"@, v[1]);
    let k1 = k0.push("port"@);
    let v1 = v0.push(v[1]);
    let t2 = t1 + (seq![','] + json::entry_text("user"@, v[2]));
    lemma_one_more(t1, k1, v1, "user"@, v[2]);
    let k2 = k1.push("user"@);
    let v2 = v1.push(v[2]);
    let t3 = t2 + (seq![','] + json::entry_text("password"@, v[3]));
    lemma_one_more(t2, k2, v2, "password"@, v[3]);
    let k3 = k2.push("password"@);
    let v3 = v2.push(v[3]);
    let t4 = t3 + (seq![','] + json::entry_text("streamName"@, v[4]));
    lemma_one_more(t3, k3, v3, "streamName"@, v[4]);
    let k4 = k3.push("streamName"@);
    let v4 = v3.push(v[4]);
    let t5 = t4 + (seq![','] + json::entry_text("channels"@, v[5]));
    lemma_one_more(t4, k4, v4, "channels"@, v[5]);
    let k5 = k4.push("channels"@);
    let v5 = v4.push(v[5]);
    let t6 = t5 + (seq![','] + json::entry_text("httpBind"@, v[6]));
    lemma_one_more(t5, k5, v5, "httpBind"@, v[6]);
    let k6 = k5.push("httpBind"@);
    let v6 = v5.push(v[6]);
    lemma_one_more(t6, k6, v6, "rtspBind"@, v[7]);
    assert(k6.push("rtspBind"@) =~= settings_names());
    assert(v6.push(v[7]) =~= v);
}

proof fn lemma_settings_read(c: Settings, at: int)
    requires
        0 <= at < 8,
        forall|i: int|
            0 <= i < at ==> !json::hides(
                #[trigger] settings_values(c)[i],
                settings_names()[at],
            ),
    ensures
        ({
            let m = config_text(c);
            let key = settings_names()[at];
            let v = settings_values(c)[at];
            &&& v matches json::Value::Text(t) ==> json::text_of_field(m, key) == Some(t)
            &&& v matches json::Value::Number(n) ==> n <= u64::MAX ==> json::number_of_field(m, key)
                == Some(n)
        }),
{
    let keys = settings_names();
    let vs = settings_values(c);
    let key = keys[at];
    settings_are_shown_in_order(c);
    lemma_settings_names();
    assert(json::hide_nothing(keys.take(at), vs.take(at), key)) by {
        assert forall|i: int| 0 <= i < at implies json::is_field_name(#[trigger] keys.take(at)[i])
            && keys.take(at)[i] != key && !json::hides(vs.take(at)[i], key) by {
            assert(keys.take(at)[i] == keys[i]);
            assert(vs.take(at)[i] == vs[i]);
        }
    }
    let e = json::entries_text(keys, vs);
    lemma_regroup_two(seq!['{'], e, seq!['}']);
    json::lemma_name_behind_lead(seq!['{'], key, e + seq!['}']);
    json::fields_are_read_back(config_text(c), keys, vs, at, seq!['}']);
}

proof fn lemma_flags_text_lacks(channels: Seq<bool>)
    ensures
        text::lacks(flags_text(channels), '"'),
{
    reveal_strlit("true");
    reveal_strlit("false");
}

/// Whether a text has no quote, and is the name of no setting.
pub open spec fn names_no_setting(value: Seq<char>) -> bool {
    is_unlike_names(value) && value != "httpBind"@ && value != "rtspBind"@
}

/// The settings are shown under their names, and are read back by them; so are the
/// addresses that the servers listen on.
pub proof fn shown_settings_are_read_back(c: Settings)
    requires
        names_no_setting(c.host),
        names_no_setting(c.user),
        names_no_setting(c.password),
        names_no_setting(c.stream_name),
        names_no_setting(c.http_bind),
    ensures
        ({
            let m = config_text(c);
            &&& json::text_of_field(m, "host"@) == Some(c.host)
            &&& json::number_of_field(m, "port"@) == Some(c.port as nat)
            &&& json::text_of_field(m, "user"@) == Some(c.user)
            &&& json::text_of_field(m, "password"@) == Some(c.password)
            &&& json::text_of_field(m, "streamName"@) == Some(c.stream_name)
            &&& json::text_of_field(m, "httpBind"@) == Some(c.http_bind)
            &&& json::text_of_field(m, "rtspBind"@) == Some(c.rtsp_bind)
        }),
{
    lemma_flags_text_lacks(c.channels);
    assert forall|at: int, i: int| 1 <= at < 8 && at != 5 && 0 <= i < at implies !json::hides(
        #[trigger] settings_values(c)[i],
        #[trigger] settings_names()[at],
    ) by {
        json::lemma_closes_without_quotes(c.host, settings_names()[at]);
        json::lemma_closes_without_quotes(c.user, settings_names()[at]);
        json::lemma_closes_without_quotes(c.password, settings_names()[at]);
        json::lemma_closes_without_quotes(c.stream_name, settings_names()[at]);
        json::lemma_closes_without_quotes(c.http_bind, settings_names()[at]);
    }
    lemma_settings_read(c, 0);
    lemma_settings_read(c, 1);
    lemma_settings_read(c, 2);
    lemma_settings_read(c, 3);
    lemma_settings_read(c, 4);
    lemma_settings_read(c, 6);
    lemma_settings_read(c, 7);
}

/// The status shows first whether the bridge runs, what goes on and where the device
/// is, and then the channels in order.
pub proof fn the_status_shows_all_channels(s: Shared, fps: Seq<Seq<char>>)
    ensures
        status_text(s, fps) == seq!['{'] + json::entries_text(
            seq!["running"@, "status"@, "source"@],
            seq![
                json::Value::Word(json::bool_text(s.running)),
                json::Value::Text(s.status),
                json::Value::Text(
                    s.config.host + seq![':'] + number::decimal(s.config.port as nat),
                ),
            ],
        ) + ",\"channels\":["@ + channel_text(s.stats[0], s.config.channels[0], fps[0]) + seq![',']
            + channel_text(s.stats[1], s.config.channels[1], fps[1]) + seq![','] + channel_text(
            s.stats[2],
            s.config.channels[2],
            fps[2],
        ) + seq![','] + channel_text(s.stats[3], s.config.channels[3], fps[3]) + "]}"@,
{
    let d = number::decimal(s.config.port as nat);
    let place = s.config.host + seq![':'] + d;
    let r = json::bool_text(s.running);
    let e = json::entries_text(
        seq!["running"@, "status"@, "source"@],
        seq![json::Value::Word(r), json::Value::Text(s.status), json::Value::Text(place)],
    );
    lemma_status_head(r, s.status, s.config.host, s.config.port as nat);
    lemma_four_channels(s, fps);
    let c0 = channel_text(s.stats[0], s.config.channels[0], fps[0]);
    let c1 = channel_text(s.stats[1], s.config.channels[1], fps[1]);
    let c2 = channel_text(s.stats[2], s.config.channels[2], fps[2]);
    let c3 = channel_text(s.stats[3], s.config.channels[3], fps[3]);
    let head = seq!['{'] + e + ",\"channels\":["@;
    assert(head + (c0 + seq![','] + c1 + seq![','] + c2 + seq![','] + c3) =~= head + c0 + seq![',']
        + c1 + seq![','] + c2 + seq![','] + c3);
}

proof fn lemma_four_channels(s: Shared, fps: Seq<Seq<char>>)
    ensures
        channels_text(s, fps, 4) == channel_text(s.stats[0], s.config.channels[0], fps[0]) + seq![
            ',',
        ] + channel_text(s.stats[1], s.config.channels[1], fps[1]) + seq![','] + channel_text(
            s.stats[2],
            s.config.channels[2],
            fps[2],
        ) + seq![','] + channel_text(s.stats[3], s.config.channels[3], fps[3]),
{
    reveal_strlit(",");
    assert(","@ =~= seq![',']);
    let none = Seq::<char>::empty();
    let c0 = channel_text(s.stats[0], s.config.channels[0], fps[0]);
    assert(channels_text(s, fps, 0) == none);
    assert(channels_text(s, fps, 1) == none + none + c0);
    assert(none + none + c0 =~= c0);
    assert(channels_text(s, fps, 2) == c0 + seq![','] + channel_text(
        s.stats[1],
        s.config.channels[1],
        fps[1],
    ));
    assert(channels_text(s, fps, 3) == channels_text(s, fps, 2) + seq![','] + channel_text(
        s.stats[2],
        s.config.channels[2],
        fps[2],
    ));
}

proof fn lemma_status_head(r: Seq<char>, status: Seq<char>, host: Seq<char>, port: nat)
    ensures
        "{\"running\":"@ + r + ",\"status\":\""@ + json::escaped(status) + "\",\"source\":\""@
            + json::escaped(host) + ":"@ + number::decimal(port) + "\",\"channels\":["@ == seq!['{']
            + json::entries_text(
            seq!["running"@, "status"@, "source"@],
            seq![
                json::Value::Word(r),
                json::Value::Text(status),
                json::Value::Text(host + seq![':'] + number::decimal(port)),
            ],
        ) + ",\"channels\":["@,
{
    let d = number::decimal(port);
    let place = host + seq![':'] + d;
    json::lemma_entries_3(
        "running"@,
        json::Value::Word(r),
        "status"@,
        json::Value::Text(status),
        "source"@,
        json::Value::Text(place),
    );
    lemma_status_literals();
    json::texts_are_escaped_by_character(host, ':', d);
    assert(json::escaped(d) == d) by {
        number::lemma_decimal_lacks(port, '"');
        number::lemma_decimal_lacks(port, '\\');
        number::lemma_decimal_lacks(port, '\n');
        number::lemma_decimal_lacks(port, '\r');
        json::lemma_plain(d);
    }
    lemma_status_regroup(
        key_text("running"@),
        key_text("status"@),
        key_text("source"@),
        r,
        json::escaped(status),
        json::escaped(host),
        d,
        key_text("channels"@) + seq!['['],
    );
}

proof fn lemma_status_literals()
    ensures
        "{\"running\":"@ == seq!['{'] + key_text("running"@),
        ",\"status\":\""@ == seq![','] + key_text("status"@) + seq!['"'],
        "\",\"source\":\""@ == seq!['"'] + (seq![','] + key_text("source"@) + seq!['"']),
        ":"@ == seq![':'],
        "\",\"channels\":["@ == seq!['"'] + (seq![','] + (key_text("channels"@) + seq!['['])),
        ",\"channels\":["@ == seq![','] + (key_text("channels"@) + seq!['[']),
{
    reveal_strlit("running");
    reveal_strlit("status");
    reveal_strlit("source");
    reveal_strlit("channels");
    reveal_strlit("{\"running\":");
    reveal_strlit(",\"status\":\"");
    reveal_strlit("\",\"source\":\"");
    reveal_strlit(":");
    reveal_strlit("\",\"channels\":[");
    reveal_strlit(",\"channels\":[");
}

proof fn lemma_status_regroup(
    k0: Seq<char>,
    k1: Seq<char>,
    k2: Seq<char>,
    r: Seq<char>,
    status: Seq<char>,
    host: Seq<char>,
    d: Seq<char>,
    tail: Seq<char>,
)
    ensures
        ({
            let q = seq!['"'];
            let c = seq![','];
            (seq!['{'] + k0) + r + (c + k1 + q) + status + (q + (c + k2 + q)) + host + seq![':'] + d
                + (q + (c + tail)) == seq!['{'] + (k0 + r + c + (k1 + (q + status + q) + c + (k2
                + (q + (host + seq![':'] + d) + q)))) + (c + tail)
        }),
{
    let q = seq!['"'];
    let c = seq![','];
    assert((seq!['{'] + k0) + r + (c + k1 + q) + status + (q + (c + k2 + q)) + host + seq![':'] + d
        + (q + (c + tail)) =~= seq!['{'] + (k0 + r + c + (k1 + (q + status + q) + c + (k2 + (q + (
    host + seq![':'] + d) + q)))) + (c + tail));
}

/// What goes on and where the device is, are read back from the status by name, and
/// so is whether the bridge runs.
pub proof fn the_status_is_read_back(s: Shared, fps: Seq<Seq<char>>)
    ensures
        ({
            let m = status_text(s, fps);
            &&& json::value_behind(m, "running"@) matches Some(v) && (v.len() > 4 && v.take(4)
                == "true"@ <==> s.running)
            &&& json::text_of_field(m, "status"@) == Some(s.status)
            &&& !json::closes_as(s.status, "source"@) ==> json::text_of_field(m, "source"@) == Some(
                s.config.host + seq![':'] + number::decimal(s.config.port as nat),
            )
        }),
{
    let m = status_text(s, fps);
    let place = s.config.host + seq![':'] + number::decimal(s.config.port as nat);
    let r = json::bool_text(s.running);
    let keys = seq!["running"@, "status"@, "source"@];
    let vs = seq![json::Value::Word(r), json::Value::Text(s.status), json::Value::Text(place)];
    let e = json::entries_text(keys, vs);
    let rest = m.skip(1 + e.len() as int);
    the_status_shows_all_channels(s, fps);
    assert(m.take(1 + e.len() as int) =~= seq!['{'] + e);
    assert(m =~= seq!['{'] + (e + rest));
    reveal_strlit(",\"channels\":[");
    assert(rest[0] == ',');
    reveal_strlit("running");
    reveal_strlit("status");
    reveal_strlit("source");
    reveal_strlit("true");
    reveal_strlit("false");
    assert("running"@.len() == 7 && "status"@.len() == 6 && "source"@.len() == 6);
    assert("status"@[1] == 't' && "source"@[1] == 'o');
    json::lemma_name_behind_lead(seq!['{'], "running"@, e + rest);
    json::lemma_name_behind_lead(seq!['{'], "status"@, e + rest);
    json::lemma_name_behind_lead(seq!['{'], "source"@, e + rest);
    json::fields_are_read_back(m, keys, vs, 0, rest);
    json::fields_are_read_back(m, keys, vs, 1, rest);
    if !json::closes_as(s.status, "source"@) {
        json::fields_are_read_back(m, keys, vs, 2, rest);
    }
    let v = json::value_behind(m, "running"@)->0;
    if !s.running {
        assert(v.take(5)[0] == v.take(4)[0]);
        assert("false"@[0] != "true"@[0]);
    }
}

/// The word for each status code in use.
pub proof fn codes_have_their_words(code: u16)
    ensures
        reason(200) == "OK"@,
        reason(400) == "Bad Request"@,
        reason(404) == "Not Found"@,
        reason(409) == "Conflict"@,
        code != 200 && code != 400 && code != 404 && code != 409 ==> reason(code) == "Error"@,
{
}

proof fn lemma_response_literals()
    ensures
        "\r\nContent-Type: "@ == seq!['\r', '\n'] + "Content-Type: "@,
        "\r\nContent-Length: "@ == seq!['\r', '\n'] + "Content-Length: "@,
        "\r\nCache-Control: no-store\r\nConnection: close\r\n\r\n"@ == seq!['\r', '\n']
            + "Cache-Control: no-store"@ + seq!['\r', '\n'] + "Connection: close"@ + seq!['\r', '\n']
            + seq!['\r', '\n'],
        text::lacks("Content-Type: "@, '\n'),
        text::lacks("Content-Length: "@, '\n'),
        text::lacks("Cache-Control: no-store"@, '\n'),
        text::lacks("Connection: close"@, '\n'),
        text::lacks("HTTP/1.1 "@, '\n'),
        text::lacks(" "@, '\n'),
{
    reveal_strlit("\r\nContent-Type: ");
    reveal_strlit("Content-Type: ");
    reveal_strlit("\r\nContent-Length: ");
    reveal_strlit("Content-Length: ");
    reveal_strlit("\r\nCache-Control: no-store\r\nConnection: close\r\n\r\n");
    reveal_strlit("Cache-Control: no-store");
    reveal_strlit("Connection: close");
    reveal_strlit("HTTP/1.1 ");
    reveal_strlit(" ");
}

proof fn lemma_response_regroup(
    e: Seq<char>,
    status: Seq<char>,
    kind: Seq<char>,
    content_type: Seq<char>,
    length: Seq<char>,
    n: Seq<char>,
    cache: Seq<char>,
    close: Seq<char>,
    body: Seq<char>,
)
    ensures
        status + (e + kind) + content_type + (e + length) + n + (e + cache + e + close + e + e)
            + body == status + e + (kind + content_type + e + (length + n + e + (cache + e + (close
            + e + (Seq::<char>::empty() + e + body))))),
{
    assert(status + (e + kind) + content_type + (e + length) + n + (e + cache + e + close + e + e)
        + body =~= status + e + (kind + content_type + e + (length + n + e + (cache + e + (close + e
        + (Seq::<char>::empty() + e + body))))));
}

proof fn lemma_no_line_feed(a: Seq<char>, b: Seq<char>)
    requires
        text::lacks(a, '\n'),
        text::lacks(b, '\n'),
    ensures
        text::lacks(a + b, '\n'),
{
    let t = a + b;
    assert forall|i: int| 0 <= i < t.len() implies (#[trigger] t[i]) != '\n' by {
        if i < a.len() {
            assert(t[i] == a[i]);
        } else {
            assert(t[i] == b[i - a.len()]);
        }
    }
}

/// A response is made of these lines: the code with its word, the type of the body
/// and its length in bytes, that it is not kept, and that the connection ends; then
/// comes an empty line, and the body.
pub proof fn responses_are_made_of_lines(code: u16, content_type: Seq<char>, body: Seq<char>)
    requires
        text::lacks(content_type, '\n'),
    ensures
        text::lines(response_text(code, content_type, body)) == seq![
            "HTTP/1.1 "@ + number::decimal(code as nat) + " "@ + reason(code),
            "Content-Type: "@ + content_type,
            "Content-Length: "@ + number::decimal(vstd::utf8::encode_utf8(body).len()),
            "Cache-Control: no-store"@,
            "Connection: close"@,
            Seq::<char>::empty(),
        ] + text::lines(body),
{
    let e = seq!['\r', '\n'];
    let n = number::decimal(vstd::utf8::encode_utf8(body).len());
    let d = number::decimal(code as nat);
    let status = "HTTP/1.1 "@ + d + " "@ + reason(code);
    let kind = "Content-Type: "@ + content_type;
    let length = "Content-Length: "@ + n;
    let none = Seq::<char>::empty();
    lemma_response_literals();
    lemma_response_regroup(
        e,
        status,
        "Content-Type: "@,
        content_type,
        "Content-Length: "@,
        n,
        "Cache-Control: no-store"@,
        "Connection: close"@,
        body,
    );
    number::lemma_decimal_lacks(code as nat, '\n');
    number::lemma_decimal_lacks(vstd::utf8::encode_utf8(body).len(), '\n');
    lemma_words_lack();
    lemma_no_line_feed("HTTP/1.1 "@, d);
    lemma_no_line_feed("HTTP/1.1 "@ + d, " "@);
    lemma_no_line_feed("HTTP/1.1 "@ + d + " "@, reason(code));
    lemma_no_line_feed("Content-Type: "@, content_type);
    lemma_no_line_feed("Content-Length: "@, n);
    let r5 = none + e + body;
    let r4 = "Connection: close"@ + e + r5;
    let r3 = "Cache-Control: no-store"@ + e + r4;
    let r2 = length + e + r3;
    let r1 = kind + e + r2;
    text::lemma_line_off(none, body);
    text::lemma_line_off("Connection: close"@, r5);
    text::lemma_line_off("Cache-Control: no-store"@, r4);
    text::lemma_line_off(length, r3);
    text::lemma_line_off(kind, r2);
    text::lemma_line_off(status, r1);
    let all = seq![status] + (seq![kind] + (seq![length] + (seq!["Cache-Control: no-store"@] + (
    seq!["Connection: close"@] + (seq![none] + text::lines(body))))));
    assert(all =~= seq![
        status,
        kind,
        length,
        "Cache-Control: no-store"@,
        "Connection: close"@,
        none,
    ] + text::lines(body));
}

proof fn lemma_words_lack()
    ensures
        forall|code: u16| text::lacks(#[trigger] reason(code), '\n'),
{
    reveal_strlit("OK");
    reveal_strlit("Bad Request");
    reveal_strlit("Not Found");
    reveal_strlit("Conflict");
    reveal_strlit("Error");
}

/// A request is as long as what stands before its first empty line, that line, and as
/// many bytes more as its body has; its body is what stands behind that line.
pub proof fn requests_end_with_their_body(start: Seq<char>, rest: Seq<char>, other: Seq<char>)
    requires
        ({
            let blank = seq!['\r', '\n', '\r', '\n'];
            &&& forall|j: int|
                0 <= j < start.len() ==> !text::occurs_at(start + blank + rest, blank, j)
            &&& forall|j: int| !#[trigger] text::occurs_at(other, blank, j)
        }),
    ensures
        ({
            let whole = start + seq!['\r', '\n', '\r', '\n'] + rest;
            &&& whole_length(whole) == Some(
                vstd::utf8::encode_utf8(start).len() + 4 + body_length(whole),
            )
            &&& body_of(whole) == rest
            &&& whole_length(other) is None
            &&& body_of(other) == Seq::<char>::empty()
        }),
{
    let blank = seq!['\r', '\n', '\r', '\n'];
    let whole = start + blank + rest;
    reveal_strlit("\r\n\r\n");
    assert("\r\n\r\n"@ =~= blank);
    let at = start.len() as int;
    assert(whole.subrange(at, at + 4) =~= blank);
    text::lemma_first_found(whole, blank, at);
    assert(whole.take(at) =~= start);
    assert(whole.skip(at + 4) =~= rest);
    text::lemma_find_from(other, blank, 0);
}

/// A request tells the length of its body in a field `Content-Length`, in whatever
/// case and behind whatever other fields. Without a number there it has no body.
pub proof fn bodies_are_as_long_as_told(
    head: Seq<char>,
    keys: Seq<Seq<char>>,
    values: Seq<Seq<char>>,
    name: Seq<char>,
    value: Seq<char>,
    after: Seq<Seq<char>>,
    n: nat,
)
    requires
        keys.len() == values.len(),
        forall|i: int|
            0 <= i < keys.len() ==> text::lacks(#[trigger] keys[i], ':') && !text::same_but_case(
                keys[i],
                "Content-Length"@,
            ),
        text::lacks(name, ':'),
        text::same_but_case(name, "Content-Length"@),
        text::lines(head) == Seq::new(
            keys.len(),
            |i: int| keys[i] + seq![':'] + values[i],
        ) + seq![name + seq![':'] + value] + after,
    ensures
        text::trimmed(value) == number::decimal(n) && n <= usize::MAX ==> body_length(head) == n,
        number::parsed(text::trimmed(value), usize::MAX as nat) is None ==> body_length(head) == 0,
{
    text::header_fields_are_found(keys, values, name, "Content-Length"@, value, after);
    number::lemma_decimal_parsed(n, usize::MAX as nat);
}

/// Once the length of a request is known it stays, and before the empty line it is
/// not known.
pub proof fn lengths_stay_known(n: u128, buf: Seq<u8>)
    ensures
        length_known(Some(n), buf) == Some(n as nat),
        (forall|i: int|
            0 <= i < buf.len() - 3 ==> !(#[trigger] buf[i] == 13 && buf[i + 1] == 10 && buf[i + 2]
                == 13 && buf[i + 3] == 10)) ==> length_known(None, buf) is None,
        (exists|i: int|
            0 <= i < buf.len() - 3 && #[trigger] buf[i] == 13 && buf[i + 1] == 10 && buf[i + 2] == 13
                && buf[i + 3] == 10) ==> length_known(None, buf) is Some,
{
    if exists|i: int|
        0 <= i < buf.len() - 3 && #[trigger] buf[i] == 13 && buf[i + 1] == 10 && buf[i + 2] == 13
            && buf[i + 3] == 10 {
        let i = choose|i: int|
            0 <= i < buf.len() - 3 && #[trigger] buf[i] == 13 && buf[i + 1] == 10 && buf[i + 2]
                == 13 && buf[i + 3] == 10;
        assert(blank_at(buf, i));
    }
    if has_blank(buf) {
        let i = choose|i: int| #[trigger] blank_at(buf, i);
        assert(buf[i] == 13);
    }
}

proof fn lemma_route_words()
    ensures
        text::is_word("GET"@) && "GET"@.len() == 3,
        text::is_word("POST"@) && "POST"@.len() == 4,
        "/"@.len() == 1,
        "/index.html"@.len() == 11 && "/index.html"@[1] == 'i',
        "/styles.css"@.len() == 11 && "/styles.css"@[1] == 's',
        "/app.js"@.len() == 7,
        "/api/status"@.len() == 11 && "/api/status"@[1] == 'a' && "/api/status"@[5] == 's',
        "/api/config"@.len() == 11 && "/api/config"@[1] == 'a' && "/api/config"@[5] == 'c',
        "/api/start"@.len() == 10,
        "/api/stop"@.len() == 9,
        text::is_word("/"@) && text::is_word("/index.html"@) && text::is_word("/styles.css"@),
        text::is_word("/app.js"@) && text::is_word("/api/status"@) && text::is_word("/api/config"@),
        text::is_word("/api/start"@) && text::is_word("/api/stop"@),
{
    reveal_strlit("GET");
    reveal_strlit("POST");
    reveal_strlit("/");
    reveal_strlit("/index.html");
    reveal_strlit("/styles.css");
    reveal_strlit("/app.js");
    reveal_strlit("/api/status");
    reveal_strlit("/api/config");
    reveal_strlit("/api/start");
    reveal_strlit("/api/stop");
}

/// A request as it is written: the method, a blank, the path, and more behind white
/// space.
pub open spec fn request_text(method: Seq<char>, path: Seq<char>, more: Seq<char>) -> Seq<char> {
    method + seq![' '] + path + more
}

/// The files of the page are given for their paths, and nothing else changes or
/// shows.
pub proof fn files_are_given_for_their_paths(
    s: Shared,
    counts: Seq<nat>,
    action: HttpAction,
    path: Seq<char>,
    more: Seq<char>,
    pages: Pages,
    fps: Seq<Seq<char>>,
)
    requires
        more.len() > 0 ==> text::is_space(more[0]),
        path == "/"@ || path == "/index.html"@ || path == "/styles.css"@ || path == "/app.js"@,
        acted(
            action,
            request_text("GET"@, path, more),
            state_after(s, request_text("GET"@, path, more), counts),
            pages,
            fps,
        ),
    ensures
        state_after(s, request_text("GET"@, path, more), counts) == s,
        action matches HttpAction::Reply(t) && t@ == (if path == "/styles.css"@ {
            response_text(200, "text/css; charset=utf-8"@, pages.style@)
        } else if path == "/app.js"@ {
            response_text(200, "application/javascript; charset=utf-8"@, pages.script@)
        } else {
            response_text(200, "text/html; charset=utf-8"@, pages.index@)
        }),
{
    lemma_route_words();
    text::requests_name_method_and_path("GET"@, path, more);
}

/// The status is given with the numbers of clients brought up to date, and the
/// settings as they are; asking for them changes no more.
pub proof fn status_and_settings_are_given(
    s: Shared,
    counts: Seq<nat>,
    action: HttpAction,
    path: Seq<char>,
    more: Seq<char>,
    pages: Pages,
    fps: Seq<Seq<char>>,
)
    requires
        more.len() > 0 ==> text::is_space(more[0]),
        path == "/api/status"@ || path == "/api/config"@,
        acted(
            action,
            request_text("GET"@, path, more),
            state_after(s, request_text("GET"@, path, more), counts),
            pages,
            fps,
        ),
    ensures
        ({
            let after = state_after(s, request_text("GET"@, path, more), counts);
            &&& path == "/api/config"@ ==> after == s
            &&& path == "/api/status"@ ==> after == with_clients(s, counts)
            &&& action matches HttpAction::Reply(t) && t@ == response_text(
                200,
                "application/json; charset=utf-8"@,
                if path == "/api/status"@ {
                    status_text(after, fps)
                } else {
                    config_text(s.config)
                },
            )
        }),
{
    lemma_route_words();
    text::requests_name_method_and_path("GET"@, path, more);
}

/// Posted settings take effect, and are shown as they then are; the bridge is started
/// and stopped by posts.
pub proof fn posts_do_what_they_ask_for(
    s: Shared,
    counts: Seq<nat>,
    action: HttpAction,
    path: Seq<char>,
    more: Seq<char>,
    pages: Pages,
    fps: Seq<Seq<char>>,
)
    requires
        more.len() > 0 ==> text::is_space(more[0]),
        path == "/api/config"@ || path == "/api/start"@ || path == "/api/stop"@,
        acted(
            action,
            request_text("POST"@, path, more),
            state_after(s, request_text("POST"@, path, more), counts),
            pages,
            fps,
        ),
    ensures
        ({
            let request = request_text("POST"@, path, more);
            let after = state_after(s, request, counts);
            &&& path == "/api/start"@ ==> action is Start && after == s
            &&& path == "/api/stop"@ ==> action is Stop && after == s
            &&& path == "/api/config"@ ==> {
                &&& after.config == config_with(s.config, body_of(request))
                &&& after.running == s.running && after.stop == s.stop && after.stats == s.stats
                &&& !s.running ==> after.status == s.status
                &&& s.running ==> after.status == "configuration changes apply after stop/start"@
                &&& action matches HttpAction::Reply(t) && t@ == response_text(
                    200,
                    "application/json; charset=utf-8"@,
                    config_text(after.config),
                )
            }
        }),
{
    lemma_route_words();
    text::requests_name_method_and_path("POST"@, path, more);
    assert("/api/config"@ != "/api/start"@ && "/api/config"@ != "/api/stop"@);
}

/// All other requests are answered with 404, and change nothing.
pub proof fn other_requests_find_nothing(
    s: Shared,
    counts: Seq<nat>,
    action: HttpAction,
    method: Seq<char>,
    path: Seq<char>,
    more: Seq<char>,
    pages: Pages,
    fps: Seq<Seq<char>>,
)
    requires
        text::is_word(method) && text::is_word(path),
        more.len() > 0 ==> text::is_space(more[0]),
        method == "GET"@ ==> path != "/"@ && path != "/index.html"@ && path != "/styles.css"@ && path
            != "/app.js"@ && path != "/api/status"@ && path != "/api/config"@,
        method == "POST"@ ==> path != "/api/config"@ && path != "/api/start"@ && path
            != "/api/stop"@,
        acted(
            action,
            request_text(method, path, more),
            state_after(s, request_text(method, path, more), counts),
            pages,
            fps,
        ),
    ensures
        state_after(s, request_text(method, path, more), counts) == s,
        action matches HttpAction::Reply(t) && t@ == response_text(
            404,
            "text/plain; charset=utf-8"@,
            "not found"@,
        ),
{
    lemma_route_words();
    text::requests_name_method_and_path(method, path, more);
    assert("GET"@ != "POST"@);
}

/// A posted text sets each setting that it has a value for, and leaves the others,
/// among them the addresses that the servers listen on.
pub proof fn posted_values_are_taken_one_by_one(c: Settings, body: Seq<char>)
    ensures
        ({
            let r = config_with(c, body);
            &&& json::text_of_field(body, "host"@) matches Some(t) ==> r.host == t
            &&& json::text_of_field(body, "host"@) is None ==> r.host == c.host
            &&& json::small_number_of_field(body, "port"@) matches Some(n) ==> r.port == n
            &&& json::small_number_of_field(body, "port"@) is None ==> r.port == c.port
            &&& json::text_of_field(body, "user"@) matches Some(t) ==> r.user == t
            &&& json::text_of_field(body, "user"@) is None ==> r.user == c.user
            &&& json::text_of_field(body, "password"@) matches Some(t) ==> r.password == t
            &&& json::text_of_field(body, "password"@) is None ==> r.password == c.password
            &&& json::text_of_field(body, "streamName"@) matches Some(t) ==> r.stream_name == t
            &&& json::text_of_field(body, "streamName"@) is None ==> r.stream_name == c.stream_name
            &&& json::flags_of_field(body, "channels"@) matches Some(f) ==> r.channels == f
            &&& json::flags_of_field(body, "channels"@) is None ==> r.channels == c.channels
            &&& r.http_bind == c.http_bind
            &&& r.rtsp_bind == c.rtsp_bind
        }),
{
}

/// Bringing the numbers of clients up to date sets that of each channel to its number
/// of subscribers, and nothing else.
pub proof fn clients_are_counted_by_channel(s: Shared, streams: StreamHub, i: int)
    requires
        s.stats.len() == 4,
        streams@.len() == 4,
        0 <= i < 4,
        streams@[i].subscribers.len() <= usize::MAX,
    ensures
        ({
            let t = with_clients(s, client_counts(streams));
            &&& t.stats.len() == 4
            &&& t.stats[i].clients == streams@[i].subscribers.len()
            &&& t.stats[i] == (ChannelStats { clients: t.stats[i].clients, ..s.stats[i] })
            &&& t.config == s.config && t.running == s.running && t.status == s.status
            &&& t.stop == s.stop
        }),
{
}

/// The head of a request may have up to 128 kilobytes.
pub proof fn heads_have_up_to_128_kilobytes()
    ensures
        MAX_HEAD == 128 * 1024,
{
}

/// Answers in JSON are responses of that type, whatever their code.
pub proof fn answers_in_json_say_so(code: u16, body: Seq<char>)
    ensures
        json_response(code, body) == response_text(code, "application/json; charset=utf-8"@, body),
{
}

/// The length of a body may be written as any text that makes a number that fits.
pub proof fn lengths_are_taken_where_they_fit(head: Seq<char>, value: Seq<char>)
    requires
        text::header_in(text::lines(head), "Content-Length"@) == Some(value),
    ensures
        number::parsed(value, usize::MAX as nat) matches Some(n) ==> body_length(head) == n,
{
}

/// A request in which no line is headed `Content-Length` has no body.
pub proof fn without_a_length_there_is_no_body(head: Seq<char>)
    requires
        text::header_in(text::lines(head), "Content-Length"@) is None,
    ensures
        body_length(head) == 0,
{
}

} // verus!
