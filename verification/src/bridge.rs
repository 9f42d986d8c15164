//! The dialog of the bridge with a device: certificate handshake, login, media
//! stream, live channels, and then the stream itself.
use vstd::prelude::*;

use crate::config::BridgeConfig;
use crate::crypto;
use crate::crypto::hmac_md5_hex;
use crate::json;
use crate::json::{json_get_string, json_get_u64, json_matches_operation, push_escaped};
use crate::n9m;
use crate::n9m::{
    frame_json, handle_json_package, is_json, json_packet, login_password_field, message_text,
    parse_media_payload, Package,
};
use crate::number;
use crate::number::push_decimal;
use crate::text;

verus! {

broadcast use vstd::string::group_string_axioms;

/// What the bridge waits for.
#[derive(Clone, Copy, Debug, PartialEq, Eq, Structural)]
pub enum Phase {
    /// The answer to the first message.
    Connect,
    /// The answer to the certificate.
    Verify,
    /// The answer to the login.
    Login,
    /// The answer to the request for a media stream, on the media connection.
    Create,
    /// The answer to the request for the channel at this place, from 0 on.
    Channel(usize),
    /// Frames.
    Streaming,
}

/// The bridge while it talks to a device.
pub struct Bridge {
    pub config: BridgeConfig,
    pub session: String,
    pub phase: Phase,
}

/// What a bridge holds.
#[verifier::ext_equal]
pub struct Dialog {
    pub host: Seq<char>,
    pub port: u16,
    pub user: Seq<char>,
    pub password: Seq<char>,
    pub stream_name: Seq<char>,
    pub channels: Seq<bool>,
    pub session: Seq<char>,
    pub phase: Phase,
}

impl View for Bridge {
    type V = Dialog;

    open spec fn view(&self) -> Dialog {
        Dialog {
            host: self.config.host@,
            port: self.config.port,
            user: self.config.user@,
            password: self.config.password@,
            stream_name: self.config.stream_name@,
            channels: self.config.channels@,
            session: self.session@,
            phase: self.phase,
        }
    }
}

/// What a list of frames holds.
pub open spec fn frame_views(frames: Seq<Vec<u8>>) -> Seq<Seq<u8>> {
    frames.map_values(|f: Vec<u8>| f@)
}

/// The bytes that a message is sent in.
pub open spec fn sent(message: Seq<char>) -> Seq<u8> {
    n9m::package_bytes(n9m::message_payload(message))
}

/// The bytes of a request with parameters.
pub open spec fn request_bytes(
    module: Seq<char>,
    operation: Seq<char>,
    parameter: Seq<char>,
    session: Seq<char>,
) -> Seq<u8> {
    sent(n9m::packet_text(module, operation, Some(parameter), None, session))
}

/// The session that is used until the device names one.
pub open spec fn first_session() -> Seq<char> {
    "00000003-6f72-41ca-9c73-b4710006c2f5"@
}

/// The first message of the handshake.
pub open spec fn connect_bytes() -> Seq<u8> {
    request_bytes("CERTIFICATE"@, "CONNECT"@, "{\"UK\":\"\"}"@, first_session())
}

/// What proves to the device that its challenge was read: the HMAC-MD5 code of
/// the challenge under itself.
pub open spec fn proof_of(challenge: Seq<char>) -> Seq<char> {
    let c = vstd::utf8::encode_utf8(challenge);
    number::hex_bytes(crypto::hmac_md5_of(c, c))
}

/// The second message of the handshake.
#[verifier::opaque]
pub open spec fn verify_bytes(challenge: Seq<char>, session: Seq<char>) -> Seq<u8> {
    request_bytes(
        "CERTIFICATE"@,
        "VERIFY"@,
        "{\"S0\":\""@ + json::escaped(proof_of(challenge)) + "\"}"@,
        session,
    )
}

/// The login.
#[verifier::opaque]
pub open spec fn login_bytes(d: Dialog) -> Seq<u8> {
    request_bytes(
        "CERTIFICATE"@,
        "LOGIN"@,
        "{\"CID\":0,\"MAC\":\"\",\"PASSWD\":\""@ + json::escaped(n9m::password_field(d.password))
            + "\",\"PLAYDEVID\":\"\",\"USER\":\""@ + json::escaped(d.user) + "\"}"@,
        d.session,
    )
}

/// The request for a media stream.
#[verifier::opaque]
pub open spec fn create_bytes(d: Dialog) -> Seq<u8> {
    request_bytes(
        "CERTIFICATE"@,
        "CREATESTREAM"@,
        "{\"STREAMNAME\":\""@ + json::escaped(d.stream_name) + "\"}"@,
        d.session,
    )
}

/// The bit that stands for the channel at a place: 1, 2, 4 or 8.
pub open spec fn channel_mask(i: int) -> nat {
    if i == 0 {
        1
    } else if i == 1 {
        2
    } else if i == 2 {
        4
    } else {
        8
    }
}

/// The request for the live video of the channel at a place.
#[verifier::opaque]
pub open spec fn alive_bytes(d: Dialog, i: int) -> Seq<u8> {
    let mask = number::decimal(channel_mask(i));
    request_bytes(
        "MEDIASTREAMMODEL"@,
        "REQUESTALIVEVIDEO"@,
        "{\"AUDIOVALID\":"@ + mask + ",\"CHANNEL\":"@ + mask + ",\"STREAMNAME\":\""@
            + json::escaped(d.stream_name) + "\",\"STREAMTYPE\":2}"@,
        d.session,
    )
}

/// The message that starts the media task of a source.
#[verifier::opaque]
pub open spec fn task_bytes(d: Dialog, ssrc: nat) -> Seq<u8> {
    request_bytes(
        "MEDIASTREAMMODEL"@,
        "MEDIATASKSTART"@,
        "{\"IPANDPORT\":\":0\",\"PT\":2,\"SSRC\":"@ + number::decimal(ssrc) + ",\"STREAMNAME\":\""@
            + json::escaped(d.stream_name) + "\"}"@,
        d.session,
    )
}

/// The message that lets a source send.
#[verifier::opaque]
pub open spec fn control_bytes(d: Dialog, ssrc: nat) -> Seq<u8> {
    request_bytes(
        "MEDIASTREAMMODEL"@,
        "CONTROLSTREAM"@,
        "{\"CMD\":1,\"PT\":2,\"SSRC\":"@ + number::decimal(ssrc) + ",\"STREAMNAME\":\""@
            + json::escaped(d.stream_name) + "\",\"STREAMTYPE\":0}"@,
        d.session,
    )
}

/// Whether the device reports an error: a code that is there and not zero.
pub open spec fn refused(response: Seq<char>) -> bool {
    json::number_of_field(response, "ERRORCODE"@) matches Some(n) && n != 0
}

/// The first enabled channel from a place on.
pub open spec fn enabled_from(channels: Seq<bool>, i: int) -> Option<int>
    decreases channels.len() - i,
{
    if i < 0 || i >= channels.len() {
        None
    } else if channels[i] {
        Some(i)
    } else {
        enabled_from(channels, i + 1)
    }
}

impl Dialog {
    /// The dialog in another phase.
    pub open spec fn at(self, phase: Phase) -> Dialog {
        Dialog { phase, ..self }
    }

    /// The dialog when the next enabled channel from a place on is asked for,
    /// and the request; frames come when none is left.
    pub open spec fn ask_from(self, i: int) -> (Dialog, Seq<Seq<u8>>) {
        match enabled_from(self.channels, i) {
            Some(k) => (self.at(Phase::Channel(k as usize)), seq![alive_bytes(self, k)]),
            None => (self.at(Phase::Streaming), seq![]),
        }
    }

    /// What a response leads to: the dialog and the frames to send, or the
    /// message of an error.
    pub open spec fn answered(self, response: Seq<char>) -> Result<
        (Dialog, Seq<Seq<u8>>),
        Seq<char>,
    > {
        match self.phase {
            Phase::Connect => match json::string_of_field(response, "S0"@) {
                None => Err("connect response did not contain S0"@),
                Some(challenge) => {
                    let session = match json::string_of_field(response, "SESSION"@) {
                        Some(s) => s,
                        None => self.session,
                    };
                    Ok(
                        (
                            Dialog { session, ..self.at(Phase::Verify) },
                            seq![verify_bytes(challenge, session)],
                        ),
                    )
                },
            },
            Phase::Verify => if refused(response) {
                Err("verify failed: "@ + response)
            } else {
                Ok((self.at(Phase::Login), seq![login_bytes(self)]))
            },
            Phase::Login => if refused(response) {
                Err("login failed: "@ + response)
            } else {
                Ok((self.at(Phase::Create), seq![create_bytes(self)]))
            },
            Phase::Create => if refused(response) {
                Err("create stream failed: "@ + response)
            } else {
                Ok(self.ask_from(0))
            },
            Phase::Channel(i) => if refused(response) {
                Err(
                    "REQUESTALIVEVIDEO failed for channel "@ + number::decimal((i + 1) as nat)
                        + ": "@ + response,
                )
            } else {
                match json::number_of_field(response, "SSRC"@) {
                    None => Err(
                        "REQUESTALIVEVIDEO response missing SSRC for channel "@ + number::decimal(
                            (i + 1) as nat,
                        ) + ": "@ + response,
                    ),
                    Some(ssrc) => {
                        let (next, asked) = self.ask_from(i + 1);
                        Ok(
                            (
                                next,
                                seq![task_bytes(self, ssrc), control_bytes(self, ssrc)] + asked,
                            ),
                        )
                    },
                }
            },
            Phase::Streaming => Ok((self, seq![])),
        }
    }

    /// Whether the dialog is on the media connection: what was just told to be
    /// sent goes out there, and its answer is waited for there. That is so for
    /// the request for a media stream alone; the rest is on the control connection.
    pub open spec fn is_on_media(self) -> bool {
        self.phase is Create
    }

    /// What is shown of the dialog.
    pub open spec fn status_text(self) -> Seq<char> {
        match self.phase {
            Phase::Connect | Phase::Verify | Phase::Login => "connecting"@,
            Phase::Create | Phase::Channel(_) => "creating media stream"@,
            Phase::Streaming => "streaming"@,
        }
    }

    /// A channel that is waited for is one of the four, and enabled.
    pub open spec fn wf(self) -> bool {
        self.channels.len() == 4 && (self.phase matches Phase::Channel(i) ==> i < 4
            && self.channels[i as int])
    }
}

fn request(module: &str, operation: &str, parameter: &str, session: &str) -> (r: Vec<u8>)
    ensures
        r@ == request_bytes(module@, operation@, parameter@, session@),
{
    let message = json_packet(module, operation, Some(parameter), None, session);
    frame_json(message.as_str())
}

fn is_refused(response: &str) -> (r: bool)
    ensures
        r == refused(response@),
{
    match json_get_u64(response, "ERRORCODE") {
        Some(n) => n != 0,
        None => false,
    }
}

fn joined(a: &str, b: &str) -> (r: String)
    ensures
        r@ == a@ + b@,
{
    let mut s = a.to_owned();
    s.append(b);
    s
}

impl Bridge {
    /// A bridge that is about to talk to a device, and the first frame to send.
    pub fn new(config: BridgeConfig) -> (r: (Bridge, Vec<u8>))
        ensures
            r.0.config == config,
            r.0.session@ == first_session(),
            r.0.phase == Phase::Connect,
            r.0@.wf(),
            r.1@ == connect_bytes(),
    {
        let session = "00000003-6f72-41ca-9c73-b4710006c2f5";
        let first = request("CERTIFICATE", "CONNECT", "{\"UK\":\"\"}", session);
        (Bridge { config, session: session.to_owned(), phase: Phase::Connect }, first)
    }

    fn verify_frame(&self, challenge: &str) -> (r: Vec<u8>)
        ensures
            r@ == verify_bytes(challenge@, self.session@),
    {
        reveal(verify_bytes);
        let code = hmac_md5_hex(challenge.as_bytes(), challenge.as_bytes());
        let mut p = "{\"S0\":\"".to_owned();
        push_escaped(&mut p, code.as_str());
        p.append("\"}");
        request("CERTIFICATE", "VERIFY", p.as_str(), self.session.as_str())
    }

    fn login_frame(&self) -> (r: Vec<u8>)
        ensures
            r@ == login_bytes(self@),
    {
        reveal(login_bytes);
        let password = login_password_field(self.config.password.as_str());
        let mut p = "{\"CID\":0,\"MAC\":\"\",\"PASSWD\":\"".to_owned();
        push_escaped(&mut p, password.as_str());
        p.append("\",\"PLAYDEVID\":\"\",\"USER\":\"");
        push_escaped(&mut p, self.config.user.as_str());
        p.append("\"}");
        request("CERTIFICATE", "LOGIN", p.as_str(), self.session.as_str())
    }

    fn create_frame(&self) -> (r: Vec<u8>)
        ensures
            r@ == create_bytes(self@),
    {
        reveal(create_bytes);
        let mut p = "{\"STREAMNAME\":\"".to_owned();
        push_escaped(&mut p, self.config.stream_name.as_str());
        p.append("\"}");
        request("CERTIFICATE", "CREATESTREAM", p.as_str(), self.session.as_str())
    }

    fn alive_frame(&self, i: usize) -> (r: Vec<u8>)
        requires
            i < 4,
        ensures
            r@ == alive_bytes(self@, i as int),
    {
        reveal(alive_bytes);
        let mask: u128 = if i == 0 {
            1
        } else if i == 1 {
            2
        } else if i == 2 {
            4
        } else {
            8
        };
        let mut p = "{\"AUDIOVALID\":".to_owned();
        push_decimal(&mut p, mask);
        p.append(",\"CHANNEL\":");
        push_decimal(&mut p, mask);
        p.append(",\"STREAMNAME\":\"");
        push_escaped(&mut p, self.config.stream_name.as_str());
        p.append("\",\"STREAMTYPE\":2}");
        request("MEDIASTREAMMODEL", "REQUESTALIVEVIDEO", p.as_str(), self.session.as_str())
    }

    fn task_frame(&self, ssrc: u64) -> (r: Vec<u8>)
        ensures
            r@ == task_bytes(self@, ssrc as nat),
    {
        reveal(task_bytes);
        let mut p = "{\"IPANDPORT\":\":0\",\"PT\":2,\"SSRC\":".to_owned();
        push_decimal(&mut p, ssrc as u128);
        p.append(",\"STREAMNAME\":\"");
        push_escaped(&mut p, self.config.stream_name.as_str());
        p.append("\"}");
        request("MEDIASTREAMMODEL", "MEDIATASKSTART", p.as_str(), self.session.as_str())
    }

    fn control_frame(&self, ssrc: u64) -> (r: Vec<u8>)
        ensures
            r@ == control_bytes(self@, ssrc as nat),
    {
        reveal(control_bytes);
        let mut p = "{\"CMD\":1,\"PT\":2,\"SSRC\":".to_owned();
        push_decimal(&mut p, ssrc as u128);
        p.append(",\"STREAMNAME\":\"");
        push_escaped(&mut p, self.config.stream_name.as_str());
        p.append("\",\"STREAMTYPE\":0}");
        request("MEDIASTREAMMODEL", "CONTROLSTREAM", p.as_str(), self.session.as_str())
    }

    fn ask_next(&mut self, from: usize, frames: &mut Vec<Vec<u8>>)
        requires
            from <= 4,
        ensures
            final(self).config == old(self).config,
            final(self)@ == old(self)@.ask_from(from as int).0,
            final(self)@.wf(),
            frame_views(final(frames)@) == frame_views(old(frames)@) + old(self)@.ask_from(
                from as int,
            ).1,
    {
        let ghost before = frames@;
        let mut i: usize = from;
        while i < 4 && !self.config.channels[i]
            invariant
                i <= 4,
                self.config == old(self).config,
                self@ == old(self)@,
                enabled_from(self@.channels, from as int) == enabled_from(
                    self@.channels,
                    i as int,
                ),
            decreases 4 - i,
        {
            i += 1;
        }
        if i < 4 {
            let frame = self.alive_frame(i);
            frames.push(frame);
            assert(frame_views(frames@) =~= frame_views(before) + seq![frame@]);
            self.phase = Phase::Channel(i);
        } else {
            self.phase = Phase::Streaming;
            assert(frame_views(frames@) =~= frame_views(before) + seq![]);
        }
    }

    /// Takes the response that was waited for, and tells what to send. Where it
    /// is sent is told by `on_media`, asked after this.
    pub fn on_response(&mut self, response: &str) -> (r: Result<Vec<Vec<u8>>, String>)
        requires
            old(self)@.wf(),
        ensures
            final(self)@.wf(),
            final(self).config == old(self).config,
            match r {
                Ok(frames) => old(self)@.answered(response@) == Ok::<
                    (Dialog, Seq<Seq<u8>>),
                    Seq<char>,
                >((final(self)@, frame_views(frames@))),
                Err(e) => old(self)@.answered(response@) == Err::<
                    (Dialog, Seq<Seq<u8>>),
                    Seq<char>,
                >(e@) && final(self)@ == old(self)@,
            },
    {
        let mut frames: Vec<Vec<u8>> = Vec::new();
        let ghost before = self@;
        match self.phase {
            Phase::Connect => {
                let challenge = match json_get_string(response, "S0") {
                    Some(c) => c,
                    None => {
                        return Err("connect response did not contain S0".to_owned());
                    },
                };
                match json_get_string(response, "SESSION") {
                    Some(s) => {
                        self.session = s;
                    },
                    None => {},
                }
                let frame = self.verify_frame(challenge.as_str());
                frames.push(frame);
                self.phase = Phase::Verify;
                assert(frame_views(frames@) =~= seq![frame@]);
            },
            Phase::Verify => {
                if is_refused(response) {
                    return Err(joined("verify failed: ", response));
                }
                let frame = self.login_frame();
                frames.push(frame);
                self.phase = Phase::Login;
                assert(frame_views(frames@) =~= seq![frame@]);
            },
            Phase::Login => {
                if is_refused(response) {
                    return Err(joined("login failed: ", response));
                }
                let frame = self.create_frame();
                frames.push(frame);
                self.phase = Phase::Create;
                assert(frame_views(frames@) =~= seq![frame@]);
            },
            Phase::Create => {
                if is_refused(response) {
                    return Err(joined("create stream failed: ", response));
                }
                self.ask_next(0, &mut frames);
                assert(frame_views(frames@) =~= before.ask_from(0).1);
            },
            Phase::Channel(i) => {
                if is_refused(response) {
                    let mut e = "REQUESTALIVEVIDEO failed for channel ".to_owned();
                    push_decimal(&mut e, i as u128 + 1);
                    e.append(": ");
                    e.append(response);
                    return Err(e);
                }
                let ssrc: u64 = match json_get_u64(response, "SSRC") {
                    Some(n) => n,
                    None => {
                        let mut e = "REQUESTALIVEVIDEO response missing SSRC for channel ".to_owned();
                        push_decimal(&mut e, i as u128 + 1);
                        e.append(": ");
                        e.append(response);
                        return Err(e);
                    },
                };
                let task = self.task_frame(ssrc);
                let control = self.control_frame(ssrc);
                frames.push(task);
                frames.push(control);
                assert(frame_views(frames@) =~= seq![task@, control@]);
                self.ask_next(i + 1, &mut frames);
            },
            Phase::Streaming => {
                assert(frame_views(frames@) =~= seq![]);
            },
        }
        Ok(frames)
    }
}

impl Bridge {
    /// Whether the frames that the last response called for go out on the media
    /// connection, and their answer is to be waited for there. Otherwise both
    /// are on the control connection.
    pub fn on_media(&self) -> (r: bool)
        ensures
            r == self@.is_on_media(),
            r == (self.phase is Create),
    {
        match self.phase {
            Phase::Create => true,
            _ => false,
        }
    }

    /// What to show while the bridge is where it is.
    pub fn status(&self) -> (r: &'static str)
        ensures
            r@ == self@.status_text(),
    {
        match self.phase {
            Phase::Connect | Phase::Verify | Phase::Login => "connecting",
            Phase::Create | Phase::Channel(_) => "creating media stream",
            Phase::Streaming => "streaming",
        }
    }
}

/// The request for a media stream, and no other message of the dialog, is sent
/// on the media connection: the dialog gets there by the answer to the login
/// alone, what is sent then is that request, and the next answer leaves it.
pub proof fn only_the_stream_request_is_on_media(d: Dialog, response: Seq<char>)
    requires
        d.wf(),
    ensures
        d.answered(response) matches Ok((next, frames)) ==> {
            &&& next.is_on_media() <==> d.phase is Login
            &&& next.is_on_media() ==> frames == seq![create_bytes(d)]
        },
{
}

/// Channels are asked for in order: the next one is enabled, and those that are
/// passed over are not.
pub proof fn enabled_channels_come_in_order(channels: Seq<bool>, i: int)
    requires
        0 <= i,
    ensures
        match enabled_from(channels, i) {
            Some(k) => i <= k < channels.len() && channels[k] && forall|j: int|
                i <= j < k ==> !channels[j],
            None => forall|j: int| i <= j < channels.len() ==> !channels[j],
        },
    decreases channels.len() - i,
{
    if i < channels.len() && !channels[i] {
        enabled_channels_come_in_order(channels, i + 1);
    }
}

/// How far a dialog has come.
pub open spec fn progress(phase: Phase) -> int {
    match phase {
        Phase::Connect => 0,
        Phase::Verify => 1,
        Phase::Login => 2,
        Phase::Create => 3,
        Phase::Channel(i) => 4 + i,
        Phase::Streaming => 8,
    }
}

/// Every response that is accepted brings the dialog on, until it streams; the
/// settings stay, and the session changes in the answer to the first message only.
pub proof fn accepted_responses_bring_the_dialog_on(d: Dialog, response: Seq<char>)
    requires
        d.wf(),
        d.phase != Phase::Streaming,
    ensures
        d.answered(response) matches Ok((next, _)) ==> {
            &&& next.wf()
            &&& progress(d.phase) < progress(next.phase) <= 8
            &&& next.host == d.host
            &&& next.port == d.port
            &&& next.user == d.user
            &&& next.password == d.password
            &&& next.stream_name == d.stream_name
            &&& next.channels == d.channels
            &&& d.phase != Phase::Connect ==> next.session == d.session
        },
{
    let i: int = match d.phase {
        Phase::Channel(i) => i + 1,
        _ => 0,
    };
    enabled_channels_come_in_order(d.channels, i);
}

/// A response that reports an error ends the dialog with it, after the first
/// message; one that reports none passes the handshake and the login.
pub proof fn errors_of_the_device_end_the_dialog(d: Dialog, response: Seq<char>)
    requires
        d.phase != Phase::Connect,
        d.phase != Phase::Streaming,
    ensures
        refused(response) ==> d.answered(response) is Err,
        !refused(response) && (d.phase is Verify || d.phase is Login || d.phase is Create)
            ==> d.answered(response) is Ok,
{
}

/// What can happen while a response is waited for.
pub enum WaitEvent {
    /// A package came.
    Package(Vec<u8>),
    /// Nothing came for a while; whether the bridge was asked to stop.
    Quiet(bool),
    /// The time is up.
    Expired,
}

/// What to do while a response is waited for.
pub enum WaitAction {
    /// This is the response.
    Done(String),
    /// Send this frame and wait on.
    Send(Vec<u8>),
    /// Wait on.
    Again,
    /// Give up.
    Fail(String),
}

/// Whether an action is the one that a message calls for, where `whole` is the
/// text of the payload with the filler at its end. Without a module and an
/// operation, any message is the response.
pub open spec fn judged(
    action: WaitAction,
    message: Seq<char>,
    whole: Seq<char>,
    module: Seq<char>,
    operation: Seq<char>,
    session: Seq<char>,
) -> bool {
    if module.len() == 0 || operation.len() == 0 || json::is_operation(message, module, operation) {
        action matches WaitAction::Done(t) && t@ == message
    } else if n9m::asks_keepalive(whole) {
        action matches WaitAction::Send(f) && f@ == n9m::keepalive_bytes(session)
    } else {
        action is Again
    }
}

/// Tells what a message calls for while the answer to an operation is waited for.
pub fn judge_message(
    message: String,
    whole: &str,
    module: &str,
    operation: &str,
    session: &str,
) -> (r: WaitAction)
    ensures
        judged(r, message@, whole@, module@, operation@, session@),
{
    if module.is_empty() || operation.is_empty() || json_matches_operation(
        message.as_str(),
        module,
        operation,
    ) {
        WaitAction::Done(message)
    } else if n9m::is_keepalive(whole) {
        WaitAction::Send(n9m::keepalive_frame(session))
    } else {
        WaitAction::Again
    }
}

/// The message for an answer that did not come.
pub open spec fn timeout_message(module: Seq<char>, operation: Seq<char>) -> Seq<char> {
    "timed out waiting for "@ + module + "."@ + operation + " on control socket"@
}

/// Tells what to do while the answer to an operation is waited for.
pub fn wait_step(event: WaitEvent, module: &str, operation: &str, session: &str) -> (r: WaitAction)
    ensures
        match event {
            WaitEvent::Package(payload) => if n9m::holds_json(payload@) {
                judged(
                    r,
                    text::utf8_lossy(n9m::message_bytes(payload@)),
                    text::utf8_lossy(payload@),
                    module@,
                    operation@,
                    session@,
                )
            } else {
                r is Again
            },
            WaitEvent::Quiet(stopped) => if stopped {
                r matches WaitAction::Fail(e) && e@ == "stopped"@
            } else {
                r is Again
            },
            WaitEvent::Expired => r matches WaitAction::Fail(e) && e@ == timeout_message(
                module@,
                operation@,
            ),
        },
        event matches WaitEvent::Package(payload) ==> n9m::holds_json(payload@)
            && vstd::utf8::valid_utf8(payload@) && vstd::utf8::valid_utf8(
            n9m::message_bytes(payload@),
        ) ==> judged(
            r,
            vstd::utf8::decode_utf8(n9m::message_bytes(payload@)),
            vstd::utf8::decode_utf8(payload@),
            module@,
            operation@,
            session@,
        ),
{
    match event {
        WaitEvent::Package(payload) => {
            if is_json(payload.as_slice()) {
                let message = message_text(payload.as_slice());
                let whole = text::decode_lossy(payload.as_slice());
                judge_message(message, whole.as_str(), module, operation, session)
            } else {
                WaitAction::Again
            }
        },
        WaitEvent::Quiet(stopped) => {
            if stopped {
                WaitAction::Fail("stopped".to_owned())
            } else {
                WaitAction::Again
            }
        },
        WaitEvent::Expired => {
            let mut e = "timed out waiting for ".to_owned();
            e.append(module);
            e.append(".");
            e.append(operation);
            e.append(" on control socket");
            WaitAction::Fail(e)
        },
    }
}

/// What a response is waited for: module and operation, empty for any message,
/// and for how many seconds.
pub struct Expectation {
    pub module: &'static str,
    pub operation: &'static str,
    pub seconds: u64,
}

impl Bridge {
    /// What response the bridge waits for.
    pub fn expects(&self) -> (r: Expectation)
        ensures
            self.phase is Channel ==> r.module@ == "MEDIASTREAMMODEL"@ && r.operation@
                == "REQUESTALIVEVIDEO"@ && r.seconds == 15,
            !(self.phase is Channel) ==> r.module@ == ""@ && r.operation@ == ""@ && r.seconds == 30,
    {
        match self.phase {
            Phase::Channel(_) => Expectation {
                module: "MEDIASTREAMMODEL",
                operation: "REQUESTALIVEVIDEO",
                seconds: 15,
            },
            _ => Expectation { module: "", operation: "", seconds: 30 },
        }
    }
}

/// What to do with a package on the media connection.
pub enum MediaAction {
    /// Publish this frame on this channel.
    Frame(usize, Vec<u8>),
    /// Send this frame.
    Send(Vec<u8>),
    /// Nothing.
    Nothing,
}

/// Tells what to do with a package on the media connection: frames of enabled
/// channels are published, and requests for a sign of life answered.
pub fn media_step(payload: &[u8], channels: &[bool; 4], session: &str) -> (r: MediaAction)
    ensures
        match n9m::media_frame(payload@) {
            Some((channel, frame)) => if 1 <= channel <= 4 && channels@[channel - 1] {
                r matches MediaAction::Frame(c, f) && c == channel && f@ == frame
            } else {
                r is Nothing
            },
            None => if n9m::holds_json(payload@) && n9m::asks_keepalive(
                text::utf8_lossy(payload@),
            ) {
                r matches MediaAction::Send(f) && f@ == n9m::keepalive_bytes(session@)
            } else {
                r is Nothing
            },
        },
        r matches MediaAction::Frame(c, f) ==> 1 <= c <= 4 && f@.len() > 0,
        n9m::media_frame(payload@) is None && vstd::utf8::valid_utf8(payload@) ==> (r is Send
            <==> n9m::holds_json(payload@) && n9m::asks_keepalive(
            vstd::utf8::decode_utf8(payload@),
        )),
{
    match parse_media_payload(payload) {
        Some((channel, frame)) => {
            if channel <= 4 && channels[channel - 1] {
                MediaAction::Frame(channel, frame)
            } else {
                MediaAction::Nothing
            }
        },
        None => {
            if is_json(payload) {
                match handle_json_package(session, payload) {
                    Some(frame) => MediaAction::Send(frame),
                    None => MediaAction::Nothing,
                }
            } else {
                MediaAction::Nothing
            }
        },
    }
}

/// Holds of payloads that ask for a sign of life.
pub open spec fn wants_reply() -> spec_fn(Seq<u8>) -> bool {
    |p: Seq<u8>| n9m::holds_json(p) && n9m::asks_keepalive(text::utf8_lossy(p))
}

/// Holds of payloads in UTF-8 that ask for a sign of life.
pub open spec fn wants_reply_in_utf8() -> spec_fn(Seq<u8>) -> bool {
    |p: Seq<u8>| n9m::holds_json(p) && n9m::asks_keepalive(vstd::utf8::decode_utf8(p))
}

/// Whether all packages hold UTF-8.
pub open spec fn all_utf8(packages: Seq<Package>) -> bool {
    forall|i: int|
        0 <= i < packages.len() ==> vstd::utf8::valid_utf8((#[trigger] packages[i]).payload@)
}

/// Answers the packages on the control connection: one sign of life for each
/// request.
pub fn drain_control(packages: &[Package], session: &str) -> (r: Vec<Vec<u8>>)
    ensures
        frame_views(r@) == n9m::payload_views(packages@).filter(wants_reply()).map_values(
            |p: Seq<u8>| n9m::keepalive_bytes(session@),
        ),
        all_utf8(packages@) ==> frame_views(r@) == n9m::payload_views(packages@).filter(
            wants_reply_in_utf8(),
        ).map_values(|p: Seq<u8>| n9m::keepalive_bytes(session@)),
{
    let mut out: Vec<Vec<u8>> = Vec::new();
    let ghost all = n9m::payload_views(packages@);
    let ghost reply = |p: Seq<u8>| n9m::keepalive_bytes(session@);
    let mut i: usize = 0;
    proof {
        reveal(Seq::filter);
        assert(all.take(0) =~= seq![]);
        assert(frame_views(out@) =~= all.take(0).filter(wants_reply()).map_values(reply));
        assert(frame_views(out@) =~= all.take(0).filter(wants_reply_in_utf8()).map_values(reply));
    }
    while i < packages.len()
        invariant
            i <= packages@.len(),
            all == n9m::payload_views(packages@),
            reply == (|p: Seq<u8>| n9m::keepalive_bytes(session@)),
            frame_views(out@) == all.take(i as int).filter(wants_reply()).map_values(reply),
            all_utf8(packages@) ==> frame_views(out@) == all.take(i as int).filter(
                wants_reply_in_utf8(),
            ).map_values(reply),
        decreases packages@.len() - i,
    {
        let payload = packages[i].payload.as_slice();
        let ghost before = out@;
        let ghost kept = all.take(i as int).filter(wants_reply());
        let ghost kept_utf8 = all.take(i as int).filter(wants_reply_in_utf8());
        proof {
            reveal(Seq::filter);
            assert(all.take(i + 1).drop_last() =~= all.take(i as int));
            assert(all.take(i + 1).last() == payload@);
            assert(all_utf8(packages@) ==> vstd::utf8::valid_utf8(packages@[i as int].payload@));
        }
        if is_json(payload) {
            match handle_json_package(session, payload) {
                Some(frame) => {
                    out.push(frame);
                    assert(frame_views(out@) =~= frame_views(before).push(frame@));
                    assert(kept.push(payload@).map_values(reply) =~= kept.map_values(reply).push(
                        frame@,
                    ));
                    assert(kept_utf8.push(payload@).map_values(reply) =~= kept_utf8.map_values(
                        reply,
                    ).push(frame@));
                },
                None => {},
            }
        }
        i += 1;
    }
    assert(all.take(i as int) =~= all);
    out
}

/// Whether a sign of life is due, so many milliseconds after the last one:
/// after twenty seconds.
pub fn keepalive_due(since_ms: u128) -> (r: bool)
    ensures
        r == (since_ms >= 20000),
{
    since_ms >= 20000
}

/// What a failed read on the media connection leads to: the end of the stream
/// where the bridge was asked to stop, else the error.
pub fn stream_failure(stopped: bool, message: String) -> (r: Result<(), String>)
    ensures
        r == (if stopped {
            Ok::<(), String>(())
        } else {
            Err::<(), String>(message)
        }),
{
    if stopped {
        Ok(())
    } else {
        Err(message)
    }
}

proof fn lemma_field_names()
    ensures
        json::is_field_name("S0"@) && "S0"@.len() == 2 && "S0"@[0] == 'S',
        json::is_field_name("CID"@) && "CID"@.len() == 3 && "CID"@[0] == 'C',
        json::is_field_name("MAC"@) && "MAC"@.len() == 3 && "MAC"@[0] == 'M',
        json::is_field_name("PASSWD"@) && "PASSWD"@.len() == 6 && "PASSWD"@[0] == 'P',
        json::is_field_name("PLAYDEVID"@) && "PLAYDEVID"@.len() == 9 && "PLAYDEVID"@[0] == 'P',
        json::is_field_name("USER"@) && "USER"@.len() == 4 && "USER"@[0] == 'U',
        json::is_field_name("STREAMNAME"@) && "STREAMNAME"@.len() == 10 && "STREAMNAME"@[0] == 'S',
        json::is_field_name("AUDIOVALID"@) && "AUDIOVALID"@.len() == 10 && "AUDIOVALID"@[0] == 'A',
        json::is_field_name("CHANNEL"@) && "CHANNEL"@.len() == 7 && "CHANNEL"@[0] == 'C',
        json::is_field_name("STREAMTYPE"@) && "STREAMTYPE"@.len() == 10 && "STREAMTYPE"@[0] == 'S',
        json::is_field_name("IPANDPORT"@) && "IPANDPORT"@.len() == 9 && "IPANDPORT"@[0] == 'I',
        json::is_field_name("PT"@) && "PT"@.len() == 2 && "PT"@[0] == 'P',
        json::is_field_name("SSRC"@) && "SSRC"@.len() == 4 && "SSRC"@[0] == 'S',
        json::is_field_name("CMD"@) && "CMD"@.len() == 3 && "CMD"@[0] == 'C',
        json::is_field_name("MODULE"@) && "MODULE"@.len() == 6 && "MODULE"@[0] == 'M',
        json::is_field_name("OPERATION"@) && "OPERATION"@.len() == 9 && "OPERATION"@[0] == 'O',
        json::is_field_name("PARAMETER"@) && "PARAMETER"@.len() == 9 && "PARAMETER"@[0] == 'P',
        json::is_field_name("SESSION"@) && "SESSION"@.len() == 7 && "SESSION"@[0] == 'S',
        "STREAMNAME"@[6] == 'N' && "STREAMTYPE"@[6] == 'T',
        "PLAYDEVID"@[1] == 'L' && "PARAMETER"@[1] == 'A',
        "CID"@[1] == 'I' && "CMD"@[1] == 'M',
{
    reveal_strlit("S0");
    reveal_strlit("CID");
    reveal_strlit("MAC");
    reveal_strlit("PASSWD");
    reveal_strlit("PLAYDEVID");
    reveal_strlit("USER");
    reveal_strlit("STREAMNAME");
    reveal_strlit("AUDIOVALID");
    reveal_strlit("CHANNEL");
    reveal_strlit("STREAMTYPE");
    reveal_strlit("IPANDPORT");
    reveal_strlit("PT");
    reveal_strlit("SSRC");
    reveal_strlit("CMD");
    reveal_strlit("MODULE");
    reveal_strlit("OPERATION");
    reveal_strlit("PARAMETER");
    reveal_strlit("SESSION");
}

proof fn lemma_words()
    ensures
        json::plain("CERTIFICATE"@) && text::lacks("CERTIFICATE"@, '"') && "CERTIFICATE"@.len()
            == 11 && "CERTIFICATE"@[0] == 'C',
        json::plain("MEDIASTREAMMODEL"@) && text::lacks("MEDIASTREAMMODEL"@, '"')
            && "MEDIASTREAMMODEL"@.len() == 16 && "MEDIASTREAMMODEL"@[0] == 'M',
        json::plain("CONNECT"@) && text::lacks("CONNECT"@, '"') && "CONNECT"@.len() == 7
            && "CONNECT"@[0] == 'C',
        json::plain("VERIFY"@) && text::lacks("VERIFY"@, '"') && "VERIFY"@.len() == 6
            && "VERIFY"@[0] == 'V',
        json::plain("LOGIN"@) && text::lacks("LOGIN"@, '"') && "LOGIN"@.len() == 5 && "LOGIN"@[0]
            == 'L',
        json::plain("CREATESTREAM"@) && text::lacks("CREATESTREAM"@, '"') && "CREATESTREAM"@.len()
            == 12 && "CREATESTREAM"@[0] == 'C',
        json::plain("REQUESTALIVEVIDEO"@) && text::lacks("REQUESTALIVEVIDEO"@, '"')
            && "REQUESTALIVEVIDEO"@.len() == 17 && "REQUESTALIVEVIDEO"@[0] == 'R',
        json::plain("MEDIATASKSTART"@) && text::lacks("MEDIATASKSTART"@, '"')
            && "MEDIATASKSTART"@.len() == 14 && "MEDIATASKSTART"@[0] == 'M',
        json::plain("CONTROLSTREAM"@) && text::lacks("CONTROLSTREAM"@, '"')
            && "CONTROLSTREAM"@.len() == 13 && "CONTROLSTREAM"@[0] == 'C',
{
    reveal_strlit("CERTIFICATE");
    reveal_strlit("MEDIASTREAMMODEL");
    reveal_strlit("CONNECT");
    reveal_strlit("VERIFY");
    reveal_strlit("LOGIN");
    reveal_strlit("CREATESTREAM");
    reveal_strlit("REQUESTALIVEVIDEO");
    reveal_strlit("MEDIATASKSTART");
    reveal_strlit("CONTROLSTREAM");
}

proof fn lemma_words_close_as_nothing(word: Seq<char>, key: Seq<char>)
    requires
        text::lacks(word, '"'),
        word.len() != key.len() || (word.len() > 0 && word[0] != key[0]),
    ensures
        !json::closes_as(word, key),
{
    json::lemma_closes_without_quotes(word, key);
}

/// The answer to the challenge, as it is written.
pub proof fn the_answer_to_the_challenge_is_written_so(challenge: Seq<char>, session: Seq<char>)
    ensures
        verify_bytes(challenge, session)
            == n9m::package_bytes(n9m::message_payload(n9m::packet_text(
            "CERTIFICATE"@,
            "VERIFY"@,
            Some(n9m::parameters_text(seq!["S0"@], seq![json::Value::Text(proof_of(challenge))])),
            None,
            session,
        ))),
{
    reveal(verify_bytes);
    json::lemma_entries_1("S0"@, json::Value::Text(proof_of(challenge)));
    reveal_strlit("{\"S0\":\"");
    reveal_strlit("\"}");
    reveal_strlit("S0");
    assert("{\"S0\":\""@ + json::escaped(proof_of(challenge)) + "\"}"@
        =~= n9m::parameters_text(seq!["S0"@], seq![json::Value::Text(proof_of(challenge))]));
}

proof fn lemma_login_literals()
    ensures
        "{\"CID\":0,\"MAC\":\"\",\"PASSWD\":\""@ == seq!['{'] + (json::entry_text(
            "CID"@,
            json::Value::Number(0),
        ) + seq![','] + (json::entry_text("MAC"@, json::Value::Text(seq![])) + seq![','] + (seq![
            '"',
        ] + "PASSWD"@ + seq!['"'] + seq![':'] + seq!['"']))),
        "\",\"PLAYDEVID\":\"\",\"USER\":\""@ == seq!['"'] + (seq![','] + (json::entry_text(
            "PLAYDEVID"@,
            json::Value::Text(seq![]),
        ) + seq![','] + (seq!['"'] + "USER"@ + seq!['"'] + seq![':'] + seq!['"']))),
        "\"}"@ == seq!['"'] + seq!['}'],
{
    reveal_strlit("{\"CID\":0,\"MAC\":\"\",\"PASSWD\":\"");
    reveal_strlit("\",\"PLAYDEVID\":\"\",\"USER\":\"");
    reveal_strlit("\"}");
    reveal_strlit("CID");
    reveal_strlit("MAC");
    reveal_strlit("PASSWD");
    reveal_strlit("PLAYDEVID");
    reveal_strlit("USER");
    assert(json::escaped(Seq::<char>::empty()) =~= seq![]);
    assert(number::decimal(0) =~= seq!['0']);
    assert("{\"CID\":0,\"MAC\":\"\",\"PASSWD\":\""@ =~= seq!['{'] + (json::entry_text(
        "CID"@,
        json::Value::Number(0),
    ) + seq![','] + (json::entry_text("MAC"@, json::Value::Text(seq![])) + seq![','] + (seq!['"']
        + "PASSWD"@ + seq!['"'] + seq![':'] + seq!['"']))));
    assert("\",\"PLAYDEVID\":\"\",\"USER\":\""@ =~= seq!['"'] + (seq![','] + (json::entry_text(
        "PLAYDEVID"@,
        json::Value::Text(seq![]),
    ) + seq![','] + (seq!['"'] + "USER"@ + seq!['"'] + seq![':'] + seq!['"']))));
    assert("\"}"@ =~= seq!['"'] + seq!['}']);
}

proof fn lemma_login_regroup(
    c: Seq<char>,
    m: Seq<char>,
    p: Seq<char>,
    w: Seq<char>,
    y: Seq<char>,
    u: Seq<char>,
    v: Seq<char>,
)
    ensures
        ({
            let q = seq!['"'];
            let k = seq![','];
            (seq!['{'] + (c + k + (m + k + (p + q)))) + w + (q + (k + (y + k + (u + q)))) + v + (q
                + seq!['}']) == seq!['{'] + (c + k + (m + k + ((p + (q + w + q)) + k + (y + k + (u
                + (q + v + q)))))) + seq!['}']
        }),
{
    let q = seq!['"'];
    let k = seq![','];
    assert((seq!['{'] + (c + k + (m + k + (p + q)))) + w + (q + (k + (y + k + (u + q)))) + v + (q
        + seq!['}']) =~= seq!['{'] + (c + k + (m + k + ((p + (q + w + q)) + k + (y + k + (u + (q + v
        + q)))))) + seq!['}']);
}

/// The login, as it is written.
pub proof fn the_login_is_written_so(d: Dialog)
    ensures
        login_bytes(d) == n9m::package_bytes(n9m::message_payload(n9m::packet_text(
            "CERTIFICATE"@,
            "LOGIN"@,
            Some(
                n9m::parameters_text(
                    seq!["CID"@, "MAC"@, "PASSWD"@, "PLAYDEVID"@, "USER"@],
                    seq![
                        json::Value::Number(0),
                        json::Value::Text(seq![]),
                        json::Value::Text(n9m::password_field(d.password)),
                        json::Value::Text(seq![]),
                        json::Value::Text(d.user),
                    ],
                ),
            ),
            None,
            d.session,
        ))),
{
    reveal(login_bytes);
    let password = n9m::password_field(d.password);
    let c = json::entry_text("CID"@, json::Value::Number(0));
    let m = json::entry_text("MAC"@, json::Value::Text(seq![]));
    let y = json::entry_text("PLAYDEVID"@, json::Value::Text(seq![]));
    let p = seq!['"'] + "PASSWD"@ + seq!['"'] + seq![':'];
    let u = seq!['"'] + "USER"@ + seq!['"'] + seq![':'];
    json::lemma_entries_5(
        "CID"@,
        json::Value::Number(0),
        "MAC"@,
        json::Value::Text(seq![]),
        "PASSWD"@,
        json::Value::Text(password),
        "PLAYDEVID"@,
        json::Value::Text(seq![]),
        "USER"@,
        json::Value::Text(d.user),
    );
    lemma_login_literals();
    lemma_login_regroup(c, m, p, json::escaped(password), y, u, json::escaped(d.user));
}

/// The request for a media stream, as it is written.
pub proof fn the_stream_request_is_written_so(d: Dialog)
    ensures
        create_bytes(d) == n9m::package_bytes(n9m::message_payload(n9m::packet_text(
            "CERTIFICATE"@,
            "CREATESTREAM"@,
            Some(n9m::parameters_text(seq!["STREAMNAME"@], seq![json::Value::Text(d.stream_name)])),
            None,
            d.session,
        ))),
{
    reveal(create_bytes);
    json::lemma_entries_1("STREAMNAME"@, json::Value::Text(d.stream_name));
    reveal_strlit("{\"STREAMNAME\":\"");
    reveal_strlit("\"}");
    reveal_strlit("STREAMNAME");
    assert("{\"STREAMNAME\":\""@ + json::escaped(d.stream_name) + "\"}"@
        =~= n9m::parameters_text(seq!["STREAMNAME"@], seq![json::Value::Text(d.stream_name)]));
}

/// A request for live video, as it is written.
pub proof fn video_requests_are_written_so(d: Dialog, i: int)
    ensures
        alive_bytes(d, i) == n9m::package_bytes(n9m::message_payload(n9m::packet_text(
            "MEDIASTREAMMODEL"@,
            "REQUESTALIVEVIDEO"@,
            Some(n9m::parameters_text(seq!["AUDIOVALID"@, "CHANNEL"@, "STREAMNAME"@,
                "STREAMTYPE"@], seq![json::Value::Number(channel_mask(i)),
                json::Value::Number(channel_mask(i)), json::Value::Text(d.stream_name),
                json::Value::Number(2)])),
            None,
            d.session,
        ))),
{
    reveal(alive_bytes);
    json::lemma_entries_4("AUDIOVALID"@, json::Value::Number(channel_mask(i)), "CHANNEL"@,
        json::Value::Number(channel_mask(i)), "STREAMNAME"@, json::Value::Text(d.stream_name),
        "STREAMTYPE"@, json::Value::Number(2));
    reveal_strlit("{\"AUDIOVALID\":");
    reveal_strlit(",\"CHANNEL\":");
    reveal_strlit(",\"STREAMNAME\":\"");
    reveal_strlit("\",\"STREAMTYPE\":2}");
    reveal_strlit("AUDIOVALID");
    reveal_strlit("CHANNEL");
    reveal_strlit("STREAMNAME");
    reveal_strlit("STREAMTYPE");
    assert(number::decimal(2) =~= seq!['2']);
    assert("{\"AUDIOVALID\":"@ + number::decimal(channel_mask(i)) + ",\"CHANNEL\":"@
        + number::decimal(channel_mask(i)) + ",\"STREAMNAME\":\""@ + json::escaped(d.stream_name)
        + "\",\"STREAMTYPE\":2}"@ =~= n9m::parameters_text(seq!["AUDIOVALID"@, "CHANNEL"@,
        "STREAMNAME"@, "STREAMTYPE"@], seq![json::Value::Number(channel_mask(i)),
        json::Value::Number(channel_mask(i)), json::Value::Text(d.stream_name),
        json::Value::Number(2)]));
}

/// The message that starts a media task, as it is written.
pub proof fn task_messages_are_written_so(d: Dialog, ssrc: nat)
    ensures
        task_bytes(d, ssrc) == n9m::package_bytes(n9m::message_payload(n9m::packet_text(
            "MEDIASTREAMMODEL"@,
            "MEDIATASKSTART"@,
            Some(n9m::parameters_text(seq!["IPANDPORT"@, "PT"@, "SSRC"@, "STREAMNAME"@],
                seq![json::Value::Text(seq![':', '0']), json::Value::Number(2),
                json::Value::Number(ssrc), json::Value::Text(d.stream_name)])),
            None,
            d.session,
        ))),
{
    reveal(task_bytes);
    json::lemma_entries_4("IPANDPORT"@, json::Value::Text(seq![':', '0']), "PT"@,
        json::Value::Number(2), "SSRC"@, json::Value::Number(ssrc), "STREAMNAME"@,
        json::Value::Text(d.stream_name));
    json::lemma_plain(seq![':', '0']);
    reveal_strlit("{\"IPANDPORT\":\":0\",\"PT\":2,\"SSRC\":");
    reveal_strlit(",\"STREAMNAME\":\"");
    reveal_strlit("\"}");
    reveal_strlit("IPANDPORT");
    reveal_strlit("PT");
    reveal_strlit("SSRC");
    reveal_strlit("STREAMNAME");
    assert(number::decimal(2) =~= seq!['2']);
    assert("{\"IPANDPORT\":\":0\",\"PT\":2,\"SSRC\":"@ + number::decimal(ssrc)
        + ",\"STREAMNAME\":\""@ + json::escaped(d.stream_name) + "\"}"@
        =~= n9m::parameters_text(seq!["IPANDPORT"@, "PT"@, "SSRC"@, "STREAMNAME"@],
        seq![json::Value::Text(seq![':', '0']), json::Value::Number(2), json::Value::Number(ssrc),
        json::Value::Text(d.stream_name)]));
}

/// The message that lets a source send, as it is written.
pub proof fn control_messages_are_written_so(d: Dialog, ssrc: nat)
    ensures
        control_bytes(d, ssrc) == n9m::package_bytes(n9m::message_payload(n9m::packet_text(
            "MEDIASTREAMMODEL"@,
            "CONTROLSTREAM"@,
            Some(n9m::parameters_text(seq!["CMD"@, "PT"@, "SSRC"@, "STREAMNAME"@, "STREAMTYPE"@],
                seq![json::Value::Number(1), json::Value::Number(2), json::Value::Number(ssrc),
                json::Value::Text(d.stream_name), json::Value::Number(0)])),
            None,
            d.session,
        ))),
{
    reveal(control_bytes);
    json::lemma_entries_5("CMD"@, json::Value::Number(1), "PT"@, json::Value::Number(2), "SSRC"@,
        json::Value::Number(ssrc), "STREAMNAME"@, json::Value::Text(d.stream_name), "STREAMTYPE"@,
        json::Value::Number(0));
    reveal_strlit("{\"CMD\":1,\"PT\":2,\"SSRC\":");
    reveal_strlit(",\"STREAMNAME\":\"");
    reveal_strlit("\",\"STREAMTYPE\":0}");
    reveal_strlit("CMD");
    reveal_strlit("PT");
    reveal_strlit("SSRC");
    reveal_strlit("STREAMNAME");
    reveal_strlit("STREAMTYPE");
    assert(number::decimal(0) =~= seq!['0']);
    assert(number::decimal(1) =~= seq!['1']);
    assert(number::decimal(2) =~= seq!['2']);
    assert("{\"CMD\":1,\"PT\":2,\"SSRC\":"@ + number::decimal(ssrc) + ",\"STREAMNAME\":\""@
        + json::escaped(d.stream_name) + "\",\"STREAMTYPE\":0}"@
        =~= n9m::parameters_text(seq!["CMD"@, "PT"@, "SSRC"@, "STREAMNAME"@, "STREAMTYPE"@],
        seq![json::Value::Number(1), json::Value::Number(2), json::Value::Number(ssrc),
        json::Value::Text(d.stream_name), json::Value::Number(0)]));
}

proof fn lemma_verify_read(challenge: Seq<char>, session: Seq<char>)
    ensures
        ({
            let m = n9m::text_in(verify_bytes(challenge, session));
            &&& json::is_operation(m, "CERTIFICATE"@, "VERIFY"@)
            &&& json::text_of_field(m, "S0"@) == Some(proof_of(challenge))
            &&& json::text_of_field(m, "SESSION"@) == Some(session)
        }),
{
    let keys = seq!["S0"@];
    let vs = seq![json::Value::Text(proof_of(challenge))];
    let m = n9m::packet_text(
        "CERTIFICATE"@,
        "VERIFY"@,
        Some(n9m::parameters_text(keys, vs)),
        None,
        session,
    );
    the_answer_to_the_challenge_is_written_so(challenge, session);
    lemma_field_names();
    lemma_words();
    n9m::frames_carry_their_message(m);
    n9m::messages_name_their_operation(
        "CERTIFICATE"@,
        "VERIFY"@,
        Some(n9m::parameters_text(keys, vs)),
        None,
        session,
    );
    crypto::codes_are_hexadecimal_digits(
        vstd::utf8::encode_utf8(challenge),
        vstd::utf8::encode_utf8(challenge),
    );
    assert(json::text_of_field(m, "S0"@) == Some(proof_of(challenge))) by {
        lemma_words_close_as_nothing("CERTIFICATE"@, "S0"@);
        lemma_words_close_as_nothing("VERIFY"@, "S0"@);
        n9m::parameters_are_read_back("CERTIFICATE"@, "VERIFY"@, keys, vs, session, 0);
    }
    assert(json::text_of_field(m, "SESSION"@) == Some(session)) by {
        lemma_words_close_as_nothing("CERTIFICATE"@, "SESSION"@);
        lemma_words_close_as_nothing("VERIFY"@, "SESSION"@);
        lemma_words_close_as_nothing(proof_of(challenge), "SESSION"@);
        n9m::sessions_are_read_back("CERTIFICATE"@, "VERIFY"@, keys, vs, session);
    }
}

#[verifier::rlimit(60)]
proof fn lemma_login_read(d: Dialog)
    ensures
        ({
            let m = n9m::text_in(login_bytes(d));
            &&& json::is_operation(m, "CERTIFICATE"@, "LOGIN"@)
            &&& json::number_of_field(m, "CID"@) == Some(0nat)
            &&& json::text_of_field(m, "MAC"@) == Some(Seq::<char>::empty())
            &&& json::text_of_field(m, "PASSWD"@) == Some(n9m::password_field(d.password))
            &&& json::text_of_field(m, "PLAYDEVID"@) == Some(Seq::<char>::empty())
            &&& json::text_of_field(m, "USER"@) == Some(d.user)
            &&& !json::closes_as(d.user, "SESSION"@) ==> json::text_of_field(m, "SESSION"@)
                == Some(d.session)
        }),
{
    let keys = seq!["CID"@, "MAC"@, "PASSWD"@, "PLAYDEVID"@, "USER"@];
    let vs = seq![json::Value::Number(0), json::Value::Text(seq![]),
        json::Value::Text(n9m::password_field(d.password)), json::Value::Text(seq![]),
        json::Value::Text(d.user)];
    let m = n9m::packet_text(
        "CERTIFICATE"@,
        "LOGIN"@,
        Some(n9m::parameters_text(keys, vs)),
        None,
        d.session,
    );
    the_login_is_written_so(d);
    lemma_field_names();
    lemma_words();
    n9m::frames_carry_their_message(m);
    n9m::messages_name_their_operation(
        "CERTIFICATE"@,
        "LOGIN"@,
        Some(n9m::parameters_text(keys, vs)),
        None,
        d.session,
    );
    n9m::sent_passwords_are_left_unchanged(d.password);
    assert(json::number_of_field(m, "CID"@) == Some(0nat)) by {
        lemma_words_close_as_nothing("CERTIFICATE"@, "CID"@);
        lemma_words_close_as_nothing("LOGIN"@, "CID"@);
        n9m::parameters_are_read_back("CERTIFICATE"@, "LOGIN"@, keys, vs, d.session, 0);
    }
    assert(json::text_of_field(m, "MAC"@) == Some(Seq::<char>::empty())) by {
        lemma_words_close_as_nothing("CERTIFICATE"@, "MAC"@);
        lemma_words_close_as_nothing("LOGIN"@, "MAC"@);
        n9m::parameters_are_read_back("CERTIFICATE"@, "LOGIN"@, keys, vs, d.session, 1);
    }
    assert(json::text_of_field(m, "PASSWD"@) == Some(n9m::password_field(d.password))) by {
        lemma_words_close_as_nothing("CERTIFICATE"@, "PASSWD"@);
        lemma_words_close_as_nothing("LOGIN"@, "PASSWD"@);
        lemma_words_close_as_nothing(seq![], "PASSWD"@);
        n9m::parameters_are_read_back("CERTIFICATE"@, "LOGIN"@, keys, vs, d.session, 2);
    }
    assert(json::text_of_field(m, "PLAYDEVID"@) == Some(Seq::<char>::empty())) by {
        lemma_words_close_as_nothing("CERTIFICATE"@, "PLAYDEVID"@);
        lemma_words_close_as_nothing("LOGIN"@, "PLAYDEVID"@);
        lemma_words_close_as_nothing(seq![], "PLAYDEVID"@);
        lemma_words_close_as_nothing(n9m::password_field(d.password), "PLAYDEVID"@);
        n9m::parameters_are_read_back("CERTIFICATE"@, "LOGIN"@, keys, vs, d.session, 3);
    }
    assert(json::text_of_field(m, "USER"@) == Some(d.user)) by {
        lemma_words_close_as_nothing("CERTIFICATE"@, "USER"@);
        lemma_words_close_as_nothing("LOGIN"@, "USER"@);
        lemma_words_close_as_nothing(seq![], "USER"@);
        lemma_words_close_as_nothing(n9m::password_field(d.password), "USER"@);
        lemma_words_close_as_nothing(seq![], "USER"@);
        n9m::parameters_are_read_back("CERTIFICATE"@, "LOGIN"@, keys, vs, d.session, 4);
    }
    assert(!json::closes_as(d.user, "SESSION"@) ==> json::text_of_field(m, "SESSION"@)
        == Some(d.session)) by {
        if !json::closes_as(d.user, "SESSION"@) {
            lemma_words_close_as_nothing("CERTIFICATE"@, "SESSION"@);
            lemma_words_close_as_nothing("LOGIN"@, "SESSION"@);
            lemma_words_close_as_nothing(seq![], "SESSION"@);
            lemma_words_close_as_nothing(n9m::password_field(d.password), "SESSION"@);
            lemma_words_close_as_nothing(seq![], "SESSION"@);
            n9m::sessions_are_read_back("CERTIFICATE"@, "LOGIN"@, keys, vs, d.session);
        }
    }
}

proof fn lemma_create_read(d: Dialog)
    ensures
        ({
            let m = n9m::text_in(create_bytes(d));
            &&& json::is_operation(m, "CERTIFICATE"@, "CREATESTREAM"@)
            &&& json::text_of_field(m, "STREAMNAME"@) == Some(d.stream_name)
            &&& !json::closes_as(d.stream_name, "SESSION"@) ==> json::text_of_field(m, "SESSION"@)
                == Some(d.session)
        }),
{
    let keys = seq!["STREAMNAME"@];
    let vs = seq![json::Value::Text(d.stream_name)];
    let m = n9m::packet_text(
        "CERTIFICATE"@,
        "CREATESTREAM"@,
        Some(n9m::parameters_text(keys, vs)),
        None,
        d.session,
    );
    the_stream_request_is_written_so(d);
    lemma_field_names();
    lemma_words();
    n9m::frames_carry_their_message(m);
    n9m::messages_name_their_operation(
        "CERTIFICATE"@,
        "CREATESTREAM"@,
        Some(n9m::parameters_text(keys, vs)),
        None,
        d.session,
    );
    assert(json::text_of_field(m, "STREAMNAME"@) == Some(d.stream_name)) by {
        lemma_words_close_as_nothing("CERTIFICATE"@, "STREAMNAME"@);
        lemma_words_close_as_nothing("CREATESTREAM"@, "STREAMNAME"@);
        n9m::parameters_are_read_back("CERTIFICATE"@, "CREATESTREAM"@, keys, vs, d.session, 0);
    }
    assert(!json::closes_as(d.stream_name, "SESSION"@) ==> json::text_of_field(m, "SESSION"@)
        == Some(d.session)) by {
        if !json::closes_as(d.stream_name, "SESSION"@) {
            lemma_words_close_as_nothing("CERTIFICATE"@, "SESSION"@);
            lemma_words_close_as_nothing("CREATESTREAM"@, "SESSION"@);
            n9m::sessions_are_read_back("CERTIFICATE"@, "CREATESTREAM"@, keys, vs, d.session);
        }
    }
}

proof fn lemma_alive_read(d: Dialog, i: int)
    ensures
        ({
            let m = n9m::text_in(alive_bytes(d, i));
            &&& json::is_operation(m, "MEDIASTREAMMODEL"@, "REQUESTALIVEVIDEO"@)
            &&& json::number_of_field(m, "AUDIOVALID"@) == Some(channel_mask(i))
            &&& json::number_of_field(m, "CHANNEL"@) == Some(channel_mask(i))
            &&& json::text_of_field(m, "STREAMNAME"@) == Some(d.stream_name)
            &&& !json::closes_as(d.stream_name, "STREAMTYPE"@) ==> json::number_of_field(m,
                "STREAMTYPE"@) == Some(2nat)
            &&& !json::closes_as(d.stream_name, "SESSION"@) ==> json::text_of_field(m, "SESSION"@)
                == Some(d.session)
        }),
{
    let keys = seq!["AUDIOVALID"@, "CHANNEL"@, "STREAMNAME"@, "STREAMTYPE"@];
    let vs = seq![json::Value::Number(channel_mask(i)), json::Value::Number(channel_mask(i)),
        json::Value::Text(d.stream_name), json::Value::Number(2)];
    let m = n9m::packet_text(
        "MEDIASTREAMMODEL"@,
        "REQUESTALIVEVIDEO"@,
        Some(n9m::parameters_text(keys, vs)),
        None,
        d.session,
    );
    video_requests_are_written_so(d, i);
    lemma_field_names();
    lemma_words();
    n9m::frames_carry_their_message(m);
    n9m::messages_name_their_operation(
        "MEDIASTREAMMODEL"@,
        "REQUESTALIVEVIDEO"@,
        Some(n9m::parameters_text(keys, vs)),
        None,
        d.session,
    );
    assert(json::number_of_field(m, "AUDIOVALID"@) == Some(channel_mask(i))) by {
        lemma_words_close_as_nothing("MEDIASTREAMMODEL"@, "AUDIOVALID"@);
        lemma_words_close_as_nothing("REQUESTALIVEVIDEO"@, "AUDIOVALID"@);
        n9m::parameters_are_read_back("MEDIASTREAMMODEL"@, "REQUESTALIVEVIDEO"@, keys, vs,
            d.session, 0);
    }
    assert(json::number_of_field(m, "CHANNEL"@) == Some(channel_mask(i))) by {
        lemma_words_close_as_nothing("MEDIASTREAMMODEL"@, "CHANNEL"@);
        lemma_words_close_as_nothing("REQUESTALIVEVIDEO"@, "CHANNEL"@);
        n9m::parameters_are_read_back("MEDIASTREAMMODEL"@, "REQUESTALIVEVIDEO"@, keys, vs,
            d.session, 1);
    }
    assert(json::text_of_field(m, "STREAMNAME"@) == Some(d.stream_name)) by {
        lemma_words_close_as_nothing("MEDIASTREAMMODEL"@, "STREAMNAME"@);
        lemma_words_close_as_nothing("REQUESTALIVEVIDEO"@, "STREAMNAME"@);
        n9m::parameters_are_read_back("MEDIASTREAMMODEL"@, "REQUESTALIVEVIDEO"@, keys, vs,
            d.session, 2);
    }
    assert(!json::closes_as(d.stream_name, "STREAMTYPE"@) ==> json::number_of_field(m,
        "STREAMTYPE"@) == Some(2nat)) by {
        if !json::closes_as(d.stream_name, "STREAMTYPE"@) {
            lemma_words_close_as_nothing("MEDIASTREAMMODEL"@, "STREAMTYPE"@);
            lemma_words_close_as_nothing("REQUESTALIVEVIDEO"@, "STREAMTYPE"@);
            n9m::parameters_are_read_back("MEDIASTREAMMODEL"@, "REQUESTALIVEVIDEO"@, keys, vs,
            d.session, 3);
        }
    }
    assert(!json::closes_as(d.stream_name, "SESSION"@) ==> json::text_of_field(m, "SESSION"@)
        == Some(d.session)) by {
        if !json::closes_as(d.stream_name, "SESSION"@) {
            lemma_words_close_as_nothing("MEDIASTREAMMODEL"@, "SESSION"@);
            lemma_words_close_as_nothing("REQUESTALIVEVIDEO"@, "SESSION"@);
            n9m::sessions_are_read_back("MEDIASTREAMMODEL"@, "REQUESTALIVEVIDEO"@, keys, vs, d.session);
        }
    }
}

proof fn lemma_task_read(d: Dialog, ssrc: nat)
    ensures
        ({
            let m = n9m::text_in(task_bytes(d, ssrc));
            &&& json::is_operation(m, "MEDIASTREAMMODEL"@, "MEDIATASKSTART"@)
            &&& json::text_of_field(m, "IPANDPORT"@) == Some(seq![':', '0'])
            &&& json::number_of_field(m, "PT"@) == Some(2nat)
            &&& (ssrc <= u64::MAX ==> json::number_of_field(m, "SSRC"@) == Some(ssrc))
            &&& json::text_of_field(m, "STREAMNAME"@) == Some(d.stream_name)
            &&& !json::closes_as(d.stream_name, "SESSION"@) ==> json::text_of_field(m, "SESSION"@)
                == Some(d.session)
        }),
{
    let keys = seq!["IPANDPORT"@, "PT"@, "SSRC"@, "STREAMNAME"@];
    let vs = seq![json::Value::Text(seq![':', '0']), json::Value::Number(2),
        json::Value::Number(ssrc), json::Value::Text(d.stream_name)];
    let m = n9m::packet_text(
        "MEDIASTREAMMODEL"@,
        "MEDIATASKSTART"@,
        Some(n9m::parameters_text(keys, vs)),
        None,
        d.session,
    );
    task_messages_are_written_so(d, ssrc);
    lemma_field_names();
    lemma_words();
    n9m::frames_carry_their_message(m);
    n9m::messages_name_their_operation(
        "MEDIASTREAMMODEL"@,
        "MEDIATASKSTART"@,
        Some(n9m::parameters_text(keys, vs)),
        None,
        d.session,
    );
    assert(json::text_of_field(m, "IPANDPORT"@) == Some(seq![':', '0'])) by {
        lemma_words_close_as_nothing("MEDIASTREAMMODEL"@, "IPANDPORT"@);
        lemma_words_close_as_nothing("MEDIATASKSTART"@, "IPANDPORT"@);
        n9m::parameters_are_read_back("MEDIASTREAMMODEL"@, "MEDIATASKSTART"@, keys, vs, d.session,
            0);
    }
    assert(json::number_of_field(m, "PT"@) == Some(2nat)) by {
        lemma_words_close_as_nothing("MEDIASTREAMMODEL"@, "PT"@);
        lemma_words_close_as_nothing("MEDIATASKSTART"@, "PT"@);
        lemma_words_close_as_nothing(seq![':', '0'], "PT"@);
        n9m::parameters_are_read_back("MEDIASTREAMMODEL"@, "MEDIATASKSTART"@, keys, vs, d.session,
            1);
    }
    assert((ssrc <= u64::MAX ==> json::number_of_field(m, "SSRC"@) == Some(ssrc))) by {
        lemma_words_close_as_nothing("MEDIASTREAMMODEL"@, "SSRC"@);
        lemma_words_close_as_nothing("MEDIATASKSTART"@, "SSRC"@);
        lemma_words_close_as_nothing(seq![':', '0'], "SSRC"@);
        n9m::parameters_are_read_back("MEDIASTREAMMODEL"@, "MEDIATASKSTART"@, keys, vs, d.session,
            2);
    }
    assert(json::text_of_field(m, "STREAMNAME"@) == Some(d.stream_name)) by {
        lemma_words_close_as_nothing("MEDIASTREAMMODEL"@, "STREAMNAME"@);
        lemma_words_close_as_nothing("MEDIATASKSTART"@, "STREAMNAME"@);
        lemma_words_close_as_nothing(seq![':', '0'], "STREAMNAME"@);
        n9m::parameters_are_read_back("MEDIASTREAMMODEL"@, "MEDIATASKSTART"@, keys, vs, d.session,
            3);
    }
    assert(!json::closes_as(d.stream_name, "SESSION"@) ==> json::text_of_field(m, "SESSION"@)
        == Some(d.session)) by {
        if !json::closes_as(d.stream_name, "SESSION"@) {
            lemma_words_close_as_nothing("MEDIASTREAMMODEL"@, "SESSION"@);
            lemma_words_close_as_nothing("MEDIATASKSTART"@, "SESSION"@);
            lemma_words_close_as_nothing(seq![':', '0'], "SESSION"@);
            n9m::sessions_are_read_back("MEDIASTREAMMODEL"@, "MEDIATASKSTART"@, keys, vs, d.session);
        }
    }
}

proof fn lemma_control_read(d: Dialog, ssrc: nat)
    ensures
        ({
            let m = n9m::text_in(control_bytes(d, ssrc));
            &&& json::is_operation(m, "MEDIASTREAMMODEL"@, "CONTROLSTREAM"@)
            &&& json::number_of_field(m, "CMD"@) == Some(1nat)
            &&& json::number_of_field(m, "PT"@) == Some(2nat)
            &&& (ssrc <= u64::MAX ==> json::number_of_field(m, "SSRC"@) == Some(ssrc))
            &&& json::text_of_field(m, "STREAMNAME"@) == Some(d.stream_name)
            &&& !json::closes_as(d.stream_name, "STREAMTYPE"@) ==> json::number_of_field(m,
                "STREAMTYPE"@) == Some(0nat)
            &&& !json::closes_as(d.stream_name, "SESSION"@) ==> json::text_of_field(m, "SESSION"@)
                == Some(d.session)
        }),
{
    let keys = seq!["CMD"@, "PT"@, "SSRC"@, "STREAMNAME"@, "STREAMTYPE"@];
    let vs = seq![json::Value::Number(1), json::Value::Number(2), json::Value::Number(ssrc),
        json::Value::Text(d.stream_name), json::Value::Number(0)];
    let m = n9m::packet_text(
        "MEDIASTREAMMODEL"@,
        "CONTROLSTREAM"@,
        Some(n9m::parameters_text(keys, vs)),
        None,
        d.session,
    );
    control_messages_are_written_so(d, ssrc);
    lemma_field_names();
    lemma_words();
    n9m::frames_carry_their_message(m);
    n9m::messages_name_their_operation(
        "MEDIASTREAMMODEL"@,
        "CONTROLSTREAM"@,
        Some(n9m::parameters_text(keys, vs)),
        None,
        d.session,
    );
    assert(json::number_of_field(m, "CMD"@) == Some(1nat)) by {
        lemma_words_close_as_nothing("MEDIASTREAMMODEL"@, "CMD"@);
        lemma_words_close_as_nothing("CONTROLSTREAM"@, "CMD"@);
        n9m::parameters_are_read_back("MEDIASTREAMMODEL"@, "CONTROLSTREAM"@, keys, vs, d.session,
            0);
    }
    assert(json::number_of_field(m, "PT"@) == Some(2nat)) by {
        lemma_words_close_as_nothing("MEDIASTREAMMODEL"@, "PT"@);
        lemma_words_close_as_nothing("CONTROLSTREAM"@, "PT"@);
        n9m::parameters_are_read_back("MEDIASTREAMMODEL"@, "CONTROLSTREAM"@, keys, vs, d.session,
            1);
    }
    assert((ssrc <= u64::MAX ==> json::number_of_field(m, "SSRC"@) == Some(ssrc))) by {
        lemma_words_close_as_nothing("MEDIASTREAMMODEL"@, "SSRC"@);
        lemma_words_close_as_nothing("CONTROLSTREAM"@, "SSRC"@);
        n9m::parameters_are_read_back("MEDIASTREAMMODEL"@, "CONTROLSTREAM"@, keys, vs, d.session,
            2);
    }
    assert(json::text_of_field(m, "STREAMNAME"@) == Some(d.stream_name)) by {
        lemma_words_close_as_nothing("MEDIASTREAMMODEL"@, "STREAMNAME"@);
        lemma_words_close_as_nothing("CONTROLSTREAM"@, "STREAMNAME"@);
        n9m::parameters_are_read_back("MEDIASTREAMMODEL"@, "CONTROLSTREAM"@, keys, vs, d.session,
            3);
    }
    assert(!json::closes_as(d.stream_name, "STREAMTYPE"@) ==> json::number_of_field(m,
        "STREAMTYPE"@) == Some(0nat)) by {
        if !json::closes_as(d.stream_name, "STREAMTYPE"@) {
            lemma_words_close_as_nothing("MEDIASTREAMMODEL"@, "STREAMTYPE"@);
            lemma_words_close_as_nothing("CONTROLSTREAM"@, "STREAMTYPE"@);
            n9m::parameters_are_read_back("MEDIASTREAMMODEL"@, "CONTROLSTREAM"@, keys, vs, d.session,
            4);
        }
    }
    assert(!json::closes_as(d.stream_name, "SESSION"@) ==> json::text_of_field(m, "SESSION"@)
        == Some(d.session)) by {
        if !json::closes_as(d.stream_name, "SESSION"@) {
            lemma_words_close_as_nothing("MEDIASTREAMMODEL"@, "SESSION"@);
            lemma_words_close_as_nothing("CONTROLSTREAM"@, "SESSION"@);
            n9m::sessions_are_read_back("MEDIASTREAMMODEL"@, "CONTROLSTREAM"@, keys, vs, d.session);
        }
    }
}

/// Every message about the media stream names the stream of the settings: the
/// request for the stream, each request for live video, the message that starts
/// the media task and the one that lets the source send. Its field is read back
/// with all its characters.
pub proof fn all_requests_name_the_stream(d: Dialog, i: int, ssrc: nat)
    ensures
        json::text_of_field(n9m::text_in(create_bytes(d)), "STREAMNAME"@) == Some(d.stream_name),
        json::text_of_field(n9m::text_in(alive_bytes(d, i)), "STREAMNAME"@) == Some(d.stream_name),
        json::text_of_field(n9m::text_in(task_bytes(d, ssrc)), "STREAMNAME"@) == Some(
            d.stream_name,
        ),
        json::text_of_field(n9m::text_in(control_bytes(d, ssrc)), "STREAMNAME"@) == Some(
            d.stream_name,
        ),
{
    lemma_create_read(d);
    lemma_alive_read(d, i);
    lemma_task_read(d, ssrc);
    lemma_control_read(d, ssrc);
}

/// All that is sent from the answer to the login on is about the stream of the
/// settings.
pub proof fn frames_of_the_dialog_name_the_stream(d: Dialog, response: Seq<char>, k: int)
    requires
        d.phase is Login || d.phase is Create || d.phase is Channel,
        d.answered(response) matches Ok((_, frames)) && 0 <= k < frames.len(),
    ensures
        json::text_of_field(
            n9m::text_in(d.answered(response)->Ok_0.1[k]),
            "STREAMNAME"@,
        ) == Some(d.stream_name),
{
    let ssrc = match json::number_of_field(response, "SSRC"@) {
        Some(n) => n,
        None => 0,
    };
    let from: int = match d.phase {
        Phase::Channel(i) => i + 1,
        _ => 0,
    };
    let i = match enabled_from(d.channels, from) {
        Some(i) => i,
        None => 0,
    };
    all_requests_name_the_stream(d, i, ssrc);
}

/// The first message asks for a connection, in the session that is used until the
/// device names one.
pub proof fn the_first_message_asks_for_a_connection()
    ensures
        ({
            let m = n9m::text_in(connect_bytes());
            &&& json::is_operation(m, "CERTIFICATE"@, "CONNECT"@)
            &&& json::text_of_field(m, "UK"@) == Some(Seq::<char>::empty())
            &&& json::text_of_field(m, "SESSION"@) == Some("00000003-6f72-41ca-9c73-b4710006c2f5"@)
        }),
{
    let keys = seq!["UK"@];
    let vs = seq![json::Value::Text(seq![])];
    let session = first_session();
    let parameter = n9m::parameters_text(keys, vs);
    let m = n9m::packet_text("CERTIFICATE"@, "CONNECT"@, Some(parameter), None, session);
    json::lemma_entries_1("UK"@, json::Value::Text(seq![]));
    reveal_strlit("{\"UK\":\"\"}");
    reveal_strlit("UK");
    assert(json::escaped(Seq::<char>::empty()) =~= seq![]);
    assert("{\"UK\":\"\"}"@ =~= parameter);
    lemma_field_names();
    lemma_words();
    n9m::frames_carry_their_message(m);
    n9m::messages_name_their_operation(
        "CERTIFICATE"@,
        "CONNECT"@,
        Some(parameter),
        None,
        session,
    );
    lemma_words_close_as_nothing("CERTIFICATE"@, "UK"@);
    lemma_words_close_as_nothing("CONNECT"@, "UK"@);
    n9m::parameters_are_read_back("CERTIFICATE"@, "CONNECT"@, keys, vs, session, 0);
    lemma_words_close_as_nothing("CERTIFICATE"@, "SESSION"@);
    lemma_words_close_as_nothing("CONNECT"@, "SESSION"@);
    lemma_words_close_as_nothing(seq![], "SESSION"@);
    n9m::sessions_are_read_back("CERTIFICATE"@, "CONNECT"@, keys, vs, session);
}

/// The challenge of the device is answered with its HMAC-MD5 code under itself, in
/// hexadecimal digits, in the session that the device names, or else in the one so
/// far; that session stays. Without a challenge the dialog ends.
pub proof fn the_challenge_is_answered(d: Dialog, response: Seq<char>)
    requires
        d.phase is Connect,
    ensures
        match json::string_of_field(response, "S0"@) {
            None => d.answered(response) == Err::<(Dialog, Seq<Seq<u8>>), Seq<char>>(
                "connect response did not contain S0"@,
            ),
            Some(challenge) => {
                let c = vstd::utf8::encode_utf8(challenge);
                let next = d.answered(response)->Ok_0.0;
                let frames = d.answered(response)->Ok_0.1;
                let m = n9m::text_in(frames[0]);
                &&& d.answered(response) is Ok
                &&& next.phase == Phase::Verify
                &&& json::string_of_field(response, "SESSION"@) is None ==> next.session
                    == d.session
                &&& json::string_of_field(response, "SESSION"@) matches Some(s) ==> next.session
                    == s
                &&& frames.len() == 1
                &&& json::is_operation(m, "CERTIFICATE"@, "VERIFY"@)
                &&& json::text_of_field(m, "S0"@) == Some(
                    number::hex_bytes(crypto::hmac_md5_of(c, c)),
                )
                &&& json::text_of_field(m, "SESSION"@) == Some(next.session)
            },
        },
{
    if let Some(challenge) = json::string_of_field(response, "S0"@) {
        let session = match json::string_of_field(response, "SESSION"@) {
            Some(s) => s,
            None => d.session,
        };
        lemma_verify_read(challenge, session);
    }
}

/// Whether a response carries an error code: a number in its field ERRORCODE other
/// than zero.
pub open spec fn reports_an_error(response: Seq<char>) -> bool {
    json::number_of_field(response, "ERRORCODE"@) is Some && json::number_of_field(
        response,
        "ERRORCODE"@,
    ) != Some(0nat)
}

/// Once the certificate is accepted, the bridge logs in with the user and the
/// password of the settings, the password as a code; else the dialog ends with
/// what the device said.
pub proof fn an_accepted_certificate_leads_to_the_login(d: Dialog, response: Seq<char>)
    requires
        d.phase is Verify,
    ensures
        reports_an_error(response) ==> d.answered(response) == Err::<
            (Dialog, Seq<Seq<u8>>),
            Seq<char>,
        >("verify failed: "@ + response),
        !reports_an_error(response) ==> {
            let next = d.answered(response)->Ok_0.0;
            let frames = d.answered(response)->Ok_0.1;
            let m = n9m::text_in(frames[0]);
            &&& d.answered(response) is Ok
            &&& next == (Dialog { phase: Phase::Login, ..d })
            &&& frames.len() == 1
            &&& json::is_operation(m, "CERTIFICATE"@, "LOGIN"@)
            &&& json::text_of_field(m, "USER"@) == Some(d.user)
            &&& json::text_of_field(m, "PASSWD"@) == Some(n9m::password_field(d.password))
            &&& json::number_of_field(m, "CID"@) == Some(0nat)
            &&& json::text_of_field(m, "MAC"@) == Some(Seq::<char>::empty())
            &&& json::text_of_field(m, "PLAYDEVID"@) == Some(Seq::<char>::empty())
            &&& !json::closes_as(d.user, "SESSION"@) ==> json::text_of_field(m, "SESSION"@) == Some(
                d.session,
            )
        },
{
    lemma_login_read(d);
}

/// Once the login is accepted, the bridge asks for a media stream under the name of
/// the settings; else the dialog ends with what the device said.
pub proof fn an_accepted_login_leads_to_the_stream(d: Dialog, response: Seq<char>)
    requires
        d.phase is Login,
    ensures
        reports_an_error(response) ==> d.answered(response) == Err::<
            (Dialog, Seq<Seq<u8>>),
            Seq<char>,
        >("login failed: "@ + response),
        !reports_an_error(response) ==> {
            let next = d.answered(response)->Ok_0.0;
            let frames = d.answered(response)->Ok_0.1;
            let m = n9m::text_in(frames[0]);
            &&& d.answered(response) is Ok
            &&& next == (Dialog { phase: Phase::Create, ..d })
            &&& frames.len() == 1
            &&& json::is_operation(m, "CERTIFICATE"@, "CREATESTREAM"@)
            &&& json::text_of_field(m, "STREAMNAME"@) == Some(d.stream_name)
            &&& !json::closes_as(d.stream_name, "SESSION"@) ==> json::text_of_field(m, "SESSION"@)
                == Some(d.session)
        },
{
    lemma_create_read(d);
}

/// A request for live video, read back: it asks for the channel by its bit, with
/// its sound, as a stream of the settings.
pub open spec fn asks_for_channel(frame: Seq<u8>, d: Dialog, bit: nat) -> bool {
    let m = n9m::text_in(frame);
    &&& json::is_operation(m, "MEDIASTREAMMODEL"@, "REQUESTALIVEVIDEO"@)
    &&& json::number_of_field(m, "CHANNEL"@) == Some(bit)
    &&& json::number_of_field(m, "AUDIOVALID"@) == Some(bit)
    &&& json::text_of_field(m, "STREAMNAME"@) == Some(d.stream_name)
    &&& !json::closes_as(d.stream_name, "STREAMTYPE"@) ==> json::number_of_field(
        m,
        "STREAMTYPE"@,
    ) == Some(2nat)
    &&& !json::closes_as(d.stream_name, "SESSION"@) ==> json::text_of_field(m, "SESSION"@) == Some(
        d.session,
    )
}

proof fn lemma_asked(d: Dialog, from: int, k: int)
    requires
        d.channels.len() == 4,
        0 <= from <= k < 4,
        d.channels[k],
        forall|j: int| from <= j < k ==> !d.channels[j],
    ensures
        ({
            let (next, frames) = d.ask_from(from);
            &&& next == (Dialog { phase: Phase::Channel(k as usize), ..d })
            &&& frames.len() == 1
            &&& k == 0 ==> asks_for_channel(frames[0], d, 1)
            &&& k == 1 ==> asks_for_channel(frames[0], d, 2)
            &&& k == 2 ==> asks_for_channel(frames[0], d, 4)
            &&& k == 3 ==> asks_for_channel(frames[0], d, 8)
        }),
{
    enabled_channels_come_in_order(d.channels, from);
    lemma_alive_read(d, k);
}

/// Once the stream is there, the first enabled channel is asked for, by its bit;
/// with none enabled there is nothing to ask for. Else the dialog ends with what
/// the device said.
pub proof fn an_accepted_stream_leads_to_the_first_channel(d: Dialog, response: Seq<char>, k: int)
    requires
        d.wf(),
        d.phase is Create,
        0 <= k <= 4,
        k < 4 ==> d.channels[k],
        forall|j: int| 0 <= j < k ==> !d.channels[j],
    ensures
        reports_an_error(response) ==> d.answered(response) == Err::<
            (Dialog, Seq<Seq<u8>>),
            Seq<char>,
        >("create stream failed: "@ + response),
        !reports_an_error(response) ==> {
            let next = d.answered(response)->Ok_0.0;
            let frames = d.answered(response)->Ok_0.1;
            &&& d.answered(response) is Ok
            &&& k == 4 ==> frames.len() == 0 && next == (Dialog { phase: Phase::Streaming, ..d })
            &&& k < 4 ==> frames.len() == 1 && next == (Dialog {
                phase: Phase::Channel(k as usize),
                ..d
            })
            &&& k == 0 ==> asks_for_channel(frames[0], d, 1)
            &&& k == 1 ==> asks_for_channel(frames[0], d, 2)
            &&& k == 2 ==> asks_for_channel(frames[0], d, 4)
            &&& k == 3 ==> asks_for_channel(frames[0], d, 8)
        },
{
    enabled_channels_come_in_order(d.channels, 0);
    if k < 4 {
        lemma_asked(d, 0, k);
    }
}

/// A message about a source, read back: it names the source by its number, and the
/// stream of the settings.
pub open spec fn is_about_source(
    frame: Seq<u8>,
    d: Dialog,
    operation: Seq<char>,
    ssrc: nat,
) -> bool {
    let m = n9m::text_in(frame);
    &&& json::is_operation(m, "MEDIASTREAMMODEL"@, operation)
    &&& json::number_of_field(m, "SSRC"@) == Some(ssrc)
    &&& json::number_of_field(m, "PT"@) == Some(2nat)
    &&& json::text_of_field(m, "STREAMNAME"@) == Some(d.stream_name)
    &&& !json::closes_as(d.stream_name, "SESSION"@) ==> json::text_of_field(m, "SESSION"@) == Some(
        d.session,
    )
}

/// Once a channel is there, its source is started and let send, and the next enabled
/// channel is asked for; with none left there is nothing more to ask for. A response
/// with an error, or without a source, ends the dialog with what the device said.
pub proof fn an_accepted_channel_is_started(d: Dialog, response: Seq<char>, i: usize, k: int)
    requires
        d.wf(),
        d.phase == Phase::Channel(i),
        i < k <= 4,
        k < 4 ==> d.channels[k],
        forall|j: int| i < j < k ==> !d.channels[j],
    ensures
        reports_an_error(response) ==> d.answered(response) == Err::<
            (Dialog, Seq<Seq<u8>>),
            Seq<char>,
        >(
            "REQUESTALIVEVIDEO failed for channel "@ + number::decimal((i + 1) as nat) + ": "@
                + response,
        ),
        !reports_an_error(response) && json::number_of_field(response, "SSRC"@) is None
            ==> d.answered(response) == Err::<(Dialog, Seq<Seq<u8>>), Seq<char>>(
            "REQUESTALIVEVIDEO response missing SSRC for channel "@ + number::decimal(
                (i + 1) as nat,
            ) + ": "@ + response,
        ),
        json::number_of_field(response, "SSRC"@) matches Some(ssrc) ==> !reports_an_error(response)
            ==> {
            let next = d.answered(response)->Ok_0.0;
            let frames = d.answered(response)->Ok_0.1;
            let start = n9m::text_in(frames[0]);
            let control = n9m::text_in(frames[1]);
            &&& d.answered(response) is Ok
            &&& frames.len() >= 2
            &&& is_about_source(frames[0], d, "MEDIATASKSTART"@, ssrc)
            &&& json::text_of_field(start, "IPANDPORT"@) == Some(seq![':', '0'])
            &&& is_about_source(frames[1], d, "CONTROLSTREAM"@, ssrc)
            &&& json::number_of_field(control, "CMD"@) == Some(1nat)
            &&& !json::closes_as(d.stream_name, "STREAMTYPE"@) ==> json::number_of_field(
                control,
                "STREAMTYPE"@,
            ) == Some(0nat)
            &&& k == 4 ==> frames.len() == 2 && next == (Dialog { phase: Phase::Streaming, ..d })
            &&& k < 4 ==> frames.len() == 3 && next == (Dialog {
                phase: Phase::Channel(k as usize),
                ..d
            })
            &&& k == 1 ==> asks_for_channel(frames[2], d, 2)
            &&& k == 2 ==> asks_for_channel(frames[2], d, 4)
            &&& k == 3 ==> asks_for_channel(frames[2], d, 8)
        },
{
    enabled_channels_come_in_order(d.channels, i + 1);
    if k < 4 {
        lemma_asked(d, i + 1, k);
    }
    if let Some(ssrc) = json::number_of_field(response, "SSRC"@) {
        lemma_task_read(d, ssrc);
        lemma_control_read(d, ssrc);
    }
}

/// While frames come, a response calls for nothing.
pub proof fn streams_go_on(d: Dialog, response: Seq<char>)
    requires
        d.phase is Streaming,
    ensures
        d.answered(response) matches Ok((next, frames)) && next == d && frames.len() == 0,
{
}

/// What is shown of a dialog tells how far it has come: with the media stream, when
/// it is being made, and when it is there.
pub proof fn the_status_tells_the_progress(d: Dialog)
    ensures
        progress(d.phase) < progress(Phase::Create) <==> d.status_text() == "connecting"@,
        d.phase is Streaming <==> d.status_text() == "streaming"@,
        d.phase is Create || d.phase is Channel <==> d.status_text() == "creating media stream"@,
{
    reveal_strlit("connecting");
    reveal_strlit("streaming");
    reveal_strlit("creating media stream");
    assert("connecting"@.len() == 10);
    assert("streaming"@.len() == 9);
    assert("creating media stream"@.len() == 21);
}

/// While the answer to an operation is waited for, a message about that operation
/// is it, whatever else it holds.
pub proof fn the_answer_is_the_message_about_the_operation(
    action: WaitAction,
    module: Seq<char>,
    operation: Seq<char>,
    parameter: Option<Seq<char>>,
    response: Option<Seq<char>>,
    session: Seq<char>,
    whole: Seq<char>,
    own: Seq<char>,
)
    requires
        json::plain(module),
        json::plain(operation),
        judged(
            action,
            n9m::packet_text(module, operation, parameter, response, session),
            whole,
            module,
            operation,
            own,
        ),
    ensures
        action matches WaitAction::Done(t) && t@ == n9m::packet_text(
            module,
            operation,
            parameter,
            response,
            session,
        ),
{
    n9m::messages_name_their_operation(module, operation, parameter, response, session);
}

/// While the answer to another operation is waited for, a request for a sign of life
/// is answered with one in the own session.
pub proof fn signs_of_life_are_given_meanwhile(
    action: WaitAction,
    message: Seq<char>,
    module: Seq<char>,
    operation: Seq<char>,
    from: Seq<char>,
    parameter: Option<Seq<char>>,
    response: Option<Seq<char>>,
    session: Seq<char>,
    own: Seq<char>,
)
    requires
        module.len() > 0,
        operation.len() > 0,
        json::string_of_field(message, "OPERATION"@) != Some(operation),
        judged(
            action,
            message,
            n9m::packet_text(from, "KEEPALIVE"@, parameter, response, session),
            module,
            operation,
            own,
        ),
    ensures
        action matches WaitAction::Send(f) && json::is_operation(
            n9m::text_in(f@),
            "CERTIFICATE"@,
            "KEEPALIVE"@,
        ) && json::text_of_field(n9m::text_in(f@), "SESSION"@) == Some(own),
{
    n9m::signs_of_life_are_recognised(from, parameter, response, session);
    n9m::signs_of_life_tell_their_session(own);
}

/// Where no operation is waited for, any message is the answer.
pub proof fn any_message_is_an_answer(
    action: WaitAction,
    message: Seq<char>,
    whole: Seq<char>,
    own: Seq<char>,
)
    requires
        judged(action, message, whole, ""@, ""@, own),
    ensures
        action matches WaitAction::Done(t) && t@ == message,
{
    reveal_strlit("");
}

/// Where an answer does not come in time, the error names what was waited for.
pub proof fn timeouts_name_what_was_waited_for(module: Seq<char>, operation: Seq<char>)
    ensures
        timeout_message(module, operation) == "timed out waiting for "@ + (module + "."@ + (operation
            + " on control socket"@)),
{
    assert(timeout_message(module, operation) =~= "timed out waiting for "@ + (module + "."@ + (
    operation + " on control socket"@)));
}

/// Each package with a message that names the operation KEEPALIVE is answered, and no
/// other.
pub proof fn packages_that_ask_are_answered(p: Seq<u8>)
    ensures
        wants_reply_in_utf8()(p) <==> p.len() > 0 && p[0] == 0x7b && exists|i: int| #[trigger]
            text::occurs_at(
                vstd::utf8::decode_utf8(p),
                "\"OPERATION\":\"KEEPALIVE\""@,
                i,
            ),
        wants_reply()(p) <==> p.len() > 0 && p[0] == 0x7b && exists|i: int| #[trigger]
            text::occurs_at(text::utf8_lossy(p), "\"OPERATION\":\"KEEPALIVE\""@, i),
{
    n9m::messages_start_with_a_brace(p);
    n9m::requests_for_a_sign_of_life_name_it(vstd::utf8::decode_utf8(p));
    n9m::requests_for_a_sign_of_life_name_it(text::utf8_lossy(p));
}

/// While the answer to an operation is waited for, a message about another operation or
/// of another module is not it; unless it asks for a sign of life it calls for nothing.
pub proof fn other_messages_are_no_answer(
    action: WaitAction,
    message: Seq<char>,
    whole: Seq<char>,
    module: Seq<char>,
    operation: Seq<char>,
    own: Seq<char>,
)
    requires
        module.len() > 0,
        operation.len() > 0,
        json::string_of_field(message, "MODULE"@) != Some(module) || json::string_of_field(
            message,
            "OPERATION"@,
        ) != Some(operation),
        judged(action, message, whole, module, operation, own),
    ensures
        !(action is Done),
        (forall|i: int|
            !#[trigger] text::occurs_at(whole, "\"OPERATION\":\"KEEPALIVE\""@, i))
            ==> action is Again,
        action is Send || action is Again,
{
    n9m::requests_for_a_sign_of_life_name_it(whole);
}

} // verus!
