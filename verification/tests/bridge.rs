use n9m_rtsp::bridge::{
    drain_control, judge_message, keepalive_due, media_step, stream_failure, wait_step, Bridge,
    MediaAction, Phase, WaitAction, WaitEvent,
};
use n9m_rtsp::config::{AppConfig, BridgeConfig};
use n9m_rtsp::n9m::{frame_json, keepalive_frame, Package};
use n9m_rtsp::state::{
    finish_bridge, start_bridge, stop_bridge, streaming_begins, streaming_ends, ChannelStats,
    SharedState,
};

fn bridge(channels: [bool; 4]) -> (Bridge, Vec<u8>) {
    Bridge::new(BridgeConfig {
        host: "h".to_string(),
        port: 9006,
        user: "ad\"min".to_string(),
        password: "secret".to_string(),
        stream_name: "N9M-RTSP".to_string(),
        channels,
    })
}

fn texts(frames: &[Vec<u8>]) -> Vec<String> {
    frames
        .iter()
        .map(|f| String::from_utf8(f[12..f.len() - 1].to_vec()).unwrap())
        .collect()
}

#[test]
fn a_dialog_from_the_handshake_to_the_stream() {
    let (mut b, first) = bridge([true, false, false, true]);
    assert_eq!(
        first,
        frame_json("{\"MODULE\":\"CERTIFICATE\",\"OPERATION\":\"CONNECT\",\"PARAMETER\":{\"UK\":\"\"},\"SESSION\":\"00000003-6f72-41ca-9c73-b4710006c2f5\"}")
    );
    assert_eq!(b.expects().module, "");
    assert_eq!(b.expects().seconds, 30);

    let sent = b.on_response("{\"S0\":\"abc123\",\"SESSION\":\"s1\"}").unwrap();
    assert_eq!(b.phase, Phase::Verify);
    assert_eq!(
        texts(&sent),
        vec!["{\"MODULE\":\"CERTIFICATE\",\"OPERATION\":\"VERIFY\",\"PARAMETER\":{\"S0\":\"0eee86e484505ec4ab48c18095e6a8ac\"},\"SESSION\":\"s1\"}"]
    );

    let sent = b.on_response("{\"ERRORCODE\":0}").unwrap();
    assert_eq!(b.phase, Phase::Login);
    assert_eq!(
        texts(&sent),
        vec!["{\"MODULE\":\"CERTIFICATE\",\"OPERATION\":\"LOGIN\",\"PARAMETER\":{\"CID\":0,\"MAC\":\"\",\"PASSWD\":\"34659837f81a6bb8b191374aa350a889\",\"PLAYDEVID\":\"\",\"USER\":\"ad\\\"min\"},\"SESSION\":\"s1\"}"]
    );

    let sent = b.on_response("{}").unwrap();
    assert_eq!(b.phase, Phase::Create);
    assert_eq!(
        texts(&sent),
        vec!["{\"MODULE\":\"CERTIFICATE\",\"OPERATION\":\"CREATESTREAM\",\"PARAMETER\":{\"STREAMNAME\":\"N9M-RTSP\"},\"SESSION\":\"s1\"}"]
    );

    let sent = b.on_response("{\"ERRORCODE\":0}").unwrap();
    assert_eq!(b.phase, Phase::Channel(0));
    assert_eq!(
        texts(&sent),
        vec!["{\"MODULE\":\"MEDIASTREAMMODEL\",\"OPERATION\":\"REQUESTALIVEVIDEO\",\"PARAMETER\":{\"AUDIOVALID\":1,\"CHANNEL\":1,\"STREAMNAME\":\"N9M-RTSP\",\"STREAMTYPE\":2},\"SESSION\":\"s1\"}"]
    );
    assert_eq!(b.expects().module, "MEDIASTREAMMODEL");
    assert_eq!(b.expects().operation, "REQUESTALIVEVIDEO");
    assert_eq!(b.expects().seconds, 15);

    let sent = b.on_response("{\"ERRORCODE\":0,\"SSRC\":3}").unwrap();
    assert_eq!(b.phase, Phase::Channel(3));
    assert_eq!(
        texts(&sent),
        vec![
            "{\"MODULE\":\"MEDIASTREAMMODEL\",\"OPERATION\":\"MEDIATASKSTART\",\"PARAMETER\":{\"IPANDPORT\":\":0\",\"PT\":2,\"SSRC\":3,\"STREAMNAME\":\"N9M-RTSP\"},\"SESSION\":\"s1\"}",
            "{\"MODULE\":\"MEDIASTREAMMODEL\",\"OPERATION\":\"CONTROLSTREAM\",\"PARAMETER\":{\"CMD\":1,\"PT\":2,\"SSRC\":3,\"STREAMNAME\":\"N9M-RTSP\",\"STREAMTYPE\":0},\"SESSION\":\"s1\"}",
            "{\"MODULE\":\"MEDIASTREAMMODEL\",\"OPERATION\":\"REQUESTALIVEVIDEO\",\"PARAMETER\":{\"AUDIOVALID\":8,\"CHANNEL\":8,\"STREAMNAME\":\"N9M-RTSP\",\"STREAMTYPE\":2},\"SESSION\":\"s1\"}",
        ]
    );
    let sent = b.on_response("{\"SSRC\":7}").unwrap();
    assert_eq!(sent.len(), 2);
    assert_eq!(b.phase, Phase::Streaming);
    assert_eq!(b.session, "s1");
}

#[test]
fn masks_of_the_channels_between() {
    let (mut b, _) = bridge([false, true, true, false]);
    b.phase = Phase::Create;
    let sent = b.on_response("{}").unwrap();
    assert_eq!(b.phase, Phase::Channel(1));
    assert!(texts(&sent)[0].contains("\"AUDIOVALID\":2,\"CHANNEL\":2,"));
    let sent = b.on_response("{\"SSRC\":1}").unwrap();
    assert_eq!(b.phase, Phase::Channel(2));
    assert!(texts(&sent)[2].contains("\"AUDIOVALID\":4,\"CHANNEL\":4,"));
}

#[test]
fn only_the_stream_request_is_sent_on_the_media_connection() {
    let (mut b, _) = bridge([true, false, false, false]);
    let mut seen = vec![(b.on_media(), b.status())];
    for response in ["{\"S0\":\"x\"}", "{}", "{}", "{}", "{\"SSRC\":1}"] {
        let sent = b.on_response(response).unwrap();
        seen.push((b.on_media(), b.status()));
        let creates = texts(&sent).iter().any(|t| t.contains("CREATESTREAM"));
        assert_eq!(creates, b.on_media());
    }
    assert_eq!(
        seen,
        vec![
            (false, "connecting"),
            (false, "connecting"),
            (false, "connecting"),
            (true, "creating media stream"),
            (false, "creating media stream"),
            (false, "streaming"),
        ]
    );
}

#[test]
fn no_channel_streams_at_once() {
    let (mut b, _) = bridge([false; 4]);
    b.phase = Phase::Create;
    assert_eq!(b.on_response("{}"), Ok(vec![]));
    assert_eq!(b.phase, Phase::Streaming);
    assert_eq!(b.on_response("{}"), Ok(vec![]));
}

#[test]
fn the_first_session_stays_where_the_device_names_none() {
    let (mut b, _) = bridge([true; 4]);
    b.on_response("{\"S0\":\"x\"}").unwrap();
    assert_eq!(b.session, "00000003-6f72-41ca-9c73-b4710006c2f5");
}

#[test]
fn errors_of_a_dialog() {
    let bad = "{\"ERRORCODE\":5}";
    let (mut b, _) = bridge([true; 4]);
    assert_eq!(b.on_response(bad), Err("connect response did not contain S0".to_string()));
    assert_eq!(b.phase, Phase::Connect);
    for (phase, message) in [
        (Phase::Verify, "verify failed: {\"ERRORCODE\":5}"),
        (Phase::Login, "login failed: {\"ERRORCODE\":5}"),
        (Phase::Create, "create stream failed: {\"ERRORCODE\":5}"),
        (Phase::Channel(1), "REQUESTALIVEVIDEO failed for channel 2: {\"ERRORCODE\":5}"),
    ] {
        b.phase = phase;
        assert_eq!(b.on_response(bad), Err(message.to_string()));
        assert_eq!(b.phase, phase);
    }
    b.phase = Phase::Channel(3);
    assert_eq!(
        b.on_response("{}"),
        Err("REQUESTALIVEVIDEO response missing SSRC for channel 4: {}".to_string())
    );
}

#[test]
fn waiting_for_a_response() {
    let module = "MEDIASTREAMMODEL";
    let op = "REQUESTALIVEVIDEO";
    let yes = b"{\"MODULE\":\"MEDIASTREAMMODEL\",\"OPERATION\":\"REQUESTALIVEVIDEO\"}\0".to_vec();
    let alive = b"{\"MODULE\":\"CERTIFICATE\",\"OPERATION\":\"KEEPALIVE\"}\0".to_vec();
    let other = b"{\"MODULE\":\"EVEM\",\"OPERATION\":\"X\xff\"}".to_vec();
    match wait_step(WaitEvent::Package(yes), module, op, "s") {
        WaitAction::Done(t) => {
            assert_eq!(t, "{\"MODULE\":\"MEDIASTREAMMODEL\",\"OPERATION\":\"REQUESTALIVEVIDEO\"}")
        }
        _ => panic!("expected the response"),
    }
    match wait_step(WaitEvent::Package(alive.clone()), module, op, "s") {
        WaitAction::Send(f) => assert_eq!(f, keepalive_frame("s")),
        _ => panic!("expected a sign of life"),
    }
    assert!(matches!(wait_step(WaitEvent::Package(other.clone()), module, op, "s"), WaitAction::Again));
    // Without an operation any message will do.
    match wait_step(WaitEvent::Package(other), "", "", "s") {
        WaitAction::Done(t) => assert_eq!(t, "{\"MODULE\":\"EVEM\",\"OPERATION\":\"X\u{fffd}\"}"),
        _ => panic!("expected the message"),
    }
    assert!(matches!(wait_step(WaitEvent::Package(vec![1, 2]), "", "", ""), WaitAction::Again));
    assert!(matches!(wait_step(WaitEvent::Quiet(false), module, op, ""), WaitAction::Again));
    match wait_step(WaitEvent::Quiet(true), module, op, "") {
        WaitAction::Fail(e) => assert_eq!(e, "stopped"),
        _ => panic!("expected a failure"),
    }
    match wait_step(WaitEvent::Expired, module, op, "") {
        WaitAction::Fail(e) => assert_eq!(
            e,
            "timed out waiting for MEDIASTREAMMODEL.REQUESTALIVEVIDEO on control socket"
        ),
        _ => panic!("expected a failure"),
    }
    match wait_step(WaitEvent::Expired, "", "", "") {
        WaitAction::Fail(e) => assert_eq!(e, "timed out waiting for . on control socket"),
        _ => panic!("expected a failure"),
    }
    assert!(matches!(
        judge_message("{}".to_string(), "{}", "A", "B", "s"),
        WaitAction::Again
    ));
}

#[test]
fn packages_on_the_media_connection() {
    let mut p = vec![0, b'2', b'd', b'c', 5, 0, 0, 0, 0, 0, 9, 9, 0, 0, 0, 1, 0x65];
    match media_step(&p, &[true, false, false, false], "s") {
        MediaAction::Frame(c, f) => {
            assert_eq!(c, 1);
            assert_eq!(f, vec![0, 0, 0, 1, 0x65]);
        }
        _ => panic!("expected a frame"),
    }
    assert!(matches!(media_step(&p, &[false; 4], "s"), MediaAction::Nothing));
    p[0] = 4;
    assert!(matches!(media_step(&p, &[true; 4], "s"), MediaAction::Nothing));
    match media_step(b"{\"OPERATION\":\"KEEPALIVE\"}", &[true; 4], "s") {
        MediaAction::Send(f) => assert_eq!(f, keepalive_frame("s")),
        _ => panic!("expected a sign of life"),
    }
    assert!(matches!(media_step(b"{}", &[true; 4], "s"), MediaAction::Nothing));
    assert!(matches!(
        media_step(b"x\"OPERATION\":\"KEEPALIVE\"", &[true; 4], "s"),
        MediaAction::Nothing
    ));
}

#[test]
fn packages_on_the_control_connection() {
    let ask = Package { payload: b"{\"OPERATION\":\"KEEPALIVE\"}\0".to_vec() };
    let other = Package { payload: b"{}".to_vec() };
    let ask_again = Package { payload: b"{\"OPERATION\":\"KEEPALIVE\"}".to_vec() };
    let no_json = Package { payload: b"\"OPERATION\":\"KEEPALIVE\"".to_vec() };
    let sent = drain_control(&[ask, other, no_json, ask_again], "s");
    assert_eq!(sent, vec![keepalive_frame("s"), keepalive_frame("s")]);
    assert_eq!(drain_control(&[], "s").len(), 0);
}

#[test]
fn signs_of_life_are_due_after_twenty_seconds() {
    assert!(!keepalive_due(19_999));
    assert!(keepalive_due(20_000));
}

#[test]
fn failures_of_a_stream() {
    assert_eq!(stream_failure(true, "x".to_string()), Ok(()));
    assert_eq!(stream_failure(false, "x".to_string()), Err("x".to_string()));
}

#[test]
fn statistics_of_frames() {
    let mut s = ChannelStats::new(2);
    assert_eq!(s.channel, 2);
    assert!(s.enabled);
    let mut frame = vec![0, 0, 0, 1, 0x67, 1, 0, 0, 0, 1, 0x68, 2, 0, 0, 0, 1, 0x65];
    frame.extend_from_slice(&[7u8; 1300]);
    assert!(s.record_frame(&frame, 3, 40));
    assert!(s.record_frame(&[0, 0, 0, 1, 0x41, 1], 1, 80));
    assert_eq!(s.frames, 2);
    assert_eq!(s.bytes, frame.len() as u64 + 6);
    assert_eq!(s.clients, 1);
    assert_eq!(s.nal_units, 4);
    assert_eq!(s.idr_frames, 1);
    assert_eq!(s.sps_units, 1);
    assert_eq!(s.pps_units, 1);
    assert_eq!(s.multi_nal_frames, 1);
    assert_eq!(s.fragmented_nals, 1);
    assert_eq!(s.max_frame_bytes, frame.len() as u64);
    assert_eq!(s.max_nal_bytes, 1301);
    assert!(s.idr_frames <= s.frames && s.multi_nal_frames <= s.frames);
    assert!(s.sps_units + s.pps_units + s.idr_frames <= s.nal_units);
    assert!(s.max_nal_bytes <= s.max_frame_bytes && s.max_frame_bytes <= s.bytes);
    assert_eq!(s.first_frame_ms, 40);
    assert_eq!(s.last_frame_ms, 80);
    assert_eq!(s.frame_span(), Some((1, 40)));
    s.last_frame_ms = 40;
    assert_eq!(s.frame_span(), None);
    s.enabled = false;
    s.reset();
    assert_eq!(s.frame_span(), None);
    let mut fresh = ChannelStats::new(2);
    fresh.enabled = false;
    assert_eq!(s, fresh);
}

#[test]
fn counters_that_are_full_stay() {
    let mut s = ChannelStats::new(1);
    s.bytes = u64::MAX - 5;
    let before = s;
    assert!(!s.record_frame(&[0, 0, 0, 1, 0x41, 1], 1, 80));
    assert_eq!(s, before);
    assert!(s.record_frame(&[0, 0, 0, 1, 0x41], 1, 80));
    assert_eq!(s.bytes, u64::MAX);
}

#[test]
fn runs_of_the_bridge() {
    let mut state = SharedState::new(AppConfig::from_text("host=h\nchannels=1"));
    assert_eq!(state.status, "idle");
    assert!(!state.running);
    assert!(!stop_bridge(&mut state));
    assert_eq!(state.status, "stopped");
    state.stats[0].frames = 9;
    state.stats[1].enabled = false;

    let config = start_bridge(&mut state).unwrap();
    assert_eq!(config.host, "h");
    assert_eq!(state.status, "starting");
    assert!(state.running);
    assert_eq!(state.stop, Some(false));
    assert_eq!(state.stats[0].frames, 0);
    assert!(!state.stats[1].enabled);
    assert!(start_bridge(&mut state).is_none());

    state.set_status("connecting");
    assert_eq!(state.status, "connecting");
    streaming_begins(&mut state, &[true, true, false, false]);
    assert_eq!(state.status, "streaming");
    assert!(state.stats[1].enabled);
    assert!(!state.stats[2].enabled);

    assert!(stop_bridge(&mut state));
    assert_eq!(state.status, "stopping");
    assert_eq!(state.stop, Some(true));
    assert!(state.running);
    streaming_ends(&mut state);
    assert_eq!(state.status, "stopped");
    assert!(state.running);
    finish_bridge(&mut state, Ok(()));
    assert_eq!(state.status, "stopped");
    assert!(!state.running);
    assert_eq!(state.stop, None);

    start_bridge(&mut state).unwrap();
    finish_bridge(&mut state, Ok(()));
    assert_eq!(state.status, "finished");
    start_bridge(&mut state).unwrap();
    finish_bridge(&mut state, Err("login failed".to_string()));
    assert_eq!(state.status, "error: login failed");
}
