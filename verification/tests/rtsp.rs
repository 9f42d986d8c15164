use n9m_rtsp::hub::StreamHub;
use n9m_rtsp::rtsp::{
    asks_for_description, new_session_id, parse_channel, read_rtsp_request, write_interleaved_frame, write_response,
    RequestRead, RtspAction, RtspClient,
};

fn channel(path: &str) -> Option<usize> {
    let chars: Vec<char> = path.chars().collect();
    parse_channel(&chars)
}

fn ask(client: &mut RtspClient, hub: &StreamHub, request: &str) -> RtspAction {
    client.handle_request(hub, request, "1.2.3.4:8554", "abc".to_string())
}

fn reply(action: RtspAction) -> String {
    match action {
        RtspAction::Reply(t) => t,
        _ => panic!("expected a reply"),
    }
}

#[test]
fn channels_in_paths() {
    assert_eq!(channel("rtsp://localhost:8554/channel/1"), Some(1));
    assert_eq!(channel("rtsp://h/channel/4/trackID=0"), Some(4));
    assert_eq!(channel("/channel/5"), None);
    assert_eq!(channel("/channel/0"), None);
    assert_eq!(channel("/channel/"), None);
    assert_eq!(channel("/channel/x1"), None);
    assert_eq!(channel("/channel/003"), Some(3));
    assert_eq!(channel("/channel/99999999999999999999999"), None);
    assert_eq!(channel("/channel"), None);
    // Only the first marker counts.
    assert_eq!(channel("/channel/channel/1"), None);
}

#[test]
fn requests_end_with_an_empty_line() {
    let mut buf = Vec::new();
    let text = "OPTIONS * RTSP/1.0\r\nCSeq: 2\r\n\r\n";
    let n = text.len();
    for (i, b) in text.bytes().enumerate() {
        match read_rtsp_request(&mut buf, b) {
            RequestRead::More => assert!(i + 1 < n),
            RequestRead::Complete(t) => {
                assert_eq!(i + 1, n);
                assert_eq!(t, text);
            }
            RequestRead::TooLong => panic!("not too long"),
        }
    }
    let mut buf = b"\xff\r\n\r".to_vec();
    match read_rtsp_request(&mut buf, b'\n') {
        RequestRead::Complete(t) => assert_eq!(t, "\u{fffd}\r\n\r\n"),
        _ => panic!("expected a request"),
    }
}

#[test]
fn requests_can_be_too_long() {
    let mut buf = vec![b'x'; 16383];
    assert!(matches!(read_rtsp_request(&mut buf, b'x'), RequestRead::More));
    assert!(matches!(read_rtsp_request(&mut buf, b'x'), RequestRead::TooLong));
}

#[test]
fn responses() {
    assert_eq!(
        write_response(200, "7", "A: b\r\n", "\u{e9}"),
        "RTSP/1.0 200 OK\r\nCSeq: 7\r\nA: b\r\nContent-Length: 2\r\n\r\n\u{e9}"
    );
    assert!(write_response(404, "1", "", "").starts_with("RTSP/1.0 404 Not Found\r\n"));
    assert!(write_response(405, "1", "", "").starts_with("RTSP/1.0 405 Method Not Allowed\r\n"));
    assert!(write_response(500, "1", "", "").starts_with("RTSP/1.0 500 Error\r\n"));
}

#[test]
fn interleaved_frames() {
    assert_eq!(write_interleaved_frame(0, &[7, 8]), vec![b'$', 0, 0, 2, 7, 8]);
    let long = write_interleaved_frame(1, &[9; 1212]);
    assert_eq!(&long[..4], &[b'$', 1, 4, 188]);
    assert_eq!(long.len(), 1216);
}

#[test]
fn session_numbers() {
    assert_eq!(new_session_id(0), "0");
    assert_eq!(new_session_id(0x17f3_abcd_0000_1234), "17f3abcd00001234");
}

#[test]
fn a_client_from_options_to_teardown() {
    let hub = StreamHub::new();
    let mut c = RtspClient::new();
    assert_eq!(
        reply(ask(&mut c, &hub, "OPTIONS rtsp://h/channel/2 RTSP/1.0\r\nCSeq: 1\r\n\r\n")),
        "RTSP/1.0 200 OK\r\nCSeq: 1\r\nPublic: OPTIONS, DESCRIBE, SETUP, PLAY, TEARDOWN\r\nContent-Length: 0\r\n\r\n"
    );
    assert_eq!(c.channel, 2);
    let sdp = hub.sdp(2, "1.2.3.4:8554");
    assert_eq!(
        reply(ask(&mut c, &hub, "DESCRIBE rtsp://h/channel/2 RTSP/1.0\r\ncseq:  3 \r\n\r\n")),
        format!(
            "RTSP/1.0 200 OK\r\nCSeq: 3\r\nContent-Type: application/sdp\r\nContent-Base: rtsp://1.2.3.4:8554/channel/2/\r\nContent-Length: {}\r\n\r\n{}",
            sdp.len(),
            sdp
        )
    );
    assert_eq!(
        reply(ask(&mut c, &hub, "SETUP rtsp://h/channel/2/trackID=0 RTSP/1.0\r\nCSeq: 4\r\n\r\n")),
        "RTSP/1.0 200 OK\r\nCSeq: 4\r\nTransport: RTP/AVP/TCP;unicast;interleaved=0-1\r\nSession: abc\r\nContent-Length: 0\r\n\r\n"
    );
    assert_eq!(c.session, "abc");
    match ask(&mut c, &hub, "PLAY rtsp://h/ RTSP/1.0\r\nCSeq: 5\r\n\r\n") {
        RtspAction::Play(ch, cseq) => {
            assert_eq!(ch, 2);
            assert_eq!(cseq, "5");
        }
        _ => panic!("expected to play"),
    }
    assert_eq!(
        c.play_response("5", true),
        "RTSP/1.0 200 OK\r\nCSeq: 5\r\nSession: abc\r\nRTP-Info: url=trackID=0;seq=0;rtptime=0\r\nContent-Length: 0\r\n\r\n"
    );
    assert_eq!(
        c.play_response("5", false),
        "RTSP/1.0 404 Not Found\r\nCSeq: 5\r\nContent-Length: 0\r\n\r\n"
    );
    match ask(&mut c, &hub, "TEARDOWN rtsp://h/ RTSP/1.0\r\nCSeq: 6\r\n\r\n") {
        RtspAction::Close(t) => assert_eq!(
            t,
            "RTSP/1.0 200 OK\r\nCSeq: 6\r\nSession: abc\r\nContent-Length: 0\r\n\r\n"
        ),
        _ => panic!("expected to close"),
    }
}

#[test]
fn requests_for_a_description() {
    assert!(asks_for_description("DESCRIBE rtsp://h RTSP/1.0\r\n\r\n"));
    assert!(!asks_for_description("describe rtsp://h RTSP/1.0\r\n\r\n"));
    assert!(!asks_for_description("PLAY DESCRIBE RTSP/1.0\r\n\r\n"));
    assert!(!asks_for_description(""));
}

#[test]
fn other_requests_are_refused() {
    let hub = StreamHub::new();
    let mut c = RtspClient::new();
    assert_eq!(
        reply(ask(&mut c, &hub, "PAUSE rtsp://h/channel/9 RTSP/1.0\r\nCSeq: 8\r\n\r\n")),
        "RTSP/1.0 405 Method Not Allowed\r\nCSeq: 8\r\nContent-Length: 0\r\n\r\n"
    );
    assert_eq!(c.channel, 1);
    // Methods are told apart by case, and an empty request has none.
    assert!(reply(ask(&mut c, &hub, "options * RTSP/1.0\r\n\r\n")).starts_with("RTSP/1.0 405"));
    assert_eq!(
        reply(ask(&mut c, &hub, "\r\n\r\n")),
        "RTSP/1.0 405 Method Not Allowed\r\nCSeq: 1\r\nContent-Length: 0\r\n\r\n"
    );
}

#[test]
fn a_line_without_a_colon_hides_the_fields_behind_it() {
    let hub = StreamHub::new();
    let mut c = RtspClient::new();
    // The first line has a colon in its address here, and none there.
    assert!(reply(ask(&mut c, &hub, "OPTIONS * RTSP/1.0\r\nCSeq: 2\r\n\r\n")).contains("CSeq: 1\r\n"));
    assert!(reply(ask(&mut c, &hub, "OPTIONS rtsp://h RTSP/1.0\r\nCSeq: 2\r\n\r\n")).contains("CSeq: 2\r\n"));
}
