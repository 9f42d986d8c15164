use n9m_rtsp::config::AppConfig;
use n9m_rtsp::hub::StreamHub;
use n9m_rtsp::state::SharedState;
use n9m_rtsp::web::{
    bad_request, config_json, handle_http, outcome_response, page_response, request_body,
    request_length, route, status_json, update_config, write_json, write_response, HttpAction, HttpRead, HttpReader,
    Pages, Route,
};

fn pages() -> Pages {
    Pages {
        index: "<i>".to_string(),
        style: "s{}".to_string(),
        script: "js()".to_string(),
    }
}

fn rates() -> [String; 4] {
    ["1.00".to_string(), "2.50".to_string(), "0.00".to_string(), "0.00".to_string()]
}

fn get(state: &mut SharedState, hub: &StreamHub, request: &str) -> String {
    match handle_http(state, hub, request, &pages(), &rates()) {
        HttpAction::Reply(t) => t,
        _ => panic!("expected a reply"),
    }
}

fn body(response: &str) -> String {
    response.split_once("\r\n\r\n").unwrap().1.to_string()
}

#[test]
fn http_responses() {
    assert_eq!(
        write_response(200, "text/plain", "\u{e9}!"),
        "HTTP/1.1 200 OK\r\nContent-Type: text/plain\r\nContent-Length: 3\r\nCache-Control: no-store\r\nConnection: close\r\n\r\n\u{e9}!"
    );
    assert!(write_response(404, "t", "").starts_with("HTTP/1.1 404 Not Found\r\n"));
    assert!(write_response(500, "t", "").starts_with("HTTP/1.1 500 Error\r\n"));
    assert!(write_json(200, "{}").contains("\r\nContent-Type: application/json; charset=utf-8\r\n"));
    assert_eq!(
        bad_request("request too large"),
        "HTTP/1.1 400 Bad Request\r\nContent-Type: text/plain\r\nContent-Length: 17\r\nCache-Control: no-store\r\nConnection: close\r\n\r\nrequest too large"
    );
    assert_eq!(body(&outcome_response(Ok(()))), "{\"ok\":true}");
    let failed = outcome_response(Err("a \"b\"".to_string()));
    assert!(failed.starts_with("HTTP/1.1 409 Conflict\r\n"));
    assert_eq!(body(&failed), "{\"ok\":false,\"error\":\"a \\\"b\\\"\"}");
}

#[test]
fn routes() {
    assert_eq!(route("GET / HTTP/1.1\r\n"), Route::Index);
    assert_eq!(route("GET /index.html"), Route::Index);
    assert_eq!(route("GET /styles.css HTTP/1.1"), Route::Style);
    assert_eq!(route("GET /app.js HTTP/1.1"), Route::Script);
    assert_eq!(route("GET /api/status HTTP/1.1"), Route::Status);
    assert_eq!(route("GET /api/config HTTP/1.1"), Route::Config);
    assert_eq!(route("POST /api/config HTTP/1.1"), Route::SetConfig);
    assert_eq!(route("POST /api/start HTTP/1.1"), Route::Start);
    assert_eq!(route("POST /api/stop HTTP/1.1"), Route::Stop);
    assert_eq!(route("POST / HTTP/1.1"), Route::NotFound);
    assert_eq!(route("GET /api/start HTTP/1.1"), Route::NotFound);
    assert_eq!(route("PUT /api/config HTTP/1.1"), Route::NotFound);
    assert_eq!(route(""), Route::NotFound);
}

#[test]
fn lengths_of_requests() {
    assert_eq!(request_length("GET / HTTP/1.1\r\n"), None);
    // A first line without a colon hides the fields behind it.
    assert_eq!(request_length("POST / HTTP/1.1\r\nContent-Length: 5\r\n\r\n"), Some(38));
    assert_eq!(request_length("POST http://h/ HTTP/1.1\r\ncontent-length: 5\r\n\r\nab"), Some(51));
    assert_eq!(request_length("a:\u{e9}\r\n\r\nxyz"), Some(8));
    assert_eq!(request_length("a:b\r\nContent-Length: -5\r\n\r\n"), Some(27));
}

#[test]
fn requests_in_pieces() {
    let head = b"POST http://h/api/config HTTP/1.1\r\nContent-Length: 4\r\n\r\n";
    let mut r = HttpReader::new();
    assert_eq!(r.accept(&head[..20]), HttpRead::More);
    assert_eq!(r.accept(&head[20..]), HttpRead::More);
    assert_eq!(r.accept(b"ab"), HttpRead::More);
    assert_eq!(r.accept(b"cd"), HttpRead::Complete);
    assert_eq!(request_body(&r.text()), "abcd");
    let mut ended = HttpReader::new();
    assert_eq!(ended.accept(b"GET /\xff"), HttpRead::More);
    assert_eq!(ended.accept(b""), HttpRead::Complete);
    assert_eq!(ended.text(), "GET /\u{fffd}");
    assert_eq!(request_body(&ended.text()), "");
    let mut large = HttpReader::new();
    assert_eq!(large.accept(&vec![b'x'; 131072]), HttpRead::More);
    assert_eq!(large.accept(b"x"), HttpRead::TooLarge);
}

#[test]
fn settings_in_json() {
    let c = AppConfig::from_text("host=a\"b\nuser=u\npassword=p\nchannels=1,4");
    assert_eq!(
        config_json(&c),
        "{\"host\":\"a\\\"b\",\"port\":9006,\"user\":\"u\",\"password\":\"p\",\"streamName\":\"N9M-RTSP\",\"channels\":[true,false,false,true],\"httpBind\":\"0.0.0.0:8080\",\"rtspBind\":\"0.0.0.0:8554\"}"
    );
}

#[test]
fn settings_are_changed() {
    let mut s = SharedState::new(AppConfig::default());
    update_config(
        &mut s,
        "{\"host\":\"h\",\"port\":80,\"user\":\"u\",\"password\":\"p\",\"streamName\":\"n\",\"channels\":[true,false,true,false],\"httpBind\":\"x\"}",
    );
    assert_eq!(s.config.host, "h");
    assert_eq!(s.config.port, 80);
    assert_eq!(s.config.user, "u");
    assert_eq!(s.config.password, "p");
    assert_eq!(s.config.stream_name, "n");
    assert_eq!(s.config.channels, [true, false, true, false]);
    assert_eq!(s.config.http_bind, "0.0.0.0:8080");
    assert_eq!(s.status, "idle");
    s.running = true;
    update_config(&mut s, "{\"port\":70000}");
    assert_eq!(s.config.port, 80);
    assert_eq!(s.status, "configuration changes apply after stop/start");
}

#[test]
fn posting_back_the_settings_changes_nothing() {
    let mut s = SharedState::new(AppConfig::from_text("host=a\\b\"c\nuser=password\nchannels=2"));
    let before = config_json(&s.config);
    update_config(&mut s, &before);
    assert_eq!(config_json(&s.config), before);
    assert_eq!(s.config.host, "a\\b\"c");
}

#[test]
fn posted_settings_replace_others() {
    let mut posted = AppConfig::from_text("host=a\\b\nport=7\nuser=u\nstream_name=n\nchannels=2,3\nhttp_bind=x");
    posted.password = "line\nbreak\r".to_string();
    let mut s = SharedState::new(AppConfig::from_text("host=old\nuser=old\npassword=old\nhttp_bind=kept"));
    update_config(&mut s, &config_json(&posted));
    assert_eq!(s.config.host, "a\\b");
    assert_eq!(s.config.port, 7);
    assert_eq!(s.config.user, "u");
    assert_eq!(s.config.password, "line\nbreak\r");
    assert_eq!(s.config.stream_name, "n");
    assert_eq!(s.config.channels, [false, true, true, false]);
    assert_eq!(s.config.http_bind, "kept");
}

#[test]
fn a_host_named_like_a_later_text_hides_it() {
    let mut s = SharedState::new(AppConfig::from_text("user=old"));
    update_config(&mut s, &config_json(&AppConfig::from_text("host=user\nuser=new")));
    assert_eq!(s.config.host, "user");
    assert_eq!(s.config.user, "old");
}

#[test]
fn a_large_request_with_an_empty_line_is_not_too_large() {
    let mut data = vec![b'x'; 131072];
    data.extend_from_slice("\u{e9}\r\n\r\n".as_bytes());
    let mut r = HttpReader::new();
    assert_eq!(r.accept(&data), HttpRead::Complete);
    assert_eq!(r.length, Some(131078));
    // Each byte that is no UTF-8 counts as the three of its replacement.
    let mut r = HttpReader::new();
    let mut data = vec![0xffu8; 131072];
    data.extend_from_slice(b"\r\n\r\n");
    assert_eq!(r.accept(&data), HttpRead::More);
    assert_eq!(r.length, Some(3 * 131072 + 4));
}

#[test]
fn answers_without_the_state() {
    let p = pages();
    assert_eq!(
        page_response(Route::Index, &p),
        Some(write_response(200, "text/html; charset=utf-8", "<i>"))
    );
    assert_eq!(
        page_response(Route::NotFound, &p),
        Some(write_response(404, "text/plain; charset=utf-8", "not found"))
    );
    for route in [Route::Status, Route::Config, Route::SetConfig, Route::Start, Route::Stop] {
        assert_eq!(page_response(route, &p), None);
    }
}

#[test]
fn a_user_named_like_a_later_field_shifts_the_stream_name() {
    let mut s = SharedState::new(AppConfig::from_text("user=streamName\npassword=p"));
    let before = config_json(&s.config);
    update_config(&mut s, &before);
    assert_eq!(s.config.stream_name, "p");
}

#[test]
fn a_host_named_like_a_field_hides_nothing_that_is_posted_back() {
    for name in ["host", "port", "user", "password", "streamName", "channels", "x\"user"] {
        let mut s = SharedState::new(AppConfig::from_text(&format!("host={name}\nuser=u\nchannels=2")));
        let before = config_json(&s.config);
        update_config(&mut s, &before);
        assert_eq!(config_json(&s.config), before);
    }
    let mut s = SharedState::new(AppConfig::from_text("host=channels\nuser=[true,false,false,false]\nchannels=2"));
    let before = config_json(&s.config);
    update_config(&mut s, &before);
    assert_eq!(s.config.channels, [true, false, false, false]);
}

#[test]
fn the_state_in_json() {
    let mut s = SharedState::new(AppConfig::from_text("host=h\nchannels=1,2,3"));
    let mut hub = StreamHub::new();
    hub.subscribe(2);
    s.stats[0].frames = 5;
    s.stats[0].last_frame_ms = 77;
    let zeros = "\"nalUnits\":0,\"idrFrames\":0,\"spsUnits\":0,\"ppsUnits\":0,\"multiNalFrames\":0,\"fragmentedNals\":0,\"maxFrameBytes\":0,\"maxNalBytes\":0";
    let expected = format!(
        "{{\"running\":false,\"status\":\"idle\",\"source\":\"h:9006\",\"channels\":[\
         {{\"channel\":1,\"enabled\":true,\"frames\":5,\"bytes\":0,\"clients\":0,\"fps\":1.00,\"lastFrameMs\":77,{z},\"rtspUrl\":\"rtsp://localhost:8554/channel/1\"}},\
         {{\"channel\":2,\"enabled\":true,\"frames\":0,\"bytes\":0,\"clients\":1,\"fps\":2.50,\"lastFrameMs\":0,{z},\"rtspUrl\":\"rtsp://localhost:8554/channel/2\"}},\
         {{\"channel\":3,\"enabled\":true,\"frames\":0,\"bytes\":0,\"clients\":0,\"fps\":0.00,\"lastFrameMs\":0,{z},\"rtspUrl\":\"rtsp://localhost:8554/channel/3\"}},\
         {{\"channel\":4,\"enabled\":false,\"frames\":0,\"bytes\":0,\"clients\":0,\"fps\":0.00,\"lastFrameMs\":0,{z},\"rtspUrl\":\"rtsp://localhost:8554/channel/4\"}}]}}",
        z = zeros
    );
    assert_eq!(status_json(&mut s, &hub, &rates()), expected);
    assert_eq!(s.stats[1].clients, 1);
    assert_eq!(body(&get(&mut s, &hub, "GET /api/status HTTP/1.1\r\n\r\n")), expected);
}

#[test]
fn pages_and_calls() {
    let mut s = SharedState::new(AppConfig::default());
    let hub = StreamHub::new();
    let index = get(&mut s, &hub, "GET / HTTP/1.1\r\n\r\n");
    assert!(index.contains("Content-Type: text/html; charset=utf-8\r\n"));
    assert_eq!(body(&index), "<i>");
    let style = get(&mut s, &hub, "GET /styles.css HTTP/1.1\r\n\r\n");
    assert!(style.contains("Content-Type: text/css; charset=utf-8\r\n"));
    assert_eq!(body(&style), "s{}");
    let script = get(&mut s, &hub, "GET /app.js HTTP/1.1\r\n\r\n");
    assert!(script.contains("Content-Type: application/javascript; charset=utf-8\r\n"));
    assert_eq!(body(&script), "js()");
    assert_eq!(body(&get(&mut s, &hub, "GET /api/config HTTP/1.1\r\n\r\n")), config_json(&s.config));
    let changed = get(&mut s, &hub, "POST /api/config HTTP/1.1\r\n\r\n{\"host\":\"new\"}");
    assert_eq!(s.config.host, "new");
    assert_eq!(body(&changed), config_json(&s.config));
    let none = get(&mut s, &hub, "GET /nothing HTTP/1.1\r\n\r\n");
    assert!(none.starts_with("HTTP/1.1 404 Not Found\r\nContent-Type: text/plain; charset=utf-8\r\n"));
    assert_eq!(body(&none), "not found");
    assert!(matches!(
        handle_http(&mut s, &hub, "POST /api/start HTTP/1.1\r\n\r\n", &pages(), &rates()),
        HttpAction::Start
    ));
    assert!(matches!(
        handle_http(&mut s, &hub, "POST /api/stop HTTP/1.1\r\n\r\n", &pages(), &rates()),
        HttpAction::Stop
    ));
}
