use n9m_rtsp::config::{parse_channels, unquote, AppConfig, BridgeConfig};

#[test]
fn default_settings() {
    let c = AppConfig::default();
    assert_eq!(c.host, "");
    assert_eq!(c.port, 9006);
    assert_eq!(c.user, "");
    assert_eq!(c.password, "");
    assert_eq!(c.stream_name, "N9M-RTSP");
    assert_eq!(c.channels, [true; 4]);
    assert_eq!(c.http_bind, "0.0.0.0:8080");
    assert_eq!(c.rtsp_bind, "0.0.0.0:8554");
    let empty = AppConfig::from_text("");
    assert_eq!(format!("{:?}", empty), format!("{:?}", c));
}

#[test]
fn settings_of_a_file() {
    let c = AppConfig::from_text(
        "# a comment\r\n\n  host = \"10.1.2.3\"  \r\nport=7000\nuser = admin = x\npassword=\"\"\n\
         stream_name=\" a \"\nchannels = CH1, 3,,\nhttp_bind=127.0.0.1:1\nrtsp_bind=127.0.0.1:2\n\
         no equals sign\nunknown=1\n# host = other",
    );
    assert_eq!(c.host, "10.1.2.3");
    assert_eq!(c.port, 7000);
    assert_eq!(c.user, "admin = x");
    assert_eq!(c.password, "");
    assert_eq!(c.stream_name, " a ");
    assert_eq!(c.channels, [true, false, true, false]);
    assert_eq!(c.http_bind, "127.0.0.1:1");
    assert_eq!(c.rtsp_bind, "127.0.0.1:2");
}

#[test]
fn later_lines_win_and_bad_values_change_nothing() {
    let c = AppConfig::from_text("host=a\nport=1\nport=70000\nport=x\nport=\nchannels=2\nchannels=5\nhost=b");
    assert_eq!(c.host, "b");
    assert_eq!(c.port, 1);
    assert_eq!(c.channels, [false, true, false, false]);
    assert_eq!(AppConfig::from_text("port=+80").port, 80);
    assert_eq!(AppConfig::from_text("port=65535").port, 65535);
}

#[test]
fn quotes_round_a_value() {
    assert_eq!(unquote("\"a\""), "a");
    assert_eq!(unquote("\"\""), "");
    assert_eq!(unquote("\""), "\"");
    assert_eq!(unquote("\"a"), "\"a");
    assert_eq!(unquote("\"a\"b\""), "a\"b");
    assert_eq!(unquote("\u{e9}"), "\u{e9}");
}

#[test]
fn lists_of_channels() {
    assert_eq!(parse_channels("1,2,3,4"), Some([true; 4]));
    assert_eq!(parse_channels(""), Some([false; 4]));
    assert_eq!(parse_channels(" CH4 , , 1"), Some([true, false, false, true]));
    assert_eq!(parse_channels("CH"), None);
    assert_eq!(parse_channels("0"), None);
    assert_eq!(parse_channels("5"), None);
    assert_eq!(parse_channels("ch1"), None);
    assert_eq!(parse_channels("1,x"), None);
    assert_eq!(parse_channels("99999999999999999999"), None);
    assert_eq!(parse_channels("+2"), Some([false, true, false, false]));
}

#[test]
fn settings_of_the_bridge() {
    let mut c = AppConfig::from_text("host=h\nport=5\nuser=u\npassword=p\nstream_name=s\nchannels=2");
    let b = BridgeConfig::from(c.clone());
    c.host = "other".to_string();
    assert_eq!(b.host, "h");
    assert_eq!(b.port, 5);
    assert_eq!(b.user, "u");
    assert_eq!(b.password, "p");
    assert_eq!(b.stream_name, "s");
    assert_eq!(b.channels, [false, true, false, false]);
    assert_eq!(b.clone().stream_name, "s");
}
