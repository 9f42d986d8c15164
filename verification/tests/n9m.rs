use n9m_rtsp::annexb::{find_annexb_start, inspect_annexb, nal_type, split_annexb};
use n9m_rtsp::crypto::{hmac_md5_hex, md5};
use n9m_rtsp::json::{
    json_bool_array, json_escape, json_get_string, json_get_u64, json_matches_operation,
    json_string, json_u16,
};
use n9m_rtsp::n9m::{
    frame_json, handle_json_package, is_json, json_packet, keepalive_frame, login_password_field,
    message_text, parse_media_payload, trim_nul, PacketReader, ReadOutcome,
};
use n9m_rtsp::number::to_hex;

#[test]
fn json_matches_operation_filters_evem_status() {
    let evem = r#"{"MODULE":"EVEM","OPERATION":"SENDRECORDSTATUS","PARAMETER":{},"SESSION":"x"}"#;
    let alive = r#"{"MODULE":"MEDIASTREAMMODEL","OPERATION":"REQUESTALIVEVIDEO","RESPONSE":{"ERRORCODE":0,"SSRC":3},"SESSION":"x"}"#;
    assert!(!json_matches_operation(evem, "MEDIASTREAMMODEL", "REQUESTALIVEVIDEO"));
    assert!(json_matches_operation(
        alive,
        "MEDIASTREAMMODEL",
        "REQUESTALIVEVIDEO"
    ));
}

#[test]
fn md5_vectors() {
    assert_eq!(to_hex(&md5(b"")), "d41d8cd98f00b204e9800998ecf8427e");
    assert_eq!(to_hex(&md5(b"message digest")), "f96b697d7cb7938d525a2f31aaf161d0");
    assert_eq!(to_hex(&md5(&[b'a'; 55])), "ef1772b6dff9a122358552954ad0df65");
    assert_eq!(to_hex(&md5(&[b'a'; 56])), "3b0c8ac703f828b04c6c197006d17218");
    assert_eq!(to_hex(&md5(&[b'a'; 64])), "014842d480b571495a4a0363793f7367");
}

#[test]
fn hmac_md5_vectors() {
    assert_eq!(hmac_md5_hex(&[0x0b; 16], b"Hi There"), "9294727a3638bb1c13f48ef8158bfc9d");
    assert_eq!(
        hmac_md5_hex(b"Jefe", b"what do ya want for nothing?"),
        "750c783e6ab0b503eaa86e310a5db738"
    );
    assert_eq!(
        hmac_md5_hex(&[0xaa; 80], b"Test Using Larger Than Block-Size Key - Hash Key First"),
        "6b1ab7fe4bd7bf8f0b62e6ce61b9d0cd"
    );
}

#[test]
fn login_passwords() {
    assert_eq!(login_password_field(""), "");
    assert_eq!(login_password_field(" \t"), "");
    assert_eq!(login_password_field("secret"), "34659837f81a6bb8b191374aa350a889");
    let digest = "0123456789abcdefABCDEF0123456789";
    assert_eq!(login_password_field(digest), digest);
    // One character that is no digit makes it a password like any other.
    let almost = "0123456789abcdefABCDEF012345678g";
    assert_eq!(login_password_field(almost), hmac_md5_hex(b"streaming", almost.as_bytes()));
    assert_eq!(login_password_field(&digest[1..]).len(), 32);
    assert_eq!(
        login_password_field(&login_password_field("secret")),
        login_password_field("secret")
    );
}

#[test]
fn units_of_a_byte_stream() {
    let data = [0, 0, 1, 0x67, 1, 0, 0, 0, 1, 0x68, 2, 3, 0, 0, 1, 0, 0, 1, 0x65];
    let nals = split_annexb(&data);
    assert_eq!(nals, vec![&[0x67u8, 1][..], &[0x68, 2, 3], &[0x65]]);
    assert_eq!(split_annexb(&[0, 0, 1]).len(), 0);
    assert_eq!(split_annexb(&[0, 0, 0, 1]).len(), 0);
    assert_eq!(split_annexb(&[5, 6, 7, 8, 9]).len(), 0);
    assert_eq!(nal_type(&[0x65]), Some(5));
    assert_eq!(nal_type(&[]), None);
}

#[test]
fn counts_of_a_frame() {
    let mut data = vec![0, 0, 0, 1, 0x67, 1, 0, 0, 0, 1, 0x68, 2, 0, 0, 0, 1, 0x68, 3, 0, 0, 0, 1, 0x65];
    data.extend_from_slice(&[7u8; 1200]);
    let s = inspect_annexb(&data);
    assert_eq!(s.nal_units, 4);
    assert!(s.has_idr);
    assert_eq!(s.sps_units, 1);
    assert_eq!(s.pps_units, 2);
    assert_eq!(s.fragmented_nals, 1);
    assert_eq!(s.max_nal_bytes, 1201);
    let none = inspect_annexb(&[]);
    assert_eq!(none.nal_units, 0);
    assert!(!none.has_idr);
    assert_eq!(none.max_nal_bytes, 0);
}

#[test]
fn first_start_code() {
    assert_eq!(find_annexb_start(&[9, 0, 0, 1, 5]), Some(1));
    assert_eq!(find_annexb_start(&[9, 0, 0, 0, 1]), Some(1));
    assert_eq!(find_annexb_start(&[9, 9, 0, 0, 1]), None);
    assert_eq!(find_annexb_start(&[]), None);
}

#[test]
fn media_payloads() {
    let mut p = vec![1, b'2', b'd', b'c', 6, 0, 0, 0, 0, 0, 9, 9, 0, 0, 0, 1, 0x65, 0xaa, 0xbb];
    // The start code is found at the first zeros that are followed by it.
    assert_eq!(parse_media_payload(&p), Some((2, vec![0, 0, 0, 1, 0x65, 0xaa])));
    p[4] = 200;
    assert_eq!(parse_media_payload(&p), Some((2, vec![0, 0, 0, 1, 0x65, 0xaa, 0xbb])));
    p[4] = 0;
    assert_eq!(parse_media_payload(&p), None);
    p[4] = 1;
    p[1] = b'3';
    p[0] = 255;
    assert_eq!(parse_media_payload(&p), Some((256, vec![0])));
    p[1] = b'4';
    assert_eq!(parse_media_payload(&p), None);
    p[1] = b'2';
    p[2] = b'x';
    assert_eq!(parse_media_payload(&p), None);
    assert_eq!(parse_media_payload(&[0, b'2', b'd', b'c', 1, 0, 0, 0, 1]), None);
}

#[test]
fn packages_in_pieces() {
    let frame = frame_json("{}");
    assert_eq!(frame, vec![0, 0, 0, 0, 0, 0, 0, 3, 0x52, 0, 0, 0, b'{', b'}', 0]);
    let mut all = vec![1, 2, 3];
    all.extend_from_slice(&frame);
    all.extend_from_slice(&frame_json("{\"A\":1}"));
    let mut whole = PacketReader::new();
    assert_eq!(whole.accept(ReadOutcome::Data(all.clone())), Ok(true));
    let at_once = whole.take_packages();
    assert_eq!(at_once.len(), 2);
    assert_eq!(at_once[0].payload, b"{}\0");
    assert_eq!(at_once[1].payload, b"{\"A\":1}\0");
    assert!(whole.buf.is_empty());
    let mut bytewise = PacketReader::new();
    let mut got = Vec::new();
    for b in all {
        assert_eq!(bytewise.accept(ReadOutcome::Data(vec![b])), Ok(true));
        while let Some(p) = bytewise.try_parse() {
            got.push(p.payload);
        }
    }
    assert_eq!(got, vec![b"{}\0".to_vec(), b"{\"A\":1}\0".to_vec()]);
}

#[test]
fn packages_that_are_too_long_are_skipped() {
    let mut r = PacketReader::new();
    // 16 MiB and one byte is no length.
    r.buf = vec![0, 0, 0, 0, 1, 0, 0, 1, 0x52, 0, 0, 0];
    assert!(r.try_parse().is_none());
    assert_eq!(r.buf.len(), 11);
    // 16 MiB is one: more has to come.
    r.buf = vec![0, 0, 0, 0, 1, 0, 0, 0, 0x52, 0, 0, 0, 5];
    assert!(r.try_parse().is_none());
    assert_eq!(r.buf.len(), 13);
}

#[test]
fn outcomes_of_reads() {
    let mut r = PacketReader::new();
    assert_eq!(r.accept(ReadOutcome::Quiet), Ok(false));
    assert_eq!(r.accept(ReadOutcome::Closed), Err("device closed the connection".to_string()));
    assert_eq!(r.accept(ReadOutcome::Failed("x".to_string())), Err("x".to_string()));
}

#[test]
fn messages() {
    assert_eq!(
        json_packet("A\"", "B", Some("{\"X\":1}"), None, "s\\"),
        "{\"MODULE\":\"A\\\"\",\"OPERATION\":\"B\",\"PARAMETER\":{\"X\":1},\"SESSION\":\"s\\\\\"}"
    );
    assert_eq!(
        json_packet("A", "B", None, Some("{}"), "s"),
        "{\"MODULE\":\"A\",\"OPERATION\":\"B\",\"RESPONSE\":{},\"SESSION\":\"s\"}"
    );
    assert_eq!(trim_nul(b"{}\0\r\n\0"), b"{}");
    assert_eq!(trim_nul(b"\0\0"), b"\0\0");
    assert!(is_json(b"{\0"));
    assert!(!is_json(b"\0"));
    assert!(!is_json(b"x{"));
    assert_eq!(message_text(b"{\xff}\0"), "{\u{fffd}}");
    assert_eq!(message_text("{\"n\":\"\u{e9}\"}\0".as_bytes()), "{\"n\":\"\u{e9}\"}");
}

#[test]
fn a_message_that_was_sent_is_read_back() {
    let message = json_packet("CERTIFICATE", "KEEPALIVE", Some("{\"A\":2}"), None, "s\u{e9}\"");
    let mut r = PacketReader::new();
    assert_eq!(r.accept(ReadOutcome::Data(frame_json(&message))), Ok(true));
    let package = r.try_parse().unwrap();
    assert!(is_json(&package.payload));
    assert_eq!(message_text(&package.payload), message);
    assert!(json_matches_operation(&message, "CERTIFICATE", "KEEPALIVE"));
    assert!(handle_json_package("t", &package.payload).is_some());
}

#[test]
fn requests_for_a_sign_of_life() {
    let ask = json_packet("CERTIFICATE", "KEEPALIVE", None, None, "t");
    assert_eq!(handle_json_package("s", ask.as_bytes()), Some(keepalive_frame("s")));
    assert_eq!(handle_json_package("s", b"{\"OPERATION\":\"OTHER\"}"), None);
    assert_eq!(
        keepalive_frame("s"),
        frame_json("{\"MODULE\":\"CERTIFICATE\",\"OPERATION\":\"KEEPALIVE\",\"SESSION\":\"s\"}")
    );
}

#[test]
fn fields_of_device_messages() {
    let m = "{\"S0\":\"ab\\\"c\",\"N\":42,\"M\":x,\"BIG\":99999999999999999999}";
    assert_eq!(json_get_string(m, "S0"), Some("ab\\".to_string()));
    assert_eq!(json_get_string(m, "S1"), None);
    assert_eq!(json_get_string("{\"A\":\"open", "A"), None);
    assert_eq!(json_get_u64(m, "N"), Some(42));
    assert_eq!(json_get_u64("{\"N\":7", "N"), Some(7));
    assert_eq!(json_get_u64(m, "M"), None);
    assert_eq!(json_get_u64(m, "BIG"), None);
    assert_eq!(json_get_u64("\"N\":18446744073709551615", "N"), Some(u64::MAX));
}

#[test]
fn fields_of_page_messages() {
    let m = "{ \"host\" : \"a\\n\\t\\\"\\q\" , \"port\": 80, \"channels\": [ true, false,true , x ] }";
    assert_eq!(json_string(m, "host"), Some("a\n\t\"q".to_string()));
    assert_eq!(json_string(m, "port"), None);
    assert_eq!(json_string("{\"a\":\"open", "a"), None);
    assert_eq!(json_u16(m, "port"), Some(80));
    assert_eq!(json_u16("\"port\":65536", "port"), None);
    assert_eq!(json_u16("\"port\":65535", "port"), Some(65535));
    assert_eq!(json_u16("\"port\":+1", "port"), None);
    assert_eq!(json_bool_array(m, "channels"), Some([true, false, true, false]));
    assert_eq!(json_bool_array("\"channels\":[true,true]", "channels"), None);
    assert_eq!(json_bool_array("\"channels\":[true", "channels"), None);
}

#[test]
fn escapes_are_undone() {
    let value = "a\\b\"c\nd\re\u{1f600}";
    let escaped = json_escape(value);
    assert_eq!(escaped, "a\\\\b\\\"c\\nd\\re\u{1f600}");
    let message = format!("{{\"v\":\"{}\"}}", escaped);
    assert_eq!(json_string(&message, "v"), Some(value.to_string()));
}
