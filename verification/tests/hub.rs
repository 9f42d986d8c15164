use n9m_rtsp::hub::{
    next_rtp_timestamp, reorder_nals_for_decode, ChannelHub, Delivery, StreamHub,
};
use n9m_rtsp::rtp::rtp_packet;
use std::time::Duration;

fn annexb(parts: &[&[u8]]) -> Vec<u8> {
    let mut out = Vec::new();
    for part in parts {
        out.extend_from_slice(&[0, 0, 0, 1]);
        out.extend_from_slice(part);
    }
    out
}

fn rtp_payload(packet: &[u8]) -> &[u8] {
    &packet[12..]
}

fn ticks(elapsed_ns: u64) -> u32 {
    (Duration::from_nanos(elapsed_ns).as_secs_f64() * 90_000.0).round() as u32
}

fn publish(hub: &mut StreamHub, channel: usize, data: &[u8], now: u64) -> Option<Delivery> {
    let t = ticks(hub.elapsed(channel, now));
    hub.publish_annexb(channel, data, now, t)
}

/// What a client is sent of a frame.
fn batch_for(delivery: Option<Delivery>, id: u64) -> Option<Vec<Vec<u8>>> {
    match delivery {
        Some(d) => match d.recipients.iter().filter(|r| **r == id).count() {
            0 => None,
            n => {
                assert_eq!(n, 1);
                Some(d.packets)
            }
        },
        None => None,
    }
}

const SPS: &[u8] = &[0x67, 0x42, 0xe0, 0x1f];

#[test]
fn publish_one_rtp_packet_per_nal() {
    let mut hub = StreamHub::new();
    let sps = &[0x67, 0x42, 0xe0, 0x1f];
    let pps = &[0x68, 0xce, 0x3c, 0x80];
    let slice = &[0x41, 0x88, 0x84];
    let idr = &[0x65, 0xdd];
    let rx = hub.subscribe(1).unwrap();
    publish(&mut hub, 1, &annexb(&[pps, sps, idr]), 5);
    let batch = batch_for(publish(&mut hub, 1, &annexb(&[pps, slice]), 6), rx).expect("one access unit");
    assert_eq!(batch.len(), 2);
    assert_eq!(rtp_payload(&batch[0])[0] & 0x1f, 8);
    assert_eq!(rtp_payload(&batch[1])[0] & 0x1f, 1);
    assert_eq!(batch[1][1] & 0x80, 0x80);
}

#[test]
fn publish_skips_aud_and_keeps_decode_order() {
    let mut hub = StreamHub::new();
    let sps = &[0x67, 0x42, 0xe0, 0x1f];
    let pps = &[0x68, 0x01];
    let aud = &[0x09, 0x10];
    let slice = &[0x41, 0x02];
    let idr = &[0x65, 0xdd];
    let rx = hub.subscribe(1).unwrap();
    publish(&mut hub, 1, &annexb(&[pps, sps, idr]), 5);
    let batch = batch_for(publish(&mut hub, 1, &annexb(&[pps, aud, slice]), 6), rx).expect("pps+slice au");
    assert_eq!(batch.len(), 2);
    assert_eq!(rtp_payload(&batch[0])[0] & 0x1f, 8);
    assert_eq!(rtp_payload(&batch[1])[0] & 0x1f, 1);
}

#[test]
fn rtp_timestamp_tracks_wall_clock() {
    let mut ch = ChannelHub::new();
    let t0 = 1_000_000_000u64;
    let at = |ch: &ChannelHub, d: Duration| {
        let now = t0 + d.as_nanos() as u64;
        (now, ticks(ch.elapsed(now)))
    };
    let (now, t) = at(&ch, Duration::from_millis(0));
    let ts0 = next_rtp_timestamp(&mut ch, now, t);
    assert_eq!(ts0, 0);
    let (now, t) = at(&ch, Duration::from_millis(100));
    let ts1 = next_rtp_timestamp(&mut ch, now, t);
    assert!(ts1 >= 9000 && ts1 <= 9100);
    let (now, t) = at(&ch, Duration::from_millis(250));
    let ts2 = next_rtp_timestamp(&mut ch, now, t);
    assert!(ts2 > ts1);
}

#[test]
fn reorder_puts_sps_before_leading_pps_on_idr() {
    let pps1: &[u8] = &[0x68, 0x01];
    let sps: &[u8] = &[0x67, 0x42, 0xe0, 0x1f];
    let pps2: &[u8] = &[0x68, 0x02];
    let idr: &[u8] = &[0x65, 0x88];
    let ordered = reorder_nals_for_decode(vec![pps1, sps, pps2, idr]);
    assert_eq!(ordered.len(), 4);
    assert_eq!(ordered[0], sps);
    assert_eq!(ordered[1], pps1);
    assert_eq!(ordered[2], pps2);
    assert_eq!(ordered[3], idr);
}

#[test]
fn rtp_packet_bytes() {
    assert_eq!(
        rtp_packet(0x1234, 0x01020304, 0x4e394d01, true, &[9, 8]),
        vec![0x80, 0xe0, 0x12, 0x34, 1, 2, 3, 4, 0x4e, 0x39, 0x4d, 1, 9, 8]
    );
    assert_eq!(rtp_packet(0, 0, 0, false, &[])[1], 0x60);
}

#[test]
fn clients_wait_for_an_idr_picture_with_a_known_sps() {
    let mut hub = StreamHub::new();
    let id = hub.subscribe(2).unwrap();
    assert_eq!(id, 1);
    let p: &[u8] = &[0x41, 1];
    let idr: &[u8] = &[0x65, 2];
    // A slice without an IDR picture goes to nobody who waits.
    let d = publish(&mut hub, 2, &annexb(&[p]), 1).unwrap();
    assert!(d.recipients.is_empty());
    assert_eq!(d.packets.len(), 1);
    // An IDR picture without a parameter set does not either.
    assert!(publish(&mut hub, 2, &annexb(&[idr]), 2).unwrap().recipients.is_empty());
    assert_eq!(publish(&mut hub, 2, &annexb(&[SPS, idr]), 3).unwrap().recipients, vec![1]);
    assert_eq!(publish(&mut hub, 2, &annexb(&[p]), 4).unwrap().recipients, vec![1]);
    // A second client waits while the first one is served.
    let second = hub.subscribe(2).unwrap();
    assert_eq!(second, 2);
    assert_eq!(publish(&mut hub, 2, &annexb(&[p]), 5).unwrap().recipients, vec![1]);
    let mut both = publish(&mut hub, 2, &annexb(&[idr]), 6).unwrap().recipients;
    both.sort();
    assert_eq!(both, vec![1, 2]);
}

#[test]
fn frames_without_a_picture_are_not_sent_but_remembered() {
    let mut hub = StreamHub::new();
    let id = hub.subscribe(1).unwrap();
    assert!(publish(&mut hub, 1, &annexb(&[SPS, &[0x68, 7]]), 1).is_none());
    assert!(publish(&mut hub, 1, &[], 1).is_none());
    assert_eq!(hub.channels[0].sps, Some(SPS.to_vec()));
    assert_eq!(hub.channels[0].pps, Some(vec![0x68, 7]));
    assert_eq!(hub.channels[0].sequence, 1);
    assert!(batch_for(publish(&mut hub, 1, &annexb(&[&[0x65, 1]]), 2), id).is_some());
}

#[test]
fn sequence_numbers_run_on_and_wrap() {
    let mut hub = StreamHub::new();
    hub.channels[3].sequence = 65535;
    let d = publish(&mut hub, 4, &annexb(&[&[0x68, 1], &[0x41, 1]]), 1).unwrap();
    assert_eq!(&d.packets[0][2..4], &[0xff, 0xff]);
    assert_eq!(&d.packets[1][2..4], &[0, 0]);
    assert_eq!(&d.packets[1][8..12], &[0x4e, 0x39, 0x4d, 4]);
    let d = publish(&mut hub, 4, &annexb(&[&[0x41, 1]]), 2).unwrap();
    assert_eq!(&d.packets[0][2..4], &[0, 1]);
}

#[test]
fn long_units_are_fragmented_and_come_back() {
    let mut hub = StreamHub::new();
    let mut nal = vec![0x65u8];
    for i in 0..2999u32 {
        nal.push((i % 250) as u8 + 1);
    }
    let d = publish(&mut hub, 1, &annexb(&[SPS, &nal]), 1).unwrap();
    assert_eq!(d.packets.len(), 4);
    assert_eq!(rtp_payload(&d.packets[0]), SPS);
    let mut back = Vec::new();
    for (i, p) in d.packets[1..].iter().enumerate() {
        let body = rtp_payload(p);
        assert!(body.len() <= 1200);
        assert_eq!(body[0], 0x60 | 28);
        assert_eq!(body[1] & 0x80 != 0, i == 0);
        assert_eq!(body[1] & 0x40 != 0, i == 2);
        assert_eq!(p[1] & 0x80 != 0, i == 2);
        if i == 0 {
            back.push((body[0] & 0x60) | (body[1] & 0x1f));
        }
        back.extend_from_slice(&body[2..]);
    }
    assert_eq!(back, nal);
    let fits = vec![0x41u8; 1200];
    assert_eq!(publish(&mut hub, 1, &annexb(&[&fits]), 2).unwrap().packets.len(), 1);
}

#[test]
fn timestamps_never_go_back() {
    let mut ch = ChannelHub::new();
    assert_eq!(next_rtp_timestamp(&mut ch, 10, 0), 0);
    assert_eq!(ch.stream_epoch, Some(10));
    assert_eq!(next_rtp_timestamp(&mut ch, 11, 0), 0);
    assert_eq!(next_rtp_timestamp(&mut ch, 12, 5), 5);
    assert_eq!(next_rtp_timestamp(&mut ch, 13, 5), 6);
    assert_eq!(next_rtp_timestamp(&mut ch, 14, 2), 7);
    assert_eq!(next_rtp_timestamp(&mut ch, 15, u32::MAX), u32::MAX);
    assert_eq!(next_rtp_timestamp(&mut ch, 16, 1), u32::MAX);
    assert_eq!(ch.stream_epoch, Some(10));
    assert_eq!(ch.elapsed(9), 0);
    assert_eq!(ch.elapsed(25), 15);
}

#[test]
fn subscribing_and_leaving() {
    let mut hub = StreamHub::new();
    assert_eq!(hub.subscribe(0), None);
    assert_eq!(hub.subscribe(5), None);
    assert_eq!(hub.subscribe(3), Some(1));
    assert_eq!(hub.subscribe(3), Some(2));
    assert_eq!(hub.subscribe(3), Some(3));
    assert_eq!(hub.client_count(3), 3);
    assert_eq!(hub.client_count(1), 0);
    assert_eq!(hub.client_count(9), 0);
    hub.unsubscribe(3, 2);
    hub.unsubscribe(3, 77);
    hub.unsubscribe(8, 1);
    assert_eq!(hub.client_count(3), 2);
    hub.drop_failed(3, &[1, 3, 4]);
    assert_eq!(hub.client_count(3), 0);
    assert_eq!(hub.subscribe(3), Some(4));
    assert!(publish(&mut hub, 7, &annexb(&[&[0x65, 1]]), 1).is_none());
}

#[test]
fn a_client_that_left_is_sent_nothing() {
    let mut hub = StreamHub::new();
    let first = hub.subscribe(1).unwrap();
    let second = hub.subscribe(1).unwrap();
    let frame = annexb(&[SPS, &[0x65, 1]]);
    hub.unsubscribe(1, first);
    assert_eq!(publish(&mut hub, 1, &frame, 1).unwrap().recipients, vec![second]);
    hub.unsubscribe(1, second);
    assert!(publish(&mut hub, 1, &frame, 2).unwrap().recipients.is_empty());
    // A client that comes back gets a new number.
    assert_eq!(hub.subscribe(1), Some(3));
}

#[test]
fn session_description() {
    let mut hub = StreamHub::new();
    let plain = hub.sdp(2, "10.0.0.1:8554");
    assert_eq!(
        plain,
        "v=0\r\no=- 0 0 IN IP4 10.0.0.1:8554\r\ns=N9M Channel 2\r\nc=IN IP4 0.0.0.0\r\nt=0 0\r\na=control:*\r\nm=video 0 RTP/AVP 96\r\na=rtpmap:96 H264/90000\r\na=fmtp:96 packetization-mode=1\r\na=control:trackID=0\r\n"
    );
    hub.channels[1].sps = Some(vec![0x67, 0x4d, 0x00, 0x1f, 0x9a]);
    assert!(hub.sdp(2, "h").contains("a=fmtp:96 packetization-mode=1;profile-level-id=4d001f\r\na=control"));
    hub.channels[1].sps = Some(vec![0x67]);
    assert!(hub.sdp(2, "h").contains("profile-level-id=42e01f\r\n"));
}
