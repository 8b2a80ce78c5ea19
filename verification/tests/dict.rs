use nexus::fix::codec::{tag_slice, validate_checksum};
use nexus::fix::dict::{AdminHeader, FixDictionary};

#[derive(Debug, Clone, Copy, PartialEq, Eq)]
enum Fix44MsgType {}

struct Fix44;

impl FixDictionary for Fix44 {
    type MsgType = Fix44MsgType;
    const BEGIN_STRING: &'static [u8] = b"FIX.4.4";

    fn msg_type_from_bytes(_: &[u8]) -> Option<Fix44MsgType> {
        None
    }

    fn is_admin(t: Fix44MsgType) -> bool {
        match t {}
    }
}

fn hdr(seq: u32) -> AdminHeader<'static> {
    AdminHeader { seq, sender: b"US", target: b"THEM", ts: b"20260603-16:55:33.123" }
}

/// The frame an encoder wrote, checked for a valid checksum.
fn frame(buf: &[u8], at: Option<(usize, usize)>) -> &[u8] {
    let (start, len) = at.expect("frame fits");
    let f = &buf[start..start + len];
    validate_checksum(f).unwrap();
    assert_eq!(tag_slice(f, 8), Some(&b"FIX.4.4"[..]));
    assert_eq!(tag_slice(f, 49), Some(&b"US"[..]));
    assert_eq!(tag_slice(f, 56), Some(&b"THEM"[..]));
    assert_eq!(tag_slice(f, 52), Some(&b"20260603-16:55:33.123"[..]));
    f
}

#[test]
fn logon_frames() {
    let mut buf = [0u8; 256];
    let at = Fix44::encode_logon(&mut buf, hdr(1), 30);
    let f = frame(&buf, at);
    assert_eq!(tag_slice(f, 35), Some(&b"A"[..]));
    assert_eq!(tag_slice(f, 34), Some(&b"1"[..]));
    assert_eq!(tag_slice(f, 108), Some(&b"30"[..]));
    assert_eq!(tag_slice(f, 141), None);

    let at = Fix44::encode_logon_reset(&mut buf, hdr(1), 30);
    let f = frame(&buf, at);
    assert_eq!(tag_slice(f, 141), Some(&b"Y"[..]));
}

#[test]
fn logout_heartbeat_and_test_request_frames() {
    let mut buf = [0u8; 256];
    let at = Fix44::encode_logout(&mut buf, hdr(7));
    assert_eq!(tag_slice(frame(&buf, at), 35), Some(&b"5"[..]));

    let at = Fix44::encode_heartbeat(&mut buf, hdr(8), Some(&b"probe-1"[..]));
    let f = frame(&buf, at);
    assert_eq!(tag_slice(f, 35), Some(&b"0"[..]));
    assert_eq!(tag_slice(f, 112), Some(&b"probe-1"[..]));
    let at = Fix44::encode_heartbeat(&mut buf, hdr(9), None);
    assert_eq!(tag_slice(frame(&buf, at), 112), None);

    let at = Fix44::encode_test_request(&mut buf, hdr(10), 12_345_678_901);
    let f = frame(&buf, at);
    assert_eq!(tag_slice(f, 35), Some(&b"1"[..]));
    assert_eq!(tag_slice(f, 112), Some(&b"12345678901"[..]));
}

#[test]
fn resend_and_sequence_reset_frames() {
    let mut buf = [0u8; 256];
    let at = Fix44::encode_resend_request(&mut buf, hdr(4), 17);
    let f = frame(&buf, at);
    assert_eq!(tag_slice(f, 35), Some(&b"2"[..]));
    assert_eq!(tag_slice(f, 7), Some(&b"17"[..]));
    assert_eq!(tag_slice(f, 16), Some(&b"0"[..]));

    let at = Fix44::encode_sequence_reset(&mut buf, hdr(5), 40);
    let f = frame(&buf, at);
    assert_eq!(tag_slice(f, 35), Some(&b"4"[..]));
    assert_eq!(tag_slice(f, 43), Some(&b"Y"[..]));
    assert_eq!(tag_slice(f, 123), Some(&b"Y"[..]));
    assert_eq!(tag_slice(f, 36), Some(&b"40"[..]));
}

#[test]
fn reject_frames() {
    let mut buf = [0u8; 256];
    let at = Fix44::encode_reject(&mut buf, hdr(6), 3, Some(35), 11);
    let f = frame(&buf, at);
    assert_eq!(tag_slice(f, 35), Some(&b"3"[..]));
    assert_eq!(tag_slice(f, 45), Some(&b"3"[..]));
    assert_eq!(tag_slice(f, 371), Some(&b"35"[..]));
    assert_eq!(tag_slice(f, 373), Some(&b"11"[..]));

    let at = Fix44::encode_reject(&mut buf, hdr(6), 3, None, 1);
    let f = frame(&buf, at);
    assert_eq!(tag_slice(f, 371), None);
    assert_eq!(tag_slice(f, 373), Some(&b"1"[..]));
}

#[test]
fn frame_too_large_leaves_buffer_untouched() {
    let mut buf = [7u8; 20];
    assert_eq!(Fix44::encode_logout(&mut buf, hdr(1)), None);
    assert_eq!(buf, [7u8; 20]);
}
