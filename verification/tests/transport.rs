use std::time::Duration;

use nexus::fix::codec::{tag_slice, validate_checksum};
use nexus::fix::transport::{encode_gap_fill, reframe_app, FixConnectionBuilder};

#[test]
fn builder_defaults_and_setters() {
    let b = FixConnectionBuilder::default();
    assert_eq!(b.get_reader_capacity(), 64 * 1024);
    assert_eq!(b.get_writer_capacity(), 64 * 1024);
    assert!(b.get_nodelay());
    assert_eq!(b.get_connect_timeout(), None);
    let b = b
        .reader_capacity(10)
        .writer_capacity(20)
        .nodelay(false)
        .connect_timeout(Duration::from_millis(250));
    assert_eq!(b.get_reader_capacity(), 10);
    assert_eq!(b.get_writer_capacity(), 20);
    assert!(!b.get_nodelay());
    assert_eq!(b.get_connect_timeout(), Some(Duration::from_millis(250)));
}

#[test]
fn gap_fill_frame() {
    let f = encode_gap_fill(b"FIX.4.4", b"US", b"THEM", b"20260603-16:55:33.123", 5, 9);
    assert_eq!(validate_checksum(&f), Ok(()));
    assert_eq!(tag_slice(&f, 35), Some(&b"4"[..]));
    assert_eq!(tag_slice(&f, 34), Some(&b"5"[..]));
    assert_eq!(tag_slice(&f, 49), Some(&b"US"[..]));
    assert_eq!(tag_slice(&f, 56), Some(&b"THEM"[..]));
    assert_eq!(tag_slice(&f, 43), Some(&b"Y"[..]));
    assert_eq!(tag_slice(&f, 123), Some(&b"Y"[..]));
    assert_eq!(tag_slice(&f, 36), Some(&b"9"[..]));
}

#[test]
fn reframe_marks_duplicate_and_keeps_original_time() {
    let orig = b"8=FIX.4.4\x019=40\x0135=D\x0134=7\x0152=OLDTIME\x0111=ORD1\x0110=123\x01";
    let f = reframe_app(orig, b"NEWTIME", b"FIX.4.2");
    assert_eq!(validate_checksum(&f), Ok(()));
    assert_eq!(tag_slice(&f, 8), Some(&b"FIX.4.2"[..]));
    assert_eq!(tag_slice(&f, 35), Some(&b"D"[..]));
    assert_eq!(tag_slice(&f, 34), Some(&b"7"[..]));
    assert_eq!(tag_slice(&f, 52), Some(&b"NEWTIME"[..]));
    assert_eq!(tag_slice(&f, 43), Some(&b"Y"[..]));
    assert_eq!(tag_slice(&f, 122), Some(&b"OLDTIME"[..]));
    assert_eq!(tag_slice(&f, 11), Some(&b"ORD1"[..]));
}

#[test]
fn reframe_without_sending_time_appends_markers() {
    let orig = b"35=8\x0134=3\x0143=N\x0111=X\x01";
    let f = reframe_app(orig, b"T", b"FIX.4.4");
    assert_eq!(tag_slice(&f, 35), Some(&b"8"[..]));
    assert_eq!(tag_slice(&f, 43), Some(&b"Y"[..]));
    assert_eq!(tag_slice(&f, 122), None);
    assert_eq!(tag_slice(&f, 52), None);
}

#[test]
fn reframe_defaults_message_type() {
    let f = reframe_app(b"34=3\x01", b"T", b"FIX.4.4");
    assert_eq!(tag_slice(&f, 35), Some(&b"D"[..]));
}
