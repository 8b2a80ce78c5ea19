use nexus::fix::timestamp::{format_utc_timestamp, UTC_TIMESTAMP_LEN};

fn fmt(nanos: i128) -> String {
    let mut buf = [0u8; UTC_TIMESTAMP_LEN];
    format_utc_timestamp(nanos, &mut buf);
    String::from_utf8(buf.to_vec()).unwrap()
}

#[test]
fn epoch() {
    assert_eq!(fmt(0), "19700101-00:00:00.000");
}

#[test]
fn known_instant() {
    let nanos = 1_780_505_733i128 * 1_000_000_000 + 123_000_000;
    assert_eq!(fmt(nanos), "20260603-16:55:33.123");
}

#[test]
fn leap_day() {
    let nanos = 1_709_208_000i128 * 1_000_000_000;
    assert_eq!(fmt(nanos), "20240229-12:00:00.000");
}

#[test]
fn year_boundary() {
    let nanos = 1_767_225_599i128 * 1_000_000_000 + 999_000_000;
    assert_eq!(fmt(nanos), "20251231-23:59:59.999");
}

#[test]
fn before_epoch() {
    assert_eq!(fmt(-1_000_000), "19691231-23:59:59.999");
}

#[test]
fn sub_millisecond_truncates() {
    assert_eq!(fmt(1_999_999), "19700101-00:00:00.001");
}

#[test]
fn extreme_instants_do_not_panic() {
    let mut buf = [0u8; UTC_TIMESTAMP_LEN];
    // one millisecond before the epoch
    format_utc_timestamp(-1_000_000, &mut buf);
    assert_eq!(&buf, b"19691231-23:59:59.999");
    // seconds beyond i64 wrap; the text keeps its layout
    format_utc_timestamp(i128::MAX, &mut buf);
    assert_eq!(buf[8], b'-');
    format_utc_timestamp(i128::MIN, &mut buf);
    assert_eq!(buf[17], b'.');
    // before year 0 the year prints as 0000
    format_utc_timestamp(-70_000_000_000_000_000_000, &mut buf);
    assert_eq!(&buf[0..4], b"0000");
}
