use nexus::fix::codec::{
    build_frame, compute_checksum, encode_fix_seqnum, encode_fix_uint, find_tag, next_field,
    parse_fix_bool, parse_fix_uint, push_dec, push_field, tag_slice, validate_checksum,
    ChecksumError, FieldSpan, ParseError,
};

fn frame(begin: &[u8], msg_type: &[u8], fields: &[(u32, &[u8])]) -> Vec<u8> {
    let owned: Vec<(u32, Vec<u8>)> = fields.iter().map(|(t, v)| (*t, v.to_vec())).collect();
    build_frame(begin, msg_type, &owned)
}

#[test]
fn build_frame_exact_bytes() {
    let f = frame(b"FIX.4.4", b"0", &[(34, b"1")]);
    // body "35=0|34=1|" is 10 bytes; checksum is the byte sum mod 256
    let pre = b"8=FIX.4.4\x019=10\x0135=0\x0134=1\x01";
    let sum: u32 = pre.iter().map(|b| *b as u32).sum::<u32>() % 256;
    let mut expect = pre.to_vec();
    expect.extend_from_slice(format!("10={:03}\x01", sum).as_bytes());
    assert_eq!(f, expect);
}

#[test]
fn built_frames_pass_checksum_validation() {
    let f = frame(b"FIX.4.2", b"D", &[(11, b"ORD1"), (55, b"BTC"), (54, b"1")]);
    assert_eq!(validate_checksum(&f), Ok(()));
}

#[test]
fn built_frames_read_back() {
    let f = frame(b"FIX.4.4", b"D", &[(11, b"ORD1"), (55, b"BTC"), (11, b"SECOND")]);
    assert_eq!(tag_slice(&f, 8), Some(&b"FIX.4.4"[..]));
    assert_eq!(tag_slice(&f, 35), Some(&b"D"[..]));
    assert_eq!(tag_slice(&f, 55), Some(&b"BTC"[..]));
    // a repeated tag reads as its first value
    assert_eq!(tag_slice(&f, 11), Some(&b"ORD1"[..]));
    let body_len = parse_fix_uint(tag_slice(&f, 9).unwrap()).unwrap() as usize;
    let body_start = find_tag(&f, 0, 35).unwrap().offset - 3;
    assert_eq!(body_len, f.len() - 7 - body_start);
}

#[test]
fn corrupted_checksum_is_rejected() {
    let mut f = frame(b"FIX.4.4", b"0", &[]);
    let n = f.len();
    f[n - 2] = if f[n - 2] == b'9' { b'0' } else { f[n - 2] + 1 };
    assert_eq!(validate_checksum(&f), Err(ChecksumError));
    assert_eq!(validate_checksum(b"10=00"), Err(ChecksumError));
    assert_eq!(validate_checksum(b"8=X\x0110=0a0\x01"), Err(ChecksumError));
}

#[test]
fn parse_uint_cases() {
    assert_eq!(parse_fix_uint(b"0"), Ok(0));
    assert_eq!(parse_fix_uint(b"4294967295"), Ok(u32::MAX));
    assert_eq!(parse_fix_uint(b"4294967296"), Err(ParseError::InvalidNumber));
    assert_eq!(parse_fix_uint(b""), Err(ParseError::InvalidNumber));
    assert_eq!(parse_fix_uint(b"12a"), Err(ParseError::InvalidNumber));
}

#[test]
fn parse_bool_cases() {
    assert_eq!(parse_fix_bool(b"Y"), Ok(true));
    assert_eq!(parse_fix_bool(b"N"), Ok(false));
    assert_eq!(parse_fix_bool(b"y"), Err(ParseError::InvalidBool));
    assert_eq!(parse_fix_bool(b"YY"), Err(ParseError::InvalidBool));
}

#[test]
fn decimal_round_trip() {
    for n in [0u32, 7, 10, 99, 100, 65535, u32::MAX] {
        let mut out = [0u8; 10];
        let len = encode_fix_uint(n, &mut out);
        assert_eq!(&out[..len], n.to_string().as_bytes());
        assert_eq!(parse_fix_uint(&out[..len]), Ok(n));
    }
    let mut out = [0u8; 20];
    let len = encode_fix_seqnum(u64::MAX, &mut out);
    assert_eq!(&out[..len], b"18446744073709551615");
    let mut v = Vec::new();
    push_dec(&mut v, 1200);
    assert_eq!(v, b"1200");
}

#[test]
fn next_field_walks_fields() {
    let buf = b"35=D\x0111=AB\x01garbage";
    let (f1, p1) = next_field(buf, 0).unwrap();
    assert_eq!(f1.tag, 35);
    assert_eq!(f1.value, FieldSpan { offset: 3, len: 1 });
    let (f2, p2) = next_field(buf, p1).unwrap();
    assert_eq!(f2.tag, 11);
    assert_eq!(f2.value.slice(buf), b"AB");
    assert!(next_field(buf, p2).is_none());
    // a tag too large for u32 is no field
    assert!(next_field(b"4294967296=1\x01", 0).is_none());
    assert!(next_field(b"=1\x01", 0).is_none());
}

#[test]
fn find_tag_stops_at_malformed_field() {
    let buf = b"35=D\x01xx\x0111=A\x01";
    assert!(find_tag(buf, 0, 35).is_some());
    assert!(find_tag(buf, 0, 11).is_none());
}

#[test]
fn push_field_and_checksum() {
    let mut v = Vec::new();
    push_field(&mut v, 58, b"hi");
    assert_eq!(v, b"58=hi\x01");
    assert_eq!(compute_checksum(&v), (v.iter().map(|b| *b as u32).sum::<u32>()) % 256);
}
