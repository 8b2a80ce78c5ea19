use nexus::fix::codec::{parse_fix_bool, parse_fix_uint, AsciiError, ParseError};
use nexus::fix::dict::FixDictionary;
use nexus::fix::header::HeaderDecoder;

#[derive(Debug, Clone, Copy, PartialEq, Eq)]
enum TestMsgType {
    NewOrderSingle,
    Heartbeat,
}

struct TestDict;

impl FixDictionary for TestDict {
    type MsgType = TestMsgType;
    const BEGIN_STRING: &'static [u8] = b"FIX.4.4";

    fn msg_type_from_bytes(bytes: &[u8]) -> Option<TestMsgType> {
        match bytes {
            b"D" => Some(TestMsgType::NewOrderSingle),
            b"0" => Some(TestMsgType::Heartbeat),
            _ => None,
        }
    }

    fn is_admin(msg_type: TestMsgType) -> bool {
        matches!(msg_type, TestMsgType::Heartbeat)
    }
}

#[test]
fn decodes_all_header_fields() {
    let msg = b"8=FIX.4.4\x019=99\x0135=D\x0134=42\x0149=SENDER\x0156=TARGET\x0143=Y\x0152=20260603-14:30:00\x0111=X\x01";
    let h = HeaderDecoder::decode(msg);
    assert_eq!(h.begin_string().unwrap(), b"FIX.4.4");
    assert_eq!(parse_fix_uint(h.body_length().unwrap()), Ok(99));
    assert_eq!(h.msg_type().unwrap(), b"D");
    assert_eq!(parse_fix_uint(h.msg_seq_num().unwrap()), Ok(42));
    assert_eq!(h.sender_comp_id().unwrap(), b"SENDER");
    assert_eq!(h.target_comp_id().unwrap(), b"TARGET");
    assert_eq!(parse_fix_bool(h.poss_dup_flag().unwrap()), Ok(true));
    assert_eq!(h.sending_time().unwrap(), b"20260603-14:30:00");
}

#[test]
fn msg_type_enum_dispatches() {
    let msg = b"35=D\x0111=X\x01";
    let h = HeaderDecoder::decode(msg);
    assert_eq!(h.msg_type_enum::<TestDict>(), Some(TestMsgType::NewOrderSingle));

    let msg2 = b"35=0\x01";
    let h2 = HeaderDecoder::decode(msg2);
    assert_eq!(h2.msg_type_enum::<TestDict>(), Some(TestMsgType::Heartbeat));
    assert!(TestDict::is_admin(h2.msg_type_enum::<TestDict>().unwrap()));
}

#[test]
fn unknown_msg_type_is_none() {
    let msg = b"35=ZZ\x01";
    let h = HeaderDecoder::decode(msg);
    assert!(h.msg_type_enum::<TestDict>().is_none());
}

#[test]
fn absent_fields_are_none() {
    let h = HeaderDecoder::decode(b"11=X\x01");
    assert!(h.begin_string().is_none());
    assert!(h.msg_type().is_none());
    assert!(h.msg_type_enum::<TestDict>().is_none());
    assert!(h.msg_seq_num().is_none());
    assert!(h.poss_dup_flag().is_none());
}

#[test]
fn overflow_captures_first_body_field() {
    let msg = b"8=FIX.4.4\x0135=D\x0111=ORD1\x0155=BTC\x01";
    let h = HeaderDecoder::decode(msg);
    let of = h.overflow.as_ref().unwrap();
    assert_eq!(of.tag, 11);
    assert_eq!(of.value.slice(msg), b"ORD1");
}

#[test]
fn empty_buffer() {
    let h = HeaderDecoder::decode(b"");
    assert!(h.begin_string().is_none());
    assert!(h.overflow.is_none());
}

#[test]
fn repeated_header_tag_keeps_last_value() {
    let h = HeaderDecoder::decode(b"35=D\x0135=8\x01");
    assert_eq!(h.msg_type().unwrap(), b"8");
    assert_eq!(h.buf(), b"35=D\x0135=8\x01");
}

#[test]
fn scan_stops_at_malformed_field() {
    let h = HeaderDecoder::decode(b"35=D\x01x=1\x0111=A\x01");
    assert_eq!(h.msg_type().unwrap(), b"D");
    assert!(h.overflow.is_none());
}

#[test]
fn typed_header_values() {
    let msg = b"8=FIX.4.4\x019=99\x0135=D\x0134=5000000000\x0149=SENDER\x0156=TAR\tGET\x0143=N\x0111=X\x01";
    let h = HeaderDecoder::decode(msg);
    assert_eq!(h.body_length_value(), Some(Ok(99)));
    // a sequence number beyond u32 still fits the u64 value
    assert_eq!(h.msg_seq_num_value(), Some(Ok(5_000_000_000)));
    assert_eq!(h.poss_dup_flag_value(), Some(Ok(false)));
    assert_eq!(h.sender_comp_id_text(), Some(Ok(&b"SENDER"[..])));
    assert_eq!(
        h.target_comp_id_text(),
        Some(Err(AsciiError::NonPrintable { byte: b'\t', pos: 3 }))
    );

    let bad = b"9=x9\x0134=\x0143=maybe\x01";
    let h = HeaderDecoder::decode(bad);
    assert_eq!(h.body_length_value(), Some(Err(ParseError::InvalidNumber)));
    assert_eq!(h.msg_seq_num_value(), Some(Err(ParseError::InvalidNumber)));
    assert_eq!(h.poss_dup_flag_value(), Some(Err(ParseError::InvalidBool)));
    assert_eq!(h.sender_comp_id_text(), None);
}
