use nexus::fix::codec::{build_frame, tag_slice, validate_checksum};
use nexus::fix::persist::FixJournal;
use nexus::fix::session::{DisconnectReason, Session, SessionConfig, State};
use nexus::fix::transport::{Error, FixConnection};
use nexus::seglog::SegmentedLog;

const SEC: u64 = 1_000_000_000;
const HB: u64 = 30 * SEC;
const T0: u64 = 5_000 * SEC;
const WALL: i128 = 1_780_505_733_000_000_000;

fn session() -> Session<'static> {
    Session::new(SessionConfig {
        begin_string: b"FIX.4.4",
        sender_comp_id: b"US",
        target_comp_id: b"THEM",
        heart_bt_int: HB,
    })
}

fn journal() -> FixJournal {
    FixJournal::open(SegmentedLog::open(1 << 16), 64)
}

/// A complete inbound frame from the counterparty.
fn inbound(msg_type: &[u8], seq: u32, extra: &[(u32, &[u8])]) -> Vec<u8> {
    let mut fields: Vec<(u32, Vec<u8>)> = vec![
        (34, seq.to_string().into_bytes()),
        (49, b"THEM".to_vec()),
        (56, b"US".to_vec()),
        (52, b"20260603-16:55:33.000".to_vec()),
    ];
    for (tag, value) in extra {
        fields.push((*tag, value.to_vec()));
    }
    build_frame(b"FIX.4.4", msg_type, &fields)
}

/// Splits the bytes written into frames and returns their message types.
fn sent_types(out: &[u8]) -> Vec<Vec<u8>> {
    let mut types = Vec::new();
    let mut rest = out;
    while let Some(n) = nexus::fix::codec::complete_frame_len(rest) {
        let frame = &rest[..n];
        validate_checksum(frame).unwrap();
        types.push(tag_slice(frame, 35).unwrap().to_vec());
        rest = &rest[n..];
    }
    assert!(rest.is_empty());
    types
}

#[test]
fn acceptor_logon_is_answered() {
    let mut c = FixConnection::from_parts(session(), journal());
    assert!(!c.wants_write());
    let got = c.recv(T0, &inbound(b"A", 1, &[(98, b"0"), (108, b"30")]), WALL);
    assert_eq!(got.result, Ok(None));
    assert!(got.app.is_empty());
    assert_eq!(c.state().state(), State::Active);
    assert!(c.wants_read());
    assert!(c.wants_write());
    let out = c.flush();
    assert_eq!(sent_types(&out), vec![b"A".to_vec()]);
    assert!(!c.wants_write());
    assert!(c.flush().is_empty());
}

#[test]
fn frames_split_across_reads_are_reassembled() {
    let logon = inbound(b"A", 1, &[(98, b"0"), (108, b"30")]);
    let order = inbound(b"D", 2, &[(11, b"ord-1")]);
    let mut all = logon.clone();
    all.extend_from_slice(&order);

    // the same bytes at once and in three pieces
    let mut whole = FixConnection::from_parts(session(), journal());
    let a = whole.recv(T0, &all, WALL);
    let mut split = FixConnection::from_parts(session(), journal());
    let cut1 = logon.len() - 5;
    let cut2 = logon.len() + 7;
    let p1 = split.recv(T0, &all[..cut1], WALL);
    assert_eq!(p1.result, Ok(None));
    assert!(!split.wants_write());
    let p2 = split.recv(T0, &all[cut1..cut2], WALL);
    let p3 = split.recv(T0, &all[cut2..], WALL);

    assert_eq!(a.result, Ok(None));
    assert_eq!(a.app, vec![order.clone()]);
    assert!(p2.app.is_empty());
    assert_eq!(p3.app, vec![order]);
    assert_eq!(whole.flush(), split.flush());
    assert_eq!(whole.state().next_inbound_seq(), 3);
    assert_eq!(split.state().next_inbound_seq(), 3);
}

#[test]
fn logout_ends_the_session_and_stops_at_that_frame() {
    let mut c = FixConnection::from_parts(session(), journal());
    let mut bytes = inbound(b"A", 1, &[(98, b"0"), (108, b"30")]);
    bytes.extend_from_slice(&inbound(b"5", 2, &[]));
    let after = inbound(b"D", 3, &[]);
    bytes.extend_from_slice(&after);
    let got = c.recv(T0, &bytes, WALL);
    assert_eq!(got.result, Ok(Some(DisconnectReason::Logout)));
    assert!(got.app.is_empty());
    assert!(!c.wants_read());
    // the Logon answer, then the Logout confirmation
    assert_eq!(sent_types(&c.flush()), vec![b"A".to_vec(), b"5".to_vec()]);
    // the frame after the Logout stays buffered
    assert_eq!(c.read_room(), 64 * 1024 - after.len());
}

#[test]
fn connection_comp_id_mismatch_disconnects() {
    let mut c = FixConnection::from_parts(session(), journal());
    c.recv(T0, &inbound(b"A", 1, &[(98, b"0"), (108, b"30")]), WALL);
    c.flush();
    let fields: Vec<(u32, Vec<u8>)> =
        vec![(34, b"2".to_vec()), (49, b"OTHER".to_vec()), (56, b"US".to_vec())];
    let got = c.recv(T0, &build_frame(b"FIX.4.4", b"0", &fields), WALL);
    assert_eq!(got.result, Ok(Some(DisconnectReason::CompIdMismatch)));
    assert_eq!(sent_types(&c.flush()), vec![b"5".to_vec()]);
}

#[test]
fn full_read_buffer_without_a_frame_is_too_large() {
    let b = FixConnection::builder().reader_capacity(16);
    let mut c = b.accept(session(), journal());
    assert_eq!(c.read_room(), 16);
    let got = c.recv(T0, b"8=FIX.4.4\x019=500\x0135=", WALL);
    assert_eq!(got.result, Err(Error::FrameTooLarge(19)));
    assert_eq!(c.read_room(), 0);
}

#[test]
fn admin_frame_larger_than_write_buffer_is_dropped() {
    let mut c = FixConnection::builder().writer_capacity(40).accept(session(), journal());
    assert_eq!(c.connect(T0, WALL), Ok(()));
    // the Logon did not fit: nothing is written and nothing stays pending
    assert!(!c.wants_write());
    assert!(!c.state().has_pending());
    assert_eq!(c.state().state(), State::LogonSent);
    assert_eq!(c.state().next_outbound_seq(), 2);
}

#[test]
fn resend_frame_larger_than_write_buffer_is_too_large() {
    let mut conn = FixConnection::builder().writer_capacity(200).accept(initiator(), journal());
    conn.connect(T0, WALL).unwrap();
    assert!(conn.wants_write());
    conn.flush();
    let logon = peer_frame(b"ACCEPTOR", b"INITIATOR", b"A", 1, &[(108, b"30")]);
    assert_eq!(conn.recv(T0, &logon, WALL).result, Ok(None));
    conn.flush();
    let mut big: Vec<(u32, &[u8])> = Vec::new();
    let text = vec![b'x'; 300];
    big.push((58, &text));
    let order = peer_frame(b"INITIATOR", b"ACCEPTOR", b"D", 2, &big);
    assert_eq!(conn.allocate_seq(T0), 2);
    assert_eq!(conn.send_app(2, 100, &order), Ok(()));
    conn.flush();
    let request = peer_frame(b"ACCEPTOR", b"INITIATOR", b"2", 2, &[(7, b"2"), (16, b"2")]);
    let got = conn.recv(T0, &request, WALL);
    assert_eq!(got.result, Err(Error::FrameTooLarge(200)));
}

#[test]
fn connect_logout_and_timeouts() {
    let mut c = FixConnection::from_parts(session(), journal());
    assert_eq!(c.connect(T0, WALL), Ok(()));
    assert_eq!(c.state().state(), State::LogonSent);
    assert_eq!(sent_types(&c.flush()), vec![b"A".to_vec()]);
    // no answer within a heartbeat interval
    assert_eq!(c.on_timeout(T0 + HB, WALL), Ok(Some(DisconnectReason::LogonTimeout)));
    assert!(c.flush().is_empty());

    let mut c = FixConnection::from_parts(session(), journal());
    c.connect(T0, WALL).unwrap();
    c.recv(T0, &inbound(b"A", 1, &[(98, b"0"), (108, b"30")]), WALL);
    c.flush();
    // a heartbeat interval of silence on our side
    assert_eq!(c.on_timeout(T0 + HB, WALL), Ok(None));
    assert_eq!(sent_types(&c.flush()), vec![b"0".to_vec()]);
    assert_eq!(c.logout(T0 + HB, WALL), Ok(()));
    assert_eq!(c.state().state(), State::LogoutPending);
    assert_eq!(sent_types(&c.flush()), vec![b"5".to_vec()]);
}

#[test]
fn send_app_journals_and_queues() {
    let mut c = FixConnection::from_parts(session(), journal());
    c.recv(T0, &inbound(b"A", 1, &[(98, b"0"), (108, b"30")]), WALL);
    c.flush();
    let seq = c.allocate_seq(T0);
    assert_eq!(seq, 2);
    assert_eq!(c.state().next_outbound_seq(), 3);
    let order = inbound(b"D", seq, &[(11, b"ord-1")]);
    assert!(c.has_journal_room());
    assert_eq!(c.send_app(seq, 77, &order), Ok(()));
    assert_eq!(c.flush(), order);
}

#[test]
fn state_mut_drives_the_session() {
    let mut c = FixConnection::from_parts(session(), journal());
    c.state_mut().connect(T0);
    assert_eq!(c.state().state(), State::LogonSent);
    // the Logon was queued on the session, not encoded by the connection
    assert!(!c.wants_write());
    assert!(c.state().has_pending());
}

fn initiator() -> Session<'static> {
    Session::new(SessionConfig {
        begin_string: b"FIX.4.4",
        sender_comp_id: b"INITIATOR",
        target_comp_id: b"ACCEPTOR",
        heart_bt_int: HB,
    })
}

fn acceptor() -> Session<'static> {
    Session::new(SessionConfig {
        begin_string: b"FIX.4.4",
        sender_comp_id: b"ACCEPTOR",
        target_comp_id: b"INITIATOR",
        heart_bt_int: HB,
    })
}

/// A frame from `from` to `to`.
fn peer_frame(from: &[u8], to: &[u8], msg_type: &[u8], seq: u32, extra: &[(u32, &[u8])]) -> Vec<u8> {
    let mut fields: Vec<(u32, Vec<u8>)> = vec![
        (34, seq.to_string().into_bytes()),
        (49, from.to_vec()),
        (56, to.to_vec()),
        (52, b"20260615-12:00:00.000".to_vec()),
    ];
    for (tag, value) in extra {
        fields.push((*tag, value.to_vec()));
    }
    build_frame(b"FIX.4.4", msg_type, &fields)
}

#[test]
fn initiator_logon_and_logout() {
    let mut conn = FixConnection::from_parts(initiator(), journal());
    conn.connect(T0, WALL).unwrap();
    let logon = conn.flush();
    assert_eq!(sent_types(&logon), vec![b"A".to_vec()]);
    assert_eq!(tag_slice(&logon, 49), Some(&b"INITIATOR"[..]));

    let mut peer = peer_frame(b"ACCEPTOR", b"INITIATOR", b"A", 1, &[(108, b"30")]);
    peer.extend_from_slice(&peer_frame(b"ACCEPTOR", b"INITIATOR", b"5", 2, &[]));
    let got = conn.recv(T0 + SEC, &peer, WALL);
    assert_eq!(got.result, Ok(Some(DisconnectReason::Logout)));
    assert_eq!(sent_types(&conn.flush()), vec![b"5".to_vec()]);
}

#[test]
fn acceptor_receives_app_message() {
    let mut conn = FixConnection::from_parts(acceptor(), journal());
    let logon = peer_frame(b"INITIATOR", b"ACCEPTOR", b"A", 1, &[(108, b"30")]);
    assert_eq!(conn.recv(T0, &logon, WALL).result, Ok(None));
    assert_eq!(sent_types(&conn.flush()), vec![b"A".to_vec()]);

    let mut rest = peer_frame(b"INITIATOR", b"ACCEPTOR", b"D", 2, &[(11, b"ORD-1")]);
    rest.extend_from_slice(&peer_frame(b"INITIATOR", b"ACCEPTOR", b"5", 3, &[]));
    let got = conn.recv(T0, &rest, WALL);
    assert_eq!(got.result, Ok(Some(DisconnectReason::Logout)));
    assert_eq!(got.app.len(), 1);
    assert!(got.app[0].starts_with(b"8=FIX.4.4"));
    assert_eq!(tag_slice(&got.app[0], 11), Some(&b"ORD-1"[..]));
}

#[test]
fn resend_request_triggers_gap_fill() {
    let mut conn = FixConnection::from_parts(initiator(), journal());
    conn.connect(T0, WALL).unwrap();
    conn.flush();
    let mut peer = peer_frame(b"ACCEPTOR", b"INITIATOR", b"A", 1, &[(108, b"30")]);
    peer.extend_from_slice(&peer_frame(
        b"ACCEPTOR",
        b"INITIATOR",
        b"2",
        2,
        &[(7, b"2"), (16, b"3")],
    ));
    assert_eq!(conn.recv(T0, &peer, WALL).result, Ok(None));
    let out = conn.flush();
    assert_eq!(sent_types(&out), vec![b"4".to_vec()]);
    assert_eq!(tag_slice(&out, 123), Some(&b"Y"[..]));
    assert_eq!(tag_slice(&out, 34), Some(&b"2"[..]));
    assert_eq!(tag_slice(&out, 36), Some(&b"4"[..]));

    let got = conn.recv(T0, &peer_frame(b"ACCEPTOR", b"INITIATOR", b"5", 3, &[]), WALL);
    assert_eq!(got.result, Ok(Some(DisconnectReason::Logout)));
}

#[test]
fn comp_id_mismatch_before_logon_is_reported() {
    let fields: Vec<(u32, Vec<u8>)> =
        vec![(34, b"1".to_vec()), (49, b"EVIL".to_vec()), (56, b"US".to_vec())];
    let frame = build_frame(b"FIX.4.4", b"D", &fields);
    // no session yet: the mismatch is reported, and there is nothing to log out of
    let mut c = FixConnection::from_parts(session(), journal());
    let got = c.recv(T0, &frame, WALL);
    assert_eq!(got.result, Ok(Some(DisconnectReason::CompIdMismatch)));
    assert!(c.flush().is_empty());
    // waiting for the Logon answer: the session ends with a Logout
    let mut c = FixConnection::from_parts(session(), journal());
    c.connect(T0, WALL).unwrap();
    c.flush();
    let got = c.recv(T0, &frame, WALL);
    assert_eq!(got.result, Ok(Some(DisconnectReason::CompIdMismatch)));
    assert_eq!(sent_types(&c.flush()), vec![b"5".to_vec()]);
    assert_eq!(c.state().state(), State::Disconnected);
}

/// Splits the bytes written into frames.
fn sent_frames(out: &[u8]) -> Vec<Vec<u8>> {
    let mut frames = Vec::new();
    let mut rest = out;
    while let Some(n) = nexus::fix::codec::complete_frame_len(rest) {
        validate_checksum(&rest[..n]).unwrap();
        frames.push(rest[..n].to_vec());
        rest = &rest[n..];
    }
    assert!(rest.is_empty());
    frames
}

#[test]
fn resend_replays_journaled_messages_and_fills_holes() {
    let mut conn = FixConnection::from_parts(initiator(), journal());
    conn.connect(T0, WALL).unwrap();
    conn.flush();
    let logon = peer_frame(b"ACCEPTOR", b"INITIATOR", b"A", 1, &[(108, b"30")]);
    assert_eq!(conn.recv(T0, &logon, WALL).result, Ok(None));
    conn.flush();

    // 2 and 4 are journaled, 3 never was
    let order2 = peer_frame(b"INITIATOR", b"ACCEPTOR", b"D", 2, &[(11, b"ord-2")]);
    let order4 = peer_frame(b"INITIATOR", b"ACCEPTOR", b"D", 4, &[(11, b"ord-4")]);
    assert_eq!(conn.allocate_seq(T0), 2);
    assert_eq!(conn.send_app(2, 100, &order2), Ok(()));
    assert_eq!(conn.allocate_seq(T0), 3);
    assert_eq!(conn.allocate_seq(T0), 4);
    assert_eq!(conn.send_app(4, 300, &order4), Ok(()));
    conn.flush();

    // everything from 2 on
    let request = peer_frame(b"ACCEPTOR", b"INITIATOR", b"2", 2, &[(7, b"2"), (16, b"0")]);
    assert_eq!(conn.recv(T0, &request, WALL).result, Ok(None));
    let frames = sent_frames(&conn.flush());
    assert_eq!(frames.len(), 3);

    assert_eq!(tag_slice(&frames[0], 35), Some(&b"D"[..]));
    assert_eq!(tag_slice(&frames[0], 34), Some(&b"2"[..]));
    assert_eq!(tag_slice(&frames[0], 43), Some(&b"Y"[..]));
    assert_eq!(tag_slice(&frames[0], 122), Some(&b"20260615-12:00:00.000"[..]));
    assert_eq!(tag_slice(&frames[0], 11), Some(&b"ord-2"[..]));
    assert_ne!(tag_slice(&frames[0], 52), Some(&b"20260615-12:00:00.000"[..]));

    assert_eq!(tag_slice(&frames[1], 35), Some(&b"4"[..]));
    assert_eq!(tag_slice(&frames[1], 34), Some(&b"3"[..]));
    assert_eq!(tag_slice(&frames[1], 123), Some(&b"Y"[..]));
    assert_eq!(tag_slice(&frames[1], 36), Some(&b"4"[..]));

    assert_eq!(tag_slice(&frames[2], 35), Some(&b"D"[..]));
    assert_eq!(tag_slice(&frames[2], 34), Some(&b"4"[..]));
    assert_eq!(tag_slice(&frames[2], 11), Some(&b"ord-4"[..]));

    // a range that ends in numbers never journaled closes with a gap fill
    let request = peer_frame(b"ACCEPTOR", b"INITIATOR", b"2", 3, &[(7, b"4"), (16, b"6")]);
    assert_eq!(conn.recv(T0, &request, WALL).result, Ok(None));
    let frames = sent_frames(&conn.flush());
    assert_eq!(frames.len(), 2);
    assert_eq!(tag_slice(&frames[0], 34), Some(&b"4"[..]));
    assert_eq!(tag_slice(&frames[0], 35), Some(&b"D"[..]));
    assert_eq!(tag_slice(&frames[1], 35), Some(&b"4"[..]));
    assert_eq!(tag_slice(&frames[1], 34), Some(&b"5"[..]));
    assert_eq!(tag_slice(&frames[1], 36), Some(&b"7"[..]));
}
