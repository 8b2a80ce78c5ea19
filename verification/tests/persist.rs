use nexus::fix::persist::{FixJournal, ResendPlan};
use nexus::seglog::SegmentedLog;

fn open_journal(window: usize) -> FixJournal {
    FixJournal::open(SegmentedLog::open(1 << 16), window)
}

#[test]
fn store_and_resend_roundtrip() {
    let mut j = open_journal(64);
    for seq in 1..=5u32 {
        j.store(seq, seq as u64 * 1000, &[seq as u8; 4]).unwrap();
    }

    match j.resend(3, None) {
        ResendPlan::Replay(frame) => {
            let p = frame.payload();
            assert_eq!(u32::from_le_bytes(p[..4].try_into().unwrap()), 3);
            let ts = u64::from_le_bytes(p[4..12].try_into().unwrap());
            assert_eq!(ts, 3000);
            assert_eq!(&p[12..], &[3u8; 4]);
        }
        ResendPlan::GapFill { .. } => panic!("expected Replay"),
    }
}

#[test]
fn recover_sets_next_outbound() {
    let log = {
        let mut j = open_journal(64);
        for seq in 1..=7u32 {
            j.store(seq, 0, &[0u8; 4]).unwrap();
        }
        j.into_log()
    };

    let mut j = FixJournal::open(log, 64);
    assert_eq!(j.next_outbound(), 1);
    j.recover();
    assert_eq!(j.next_outbound(), 8);
}

#[test]
fn gapfill_for_unstored_seq() {
    let mut j = open_journal(64);
    j.store(1, 0, &[1u8; 4]).unwrap();

    match j.resend(2, Some(5)) {
        ResendPlan::GapFill { from: 2, to: Some(5) } => {}
        _ => panic!("expected GapFill"),
    }
}

#[test]
fn inbound_counter() {
    let mut j = open_journal(64);
    assert_eq!(j.next_inbound(), 1);
    j.advance_inbound();
    j.advance_inbound();
    assert_eq!(j.next_inbound(), 3);
    j.set_next_inbound(10);
    assert_eq!(j.next_inbound(), 10);
}

#[test]
fn recover_on_empty_journal_keeps_counter() {
    let mut j = open_journal(8);
    j.recover();
    assert_eq!(j.next_outbound(), 1);
}

#[test]
fn store_sets_next_outbound_and_wraps() {
    let mut j = open_journal(8);
    j.store(41, 0, b"x").unwrap();
    assert_eq!(j.next_outbound(), 42);
    j.store(u32::MAX, 0, b"y").unwrap();
    assert_eq!(j.next_outbound(), 0);
}

#[test]
fn window_slot_reused_by_later_seq_gap_fills_old() {
    let mut j = open_journal(4);
    j.store(1, 0, b"one").unwrap();
    // 5 lands in the same window slot as 1
    j.store(5, 0, b"five").unwrap();
    match j.resend(1, None) {
        ResendPlan::GapFill { from: 1, to: None } => {}
        _ => panic!("expected GapFill"),
    }
    match j.resend(5, None) {
        ResendPlan::Replay(frame) => assert_eq!(&frame.payload()[12..], b"five"),
        _ => panic!("expected Replay"),
    }
}

#[test]
fn store_too_large_is_refused() {
    let mut j = FixJournal::open(SegmentedLog::open(64), 8);
    assert!(j.store(1, 0, &[0u8; 100]).is_err());
    assert_eq!(j.next_outbound(), 1);
}

#[test]
fn cleaning_the_standby_lets_store_go_on() {
    // 64-byte segments: each 8-byte message takes a 32-byte frame
    let mut j = FixJournal::open(SegmentedLog::open(64), 64);
    let mut refused = None;
    for seq in 1..=20u32 {
        match j.store(seq, 0, &[seq as u8; 8]) {
            Ok(()) => {}
            Err(e) => {
                refused = Some((seq, e));
                break;
            }
        }
    }
    let (seq, e) = refused.expect("the log runs out of clean segments");
    assert_eq!(e, nexus::seglog::SegmentedLogError::StandbyNotReady);
    assert!(!j.standby_ready());
    j.clean_standby();
    assert!(j.standby_ready());
    assert_eq!(j.store(seq, 0, &[seq as u8; 8]), Ok(()));
    assert_eq!(j.next_outbound(), seq + 1);
    match j.resend(seq, None) {
        ResendPlan::Replay(f) => assert_eq!(&f.payload()[12..], &[seq as u8; 8]),
        ResendPlan::GapFill { .. } => panic!("expected Replay"),
    }
}
