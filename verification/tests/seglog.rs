use nexus::seglog::{LogOffset, SegmentedLog, SegmentedLogError};

fn open(size: usize) -> SegmentedLog {
    SegmentedLog::open(size)
}

fn wait_conductor(log: &mut SegmentedLog) {
    log.clean_standby();
    assert!(log.standby_ready());
}

fn footprint(body: usize) -> usize {
    8 + (body + 7) / 8 * 8
}

#[test]
fn tests_roundtrip() {
    let mut log = open(1 << 16);
    let off = log.append(0, b"hello").unwrap();
    let frame = log.read(off).unwrap();
    assert_eq!(frame.payload(), b"hello");
    assert_eq!(frame.session_id(), 0);
}

#[test]
fn tests_multiple_records_in_one_segment() {
    let mut log = open(1 << 16);
    let o1 = log.append(0, b"aaa").unwrap();
    let o2 = log.append(0, b"bb").unwrap();
    let o3 = log.append(0, b"cccc").unwrap();
    assert_eq!(log.read(o1).unwrap().payload(), b"aaa");
    assert_eq!(log.read(o2).unwrap().payload(), b"bb");
    assert_eq!(log.read(o3).unwrap().payload(), b"cccc");
}

#[test]
fn tests_rotation_makes_prev_slot_readable() {
    // footprint(8) = 16; 4 records = 64 bytes; segment_size = 64
    let mut log = open(64);
    let o0 = log.append(0, &[0u8; 8]).unwrap();
    let _o1 = log.append(0, &[1u8; 8]).unwrap();
    let _o2 = log.append(0, &[2u8; 8]).unwrap();
    let o3 = log.append(0, &[3u8; 8]).unwrap();
    // cursor now == 64 == segment_size, so the next append rotates
    let o4 = log.append(0, &[4u8; 8]).unwrap();
    // slot 0 (prev) still readable
    assert_eq!(log.read(o0).unwrap().payload(), &[0u8; 8]);
    assert_eq!(log.read(o3).unwrap().payload(), &[3u8; 8]);
    // slot 1 (current) readable
    assert_eq!(log.read(o4).unwrap().payload(), &[4u8; 8]);
}

#[test]
fn tests_evicted_slot_returns_none() {
    // footprint(8) = 16; 4 records per segment; segment_size = 64
    let mut log = open(64);
    let o0 = log.append(0, &[0u8; 8]).unwrap();
    for _ in 0..3 {
        log.append(0, &[0u8; 8]).unwrap();
    }
    // rotation 1 on the first of the next 4 appends:
    //   slot 0 -> prev, slot 1 -> current, slot 2 -> standby
    for _ in 0..4 {
        log.append(0, &[0u8; 8]).unwrap();
    }
    wait_conductor(&mut log);
    // rotation 2: slot 1 -> prev, slot 2 -> current, slot 0 -> standby
    log.append(0, &[0u8; 1]).unwrap();
    assert!(log.read(o0).is_none());
}

#[test]
fn tests_stale_offset_after_full_cycle_returns_none() {
    let mut log = open(64);
    let stale = log.append(0, &[0u8; 8]).unwrap();
    for _ in 0..3 {
        log.append(0, &[0u8; 8]).unwrap();
    }
    // Rotation 1: slot 1 -> current (gen 1), slot 0 -> prev
    for _ in 0..4 {
        log.append(0, &[0u8; 8]).unwrap();
    }
    wait_conductor(&mut log);
    // Rotation 2: slot 2 -> current (gen 2), slot 1 -> prev, slot 0 -> standby
    for _ in 0..4 {
        log.append(0, &[0u8; 8]).unwrap();
    }
    wait_conductor(&mut log);
    // Rotation 3: slot 0 -> current (gen 3); same slot as `stale`, other gen.
    log.append(0, &[0u8; 8]).unwrap();
    assert!(log.read(stale).is_none());
}

#[test]
fn tests_record_too_large_rejected() {
    let mut log = open(64);
    assert!(log.append(0, &[0u8; 1024]).is_err());
}

#[test]
fn record_too_large_reports_max() {
    let mut log = open(64);
    assert_eq!(
        log.append(0, &[0u8; 57]),
        Err(SegmentedLogError::RecordTooLarge { max: 56 })
    );
    assert!(log.append(0, &[0u8; 56]).is_ok());
}

#[test]
fn rotation_without_clean_standby_is_refused() {
    let mut log = open(64);
    for _ in 0..4 {
        log.append(0, &[0u8; 8]).unwrap();
    }
    // rotation 1 uses the standby cleaned at open
    for _ in 0..4 {
        log.append(0, &[0u8; 8]).unwrap();
    }
    assert!(!log.standby_ready());
    let before = log.write_pos();
    assert_eq!(log.append(0, &[0u8; 8]), Err(SegmentedLogError::StandbyNotReady));
    assert_eq!(log.write_pos(), before);
    wait_conductor(&mut log);
    assert!(log.append(0, &[0u8; 8]).is_ok());
}

#[test]
fn tests_empty_payload_roundtrip() {
    let mut log = open(1 << 16);
    let off = log.append(0, &[]).unwrap();
    assert_eq!(log.read(off).unwrap().payload(), b"");
}

#[test]
fn default_offset_reads_nothing() {
    let mut log = open(1 << 16);
    log.append(0, b"x").unwrap();
    assert!(log.read(LogOffset::default()).is_none());
}

#[test]
fn session_id_roundtrip() {
    let mut log = open(1 << 16);
    let o1 = log.append(42, b"hello").unwrap();
    let o2 = log.append(99, b"world").unwrap();
    let f1 = log.read(o1).unwrap();
    let f2 = log.read(o2).unwrap();
    assert_eq!(f1.session_id(), 42);
    assert_eq!(f1.payload(), b"hello");
    assert_eq!(f2.session_id(), 99);
    assert_eq!(f2.payload(), b"world");
}

#[test]
fn session_id_survives_rotation() {
    let mut log = open(64);
    let o0 = log.append(10, &[0u8; 8]).unwrap();
    for _ in 0..3 {
        log.append(0, &[0u8; 8]).unwrap();
    }
    // triggers rotation
    log.append(20, &[1u8; 8]).unwrap();
    // o0 is in prev segment, still readable
    let f = log.read(o0).unwrap();
    assert_eq!(f.session_id(), 10);
}

#[test]
fn scan_returns_session_id() {
    let mut log = open(1 << 16);
    log.append(1, b"aaa").unwrap();
    log.append(2, b"bbb").unwrap();
    log.append(1, b"ccc").unwrap();

    let mut pos = log.read_start();
    let f1 = log.read_next(&mut pos).unwrap();
    assert_eq!(f1.session_id(), 1);
    assert_eq!(f1.payload(), b"aaa");
    let f2 = log.read_next(&mut pos).unwrap();
    assert_eq!(f2.session_id(), 2);
    assert_eq!(f2.payload(), b"bbb");
    let f3 = log.read_next(&mut pos).unwrap();
    assert_eq!(f3.session_id(), 1);
    assert_eq!(f3.payload(), b"ccc");
    assert!(log.read_next(&mut pos).is_none());
}

#[test]
fn tests_scan_single_segment() {
    let mut log = open(1 << 16);
    log.append(0, b"aaa").unwrap();
    log.append(0, b"bb").unwrap();
    log.append(0, b"cccc").unwrap();

    let mut pos = log.read_start();
    assert_eq!(log.read_next(&mut pos).unwrap().payload(), b"aaa");
    assert_eq!(log.read_next(&mut pos).unwrap().payload(), b"bb");
    assert_eq!(log.read_next(&mut pos).unwrap().payload(), b"cccc");
    assert!(log.read_next(&mut pos).is_none());
}

#[test]
fn tests_scan_across_rotation() {
    let mut log = open(64);
    log.append(0, &[1u8; 8]).unwrap();
    log.append(0, &[2u8; 8]).unwrap();
    log.append(0, &[3u8; 8]).unwrap();
    log.append(0, &[4u8; 8]).unwrap();
    // segment full, next append triggers rotation
    log.append(0, &[5u8; 8]).unwrap();
    log.append(0, &[6u8; 8]).unwrap();

    let mut pos = log.read_start();
    assert_eq!(log.read_next(&mut pos).unwrap().payload(), &[1u8; 8]);
    assert_eq!(log.read_next(&mut pos).unwrap().payload(), &[2u8; 8]);
    assert_eq!(log.read_next(&mut pos).unwrap().payload(), &[3u8; 8]);
    assert_eq!(log.read_next(&mut pos).unwrap().payload(), &[4u8; 8]);
    // crosses into current segment
    assert_eq!(log.read_next(&mut pos).unwrap().payload(), &[5u8; 8]);
    assert_eq!(log.read_next(&mut pos).unwrap().payload(), &[6u8; 8]);
    assert!(log.read_next(&mut pos).is_none());
}

#[test]
fn tests_scan_resumes_after_append() {
    let mut log = open(1 << 16);
    log.append(0, b"first").unwrap();

    let mut pos = log.read_start();
    assert_eq!(log.read_next(&mut pos).unwrap().payload(), b"first");
    assert!(log.read_next(&mut pos).is_none());

    log.append(0, b"second").unwrap();
    assert_eq!(log.read_next(&mut pos).unwrap().payload(), b"second");
    assert!(log.read_next(&mut pos).is_none());
}

#[test]
fn tests_scan_evicted_returns_none() {
    let mut log = open(64);
    let start = log.read_start();
    // fill segment 0
    for _ in 0..4 {
        log.append(0, &[0u8; 8]).unwrap();
    }
    // rotation 1
    for _ in 0..4 {
        log.append(0, &[0u8; 8]).unwrap();
    }
    wait_conductor(&mut log);
    // rotation 2: segment 0 is now standby, evicted
    log.append(0, &[0u8; 8]).unwrap();

    let mut pos = start;
    assert!(log.read_next(&mut pos).is_none());
}

#[test]
fn tests_write_pos_increases_monotonically() {
    let mut log = open(1 << 16);
    let mut prev_pos = log.write_pos();
    assert_eq!(prev_pos, 0);
    for _ in 0..12 {
        log.append(0, &[0u8; 8]).unwrap();
        let wp = log.write_pos();
        assert!(wp > prev_pos, "write_pos must increase: {wp} <= {prev_pos}");
        prev_pos = wp;
    }
}

#[test]
fn tests_write_pos_increases_across_rotation() {
    let mut log = open(64);
    let mut prev_pos = 0u64;
    for i in 0..4 {
        log.append(0, &[i as u8; 8]).unwrap();
        let wp = log.write_pos();
        assert!(wp > prev_pos, "write_pos must increase: {wp} <= {prev_pos}");
        prev_pos = wp;
    }
    // triggers rotation
    log.append(0, &[4u8; 8]).unwrap();
    let wp = log.write_pos();
    assert!(wp > prev_pos, "write_pos must increase after rotation: {wp} <= {prev_pos}");
}

#[test]
fn tests_slot_order_is_sequential() {
    let mut log = open(64);
    assert_eq!(log.current_slot(), 0);
    // fill and rotate
    for _ in 0..4 {
        log.append(0, &[0u8; 8]).unwrap();
    }
    log.append(0, &[0u8; 8]).unwrap();
    assert_eq!(log.current_slot(), 1);
    // fill and rotate again
    for _ in 0..3 {
        log.append(0, &[0u8; 8]).unwrap();
    }
    wait_conductor(&mut log);
    log.append(0, &[0u8; 8]).unwrap();
    assert_eq!(log.current_slot(), 2);
}

#[test]
fn tests_scan_empty_log() {
    let log = open(1 << 16);
    let mut pos = log.read_start();
    assert_eq!(pos, 0);
    assert!(log.read_next(&mut pos).is_none());
    assert_eq!(log.write_pos(), 0);
}

#[test]
fn tests_scan_empty_payloads() {
    let mut log = open(1 << 16);
    log.append(0, &[]).unwrap();
    log.append(0, &[]).unwrap();
    log.append(0, b"x").unwrap();

    let mut pos = log.read_start();
    assert_eq!(log.read_next(&mut pos).unwrap().payload(), b"");
    assert_eq!(log.read_next(&mut pos).unwrap().payload(), b"");
    assert_eq!(log.read_next(&mut pos).unwrap().payload(), b"x");
    assert!(log.read_next(&mut pos).is_none());
}

#[test]
fn tests_scan_variable_size_records() {
    let mut log = open(1 << 16);
    log.append(0, b"a").unwrap();
    log.append(0, b"bb").unwrap();
    log.append(0, b"ccccccccc").unwrap(); // 9 bytes, aligns up to 16
    log.append(0, b"dd").unwrap();

    let mut pos = log.read_start();
    assert_eq!(log.read_next(&mut pos).unwrap().payload(), b"a");
    assert_eq!(log.read_next(&mut pos).unwrap().payload(), b"bb");
    assert_eq!(log.read_next(&mut pos).unwrap().payload(), b"ccccccccc");
    assert_eq!(log.read_next(&mut pos).unwrap().payload(), b"dd");
    assert!(log.read_next(&mut pos).is_none());
}

#[test]
fn tests_scan_cursor_matches_write_pos_after_drain() {
    let mut log = open(64);
    log.append(0, &[1u8; 8]).unwrap();
    log.append(0, &[2u8; 8]).unwrap();
    log.append(0, &[3u8; 8]).unwrap();

    let mut pos = log.read_start();
    while log.read_next(&mut pos).is_some() {}
    assert_eq!(pos, log.write_pos());

    // also holds after rotation
    log.append(0, &[4u8; 8]).unwrap(); // fills segment
    log.append(0, &[5u8; 8]).unwrap(); // triggers rotation
    while log.read_next(&mut pos).is_some() {}
    assert_eq!(pos, log.write_pos());
}

#[test]
fn tests_read_start_advances_after_rotation() {
    let mut log = open(64);
    assert_eq!(log.read_start(), 0);

    // fill segment 0, trigger rotation
    for _ in 0..4 {
        log.append(0, &[0u8; 8]).unwrap();
    }
    log.append(0, &[0u8; 8]).unwrap();
    // epoch 1: prev = segment 0, current = segment 1
    assert_eq!(log.read_start(), 0);

    // fill segment 1, trigger rotation
    for _ in 0..3 {
        log.append(0, &[0u8; 8]).unwrap();
    }
    wait_conductor(&mut log);
    log.append(0, &[0u8; 8]).unwrap();
    // epoch 2: segment 0 is evicted; read_start is at segment 1
    assert_eq!(log.read_start(), 64);
}

#[test]
fn frame_offset_matches_global_position() {
    let mut log = open(1 << 16);
    log.append(0, b"aaa").unwrap();
    log.append(0, b"bbb").unwrap();

    let mut pos = log.read_start();
    let f1 = log.read_next(&mut pos).unwrap();
    assert_eq!(f1.offset(), 0);
    let f2 = log.read_next(&mut pos).unwrap();
    assert_eq!(f2.offset(), footprint(3) as u64);
}

#[test]
fn segment_size_is_rounded_up() {
    assert_eq!(open(10).segment_size(), 64);
    assert_eq!(open(100).segment_size(), 104);
}
