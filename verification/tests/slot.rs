use nexus::slot::{slot_read_start, ShmSlotReader, ShmSlotWriter, SlotRead, SlotStep};

#[test]
fn empty_before_first_write() {
    let r = ShmSlotReader::<u64>::attach();
    assert_eq!(r.start(0, true), SlotStep::Empty);
    assert!(matches!(r.fall_back(), SlotRead::Empty));
}

#[test]
fn write_in_progress_retries_while_writer_lives() {
    assert_eq!(slot_read_start(3, true), SlotStep::Retry);
    assert_eq!(slot_read_start(3, false), SlotStep::FallBack);
}

#[test]
fn write_read_roundtrip() {
    let mut r = ShmSlotReader::<u64>::attach();
    assert_eq!(r.start(2, true), SlotStep::Copy);
    assert!(matches!(r.on_copy(2, 42, 2), Some(SlotRead::Fresh(v)) if *v == 42));
    assert_eq!(r.start(4, true), SlotStep::Copy);
    assert!(matches!(r.on_copy(4, 99, 4), Some(SlotRead::Fresh(v)) if *v == 99));
}

#[test]
fn raced_copy_is_retried() {
    let mut r = ShmSlotReader::<u64>::attach();
    assert!(r.on_copy(4, 7, 6).is_none());
    assert!(matches!(r.fall_back(), SlotRead::Empty));
}

#[test]
fn dead_writer_mid_write_gives_last_good_value() {
    let mut r = ShmSlotReader::<u64>::attach();
    assert!(r.on_copy(2, 55, 2).is_some());
    // a later copy raced by a write does not replace it
    assert!(r.on_copy(4, 66, 5).is_none());
    assert_eq!(r.start(5, false), SlotStep::FallBack);
    assert!(matches!(r.fall_back(), SlotRead::Stale(v) if *v == 55));
}

#[test]
fn reader_sees_latest_after_multiple_writes() {
    // a thousand writes leave the version at 2000
    let mut r = ShmSlotReader::<u64>::attach();
    assert_eq!(r.start(2000, true), SlotStep::Copy);
    assert!(matches!(r.on_copy(2000, 999, 2000), Some(SlotRead::Fresh(v)) if *v == 999));
}

#[test]
fn writer_drop_marks_dead_reader_still_reads() {
    let mut r = ShmSlotReader::<u64>::attach();
    assert!(matches!(r.on_copy(2, 55, 2), Some(SlotRead::Fresh(v)) if *v == 55));
    // the writer is gone but left an even version: the value is still read
    assert_eq!(r.start(2, false), SlotStep::Copy);
    assert!(matches!(r.on_copy(2, 55, 2), Some(SlotRead::Fresh(v)) if *v == 55));
}

#[test]
fn writer_brackets_each_write_with_odd_and_even_versions() {
    let mut w = ShmSlotWriter::create();
    let r = ShmSlotReader::<u64>::attach();
    assert_eq!(r.start(0, true), SlotStep::Empty);
    let v1 = w.begin();
    assert_eq!(v1, 1);
    assert_eq!(r.start(v1, true), SlotStep::Retry);
    assert_eq!(r.start(v1, false), SlotStep::FallBack);
    let v2 = w.end();
    assert_eq!(v2, 2);
    assert_eq!(r.start(v2, true), SlotStep::Copy);
    assert_eq!((w.begin(), w.end()), (3, 4));
}
