use nexus::buf::{WriteBuf, WriteBufWriter};

#[test]
fn new_layout() {
    let buf = WriteBuf::new(128, 14);
    assert_eq!(buf.capacity(), 128);
    assert_eq!(buf.headroom(), 14);
    assert_eq!(buf.tailroom(), 114);
    assert!(buf.is_empty());
}

#[test]
fn append_data() {
    let mut buf = WriteBuf::new(128, 14);
    buf.append(b"Hello");
    assert_eq!(buf.data(), b"Hello");
    assert_eq!(buf.len(), 5);
}

#[test]
fn prepend_data() {
    let mut buf = WriteBuf::new(128, 14);
    buf.append(b"World");
    buf.prepend(b"Hello");
    assert_eq!(buf.data(), b"HelloWorld");
    assert_eq!(buf.len(), 10);
}

#[test]
fn prepend_then_append() {
    let mut buf = WriteBuf::new(128, 14);
    buf.append(b"payload");
    buf.prepend(&[0x81, 0x07]); // WS-like header
    let d = buf.data();
    assert_eq!(&d[..2], &[0x81, 0x07]);
    assert_eq!(&d[2..], b"payload");
}

#[test]
fn advance_partial_write() {
    let mut buf = WriteBuf::new(128, 14);
    buf.append(b"Hello, world!");
    buf.advance(7);
    assert_eq!(buf.data(), b"world!");
    assert_eq!(buf.len(), 6);
}

#[test]
fn headroom_tailroom_tracking() {
    let mut buf = WriteBuf::new(128, 14);
    assert_eq!(buf.headroom(), 14);
    assert_eq!(buf.tailroom(), 114);

    buf.append(b"12345");
    assert_eq!(buf.headroom(), 14);
    assert_eq!(buf.tailroom(), 109);

    buf.prepend(b"AB");
    assert_eq!(buf.headroom(), 12);
    assert_eq!(buf.tailroom(), 109);
}

#[test]
fn clear_resets() {
    let mut buf = WriteBuf::new(128, 14);
    buf.append(b"data");
    buf.prepend(b"hdr");
    buf.clear();
    assert!(buf.is_empty());
    assert_eq!(buf.headroom(), 14);
    assert_eq!(buf.tailroom(), 114);
}

#[test]
fn multiple_cycles() {
    let mut buf = WriteBuf::new(64, 10);
    for i in 0u8..5 {
        buf.clear();
        buf.append(&[i; 4]);
        buf.prepend(&[0xFF, i]);
        assert_eq!(buf.len(), 6);
        assert_eq!(buf.data()[0], 0xFF);
        assert_eq!(buf.data()[1], i);
        assert_eq!(&buf.data()[2..], &[i; 4]);
    }
}

#[test]
fn zero_length_operations() {
    let mut buf = WriteBuf::new(32, 8);
    buf.append(b"");
    buf.prepend(b"");
    assert!(buf.is_empty());
    buf.advance(0);
    assert!(buf.is_empty());
}

#[test]
fn advance_auto_resets_on_empty() {
    let mut buf = WriteBuf::new(64, 10);
    buf.append(b"Hello");
    buf.advance(5);
    assert!(buf.is_empty());
    // Auto-reset: headroom returns to its initial value, no clear() needed.
    assert_eq!(buf.headroom(), 10);
    assert_eq!(buf.tailroom(), 54);
}

#[test]
fn advance_partial_does_not_reset() {
    let mut buf = WriteBuf::new(64, 10);
    buf.append(b"Hello");
    buf.advance(2);
    // Still has data, no reset.
    assert_eq!(buf.data(), b"llo");
    assert_eq!(buf.headroom(), 12);
}

#[test]
fn cursor_fifo_cycle() {
    // Write into spare, commit with filled, partially drain via advance, repeat.
    let mut buf = WriteBuf::new(32, 0);

    buf.spare()[..10].copy_from_slice(b"0123456789");
    buf.filled(10);
    assert_eq!(buf.data(), b"0123456789");

    buf.advance(4);
    assert_eq!(buf.data(), b"456789");

    // Spare reflects the post-tail region; head is mid-buffer.
    assert_eq!(buf.spare().len(), 22);
    buf.spare()[..3].copy_from_slice(b"ABC");
    buf.filled(3);
    assert_eq!(buf.data(), b"456789ABC");

    buf.advance(9);
    assert!(buf.is_empty());
    // Auto-reset gave us full tailroom back.
    assert_eq!(buf.tailroom(), 32);
}

#[test]
fn spare_is_post_tail_region() {
    let mut buf = WriteBuf::new(32, 8);
    // tail starts at headroom offset, so spare is buf[8..32]
    assert_eq!(buf.spare().len(), 24);
    buf.append(b"hi");
    // tail advanced by 2, spare shrinks by 2
    assert_eq!(buf.spare().len(), 22);
}

#[test]
fn extend_zeroed_and_shrink_tail() {
    let mut buf = WriteBuf::new(32, 4);
    buf.append(b"ab");
    buf.extend_zeroed(3);
    assert_eq!(buf.data(), &[b'a', b'b', 0, 0, 0]);
    buf.shrink_tail(2);
    assert_eq!(buf.data(), &[b'a', b'b', 0]);
    assert_eq!(buf.tailroom(), 32 - 4 - 3);
}

#[test]
fn data_mut_edits_in_place() {
    let mut buf = WriteBuf::new(16, 2);
    buf.append(b"abc");
    buf.data_mut()[1] = b'X';
    assert_eq!(buf.data(), b"aXc");
}

#[test]
fn writer_appends_and_counts() {
    let mut buf = WriteBuf::new(8, 2);
    {
        let mut w = WriteBufWriter::new(&mut buf);
        assert_eq!(w.write(b"abc"), Some(3));
        assert_eq!(w.write(b"de"), Some(2));
        assert_eq!(w.written(), 5);
        // only one byte of tailroom is left
        assert_eq!(w.write(b"xy"), None);
        assert_eq!(w.written(), 5);
    }
    assert_eq!(buf.data(), b"abcde");
}
