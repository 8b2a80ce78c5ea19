use nexus::journal::{
    journal_segment_size, next_step, AppendOffset, recover_tail, FixHeader, Journal, JournalConfig, JournalError,
    ReadRange, Reader, SeqBound, SeqHeader, Step, WriteClaim, Writer,
};

const HSIZE: usize = 16;

fn write_record(w: &mut Writer, segs: &mut Vec<Vec<u8>>, seq: u64, payload: &[u8]) -> WriteClaim {
    let last = segs.len() - 1;
    let claim = w.try_claim(&mut segs[last], payload.len()).unwrap();
    if claim.rolled {
        segs.push(vec![0u8; 64]);
    }
    let last = segs.len() - 1;
    let start = claim.off + 8 + HSIZE;
    segs[last][start..start + payload.len()].copy_from_slice(payload);
    let header = FixHeader { seq, timestamp: seq.wrapping_mul(10) }.to_bytes();
    w.commit(&mut segs[last], claim, &header);
    claim
}

#[test]
fn segment_size_rounding() {
    assert_eq!(journal_segment_size(&JournalConfig { segment_size: 10 }), 64);
    assert_eq!(journal_segment_size(&JournalConfig { segment_size: 100 }), 104);
    assert_eq!(JournalConfig::default().segment_size, 64 * 1024 * 1024);
}

#[test]
fn claim_errors() {
    let mut w = Writer::new(64, 0, 0, 0);
    let mut seg = vec![0u8; 64];
    assert_eq!(w.try_claim(&mut seg, 0), Err(JournalError::EmptyRecord));
    assert_eq!(
        w.try_claim(&mut seg, 57),
        Err(JournalError::RecordTooLarge { frame: 72, capacity: 64 })
    );
}

#[test]
fn committed_records_read_back_in_order() {
    let mut w = Writer::new(64, HSIZE, 0, 0);
    let mut segs = vec![vec![0u8; 64]];
    let c1 = write_record(&mut w, &mut segs, 1, b"hello");
    assert_eq!((c1.off, c1.body, c1.foot, c1.rolled), (0, 21, 32, false));
    let c2 = write_record(&mut w, &mut segs, 2, b"world");
    assert_eq!((c2.off, c2.rolled), (32, false));
    assert_eq!(w.tail(), 64);
    // no room left: the writer rolls to segment 1
    let c3 = write_record(&mut w, &mut segs, 3, b"third");
    assert!(c3.rolled);
    assert_eq!(w.index(), 1);
    assert_eq!(segs.len(), 2);

    let mut r = Reader::new(HSIZE);
    for (seq, payload) in [(1u64, &b"hello"[..]), (2, b"world"), (3, b"third")] {
        let rec = r.next_record(&segs).unwrap();
        let h = FixHeader::from_bytes(rec.header());
        assert_eq!(h.seq(), seq);
        assert_eq!(h.timestamp, seq * 10);
        assert_eq!(rec.payload(), payload);
    }
    assert!(r.next_record(&segs).is_none());
}

#[test]
fn recover_tail_finds_write_position() {
    let mut w = Writer::new(64, HSIZE, 0, 0);
    let mut segs = vec![vec![0u8; 64]];
    write_record(&mut w, &mut segs, 1, b"a");
    assert_eq!(recover_tail(&segs[0], HSIZE), w.tail());
    write_record(&mut w, &mut segs, 2, b"b");
    assert_eq!(recover_tail(&segs[0], HSIZE), w.tail());
    assert_eq!(recover_tail(&vec![0u8; 64], HSIZE), 0);
}

#[test]
fn padding_is_skipped() {
    let mut w = Writer::new(128, HSIZE, 0, 0);
    let mut seg = vec![0u8; 128];
    // one 32-byte frame, then a claim that needs a new segment
    let c = w.try_claim(&mut seg, 5).unwrap();
    w.commit(&mut seg, c, &FixHeader { seq: 1, timestamp: 0 }.to_bytes());
    let big = w.try_claim(&mut seg, 90).unwrap();
    assert!(big.rolled);
    assert_eq!(next_step(&seg, 32, HSIZE), Step::Skip { next: 128 });
}

#[test]
fn read_range_filters_by_seq() {
    let mut w = Writer::new(256, HSIZE, 0, 0);
    let mut segs = vec![vec![0u8; 256]];
    for seq in 1..=5u64 {
        let last = segs.len() - 1;
        let c = w.try_claim(&mut segs[last], 1).unwrap();
        let start = c.off + 8 + HSIZE;
        segs[last][start] = seq as u8;
        w.commit(&mut segs[last], c, &FixHeader { seq, timestamp: 0 }.to_bytes());
    }
    let mut range = ReadRange::new(HSIZE, 2, 4);
    let mut got = Vec::new();
    while let Some(rec) = range.next(&segs) {
        got.push(rec.payload()[0]);
    }
    assert_eq!(got, vec![2, 3, 4]);
}

#[test]
fn open_recovers_writer_and_starts_reader() {
    let cfg = JournalConfig { segment_size: 60 };
    // a fresh journal: segment 0, write position 0
    let (w, mut r) = Journal::open(0, &vec![0u8; 64], &cfg, HSIZE);
    assert_eq!((w.index(), w.tail()), (0, 0));
    assert!(r.next_record(&vec![vec![0u8; 64]]).is_none());

    // reopening the last of three segments resumes after its records
    let mut w = Writer::new(64, HSIZE, 2, 0);
    let mut segs = vec![vec![0u8; 64]];
    write_record(&mut w, &mut segs, 7, b"abc");
    let (w2, mut r2) = Journal::open(3, &segs[0], &cfg, HSIZE);
    assert_eq!((w2.index(), w2.tail()), (2, 32));
    let rec = r2.next_record(&segs).unwrap();
    assert_eq!(FixHeader::from_bytes(rec.header()).seq(), 7);
    assert_eq!(rec.payload(), b"abc");
}

#[test]
fn read_range_bounds_from_range_ends() {
    let mut w = Writer::new(256, HSIZE, 0, 0);
    let mut segs = vec![vec![0u8; 256]];
    for seq in 1..=5u64 {
        write_record(&mut w, &mut segs, seq, &[seq as u8]);
    }
    let r = Reader::new(HSIZE);
    let collect = |mut range: ReadRange| {
        let mut got = Vec::new();
        while let Some(rec) = range.next(&segs) {
            got.push(rec.payload()[0]);
        }
        got
    };
    assert_eq!(collect(r.read_range(SeqBound::Excluded(1), SeqBound::Excluded(5))), vec![2, 3, 4]);
    assert_eq!(collect(r.read_range(SeqBound::Included(4), SeqBound::Unbounded)), vec![4, 5]);
    assert_eq!(collect(r.read_range(SeqBound::Unbounded, SeqBound::Included(2))), vec![1, 2]);
    // an excluded end at the edge of the range saturates
    assert_eq!(collect(r.read_range(SeqBound::Excluded(u64::MAX), SeqBound::Unbounded)), Vec::<u8>::new());
    assert_eq!(collect(r.read_range(SeqBound::Unbounded, SeqBound::Excluded(0))), Vec::<u8>::new());
}

#[test]
fn empty_ranges_yield_nothing() {
    let mut w = Writer::new(256, HSIZE, 0, 0);
    let mut segs = vec![vec![0u8; 256]];
    for seq in [0u64, 1, 2, u64::MAX] {
        write_record(&mut w, &mut segs, seq, &[seq as u8]);
    }
    let r = Reader::new(HSIZE);
    let count = |mut range: ReadRange| {
        let mut n = 0;
        while range.next(&segs).is_some() {
            n += 1;
        }
        n
    };
    // `..0` and `(u64::MAX)..` hold no u64
    assert_eq!(count(r.read_range(SeqBound::Unbounded, SeqBound::Excluded(0))), 0);
    assert_eq!(count(r.read_range(SeqBound::Excluded(u64::MAX), SeqBound::Unbounded)), 0);
    assert_eq!(count(r.read_range(SeqBound::Included(1), SeqBound::Excluded(3))), 2);
    assert_eq!(count(r.read_range(SeqBound::Unbounded, SeqBound::Unbounded)), 4);
}

#[test]
fn last_seq_reads_to_the_end() {
    let mut w = Writer::new(64, HSIZE, 0, 0);
    let mut segs = vec![vec![0u8; 64]];
    let mut r = Reader::new(HSIZE);
    assert_eq!(r.last_seq(&segs), None);
    for seq in 5..=7u64 {
        write_record(&mut w, &mut segs, seq, b"x");
    }
    assert_eq!(segs.len(), 2);
    assert_eq!(r.last_seq(&segs), Some(7));
    // caught up: nothing is left to read
    assert_eq!(r.last_seq(&segs), None);
    assert!(r.next_record(&segs).is_none());
}

#[test]
fn read_from_starts_at_a_committed_record() {
    let mut w = Writer::new(64, HSIZE, 0, 0);
    let mut segs = vec![vec![0u8; 64]];
    let mut offsets = Vec::new();
    for seq in 1..=4u64 {
        let last = segs.len() - 1;
        let claim = w.try_claim(&mut segs[last], 1).unwrap();
        if claim.rolled {
            segs.push(vec![0u8; 64]);
        }
        let last = segs.len() - 1;
        let header = FixHeader { seq, timestamp: 0 }.to_bytes();
        offsets.push(w.commit(&mut segs[last], claim, &header));
    }
    assert_eq!(offsets[0], AppendOffset { segment: 0, offset: 0 });
    assert_eq!(offsets[1], AppendOffset { segment: 0, offset: 32 });
    assert_eq!(offsets[2], AppendOffset { segment: 1, offset: 0 });

    let r = Reader::new(HSIZE);
    let mut range = r.read_from(offsets[1], 0, u64::MAX);
    let mut seqs = Vec::new();
    while let Some(rec) = range.next(&segs) {
        seqs.push(FixHeader::from_bytes(rec.header()).seq);
    }
    assert_eq!(seqs, vec![2, 3, 4]);

    let mut range = r.read_from(offsets[2], 0, 3);
    assert_eq!(FixHeader::from_bytes(range.next(&segs).unwrap().header()).seq, 3);
    assert!(range.next(&segs).is_none());
}

#[test]
fn reader_moves_on_past_a_one_header_tail() {
    let mut w = Writer::new(64, HSIZE, 0, 0);
    let mut segs = vec![vec![0u8; 64]];
    write_record(&mut w, &mut segs, 1, b"");
    write_record(&mut w, &mut segs, 2, b"x");
    // eight bytes are left: the next record rolls to a new segment
    assert_eq!(w.tail(), 56);
    let c = write_record(&mut w, &mut segs, 3, b"y");
    assert!(c.rolled);
    let mut r = Reader::new(HSIZE);
    let mut seqs = Vec::new();
    while let Some(rec) = r.next_record(&segs) {
        seqs.push(FixHeader::from_bytes(rec.header()).seq);
    }
    assert_eq!(seqs, vec![1, 2, 3]);
}

#[test]
fn reopened_journal_reads_back_and_appends_after() {
    let cfg = JournalConfig { segment_size: 64 };
    let mut w = Writer::new(64, HSIZE, 0, 0);
    let mut segs = vec![vec![0u8; 64]];
    for seq in 1..=5u64 {
        write_record(&mut w, &mut segs, seq, &[seq as u8; 3]);
    }
    assert_eq!(segs.len(), 3);
    // open again over the segments as they are
    let (mut w2, mut r2) = Journal::open(segs.len() as u64, &segs[2], &cfg, HSIZE);
    assert_eq!((w2.index(), w2.tail()), (w.index(), w.tail()));
    write_record(&mut w2, &mut segs, 6, &[6u8; 3]);
    let mut got = Vec::new();
    while let Some(rec) = r2.next_record(&segs) {
        got.push((FixHeader::from_bytes(rec.header()).seq, rec.payload().to_vec()));
    }
    let want: Vec<(u64, Vec<u8>)> = (1..=6u64).map(|s| (s, vec![s as u8; 3])).collect();
    assert_eq!(got, want);
}
