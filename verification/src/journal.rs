use vstd::prelude::*;

use crate::seglog::{foot, footprint, le_byte, lemma_le_bytes, u32_at};

verus! {

/// Bytes of a frame's header: a 4-byte signed marker, then 4 unused bytes.
pub const LEN_SIZE: usize = 8;

/// Smallest frame a record takes: a frame header and at least one aligned
/// body word. A reader with less room than that left in a segment is at its
/// end.
pub const MIN_FRAME: usize = 16;

/// Smallest segment a journal uses.
pub const MIN_SEGMENT: usize = 64;

/// The signed little-endian `i32` marker at `seg[off..off + 4]`: the body
/// length of a committed frame, negative for a padding frame (which runs to
/// the end of the segment), or 0 where nothing is committed.
pub open spec fn marker_at(seg: Seq<u8>, off: int) -> int {
    let u = u32_at(seg, off);
    if u < 0x8000_0000 {
        u
    } else {
        u - 0x1_0000_0000
    }
}

/// What a reader finds at a position of a segment.
#[derive(Clone, Copy, Debug, PartialEq, Eq, Structural)]
pub enum Step {
    /// No frame header fits before the end of the segment.
    SegmentEnd,
    /// Nothing committed here yet: the reader has caught up.
    CaughtUp,
    /// A padding frame; the next frame header is at `next`.
    Skip { next: usize },
    /// A committed frame too short for the record header, or running past
    /// the end of the segment.
    Invalid,
    /// A committed frame whose body (record header and payload) is
    /// `seg[off + LEN_SIZE..off + LEN_SIZE + body]`; the next frame is at
    /// `next`.
    Record { off: usize, body: usize, next: usize },
}

/// What [`next_step`] finds at `cursor` for records with `hsize`-byte
/// headers.
pub open spec fn step_spec(seg: Seq<u8>, cursor: int, hsize: int) -> Step {
    if cursor + 8 > seg.len() {
        Step::SegmentEnd
    } else {
        let v = marker_at(seg, cursor);
        if v == 0 {
            Step::CaughtUp
        } else if v < 0 {
            Step::Skip { next: seg.len() as usize }
        } else if v < hsize || cursor + 8 + v > seg.len() {
            Step::Invalid
        } else {
            Step::Record { off: cursor as usize, body: v as usize, next: (cursor + foot(v)) as usize }
        }
    }
}

/// The write position recovered from a segment: past every committed or
/// padding frame from `cur`, up to the first uncommitted header, the first
/// frame that is invalid or does not fit, or the end of the segment.
pub open spec fn tail_spec(seg: Seq<u8>, cur: int, hsize: int) -> int
    decreases seg.len() - cur,
{
    if cur < 0 || cur + 8 > seg.len() {
        cur
    } else {
        match step_spec(seg, cur, hsize) {
            Step::Skip { next } => if next + 8 > seg.len() || next <= cur {
                next as int
            } else {
                tail_spec(seg, next as int, hsize)
            },
            Step::Record { off, body, next } => if next > seg.len() {
                cur
            } else if next + 8 > seg.len() || next <= cur {
                next as int
            } else {
                tail_spec(seg, next as int, hsize)
            },
            _ => cur,
        }
    }
}

fn marker(seg: &[u8], off: usize) -> (r: i64)
    requires
        off + 4 <= seg@.len(),
    ensures
        r == marker_at(seg@, off as int),
{
    let u: u64 = seg[off] as u64 + seg[off + 1] as u64 * 256 + seg[off + 2] as u64 * 65536
        + seg[off + 3] as u64 * 16777216;
    if u < 0x8000_0000 {
        u as i64
    } else {
        u as i64 - 0x1_0000_0000
    }
}

/// Decides what the frame at `cursor` of `seg` is.
pub fn next_step(seg: &[u8], cursor: usize, hsize: usize) -> (r: Step)
    requires
        seg@.len() + 0x1_0000_0000 <= usize::MAX,
    ensures
        r == step_spec(seg@, cursor as int, hsize as int),
{
    let len = seg.len();
    if cursor > len || len - cursor < LEN_SIZE {
        return Step::SegmentEnd;
    }
    let v = marker(seg, cursor);
    if v == 0 {
        Step::CaughtUp
    } else if v < 0 {
        Step::Skip { next: len }
    } else {
        let body = v as usize;
        if body < hsize || (len - cursor - LEN_SIZE) < body {
            Step::Invalid
        } else {
            Step::Record { off: cursor, body, next: cursor + footprint(body) }
        }
    }
}

/// Recovers the write position of a segment opened again: walks committed
/// and padding frames from the start.
pub fn recover_tail(seg: &[u8], hsize: usize) -> (r: usize)
    requires
        seg@.len() + 0x1_0000_0000 <= usize::MAX,
    ensures
        r == tail_spec(seg@, 0, hsize as int),
{
    let len = seg.len();
    let mut cur: usize = 0;
    if len < LEN_SIZE {
        return cur;
    }
    loop
        invariant
            len == seg@.len(),
            seg@.len() + 0x1_0000_0000 <= usize::MAX,
            cur + 8 <= seg@.len(),
            tail_spec(seg@, cur as int, hsize as int) == tail_spec(seg@, 0, hsize as int),
        decreases seg@.len() - cur,
    {
        match next_step(seg, cur, hsize) {
            Step::Skip { next } => {
                if next > len || len - next < LEN_SIZE {
                    return next;
                }
                cur = next;
            },
            Step::Record { off, body, next } => {
                if next > len {
                    return cur;
                }
                if len - next < LEN_SIZE {
                    return next;
                }
                cur = next;
            },
            _ => {
                return cur;
            },
        }
    }
}

/// Why a record cannot be claimed.
#[derive(Clone, Copy, Debug, PartialEq, Eq, Structural)]
pub enum JournalError {
    /// Header and payload are both empty.
    EmptyRecord,
    /// The frame does not fit in a segment, or its body in an `i32`.
    RecordTooLarge { frame: usize, capacity: usize },
}

/// Segment size of a journal: at least [`MIN_SEGMENT`], rounded up to 8.
#[derive(Clone, Copy, Debug)]
pub struct JournalConfig {
    pub segment_size: usize,
}

impl Default for JournalConfig {
    /// 64 MiB segments.
    fn default() -> (r: Self)
        ensures
            r.segment_size == 64 * 1024 * 1024,
    {
        JournalConfig { segment_size: 64 * 1024 * 1024 }
    }
}

/// The segment size a configuration asks for, as the journal uses it.
pub open spec fn segment_size_spec(requested: int) -> int {
    crate::seglog::align8(if requested < 64 { 64 } else { requested })
}

/// The segment size of a journal opened with `cfg`.
pub fn journal_segment_size(cfg: &JournalConfig) -> (r: usize)
    requires
        cfg.segment_size <= 0xFFFF_FFF0,
    ensures
        r == segment_size_spec(cfg.segment_size as int),
{
    let m = if cfg.segment_size < MIN_SEGMENT {
        MIN_SEGMENT
    } else {
        cfg.segment_size
    };
    crate::seglog::align_up_pub(m)
}

/// Entry point for opening a journal over a run of segments `0, 1, ...`.
pub struct Journal;

impl Journal {
    /// Opens (or recovers) a journal of which `existing` segments are already
    /// there, with `hsize`-byte record headers. `active` is the content of the
    /// last of them, created zeroed when there is none, at the journal's
    /// segment size. The writer appends to that segment at its recovered
    /// write position; the reader starts at the beginning of segment 0.
    pub fn open(existing: u64, active: &[u8], cfg: &JournalConfig, hsize: usize) -> (r: (
        Writer,
        Reader,
    ))
        requires
            cfg.segment_size <= 0xFFFF_FFF0,
            hsize <= 0x7FFF_FFFF,
            active@.len() == segment_size_spec(cfg.segment_size as int),
            active@.len() + 0x1_0000_0000 <= usize::MAX,
            tail_spec(active@, 0, hsize as int) <= active@.len(),
        ensures
            Writer::wf_view(r.0@),
            r.0@ == (WriterView {
                segment_size: segment_size_spec(cfg.segment_size as int),
                hsize: hsize as int,
                index: if existing == 0 {
                    0
                } else {
                    existing - 1
                },
                tail: tail_spec(active@, 0, hsize as int),
            }),
            r.1.hsize() == hsize,
            r.1.seg_idx() == 0,
            r.1.cursor() == 0,
    {
        let segment_size = journal_segment_size(cfg);
        let index = if existing == 0 {
            0
        } else {
            existing - 1
        };
        let tail = recover_tail(active, hsize);
        (Writer::new(segment_size, hsize, index, tail), Reader::new(hsize))
    }
}

/// A reader's position in a sequence of segments: which segment, and where
/// in it.
pub struct Reader {
    hsize: usize,
    seg_idx: usize,
    cursor: usize,
}

/// A record as read: its header bytes and its payload.
pub struct ReadRecord<'a> {
    header: &'a [u8],
    payload: &'a [u8],
}

impl<'a> ReadRecord<'a> {
    pub closed spec fn header_bytes(&self) -> Seq<u8> {
        self.header@
    }

    pub closed spec fn payload_bytes(&self) -> Seq<u8> {
        self.payload@
    }

    pub fn header(&self) -> (r: &'a [u8])
        ensures
            r@ == self.header_bytes(),
    {
        self.header
    }

    pub fn payload(&self) -> (r: &'a [u8])
        ensures
            r@ == self.payload_bytes(),
    {
        self.payload
    }
}

/// What [`Reader::next_record`] finds from segment `idx`, position `cur`:
/// the record (segment, offset, body length) and where the reader stands
/// afterwards. With less than [`MIN_FRAME`] bytes left, or at padding that
/// runs to within that of the end, it moves on to the next segment.
pub open spec fn reader_next(segs: Seq<Seq<u8>>, idx: int, cur: int, hsize: int) -> (
    Option<(int, int, int)>,
    int,
    int,
)
    decreases segs.len() - idx, segs[idx].len() + 0x1_0000_0000 - cur,
{
    if idx < 0 || idx >= segs.len() || cur < 0 || cur > segs[idx].len() + 0x1_0000_0000 {
        (None, idx, cur)
    } else if cur + 16 > segs[idx].len() {
        if idx + 1 < segs.len() {
            reader_next(segs, idx + 1, 0, hsize)
        } else {
            (None, idx, cur)
        }
    } else {
        match step_spec(segs[idx], cur, hsize) {
            Step::Skip { next } => if next <= cur {
                (None, idx, cur)
            } else if next + 16 > segs[idx].len() {
                if idx + 1 < segs.len() {
                    reader_next(segs, idx + 1, 0, hsize)
                } else {
                    (None, idx, next as int)
                }
            } else {
                reader_next(segs, idx, next as int, hsize)
            },
            Step::Record { off, body, next } => (Some((idx, off as int, body as int)), idx, next as int),
            _ => (None, idx, cur),
        }
    }
}

/// Whether every segment can be walked with `usize` positions.
pub open spec fn segs_fit(segs: Seq<Seq<u8>>) -> bool {
    forall|i: int| 0 <= i < segs.len() ==> #[trigger] segs[i].len() + 0x1_0000_0000 <= usize::MAX
}

/// A reader that finds a record moves forward: to a later segment, or
/// further into the same one, and stays where it can read on.
proof fn lemma_reader_next_progress(segs: Seq<Seq<u8>>, idx: int, cur: int, hsize: int)
    requires
        segs_fit(segs),
    ensures
        ({
            let (f, i2, c2) = reader_next(segs, idx, cur, hsize);
            f matches Some((i, off, body)) ==> {
                &&& i == i2
                &&& 0 <= off && off + 8 + hsize <= segs[i].len()
                &&& 0 <= idx <= i2 < segs.len()
                &&& i2 > idx || c2 > cur
                &&& 0 <= c2 <= segs[i2].len() + 0x1_0000_0000
            }
        }),
    decreases segs.len() - idx, segs[idx].len() + 0x1_0000_0000 - cur,
{
    if idx < 0 || idx >= segs.len() || cur < 0 || cur > segs[idx].len() + 0x1_0000_0000 {
    } else if cur + 16 > segs[idx].len() {
        if idx + 1 < segs.len() {
            lemma_reader_next_progress(segs, idx + 1, 0, hsize);
        }
    } else {
        assert(segs[idx].len() + 0x1_0000_0000 <= usize::MAX);
        match step_spec(segs[idx], cur, hsize) {
            Step::Skip { next } => if next <= cur {
            } else if next + 16 > segs[idx].len() {
                if idx + 1 < segs.len() {
                    lemma_reader_next_progress(segs, idx + 1, 0, hsize);
                }
            } else {
                lemma_reader_next_progress(segs, idx, next as int, hsize);
            },
            _ => {},
        }
    }
}

/// Where a reader at segment `idx`, position `cur` stands once it has read
/// every record it can, and the sequence number (the first eight header
/// bytes, little-endian) of the last of them; `last` when it reads none.
pub open spec fn reader_last(
    segs: Seq<Seq<u8>>,
    idx: int,
    cur: int,
    hsize: int,
    last: Option<u64>,
) -> (Option<u64>, int, int)
    decreases segs.len() - idx, segs[idx].len() + 0x1_0000_0000 - cur
        when segs_fit(segs)
        via lemma_reader_last_decreases
{
    let (f, i2, c2) = reader_next(segs, idx, cur, hsize);
    match f {
        None => (last, i2, c2),
        Some((i, off, body)) => reader_last(segs, i2, c2, hsize, Some(seq_at(segs[i], off) as u64)),
    }
}

#[via_fn]
proof fn lemma_reader_last_decreases(
    segs: Seq<Seq<u8>>,
    idx: int,
    cur: int,
    hsize: int,
    last: Option<u64>,
) {
    lemma_reader_next_progress(segs, idx, cur, hsize);
}

impl Reader {
    /// A reader at the start of the first segment, for records with
    /// `hsize`-byte headers.
    pub fn new(hsize: usize) -> (r: Self)
        ensures
            r.hsize() == hsize,
            r.seg_idx() == 0,
            r.cursor() == 0,
    {
        Reader { hsize, seg_idx: 0, cursor: 0 }
    }

    pub closed spec fn hsize(&self) -> int {
        self.hsize as int
    }

    pub closed spec fn seg_idx(&self) -> int {
        self.seg_idx as int
    }

    pub closed spec fn cursor(&self) -> int {
        self.cursor as int
    }

    /// The next committed record, moving on to the following segment at the
    /// end of one (the caller passes every segment available so far, in
    /// order). `None` when caught up, or at a frame that cannot be a record.
    pub fn next_record<'a>(&mut self, segs: &'a Vec<Vec<u8>>) -> (r: Option<ReadRecord<'a>>)
        requires
            old(self).seg_idx() < segs@.len(),
            old(self).cursor() <= segs@[old(self).seg_idx()]@.len() + 0x1_0000_0000,
            forall|i: int|
                0 <= i < segs@.len() ==> (#[trigger] segs@[i])@.len() + 0x1_0000_0000 <= usize::MAX,
        ensures
            final(self).hsize() == old(self).hsize(),
            ({
                let sv = segs@.map_values(|v: Vec<u8>| v@);
                let (f, idx, cur) = reader_next(
                    sv,
                    old(self).seg_idx(),
                    old(self).cursor(),
                    old(self).hsize(),
                );
                &&& final(self).seg_idx() == idx
                &&& final(self).cursor() == cur
                &&& match f {
                    None => r.is_none(),
                    Some((i, off, body)) => r matches Some(rec) && rec.header_bytes() == sv[i].subrange(
                        off + 8,
                        off + 8 + old(self).hsize(),
                    ) && rec.payload_bytes() == sv[i].subrange(
                        off + 8 + old(self).hsize(),
                        off + 8 + body,
                    ),
                }
            }),
    {
        let ghost sv = segs@.map_values(|v: Vec<u8>| v@);
        let ghost target = reader_next(sv, self.seg_idx as int, self.cursor as int, self.hsize as int);
        let hsize = self.hsize;
        loop
            invariant
                self.hsize == hsize,
                hsize == old(self).hsize,
                target == reader_next(
                    sv,
                    old(self).seg_idx as int,
                    old(self).cursor as int,
                    old(self).hsize as int,
                ),
                sv == segs@.map_values(|v: Vec<u8>| v@),
                self.seg_idx < segs@.len(),
                self.cursor <= segs@[self.seg_idx as int]@.len() + 0x1_0000_0000,
                forall|i: int|
                    0 <= i < segs@.len() ==> (#[trigger] segs@[i])@.len() + 0x1_0000_0000 <= usize::MAX,
                reader_next(sv, self.seg_idx as int, self.cursor as int, hsize as int) == target,
            decreases segs@.len() - self.seg_idx, segs@[self.seg_idx as int]@.len() + 0x1_0000_0000
                - self.cursor,
        {
            let seg = segs[self.seg_idx].as_slice();
            let len = seg.len();
            proof {
                assert(sv[self.seg_idx as int] == seg@);
            }
            if self.cursor > len || len - self.cursor < MIN_FRAME {
                if self.seg_idx < segs.len() - 1 {
                    self.seg_idx = self.seg_idx + 1;
                    self.cursor = 0;
                    continue ;
                }
                return None;
            }
            match next_step(seg, self.cursor, hsize) {
                Step::Skip { next } => {
                    if next + MIN_FRAME > len {
                        if self.seg_idx < segs.len() - 1 {
                            self.seg_idx = self.seg_idx + 1;
                            self.cursor = 0;
                            continue ;
                        }
                        self.cursor = next;
                        return None;
                    }
                    self.cursor = next;
                },
                Step::Record { off, body, next } => {
                    let header = slice_range(seg, off + LEN_SIZE, off + LEN_SIZE + hsize);
                    let payload = slice_range(seg, off + LEN_SIZE + hsize, off + LEN_SIZE + body);
                    self.cursor = next;
                    return Some(ReadRecord { header, payload });
                },
                _ => {
                    return None;
                },
            }
        }
    }
}

impl Reader {
    /// Reads every record left and returns the sequence number (the first
    /// eight header bytes, little-endian) of the last one, `None` when none
    /// is left; the reader is then caught up.
    pub fn last_seq(&mut self, segs: &Vec<Vec<u8>>) -> (r: Option<u64>)
        requires
            old(self).hsize() >= 8,
            old(self).seg_idx() < segs@.len(),
            old(self).cursor() <= segs@[old(self).seg_idx()]@.len() + 0x1_0000_0000,
            forall|i: int|
                0 <= i < segs@.len() ==> (#[trigger] segs@[i])@.len() + 0x1_0000_0000 <= usize::MAX,
        ensures
            final(self).hsize() == old(self).hsize(),
            ({
                let (l, idx, cur) = reader_last(
                    segs@.map_values(|v: Vec<u8>| v@),
                    old(self).seg_idx(),
                    old(self).cursor(),
                    old(self).hsize(),
                    None,
                );
                &&& r == l
                &&& final(self).seg_idx() == idx
                &&& final(self).cursor() == cur
            }),
    {
        let ghost sv = segs@.map_values(|v: Vec<u8>| v@);
        let ghost hsize = self.hsize as int;
        let ghost target = reader_last(sv, self.seg_idx as int, self.cursor as int, hsize, None);
        let mut last: Option<u64> = None;
        proof {
            assert(segs_fit(sv)) by {
                assert forall|i: int| 0 <= i < sv.len() implies #[trigger] sv[i].len()
                    + 0x1_0000_0000 <= usize::MAX by {
                    assert(sv[i] == segs@[i]@);
                }
            }
        }
        loop
            invariant
                self.hsize == hsize,
                hsize == old(self).hsize,
                hsize >= 8,
                sv == segs@.map_values(|v: Vec<u8>| v@),
                segs_fit(sv),
                self.seg_idx < segs@.len(),
                self.cursor <= segs@[self.seg_idx as int]@.len() + 0x1_0000_0000,
                forall|i: int|
                    0 <= i < segs@.len() ==> (#[trigger] segs@[i])@.len() + 0x1_0000_0000 <= usize::MAX,
                target == reader_last(
                    sv,
                    old(self).seg_idx as int,
                    old(self).cursor as int,
                    hsize,
                    None,
                ),
                reader_last(sv, self.seg_idx as int, self.cursor as int, hsize, last) == target,
            decreases segs@.len() - self.seg_idx, segs@[self.seg_idx as int]@.len() + 0x1_0000_0000
                - self.cursor,
        {
            let ghost i0 = self.seg_idx as int;
            let ghost c0 = self.cursor as int;
            proof {
                lemma_reader_next_progress(sv, i0, c0, hsize);
                assert(sv[i0] == segs@[i0]@);
            }
            match self.next_record(segs) {
                None => {
                    proof {
                        assert(reader_next(sv, i0, c0, hsize).0 is None);
                        assert(reader_last(sv, i0, c0, hsize, last) == (
                            last,
                            self.seg_idx as int,
                            self.cursor as int,
                        ));
                    }
                    return last;
                },
                Some(rec) => {
                    let h = rec.header();
                    let ghost f = reader_next(sv, i0, c0, hsize).0;
                    proof {
                        let (i, off, body) = f->0;
                        assert(h@ == sv[i].subrange(off + 8, off + 8 + hsize));
                        assert(h@[0] == sv[i][off + 8] && h@[1] == sv[i][off + 9] && h@[2] == sv[i][off
                            + 10] && h@[3] == sv[i][off + 11]);
                        assert(h@[4] == sv[i][off + 12] && h@[5] == sv[i][off + 13] && h@[6] == sv[i][off
                            + 14] && h@[7] == sv[i][off + 15]);
                        assert(u32_at(h@, 0) == u32_at(sv[i], off + 8));
                        assert(u32_at(h@, 4) == u32_at(sv[i], off + 12));
                        assert(sv[self.seg_idx as int] == segs@[self.seg_idx as int]@);
                    }
                    last = Some(le_u64(h, 0));
                },
            }
        }
    }

    /// A range over the records whose sequence numbers lie in `[lo, hi]`,
    /// starting at the record `at` (as [`Writer::commit`] returned it).
    pub fn read_from(&self, at: AppendOffset, lo: u64, hi: u64) -> (r: ReadRange)
        ensures
            r.hsize() == self.hsize(),
            r.bounds() == (lo, hi),
            r.seg_idx() == at.segment as usize as int,
            r.cursor() == at.offset as int,
    {
        ReadRange { hsize: self.hsize, seg_idx: at.segment as usize, cursor: at.offset, lo, hi }
    }
}

fn slice_range(s: &[u8], a: usize, b: usize) -> (r: &[u8])
    requires
        a <= b <= s@.len(),
    ensures
        r@ == s@.subrange(a as int, b as int),
{
    &s[a..b]
}

/// Sequence number in the first eight header bytes of the frame at `off`,
/// little-endian (the layout of [`FixHeader`]).
pub open spec fn seq_at(seg: Seq<u8>, off: int) -> int {
    u32_at(seg, off + 8) + u32_at(seg, off + 12) * 0x1_0000_0000
}

/// What [`ReadRange::next`] finds from segment `idx`, position `cur`: the
/// next committed record whose sequence number lies in `[lo, hi]`, and where
/// the range stands afterwards.
pub open spec fn range_next(
    segs: Seq<Seq<u8>>,
    idx: int,
    cur: int,
    hsize: int,
    lo: int,
    hi: int,
) -> (Option<(int, int, int)>, int, int)
    decreases segs.len() - idx, segs[idx].len() + 0x1_0000_0000 - cur,
{
    if idx < 0 || idx >= segs.len() || cur < 0 || cur > segs[idx].len() + 0x1_0000_0000 {
        (None, idx, cur)
    } else if cur + 8 > segs[idx].len() {
        range_next(segs, idx + 1, 0, hsize, lo, hi)
    } else {
        match step_spec(segs[idx], cur, hsize) {
            Step::CaughtUp => range_next(segs, idx + 1, 0, hsize, lo, hi),
            Step::Skip { next } => if next <= cur {
                (None, idx, cur)
            } else {
                range_next(segs, idx, next as int, hsize, lo, hi)
            },
            Step::Record { off, body, next } => if next <= cur {
                (None, idx, cur)
            } else if seq_at(segs[idx], off as int) < lo || seq_at(segs[idx], off as int) > hi {
                range_next(segs, idx, next as int, hsize, lo, hi)
            } else {
                (Some((idx, off as int, body as int)), idx, next as int)
            },
            _ => (None, idx, cur),
        }
    }
}

/// Iteration over the records whose sequence numbers lie in `[lo, hi]`,
/// across a fixed list of segments.
pub struct ReadRange {
    hsize: usize,
    seg_idx: usize,
    cursor: usize,
    lo: u64,
    hi: u64,
}

impl ReadRange {
    /// A range over records with `hsize`-byte headers (at least 8, holding
    /// the sequence number) and sequence numbers in `[lo, hi]`.
    pub fn new(hsize: usize, lo: u64, hi: u64) -> (r: Self)
        ensures
            r.hsize() == hsize,
            r.bounds() == (lo, hi),
            r.seg_idx() == 0,
            r.cursor() == 0,
    {
        ReadRange { hsize, seg_idx: 0, cursor: 0, lo, hi }
    }

    pub closed spec fn hsize(&self) -> int {
        self.hsize as int
    }

    pub closed spec fn bounds(&self) -> (u64, u64) {
        (self.lo, self.hi)
    }

    pub closed spec fn seg_idx(&self) -> int {
        self.seg_idx as int
    }

    pub closed spec fn cursor(&self) -> int {
        self.cursor as int
    }

    /// The next record in range, or `None` past the last segment or at a
    /// frame that cannot be a record.
    pub fn next<'a>(&mut self, segs: &'a Vec<Vec<u8>>) -> (r: Option<ReadRecord<'a>>)
        requires
            old(self).hsize() >= 8,
            old(self).seg_idx() < segs@.len() ==> old(self).cursor() <= segs@[old(
                self,
            ).seg_idx()]@.len() + 0x1_0000_0000,
            forall|i: int|
                0 <= i < segs@.len() ==> (#[trigger] segs@[i])@.len() + 0x1_0000_0000 <= usize::MAX,
        ensures
            final(self).hsize() == old(self).hsize(),
            final(self).bounds() == old(self).bounds(),
            ({
                let sv = segs@.map_values(|v: Vec<u8>| v@);
                let (f, idx, cur) = range_next(
                    sv,
                    old(self).seg_idx(),
                    old(self).cursor(),
                    old(self).hsize(),
                    old(self).bounds().0 as int,
                    old(self).bounds().1 as int,
                );
                &&& final(self).seg_idx() == idx
                &&& final(self).cursor() == cur
                &&& match f {
                    None => r.is_none(),
                    Some((i, off, body)) => r matches Some(rec) && rec.header_bytes() == sv[i].subrange(
                        off + 8,
                        off + 8 + old(self).hsize(),
                    ) && rec.payload_bytes() == sv[i].subrange(
                        off + 8 + old(self).hsize(),
                        off + 8 + body,
                    ),
                }
            }),
    {
        let ghost sv = segs@.map_values(|v: Vec<u8>| v@);
        let ghost target = range_next(
            sv,
            self.seg_idx as int,
            self.cursor as int,
            self.hsize as int,
            self.lo as int,
            self.hi as int,
        );
        let hsize = self.hsize;
        loop
            invariant
                self.hsize == hsize,
                hsize == old(self).hsize,
                hsize >= 8,
                self.lo == old(self).lo,
                self.hi == old(self).hi,
                target == range_next(
                    sv,
                    old(self).seg_idx as int,
                    old(self).cursor as int,
                    old(self).hsize as int,
                    old(self).lo as int,
                    old(self).hi as int,
                ),
                sv == segs@.map_values(|v: Vec<u8>| v@),
                self.seg_idx < segs@.len() ==> self.cursor <= segs@[self.seg_idx as int]@.len()
                    + 0x1_0000_0000,
                forall|i: int|
                    0 <= i < segs@.len() ==> (#[trigger] segs@[i])@.len() + 0x1_0000_0000 <= usize::MAX,
                range_next(
                    sv,
                    self.seg_idx as int,
                    self.cursor as int,
                    hsize as int,
                    self.lo as int,
                    self.hi as int,
                ) == target,
            decreases segs@.len() - self.seg_idx, (if self.seg_idx < segs@.len() {
                segs@[self.seg_idx as int]@.len()
            } else {
                0
            }) + 0x1_0000_0000 - self.cursor,
        {
            if self.seg_idx >= segs.len() {
                return None;
            }
            let seg = segs[self.seg_idx].as_slice();
            let len = seg.len();
            proof {
                assert(sv[self.seg_idx as int] == seg@);
            }
            if self.cursor > len || len - self.cursor < LEN_SIZE {
                self.seg_idx = self.seg_idx + 1;
                self.cursor = 0;
                continue ;
            }
            match next_step(seg, self.cursor, hsize) {
                Step::CaughtUp => {
                    self.seg_idx = self.seg_idx + 1;
                    self.cursor = 0;
                },
                Step::Skip { next } => {
                    self.cursor = next;
                },
                Step::Record { off, body, next } => {
                    self.cursor = next;
                    let seq = le_u64(seg, off + LEN_SIZE);
                    if seq < self.lo || seq > self.hi {
                        continue ;
                    }
                    let header = slice_range(seg, off + LEN_SIZE, off + LEN_SIZE + hsize);
                    let payload = slice_range(seg, off + LEN_SIZE + hsize, off + LEN_SIZE + body);
                    return Some(ReadRecord { header, payload });
                },
                _ => {
                    return None;
                },
            }
        }
    }
}

fn le_u64(s: &[u8], o: usize) -> (r: u64)
    requires
        o + 8 <= s@.len(),
    ensures
        r == u32_at(s@, o as int) + u32_at(s@, o + 4) * 0x1_0000_0000,
{
    let a: u64 = s[o] as u64 + s[o + 1] as u64 * 256 + s[o + 2] as u64 * 65536 + s[o + 3] as u64
        * 16777216;
    let b: u64 = s[o + 4] as u64 + s[o + 5] as u64 * 256 + s[o + 6] as u64 * 65536 + s[o + 7] as u64
        * 16777216;
    a + b * 0x1_0000_0000
}

/// A record header type.
pub trait RecordHeader: Copy {}

/// A record header that carries a sequence number.
pub trait SeqHeader: RecordHeader {
    fn seq(&self) -> u64;
}

/// The header of a journaled FIX message: sequence number and timestamp,
/// stored as 16 bytes, each field little-endian.
#[derive(Clone, Copy, Debug, PartialEq, Eq, Structural)]
pub struct FixHeader {
    pub seq: u64,
    pub timestamp: u64,
}

impl RecordHeader for FixHeader {}

impl SeqHeader for FixHeader {
    fn seq(&self) -> (r: u64)
        ensures
            r == self.seq,
    {
        self.seq
    }
}

/// Little-endian bytes of a `u64`.
pub open spec fn le_u64_bytes(v: u64) -> Seq<u8> {
    let lo = v as int % 0x1_0000_0000;
    let hi = v as int / 0x1_0000_0000;
    seq![
        le_byte(lo, 0),
        le_byte(lo, 1),
        le_byte(lo, 2),
        le_byte(lo, 3),
        le_byte(hi, 0),
        le_byte(hi, 1),
        le_byte(hi, 2),
        le_byte(hi, 3),
    ]
}

fn push_u64_le(out: &mut Vec<u8>, v: u64)
    ensures
        final(out)@ == old(out)@ + le_u64_bytes(v),
{
    let lo = v % 0x1_0000_0000;
    let hi = v / 0x1_0000_0000;
    out.push((lo % 256) as u8);
    out.push((lo / 256 % 256) as u8);
    out.push((lo / 65536 % 256) as u8);
    out.push((lo / 16777216 % 256) as u8);
    out.push((hi % 256) as u8);
    out.push((hi / 256 % 256) as u8);
    out.push((hi / 65536 % 256) as u8);
    out.push((hi / 16777216 % 256) as u8);
    assert(out@ =~= old(out)@ + le_u64_bytes(v));
}

impl FixHeader {
    /// The 16 stored bytes: `seq` then `timestamp`.
    pub fn to_bytes(&self) -> (r: Vec<u8>)
        ensures
            r@ == le_u64_bytes(self.seq) + le_u64_bytes(self.timestamp),
    {
        let mut v: Vec<u8> = Vec::new();
        push_u64_le(&mut v, self.seq);
        push_u64_le(&mut v, self.timestamp);
        assert(v@ =~= le_u64_bytes(self.seq) + le_u64_bytes(self.timestamp));
        v
    }

    /// The header stored in the first 16 bytes of `b`.
    pub fn from_bytes(b: &[u8]) -> (r: Self)
        requires
            b@.len() >= 16,
        ensures
            r.seq == u32_at(b@, 0) + u32_at(b@, 4) * 0x1_0000_0000,
            r.timestamp == u32_at(b@, 8) + u32_at(b@, 12) * 0x1_0000_0000,
    {
        FixHeader { seq: le_u64(b, 0), timestamp: le_u64(b, 8) }
    }
}

/// A header written by `to_bytes` reads back unchanged.
pub proof fn lemma_fix_header_round_trip(h: FixHeader)
    ensures
        ({
            let b = le_u64_bytes(h.seq) + le_u64_bytes(h.timestamp);
            &&& u32_at(b, 0) + u32_at(b, 4) * 0x1_0000_0000 == h.seq
            &&& u32_at(b, 8) + u32_at(b, 12) * 0x1_0000_0000 == h.timestamp
        }),
{
    let b = le_u64_bytes(h.seq) + le_u64_bytes(h.timestamp);
    let s = h.seq as int;
    let t = h.timestamp as int;
    lemma_le_bytes(s % 0x1_0000_0000);
    lemma_le_bytes(s / 0x1_0000_0000);
    lemma_le_bytes(t % 0x1_0000_0000);
    lemma_le_bytes(t / 0x1_0000_0000);
    assert(b[0] == le_byte(s % 0x1_0000_0000, 0));
    assert(b[3] == le_byte(s % 0x1_0000_0000, 3));
    assert(b[4] == le_byte(s / 0x1_0000_0000, 0));
    assert(b[8] == le_byte(t % 0x1_0000_0000, 0));
    assert(b[12] == le_byte(t / 0x1_0000_0000, 0));
}

/// The bytes of segment `b` after the marker `m` is stored at `off`.
pub open spec fn with_marker(b: Seq<u8>, off: int, m: int) -> Seq<u8> {
    let u = if m >= 0 {
        m
    } else {
        m + 0x1_0000_0000
    };
    Seq::new(b.len(), |j: int| if off <= j < off + 4 { le_byte(u, j - off) } else { b[j] })
}

/// The bytes of segment `b` after a frame with body `body` and header
/// bytes `h` is committed at `off` (the payload already in place): the
/// header, an uncommitted marker after the frame where one fits, then the
/// frame's marker.
pub open spec fn committed(b: Seq<u8>, off: int, body: int, h: Seq<u8>) -> Seq<u8> {
    let next = off + foot(body);
    let with_h = Seq::new(
        b.len(),
        |j: int| if off + 8 <= j < off + 8 + h.len() { h[j - off - 8] } else { b[j] },
    );
    let with_s = if next + 8 <= b.len() {
        with_marker(with_h, next, 0)
    } else {
        with_h
    };
    with_marker(with_s, off, body)
}

fn put_marker(seg: &mut Vec<u8>, off: usize, m: i32)
    requires
        off + 4 <= old(seg)@.len(),
    ensures
        final(seg)@ == with_marker(old(seg)@, off as int, m as int),
{
    let u: u32 = if m >= 0 {
        m as u32
    } else {
        (m as i64 + 0x1_0000_0000) as u32
    };
    let n = seg.len();
    seg[off] = (u % 256) as u8;
    seg[off + 1] = (u / 256 % 256) as u8;
    seg[off + 2] = (u / 65536 % 256) as u8;
    seg[off + 3] = (u / 16777216 % 256) as u8;
    assert(seg@ =~= with_marker(old(seg)@, off as int, m as int));
}

/// A reserved frame: where it starts, its body and footprint, the payload
/// length, and whether the writer moved to a new segment to make room.
#[derive(Clone, Copy, Debug, PartialEq, Eq, Structural)]
pub struct WriteClaim {
    pub off: usize,
    pub body: usize,
    pub foot: usize,
    pub payload_len: usize,
    pub rolled: bool,
}

/// Where a committed record lies: the index of its segment and the offset
/// of its frame there, for reading it again with [`Reader::read_from`].
#[derive(Clone, Copy, Debug, PartialEq, Eq, Structural)]
pub struct AppendOffset {
    pub segment: u64,
    pub offset: usize,
}

/// The appending side of a journal: the active segment's index and write
/// position.
pub struct Writer {
    segment_size: usize,
    hsize: usize,
    index: u64,
    tail: usize,
}

/// Abstract state of a [`Writer`].
pub struct WriterView {
    pub segment_size: int,
    pub hsize: int,
    pub index: int,
    pub tail: int,
}

impl View for Writer {
    type V = WriterView;

    closed spec fn view(&self) -> WriterView {
        WriterView {
            segment_size: self.segment_size as int,
            hsize: self.hsize as int,
            index: self.index as int,
            tail: self.tail as int,
        }
    }
}

/// What [`Writer::try_claim`] decides for a payload of `payload_len` bytes:
/// the claim, or the error.
pub open spec fn claim_spec(w: WriterView, payload_len: int) -> Result<WriteClaim, JournalError> {
    let body = w.hsize + payload_len;
    let f = foot(body);
    if body == 0 {
        Err(JournalError::EmptyRecord)
    } else if body > 0x7FFF_FFFF || f > w.segment_size {
        Err(JournalError::RecordTooLarge { frame: f as usize, capacity: w.segment_size as usize })
    } else if w.tail + f > w.segment_size {
        Ok(
            WriteClaim {
                off: 0,
                body: body as usize,
                foot: f as usize,
                payload_len: payload_len as usize,
                rolled: true,
            },
        )
    } else {
        Ok(
            WriteClaim {
                off: w.tail as usize,
                body: body as usize,
                foot: f as usize,
                payload_len: payload_len as usize,
                rolled: false,
            },
        )
    }
}

/// The active segment's bytes when the writer leaves it: the rest of the
/// segment becomes a padding frame, when a header fits.
pub open spec fn padded(b: Seq<u8>, tail: int) -> Seq<u8> {
    if b.len() - tail >= 8 {
        with_marker(b, tail, -1)
    } else {
        b
    }
}

impl Writer {
    /// The writer's invariant.
    pub open spec fn wf_view(w: WriterView) -> bool {
        &&& w.segment_size % 8 == 0
        &&& 64 <= w.segment_size <= 0xFFFF_FFF0
        &&& 0 <= w.tail <= w.segment_size
        &&& 0 <= w.hsize <= 0x7FFF_FFFF
    }

    /// A writer on segment `index` of `segment_size` bytes (as
    /// [`journal_segment_size`] gives it) at write position `tail` (as
    /// [`recover_tail`] gives it), for `hsize`-byte record headers.
    pub fn new(segment_size: usize, hsize: usize, index: u64, tail: usize) -> (r: Self)
        requires
            segment_size % 8 == 0,
            64 <= segment_size <= 0xFFFF_FFF0,
            tail <= segment_size,
            hsize <= 0x7FFF_FFFF,
        ensures
            Self::wf_view(r@),
            r@ == (WriterView {
                segment_size: segment_size as int,
                hsize: hsize as int,
                index: index as int,
                tail: tail as int,
            }),
    {
        Writer { segment_size, hsize, index, tail }
    }

    /// Index of the active segment.
    pub fn index(&self) -> (r: u64)
        ensures
            r == self@.index,
    {
        self.index
    }

    /// Write position in the active segment.
    pub fn tail(&self) -> (r: usize)
        ensures
            r == self@.tail,
    {
        self.tail
    }

    /// Reserves a frame for a record with a `payload_len`-byte payload.
    /// When the active segment has no room, its rest becomes padding and the
    /// writer moves to the next segment (`rolled` in the claim): the caller
    /// then writes the frame into a new, zeroed segment.
    pub fn try_claim(&mut self, active: &mut Vec<u8>, payload_len: usize) -> (r: Result<
        WriteClaim,
        JournalError,
    >)
        requires
            Self::wf_view(old(self)@),
            old(active)@.len() == old(self)@.segment_size,
            old(self)@.index < u64::MAX,
            old(self)@.hsize + payload_len + 15 <= usize::MAX,
        ensures
            Self::wf_view(final(self)@),
            r == claim_spec(old(self)@, payload_len as int),
            match r {
                Err(_) => final(self)@ == old(self)@ && final(active)@ == old(active)@,
                Ok(c) => if c.rolled {
                    &&& final(self)@ == (WriterView {
                        index: old(self)@.index + 1,
                        tail: 0,
                        ..old(self)@
                    })
                    &&& final(active)@ == padded(old(active)@, old(self)@.tail)
                } else {
                    final(self)@ == old(self)@ && final(active)@ == old(active)@
                },
            },
    {
        let body = self.hsize + payload_len;
        if body == 0 {
            return Err(JournalError::EmptyRecord);
        }
        let f = footprint(body);
        if body > 0x7FFF_FFFF || f > self.segment_size {
            return Err(JournalError::RecordTooLarge { frame: f, capacity: self.segment_size });
        }
        if f > self.segment_size - self.tail {
            let remaining = self.segment_size - self.tail;
            if remaining >= LEN_SIZE {
                put_marker(active, self.tail, -1i32);
            }
            self.index = self.index + 1;
            self.tail = 0;
            return Ok(WriteClaim { off: 0, body, foot: f, payload_len, rolled: true });
        }
        Ok(WriteClaim { off: self.tail, body, foot: f, payload_len, rolled: false })
    }

    /// Commits a claimed frame whose payload is in place: writes the record
    /// header, an uncommitted marker after the frame, and the frame's
    /// marker; the write position moves past the frame. Returns where the
    /// record lies.
    pub fn commit(&mut self, active: &mut Vec<u8>, claim: WriteClaim, header: &[u8]) -> (r:
        AppendOffset)
        requires
            Self::wf_view(old(self)@),
            old(active)@.len() == old(self)@.segment_size,
            claim.off == old(self)@.tail,
            claim.body == old(self)@.hsize + claim.payload_len,
            0 < claim.body <= 0x7FFF_FFFF,
            claim.foot == foot(claim.body as int),
            claim.off + claim.foot <= old(self)@.segment_size,
            header@.len() == old(self)@.hsize,
        ensures
            Self::wf_view(final(self)@),
            final(self)@ == (WriterView { tail: claim.off + claim.foot, ..old(self)@ }),
            final(active)@ == committed(old(active)@, claim.off as int, claim.body as int, header@),
            r == (AppendOffset { segment: old(self)@.index as u64, offset: claim.off }),
    {
        let off = claim.off;
        let n = active.len();
        let mut k: usize = 0;
        while k < header.len()
            invariant
                n == active@.len(),
                0 <= k <= header@.len(),
                off + 8 + header@.len() <= active@.len(),
                active@.len() == old(active)@.len(),
                forall|j: int|
                    0 <= j < active@.len() ==> #[trigger] active@[j] == if off + 8 <= j < off + 8 + k {
                        header@[j - off - 8]
                    } else {
                        old(active)@[j]
                    },
            decreases header@.len() - k,
        {
            active.set(off + LEN_SIZE + k, header[k]);
            k = k + 1;
        }
        let ghost with_h = active@;
        proof {
            assert(with_h =~= Seq::new(
                old(active)@.len(),
                |j: int|
                    if off + 8 <= j < off + 8 + header@.len() {
                        header@[j - off - 8]
                    } else {
                        old(active)@[j]
                    },
            ));
        }
        let next = off + claim.foot;
        if next <= self.segment_size - LEN_SIZE {
            put_marker(active, next, 0);
        }
        put_marker(active, off, claim.body as i32);
        self.tail = next;
        AppendOffset { segment: self.index, offset: off }
    }
}

/// A committed frame reads back as the record it was committed with: the
/// reader finds a record there with that body, header and payload, and goes
/// on after the frame.
pub proof fn lemma_commit_reads_back(b: Seq<u8>, off: int, body: int, h: Seq<u8>)
    requires
        0 <= off,
        off + foot(body) <= b.len(),
        b.len() + 0x1_0000_0000 <= usize::MAX,
        h.len() <= body <= 0x7FFF_FFFF,
        0 < body,
    ensures
        ({
            let nb = committed(b, off, body, h);
            &&& nb.len() == b.len()
            &&& marker_at(nb, off) == body
            &&& off + foot(body) + 8 <= b.len() ==> marker_at(nb, off + foot(body)) == 0
            &&& forall|j: int| 0 <= j < off ==> #[trigger] nb[j] == b[j]
            &&& step_spec(nb, off, h.len() as int) == (Step::Record {
                off: off as usize,
                body: body as usize,
                next: (off + foot(body)) as usize,
            })
            &&& nb.subrange(off + 8, off + 8 + h.len()) == h
            &&& nb.subrange(off + 8 + h.len(), off + 8 + body) == b.subrange(
                off + 8 + h.len(),
                off + 8 + body,
            )
        }),
{
    let nb = committed(b, off, body, h);
    lemma_le_bytes(body);
    assert(nb[off] == le_byte(body, 0));
    assert(nb[off + 1] == le_byte(body, 1));
    assert(nb[off + 2] == le_byte(body, 2));
    assert(nb[off + 3] == le_byte(body, 3));
    assert(marker_at(nb, off) == body);
    assert(nb.subrange(off + 8, off + 8 + h.len()) =~= h);
    assert(nb.subrange(off + 8 + h.len(), off + 8 + body) =~= b.subrange(
        off + 8 + h.len(),
        off + 8 + body,
    ));
}

/// Leaving a segment turns its rest into padding that a reader skips to
/// the end of the segment.
pub proof fn lemma_padding_skips_to_end(b: Seq<u8>, tail: int, hsize: int)
    requires
        0 <= tail,
        tail + 8 <= b.len(),
        b.len() + 0x1_0000_0000 <= usize::MAX,
    ensures
        step_spec(padded(b, tail), tail, hsize) == (Step::Skip { next: b.len() as usize }),
{
    let nb = padded(b, tail);
    lemma_le_bytes(0xFFFF_FFFF);
    assert(nb[tail] == le_byte(0xFFFF_FFFF, 0));
    assert(nb[tail + 1] == le_byte(0xFFFF_FFFF, 1));
    assert(nb[tail + 2] == le_byte(0xFFFF_FFFF, 2));
    assert(nb[tail + 3] == le_byte(0xFFFF_FFFF, 3));
    assert(marker_at(nb, tail) == -1);
}

/// One end of a range of sequence numbers.
#[derive(Clone, Copy, Debug, PartialEq, Eq, Structural)]
pub enum SeqBound {
    Included(u64),
    Excluded(u64),
    Unbounded,
}

/// The inclusive bounds `[lo, hi]` of a range given by its two ends. A
/// range that holds no `u64` (an excluded start at `u64::MAX`, or an
/// excluded end at 0) gives the empty bounds `[1, 0]`.
pub open spec fn seq_bounds_spec(start: SeqBound, end: SeqBound) -> (u64, u64) {
    if start == SeqBound::Excluded(u64::MAX) || end == SeqBound::Excluded(0) {
        (1, 0)
    } else {
        (
            match start {
                SeqBound::Included(n) => n,
                SeqBound::Excluded(n) => (n + 1) as u64,
                SeqBound::Unbounded => 0,
            },
            match end {
                SeqBound::Included(n) => n,
                SeqBound::Excluded(n) => (n - 1) as u64,
                SeqBound::Unbounded => u64::MAX,
            },
        )
    }
}

impl Reader {
    /// A range over all records whose sequence numbers lie between `start`
    /// and `end`; none when no `u64` lies between them.
    pub fn read_range(&self, start: SeqBound, end: SeqBound) -> (r: ReadRange)
        ensures
            r.hsize() == self.hsize(),
            r.bounds() == seq_bounds_spec(start, end),
            r.seg_idx() == 0,
            r.cursor() == 0,
    {
        let empty = match (start, end) {
            (SeqBound::Excluded(n), _) if n == u64::MAX => true,
            (_, SeqBound::Excluded(n)) if n == 0 => true,
            _ => false,
        };
        if empty {
            return ReadRange::new(self.hsize, 1, 0);
        }
        let lo = match start {
            SeqBound::Included(n) => n,
            SeqBound::Excluded(n) => n + 1,
            SeqBound::Unbounded => 0,
        };
        let hi = match end {
            SeqBound::Included(n) => n,
            SeqBound::Excluded(n) => n - 1,
            SeqBound::Unbounded => u64::MAX,
        };
        ReadRange::new(self.hsize, lo, hi)
    }
}

/// A record as it is appended: its header bytes and its payload.
pub struct RecordBytes {
    pub header: Seq<u8>,
    pub payload: Seq<u8>,
}

/// Bytes that the records `rs`, with `hsize`-byte headers, take back to
/// back in a segment.
pub open spec fn recs_span(rs: Seq<RecordBytes>, hsize: int) -> int
    decreases rs.len(),
{
    if rs.len() == 0 {
        0
    } else {
        recs_span(rs.drop_last(), hsize) + foot(hsize + rs.last().payload.len())
    }
}

/// Whether the frame at `o` of segment `b` is the committed record `r`.
pub open spec fn frame_is(b: Seq<u8>, o: int, r: RecordBytes, hsize: int) -> bool {
    let body = hsize + r.payload.len();
    &&& r.header.len() == hsize
    &&& 0 < body <= 0x7FFF_FFFF
    &&& 0 <= o
    &&& o + foot(body) <= b.len()
    &&& marker_at(b, o) == body
    &&& b.subrange(o + 8, o + 8 + hsize) == r.header
    &&& b.subrange(o + 8 + hsize, o + 8 + body) == r.payload
}

/// Whether segment `b` holds the records `rs` back to back from its start.
#[verifier::opaque]
pub open spec fn holds_recs(b: Seq<u8>, rs: Seq<RecordBytes>, hsize: int) -> bool {
    &&& recs_span(rs, hsize) <= b.len()
    &&& forall|k: int|
        0 <= k < rs.len() ==> frame_is(b, recs_span(rs.take(k), hsize), #[trigger] rs[k], hsize)
}

/// After its records, the active segment has nothing committed where a
/// frame header fits.
pub open spec fn open_end(b: Seq<u8>, rs: Seq<RecordBytes>, hsize: int) -> bool {
    recs_span(rs, hsize) + 8 <= b.len() ==> marker_at(b, recs_span(rs, hsize)) == 0
}

/// After its records, a segment left behind is padding where a record
/// could still fit.
pub open spec fn closed_end(b: Seq<u8>, rs: Seq<RecordBytes>, hsize: int) -> bool {
    recs_span(rs, hsize) + 16 <= b.len() ==> marker_at(b, recs_span(rs, hsize)) < 0
}

/// The records of the segments `parts`, in order.
pub open spec fn flatten_recs(parts: Seq<Seq<RecordBytes>>) -> Seq<RecordBytes>
    decreases parts.len(),
{
    if parts.len() == 0 {
        Seq::empty()
    } else {
        flatten_recs(parts.drop_last()) + parts.last()
    }
}

/// A journal as its writer leaves it: the segments, the writer, and which
/// records each segment holds.
pub struct JournalState {
    pub segs: Seq<Seq<u8>>,
    pub w: WriterView,
    pub parts: Seq<Seq<RecordBytes>>,
}

/// A new journal: one zeroed segment of `size` bytes and a writer at its
/// start, for `hsize`-byte headers.
pub open spec fn fresh_journal(size: int, hsize: int) -> JournalState {
    JournalState {
        segs: seq![Seq::new(size as nat, |j: int| 0u8)],
        w: WriterView { segment_size: size, hsize, index: 0, tail: 0 },
        parts: seq![Seq::empty()],
    }
}

/// The bytes of `b` with `p` written from `start`.
pub open spec fn with_bytes(b: Seq<u8>, start: int, p: Seq<u8>) -> Seq<u8> {
    Seq::new(b.len(), |j: int| if start <= j < start + p.len() { p[j - start] } else { b[j] })
}

/// The journal after the record `r` is appended the way [`Writer`] is
/// used: a claim (a new zeroed segment after a roll), the payload written
/// into the claimed frame, then the commit. A refused claim changes
/// nothing.
pub open spec fn append_rec(st: JournalState, r: RecordBytes) -> JournalState {
    match claim_spec(st.w, r.payload.len() as int) {
        Err(_) => st,
        Ok(c) => {
            let last = st.segs.len() - 1;
            let st1 = if c.rolled {
                JournalState {
                    segs: st.segs.update(last, padded(st.segs[last], st.w.tail)).push(
                        Seq::new(st.w.segment_size as nat, |j: int| 0u8),
                    ),
                    w: WriterView { index: st.w.index + 1, tail: 0, ..st.w },
                    parts: st.parts.push(Seq::empty()),
                }
            } else {
                st
            };
            let l = st1.segs.len() - 1;
            let b = with_bytes(st1.segs[l], c.off + 8 + st.w.hsize, r.payload);
            JournalState {
                segs: st1.segs.update(l, committed(b, c.off as int, c.body as int, r.header)),
                w: WriterView { tail: c.off + c.foot, ..st1.w },
                parts: st1.parts.update(l, st1.parts[l].push(r)),
            }
        },
    }
}

/// The journal after the records `rs` are appended in order.
pub open spec fn append_all(st: JournalState, rs: Seq<RecordBytes>) -> JournalState
    decreases rs.len(),
{
    if rs.len() == 0 {
        st
    } else {
        append_all(append_rec(st, rs[0]), rs.drop_first())
    }
}

/// The records among `rs` whose claims the writer grants, in order.
pub open spec fn accepted_recs(st: JournalState, rs: Seq<RecordBytes>) -> Seq<RecordBytes>
    decreases rs.len(),
{
    if rs.len() == 0 {
        Seq::empty()
    } else {
        (if claim_spec(st.w, rs[0].payload.len() as int) is Ok {
            seq![rs[0]]
        } else {
            Seq::empty()
        }) + accepted_recs(append_rec(st, rs[0]), rs.drop_first())
    }
}

/// The records a reader at segment `idx`, position `cur` reads, in order,
/// until it reads none.
#[verifier::opaque]
pub open spec fn reader_records(segs: Seq<Seq<u8>>, idx: int, cur: int, hsize: int) -> Seq<
    RecordBytes,
>
    decreases segs.len() - idx, segs[idx].len() + 0x1_0000_0000 - cur
        when segs_fit(segs)
        via lemma_reader_records_decreases
{
    let (f, i2, c2) = reader_next(segs, idx, cur, hsize);
    match f {
        None => Seq::empty(),
        Some((i, off, body)) => seq![
            RecordBytes {
                header: segs[i].subrange(off + 8, off + 8 + hsize),
                payload: segs[i].subrange(off + 8 + hsize, off + 8 + body),
            },
        ] + reader_records(segs, i2, c2, hsize),
    }
}

#[via_fn]
proof fn lemma_reader_records_decreases(segs: Seq<Seq<u8>>, idx: int, cur: int, hsize: int) {
    lemma_reader_next_progress(segs, idx, cur, hsize);
}

/// The invariant of a journal written from empty.
pub open spec fn journal_inv(st: JournalState) -> bool {
    let n = st.segs.len();
    let h = st.w.hsize;
    &&& Writer::wf_view(st.w)
    &&& st.w.segment_size + 0x1_0000_0000 <= usize::MAX
    &&& n >= 1
    &&& st.parts.len() == n
    &&& st.w.index == n - 1
    &&& forall|i: int| 0 <= i < n ==> (#[trigger] st.segs[i]).len() == st.w.segment_size
    &&& forall|i: int| 0 <= i < n ==> holds_recs(#[trigger] st.segs[i], st.parts[i], h)
    &&& forall|i: int| 0 <= i < n - 1 ==> closed_end(#[trigger] st.segs[i], st.parts[i], h)
    &&& open_end(st.segs[n - 1], st.parts[n - 1], h)
    &&& st.w.tail == recs_span(st.parts[n - 1], h)
}

proof fn lemma_foot_bounds(body: int)
    requires
        0 < body,
    ensures
        foot(body) >= 16,
        foot(body) >= 8 + body,
{
    let q = (body + 7) / 8;
    assert(8 * q <= body + 7 < 8 * q + 8);
    assert(q * 8 >= body);
}

proof fn lemma_recs_span_nonneg(rs: Seq<RecordBytes>, hsize: int)
    requires
        0 <= hsize,
    ensures
        0 <= recs_span(rs, hsize),
    decreases rs.len(),
{
    if rs.len() > 0 {
        lemma_recs_span_nonneg(rs.drop_last(), hsize);
    }
}

proof fn lemma_recs_span_step(rs: Seq<RecordBytes>, k: int, hsize: int)
    requires
        0 <= k < rs.len(),
    ensures
        recs_span(rs.take(k + 1), hsize) == recs_span(rs.take(k), hsize) + foot(
            hsize + rs[k].payload.len(),
        ),
{
    assert(rs.take(k + 1).drop_last() =~= rs.take(k));
}

proof fn lemma_recs_span_mono(rs: Seq<RecordBytes>, j: int, k: int, hsize: int)
    requires
        0 <= j <= k <= rs.len(),
        0 <= hsize,
    ensures
        recs_span(rs.take(j), hsize) <= recs_span(rs.take(k), hsize),
        recs_span(rs.take(rs.len() as int), hsize) == recs_span(rs, hsize),
    decreases k - j,
{
    assert(rs.take(rs.len() as int) =~= rs);
    if j < k {
        lemma_recs_span_mono(rs, j, k - 1, hsize);
        lemma_recs_span_step(rs, k - 1, hsize);
    }
}

/// Frames below `t` do not change when only bytes from `t` on do.
proof fn lemma_holds_agree(b1: Seq<u8>, b2: Seq<u8>, rs: Seq<RecordBytes>, hsize: int, t: int)
    requires
        holds_recs(b1, rs, hsize),
        0 <= hsize,
        recs_span(rs, hsize) <= t,
        b1.len() == b2.len(),
        forall|j: int| 0 <= j < t ==> #[trigger] b2[j] == b1[j],
    ensures
        holds_recs(b2, rs, hsize),
{
    reveal(holds_recs);
    assert forall|k: int| 0 <= k < rs.len() implies frame_is(
        b2,
        recs_span(rs.take(k), hsize),
        #[trigger] rs[k],
        hsize,
    ) by {
        let o = recs_span(rs.take(k), hsize);
        let body = hsize + rs[k].payload.len();
        assert(frame_is(b1, o, rs[k], hsize));
        lemma_recs_span_step(rs, k, hsize);
        lemma_recs_span_mono(rs, k + 1, rs.len() as int, hsize);
        lemma_foot_bounds(body);
        assert(o + foot(body) <= t);
        assert(b2[o] == b1[o] && b2[o + 1] == b1[o + 1] && b2[o + 2] == b1[o + 2] && b2[o + 3]
            == b1[o + 3]);
        assert(b2.subrange(o + 8, o + 8 + hsize) =~= b1.subrange(o + 8, o + 8 + hsize));
        assert(b2.subrange(o + 8 + hsize, o + 8 + body) =~= b1.subrange(o + 8 + hsize, o + 8 + body));
    }
}

proof fn lemma_flatten_front(parts: Seq<Seq<RecordBytes>>)
    requires
        parts.len() > 0,
    ensures
        flatten_recs(parts) == parts[0] + flatten_recs(parts.drop_first()),
    decreases parts.len(),
{
    if parts.len() == 1 {
        assert(parts.drop_last() =~= Seq::<Seq<RecordBytes>>::empty());
        assert(parts.drop_first() =~= Seq::<Seq<RecordBytes>>::empty());
        assert(Seq::<RecordBytes>::empty() + parts[0] =~= parts[0] + Seq::<RecordBytes>::empty());
    } else {
        let d = parts.drop_last();
        lemma_flatten_front(d);
        assert(d.drop_first() =~= parts.drop_first().drop_last());
        assert(parts.drop_first().last() == parts.last());
        assert(d[0] == parts[0]);
        assert(parts[0] + flatten_recs(d.drop_first()) + parts.last() =~= parts[0] + (
        flatten_recs(d.drop_first()) + parts.last()));
    }
}

proof fn lemma_segs_fit(st: JournalState)
    requires
        journal_inv(st),
    ensures
        segs_fit(st.segs),
{
    assert forall|i: int| 0 <= i < st.segs.len() implies #[trigger] st.segs[i].len()
        + 0x1_0000_0000 <= usize::MAX by {
        assert(st.segs[i].len() == st.w.segment_size);
    }
}

/// A reader at a committed frame reads its record and goes on after it.
proof fn lemma_reader_at_frame(segs: Seq<Seq<u8>>, idx: int, o: int, r: RecordBytes, h: int)
    requires
        segs_fit(segs),
        0 <= idx < segs.len(),
        0 <= h,
        frame_is(segs[idx], o, r, h),
    ensures
        reader_records(segs, idx, o, h) == seq![r] + reader_records(
            segs,
            idx,
            o + foot(h + r.payload.len()),
            h,
        ),
{
    reveal(reader_records);
    let b = segs[idx];
    let body = h + r.payload.len();
    lemma_foot_bounds(body);
    assert(b.len() + 0x1_0000_0000 <= usize::MAX);
    assert(step_spec(b, o, h) == (Step::Record {
        off: o as usize,
        body: body as usize,
        next: (o + foot(body)) as usize,
    }));
    assert(reader_next(segs, idx, o, h) == (Some((idx, o, body)), idx, o + foot(body)));
    assert(RecordBytes {
        header: b.subrange(o + 8, o + 8 + h),
        payload: b.subrange(o + 8 + h, o + 8 + body),
    } == r);
}

/// At the end of the records of a segment left behind, a reader moves on
/// to the next segment.
proof fn lemma_reader_at_closed_end(segs: Seq<Seq<u8>>, idx: int, o: int, h: int)
    requires
        segs_fit(segs),
        0 <= idx,
        idx + 1 < segs.len(),
        0 <= o <= segs[idx].len(),
        o + 16 <= segs[idx].len() ==> marker_at(segs[idx], o) < 0,
    ensures
        reader_records(segs, idx, o, h) == reader_records(segs, idx + 1, 0, h),
{
    reveal(reader_records);
    let b = segs[idx];
    assert(b.len() + 0x1_0000_0000 <= usize::MAX);
    if o + 16 <= b.len() {
        assert(step_spec(b, o, h) == (Step::Skip { next: b.len() as usize }));
    }
    assert(reader_next(segs, idx, o, h) == reader_next(segs, idx + 1, 0, h));
}

/// At the end of the records of the active segment, a reader reads nothing.
proof fn lemma_reader_at_open_end(segs: Seq<Seq<u8>>, idx: int, o: int, h: int)
    requires
        segs_fit(segs),
        idx == segs.len() - 1,
        0 <= idx,
        0 <= o <= segs[idx].len(),
        o + 8 <= segs[idx].len() ==> marker_at(segs[idx], o) == 0,
    ensures
        reader_records(segs, idx, o, h) == Seq::<RecordBytes>::empty(),
{
    reveal(reader_records);
    assert(reader_next(segs, idx, o, h).0 is None);
}

/// A reader in segment `idx`, at the start of its record `k`, reads the
/// rest of that segment's records and then those of the later segments.
#[verifier::rlimit(60)]
proof fn lemma_read_parts(st: JournalState, idx: int, k: int)
    requires
        journal_inv(st),
        0 <= idx < st.segs.len(),
        0 <= k <= st.parts[idx].len(),
    ensures
        reader_records(
            st.segs,
            idx,
            recs_span(st.parts[idx].take(k), st.w.hsize),
            st.w.hsize,
        ) == st.parts[idx].skip(k) + flatten_recs(st.parts.subrange(idx + 1, st.segs.len() as int)),
    decreases st.segs.len() - idx, st.parts[idx].len() - k,
{
    let n = st.segs.len() as int;
    let h = st.w.hsize;
    let rs = st.parts[idx];
    let b = st.segs[idx];
    let o = recs_span(rs.take(k), h);
    let rest = flatten_recs(st.parts.subrange(idx + 1, n));
    lemma_segs_fit(st);
    assert(holds_recs(b, rs, h));
    assert(b.len() == st.w.segment_size);
    assert(recs_span(rs, h) <= b.len()) by {
        reveal(holds_recs);
    }
    lemma_recs_span_nonneg(rs.take(k), h);
    lemma_recs_span_mono(rs, k, rs.len() as int, h);
    if k < rs.len() {
        let r = rs[k];
        assert(frame_is(b, o, r, h)) by {
            reveal(holds_recs);
        }
        lemma_reader_at_frame(st.segs, idx, o, r, h);
        lemma_recs_span_step(rs, k, h);
        lemma_read_parts(st, idx, k + 1);
        assert(rs.skip(k) =~= seq![r] + rs.skip(k + 1));
        assert(seq![r] + rs.skip(k + 1) + rest =~= seq![r] + (rs.skip(k + 1) + rest));
    } else {
        assert(rs.take(k) =~= rs);
        assert(rs.skip(k) =~= Seq::<RecordBytes>::empty());
        assert(Seq::<RecordBytes>::empty() + rest =~= rest);
        if idx < n - 1 {
            assert(closed_end(b, rs, h));
            lemma_reader_at_closed_end(st.segs, idx, o, h);
            lemma_read_parts(st, idx + 1, 0);
            assert(st.parts[idx + 1].take(0) =~= Seq::<RecordBytes>::empty());
            assert(st.parts[idx + 1].skip(0) =~= st.parts[idx + 1]);
            let sub = st.parts.subrange(idx + 1, n);
            lemma_flatten_front(sub);
            assert(sub.drop_first() =~= st.parts.subrange(idx + 2, n));
        } else {
            assert(open_end(b, rs, h));
            lemma_reader_at_open_end(st.segs, idx, o, h);
            assert(st.parts.subrange(idx + 1, n) =~= Seq::<Seq<RecordBytes>>::empty());
        }
    }
}

/// Recovery walks the records of the active segment to its write position.
proof fn lemma_recover_parts(b: Seq<u8>, rs: Seq<RecordBytes>, hsize: int, k: int)
    requires
        holds_recs(b, rs, hsize),
        open_end(b, rs, hsize),
        0 <= hsize,
        b.len() + 0x1_0000_0000 <= usize::MAX,
        0 <= k <= rs.len(),
    ensures
        tail_spec(b, recs_span(rs.take(k), hsize), hsize) == recs_span(rs, hsize),
    decreases rs.len() - k,
{
    let o = recs_span(rs.take(k), hsize);
    assert(recs_span(rs, hsize) <= b.len()) by {
        reveal(holds_recs);
    }
    lemma_recs_span_nonneg(rs.take(k), hsize);
    lemma_recs_span_mono(rs, k, rs.len() as int, hsize);
    if k < rs.len() {
        let body = hsize + rs[k].payload.len();
        assert(frame_is(b, o, rs[k], hsize)) by {
            reveal(holds_recs);
        }
        lemma_foot_bounds(body);
        lemma_recs_span_step(rs, k, hsize);
        let next = o + foot(body);
        if k + 1 < rs.len() {
            let body2 = hsize + rs[k + 1].payload.len();
            assert(frame_is(b, recs_span(rs.take(k + 1), hsize), rs[k + 1], hsize)) by {
                reveal(holds_recs);
            }
            lemma_foot_bounds(body2);
            lemma_recs_span_step(rs, k + 1, hsize);
            lemma_recs_span_mono(rs, k + 2, rs.len() as int, hsize);
            lemma_recover_parts(b, rs, hsize, k + 1);
        } else {
            assert(rs.take(k + 1) =~= rs);
            if next + 8 <= b.len() {
                lemma_recover_parts(b, rs, hsize, k + 1);
            }
        }
    } else {
        assert(rs.take(k) =~= rs);
    }
}


proof fn lemma_flatten_update_last(parts: Seq<Seq<RecordBytes>>, r: RecordBytes)
    requires
        parts.len() > 0,
    ensures
        flatten_recs(parts.update(parts.len() - 1, parts.last().push(r))) == flatten_recs(
            parts,
        ).push(r),
        flatten_recs(parts.push(Seq::empty())) == flatten_recs(parts),
{
    let u = parts.update(parts.len() - 1, parts.last().push(r));
    assert(u.drop_last() =~= parts.drop_last());
    assert(flatten_recs(parts.drop_last()) + parts.last().push(r) =~= (flatten_recs(
        parts.drop_last(),
    ) + parts.last()).push(r));
    assert(parts.push(Seq::empty()).drop_last() =~= parts);
    assert(flatten_recs(parts) + Seq::<RecordBytes>::empty() =~= flatten_recs(parts));
}

/// Rolling to a new segment keeps the invariant: the segment left behind
/// is padded, the new one is empty.
proof fn lemma_roll_inv(st: JournalState)
    requires
        journal_inv(st),
    ensures
        ({
            let last = st.segs.len() - 1;
            let st1 = JournalState {
                segs: st.segs.update(last, padded(st.segs[last], st.w.tail)).push(
                    Seq::new(st.w.segment_size as nat, |j: int| 0u8),
                ),
                w: WriterView { index: st.w.index + 1, tail: 0, ..st.w },
                parts: st.parts.push(Seq::empty()),
            };
            &&& journal_inv(st1)
            &&& flatten_recs(st1.parts) == flatten_recs(st.parts)
        }),
{
    let n = st.segs.len() as int;
    let last = n - 1;
    let h = st.w.hsize;
    let b = st.segs[last];
    let t = st.w.tail;
    let pb = padded(b, t);
    let z = Seq::new(st.w.segment_size as nat, |j: int| 0u8);
    let st1 = JournalState {
        segs: st.segs.update(last, pb).push(z),
        w: WriterView { index: st.w.index + 1, tail: 0, ..st.w },
        parts: st.parts.push(Seq::empty()),
    };
    let rs = st.parts[last];
    assert(holds_recs(b, rs, h));
    assert(b.len() == st.w.segment_size);
    assert(forall|j: int| 0 <= j < t ==> #[trigger] pb[j] == b[j]);
    assert(recs_span(rs, h) <= t);
    lemma_holds_agree(b, pb, rs, h, t);
    if t + 16 <= b.len() {
        lemma_padding_skips_to_end(b, t, h);
        assert(marker_at(pb, t) < 0);
    }
    assert(closed_end(pb, rs, h));
    assert(holds_recs(z, Seq::empty(), h)) by {
        reveal(holds_recs);
    }
    assert(u32_at(z, 0) == 0);
    assert(open_end(z, Seq::empty(), h));
    assert forall|i: int| 0 <= i < n + 1 implies holds_recs(#[trigger] st1.segs[i], st1.parts[i], h) by {
        if i < last {
            assert(st1.segs[i] == st.segs[i]);
            assert(st1.parts[i] == st.parts[i]);
        } else if i == last {
            assert(st1.parts[i] == rs);
        }
    }
    assert forall|i: int| 0 <= i < n implies closed_end(#[trigger] st1.segs[i], st1.parts[i], h) by {
        if i < last {
            assert(st1.segs[i] == st.segs[i]);
            assert(st1.parts[i] == st.parts[i]);
        } else {
            assert(st1.parts[i] == rs);
        }
    }
    assert forall|i: int| 0 <= i < n + 1 implies (#[trigger] st1.segs[i]).len() == st.w.segment_size by {
        if i < last {
            assert(st1.segs[i] == st.segs[i]);
        }
    }
    lemma_flatten_update_last(st.parts, RecordBytes { header: Seq::empty(), payload: Seq::empty() });
}

/// Committing a claimed frame at the write position, with its payload in
/// place, keeps the invariant and adds the record after all the others.
proof fn lemma_commit_inv(st: JournalState, r: RecordBytes)
    requires
        journal_inv(st),
        r.header.len() == st.w.hsize,
        0 < st.w.hsize + r.payload.len() <= 0x7FFF_FFFF,
        st.w.tail + foot(st.w.hsize + r.payload.len()) <= st.w.segment_size,
    ensures
        ({
            let l = st.segs.len() - 1;
            let body = st.w.hsize + r.payload.len();
            let b = with_bytes(st.segs[l], st.w.tail + 8 + st.w.hsize, r.payload);
            let st2 = JournalState {
                segs: st.segs.update(l, committed(b, st.w.tail, body, r.header)),
                w: WriterView { tail: st.w.tail + foot(body), ..st.w },
                parts: st.parts.update(l, st.parts[l].push(r)),
            };
            &&& journal_inv(st2)
            &&& flatten_recs(st2.parts) == flatten_recs(st.parts).push(r)
        }),
{
    let n = st.segs.len() as int;
    let l = n - 1;
    let h = st.w.hsize;
    let body = h + r.payload.len();
    let t = st.w.tail;
    let b0 = st.segs[l];
    let b = with_bytes(b0, t + 8 + h, r.payload);
    let nb = committed(b, t, body, r.header);
    let rs = st.parts[l];
    let rs2 = rs.push(r);
    let st2 = JournalState {
        segs: st.segs.update(l, nb),
        w: WriterView { tail: t + foot(body), ..st.w },
        parts: st.parts.update(l, rs2),
    };
    assert(holds_recs(b0, rs, h));
    assert(b0.len() == st.w.segment_size);
    lemma_recs_span_nonneg(rs, h);
    lemma_foot_bounds(body);
    lemma_commit_reads_back(b, t, body, r.header);
    assert(forall|j: int| 0 <= j < t ==> #[trigger] nb[j] == b0[j]) by {
        assert forall|j: int| 0 <= j < t implies #[trigger] nb[j] == b0[j] by {
            assert(nb[j] == b[j]);
        }
    }
    lemma_holds_agree(b0, nb, rs, h, t);
    assert(rs2.drop_last() =~= rs);
    assert(recs_span(rs2, h) == t + foot(body));
    assert(nb.subrange(t + 8 + h, t + 8 + body) =~= r.payload) by {
        assert(b.subrange(t + 8 + h, t + 8 + body) =~= r.payload);
    }
    assert(holds_recs(nb, rs2, h)) by {
        reveal(holds_recs);
        assert forall|k: int| 0 <= k < rs2.len() implies frame_is(
            nb,
            recs_span(rs2.take(k), h),
            #[trigger] rs2[k],
            h,
        ) by {
            if k < rs.len() {
                assert(rs2.take(k) =~= rs.take(k));
                assert(rs2[k] == rs[k]);
                assert(frame_is(nb, recs_span(rs.take(k), h), rs[k], h));
            } else {
                assert(rs2.take(k) =~= rs);
            }
        }
    }
    assert(open_end(nb, rs2, h));
    assert forall|i: int| 0 <= i < n implies holds_recs(#[trigger] st2.segs[i], st2.parts[i], h) by {
        if i < l {
            assert(st2.segs[i] == st.segs[i]);
            assert(st2.parts[i] == st.parts[i]);
        }
    }
    assert forall|i: int| 0 <= i < n - 1 implies closed_end(#[trigger] st2.segs[i], st2.parts[i], h) by {
        assert(st2.segs[i] == st.segs[i]);
        assert(st2.parts[i] == st.parts[i]);
    }
    assert forall|i: int| 0 <= i < n implies (#[trigger] st2.segs[i]).len() == st.w.segment_size by {
        if i < l {
            assert(st2.segs[i] == st.segs[i]);
        }
    }
    lemma_flatten_update_last(st.parts, r);
}

/// One append keeps the invariant and adds the record when its claim is
/// granted.
proof fn lemma_append_rec_inv(st: JournalState, r: RecordBytes)
    requires
        journal_inv(st),
        r.header.len() == st.w.hsize,
    ensures
        journal_inv(append_rec(st, r)),
        append_rec(st, r).w.segment_size == st.w.segment_size,
        append_rec(st, r).w.hsize == st.w.hsize,
        flatten_recs(append_rec(st, r).parts) == flatten_recs(st.parts) + if claim_spec(
            st.w,
            r.payload.len() as int,
        ) is Ok {
            seq![r]
        } else {
            Seq::<RecordBytes>::empty()
        },
{
    match claim_spec(st.w, r.payload.len() as int) {
        Err(_) => {
            assert(flatten_recs(st.parts) + Seq::<RecordBytes>::empty() =~= flatten_recs(st.parts));
        },
        Ok(c) => {
            let last = st.segs.len() - 1;
            if c.rolled {
                lemma_roll_inv(st);
                let st1 = JournalState {
                    segs: st.segs.update(last, padded(st.segs[last], st.w.tail)).push(
                        Seq::new(st.w.segment_size as nat, |j: int| 0u8),
                    ),
                    w: WriterView { index: st.w.index + 1, tail: 0, ..st.w },
                    parts: st.parts.push(Seq::empty()),
                };
                lemma_commit_inv(st1, r);
            } else {
                lemma_commit_inv(st, r);
            }
            assert(flatten_recs(st.parts).push(r) =~= flatten_recs(st.parts) + seq![r]);
        },
    }
}

/// Appends keep the invariant and add the accepted records in order.
proof fn lemma_append_all_inv(st: JournalState, rs: Seq<RecordBytes>)
    requires
        journal_inv(st),
        forall|k: int| 0 <= k < rs.len() ==> (#[trigger] rs[k]).header.len() == st.w.hsize,
    ensures
        journal_inv(append_all(st, rs)),
        append_all(st, rs).w.hsize == st.w.hsize,
        flatten_recs(append_all(st, rs).parts) == flatten_recs(st.parts) + accepted_recs(st, rs),
    decreases rs.len(),
{
    if rs.len() == 0 {
        assert(flatten_recs(st.parts) + Seq::<RecordBytes>::empty() =~= flatten_recs(st.parts));
    } else {
        let st1 = append_rec(st, rs[0]);
        lemma_append_rec_inv(st, rs[0]);
        let tail = rs.drop_first();
        assert forall|k: int| 0 <= k < tail.len() implies (#[trigger] tail[k]).header.len()
            == st1.w.hsize by {
            assert(tail[k] == rs[k + 1]);
        }
        lemma_append_all_inv(st1, tail);
        let head = if claim_spec(st.w, rs[0].payload.len() as int) is Ok {
            seq![rs[0]]
        } else {
            Seq::<RecordBytes>::empty()
        };
        assert(flatten_recs(st.parts) + head + accepted_recs(st1, tail) =~= flatten_recs(st.parts)
            + (head + accepted_recs(st1, tail)));
    }
}

/// A journal written from empty by appending the records `rs` in order
/// (each header `hsize` bytes, each payload written into its claimed frame
/// before the commit) reads back, from the start of its first segment,
/// exactly the records whose claims were granted, in order, and then
/// nothing. Opening it again over its segments recovers the writer as it
/// was (the last segment, at the same write position), so records appended
/// after the reopening follow them.
pub proof fn lemma_reopen_reads_back(size: int, hsize: int, rs: Seq<RecordBytes>)
    requires
        64 <= size <= 0xFFFF_FFF0,
        size % 8 == 0,
        size + 0x1_0000_0000 <= usize::MAX,
        0 <= hsize <= 0x7FFF_FFFF,
        forall|k: int| 0 <= k < rs.len() ==> (#[trigger] rs[k]).header.len() == hsize,
    ensures
        ({
            let st = append_all(fresh_journal(size, hsize), rs);
            &&& reader_records(st.segs, 0, 0, hsize) == accepted_recs(
                fresh_journal(size, hsize),
                rs,
            )
            &&& st.w.index == st.segs.len() - 1
            &&& tail_spec(st.segs.last(), 0, hsize) == st.w.tail
        }),
{
    let f = fresh_journal(size, hsize);
    let z = f.segs[0];
    assert(u32_at(z, 0) == 0);
    assert(holds_recs(z, Seq::empty(), hsize)) by {
        reveal(holds_recs);
    }
    assert(journal_inv(f));
    assert(flatten_recs(f.parts) =~= Seq::<RecordBytes>::empty()) by {
        assert(f.parts.drop_last() =~= Seq::<Seq<RecordBytes>>::empty());
        assert(flatten_recs(f.parts.drop_last()) == Seq::<RecordBytes>::empty());
        assert(f.parts.last() == Seq::<RecordBytes>::empty());
        assert(Seq::<RecordBytes>::empty() + Seq::<RecordBytes>::empty() =~= Seq::<
            RecordBytes,
        >::empty());
    }
    lemma_append_all_inv(f, rs);
    let st = append_all(f, rs);
    lemma_read_parts(st, 0, 0);
    assert(st.parts[0].take(0) =~= Seq::<RecordBytes>::empty());
    assert(st.parts[0].skip(0) =~= st.parts[0]);
    lemma_flatten_front(st.parts);
    assert(st.parts.subrange(1, st.segs.len() as int) =~= st.parts.drop_first());
    assert(Seq::<RecordBytes>::empty() + accepted_recs(f, rs) =~= accepted_recs(f, rs));
    let n = st.segs.len() - 1;
    let rl = st.parts[n];
    lemma_recover_parts(st.segs[n], rl, hsize, 0);
    assert(rl.take(0) =~= Seq::<RecordBytes>::empty());
}

} // verus!
