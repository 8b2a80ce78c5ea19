use vstd::prelude::*;

verus! {

/// Bytes of the frame header: `commit_len: u32` then `session_id: u32`.
pub const FRAME_HDR: usize = 8;

/// Frames start on 8-byte boundaries.
pub const ALIGN: usize = 8;

/// `n` rounded up to a multiple of [`ALIGN`].
pub open spec fn align8(n: int) -> int {
    (n + 7) / 8 * 8
}

/// Bytes a record with a `body`-byte payload takes in a segment.
pub open spec fn foot(body: int) -> int {
    8 + align8(body)
}

/// Little-endian `u32` stored at `b[o..o + 4]`.
pub open spec fn u32_at(b: Seq<u8>, o: int) -> int {
    b[o] as int + b[o + 1] as int * 256 + b[o + 2] as int * 65536 + b[o + 3] as int * 16777216
}

/// Byte `i` (0 = least significant) of the little-endian encoding of `v`.
pub open spec fn le_byte(v: int, i: int) -> u8 {
    if i == 0 {
        (v % 256) as u8
    } else if i == 1 {
        (v / 256 % 256) as u8
    } else if i == 2 {
        (v / 65536 % 256) as u8
    } else {
        (v / 16777216 % 256) as u8
    }
}

/// The four little-endian bytes of a `u32` add back up to it.
pub proof fn lemma_le_bytes(v: int)
    requires
        0 <= v <= u32::MAX,
    ensures
        le_byte(v, 0) as int + le_byte(v, 1) as int * 256 + le_byte(v, 2) as int * 65536 + le_byte(
            v,
            3,
        ) as int * 16777216 == v,
{
    assert(v / 16777216 < 256);
    assert(v / 256 == (v / 256 / 256) * 256 + v / 256 % 256);
    assert(v / 256 / 256 == v / 65536);
    assert(v / 65536 == (v / 65536 / 256) * 256 + v / 65536 % 256);
    assert(v / 65536 / 256 == v / 16777216);
}

fn align_up(n: usize) -> (r: usize)
    requires
        n + 7 <= usize::MAX,
    ensures
        r == align8(n as int),
{
    let m = n + (ALIGN - 1);
    let r = m & !(ALIGN - 1);
    assert(m & !7usize == m - m % 8) by (bit_vector);
    r
}

pub(crate) fn align_up_pub(n: usize) -> (r: usize)
    requires
        n + 7 <= usize::MAX,
    ensures
        r == align8(n as int),
{
    align_up(n)
}

pub(crate) fn footprint(body: usize) -> (r: usize)
    requires
        body + 15 <= usize::MAX,
    ensures
        r == foot(body as int),
{
    FRAME_HDR + align_up(body)
}

/// Opaque position handle returned by [`SegmentedLog::append`], passed to
/// [`SegmentedLog::read`]. Valid until the slot it references is rotated out.
///
/// Encoding: `[63:34]` = generation, `[33:32]` = slot index, `[31:0]` = local offset.
/// The default value (`u64::MAX`) encodes slot index 3 (no valid slot), so
/// [`SegmentedLog::read`] always returns `None` for a default offset.
#[derive(Clone, Copy, Debug, PartialEq, Eq, Structural)]
pub struct LogOffset(u64);

/// Slot index encoded in an offset.
pub open spec fn off_slot(v: u64) -> int {
    (v as int / 0x1_0000_0000) % 4
}

/// Local offset within the slot encoded in an offset.
pub open spec fn off_local(v: u64) -> int {
    v as int % 0x1_0000_0000
}

/// Generation encoded in an offset (30 bits).
pub open spec fn off_epoch(v: u64) -> int {
    v as int / 0x4_0000_0000
}

/// The encoding of `(slot, local, epoch)`; only the low 30 bits of the
/// generation fit.
pub open spec fn make_offset(slot: int, local: int, epoch: u32) -> u64 {
    ((epoch as int % 0x4000_0000) * 0x4_0000_0000 + slot * 0x1_0000_0000 + local) as u64
}

impl View for LogOffset {
    type V = u64;

    closed spec fn view(&self) -> u64 {
        self.0
    }
}

impl Default for LogOffset {
    fn default() -> (r: Self)
        ensures
            r@ == u64::MAX,
    {
        LogOffset(u64::MAX)
    }
}

impl LogOffset {
    fn new(slot: u8, local_off: usize, epoch: u32) -> (r: Self)
        requires
            slot < 4,
            local_off < 0x1_0000_0000,
        ensures
            r@ == make_offset(slot as int, local_off as int, epoch),
            off_slot(r@) == slot,
            off_local(r@) == local_off,
            off_epoch(r@) == epoch as int % 0x4000_0000,
    {
        let e = epoch as u64;
        let s = slot as u64;
        let l = local_off as u64;
        let v = e << 34u64 | s << 32u64 | l;
        assert(s < 4 && l < 0x1_0000_0000 ==> (e << 34u64 | s << 32u64 | l) == (e % 0x4000_0000)
            * 0x4_0000_0000 + s * 0x1_0000_0000 + l) by (bit_vector);
        assert(e < 0x1_0000_0000 ==> (e % 0x4000_0000) * 0x4_0000_0000 < 0x1_0000_0000_0000_0000)
            by (nonlinear_arith);
        LogOffset(v)
    }

    fn slot(self) -> (r: usize)
        ensures
            r == off_slot(self@),
    {
        let v = self.0;
        assert((v >> 32u64) & 3 == (v / 0x1_0000_0000) % 4) by (bit_vector);
        ((v >> 32u64) & 3) as usize
    }

    fn local_off(self) -> (r: usize)
        ensures
            r == off_local(self@),
    {
        let v = self.0;
        assert(v & 0xFFFF_FFFF == v % 0x1_0000_0000) by (bit_vector);
        (v & 0xFFFF_FFFF) as usize
    }

    fn epoch(self) -> (r: u32)
        ensures
            r == off_epoch(self@),
    {
        let v = self.0;
        assert(v >> 34u64 == v / 0x4_0000_0000) by (bit_vector);
        assert(v / 0x4_0000_0000 < 0x4000_0000);
        (v >> 34u64) as u32
    }

    fn global_offset(self, segment_size: usize) -> (r: u64)
        requires
            segment_size <= 0x1_0000_0000,
        ensures
            r == off_epoch(self@) * segment_size + off_local(self@),
    {
        let e = self.epoch() as u64;
        let l = self.local_off() as u64;
        assert(e * (segment_size as u64) <= 0x4000_0000 * 0x1_0000_0000) by (nonlinear_arith)
            requires
                e < 0x4000_0000,
                segment_size <= 0x1_0000_0000,
        ;
        e * segment_size as u64 + l
    }
}

/// Zero-copy view of a committed record in the log.
///
/// Provides access to the session tag, global offset, and payload bytes
/// without copying from the underlying segment.
pub struct Frame<'buf> {
    payload: &'buf [u8],
    offset: u64,
    session_id: u32,
}

/// Abstract value of a [`Frame`].
pub struct FrameView {
    pub payload: Seq<u8>,
    pub offset: u64,
    pub session_id: u32,
}

impl<'buf> View for Frame<'buf> {
    type V = FrameView;

    closed spec fn view(&self) -> FrameView {
        FrameView { payload: self.payload@, offset: self.offset, session_id: self.session_id }
    }
}

impl<'buf> Frame<'buf> {
    pub fn session_id(&self) -> (r: u32)
        ensures
            r == self@.session_id,
    {
        self.session_id
    }

    pub fn offset(&self) -> (r: u64)
        ensures
            r == self@.offset,
    {
        self.offset
    }

    pub fn payload(&self) -> (r: &'buf [u8])
        ensures
            r@ == self@.payload,
    {
        self.payload
    }
}

/// Why an append failed.
#[derive(Clone, Copy, Debug, PartialEq, Eq, Structural)]
pub enum SegmentedLogError {
    /// The record does not fit in a segment even when it is empty.
    RecordTooLarge { max: usize },
    /// The active segment is full and the standby segment has not been
    /// cleaned yet.
    StandbyNotReady,
}

/// A record: its session tag and payload.
pub type Rec = (u32, Seq<u8>);

/// Bytes a run of records takes when laid out back to back from offset 0.
pub open spec fn span(rs: Seq<Rec>) -> int
    decreases rs.len(),
{
    if rs.len() == 0 {
        0
    } else {
        span(rs.drop_last()) + foot(rs.last().1.len() as int)
    }
}

/// The record `r` is committed at `o` in the segment bytes `b`.
pub open spec fn frame_at(b: Seq<u8>, o: int, r: Rec) -> bool {
    &&& u32_at(b, o) == r.1.len() + 1
    &&& u32_at(b, o + 4) == r.0
    &&& b.subrange(o + 8, o + 8 + r.1.len()) == r.1
}

/// The segment bytes `b` hold the records `rs` back to back from offset 0,
/// followed by an uncommitted header where one fits.
#[verifier::opaque]
pub open spec fn seg_holds(b: Seq<u8>, rs: Seq<Rec>, size: int) -> bool {
    &&& b.len() == size
    &&& span(rs) <= size
    &&& forall|k: int| 0 <= k < rs.len() ==> frame_at(b, span(rs.take(k)), #[trigger] rs[k])
    &&& span(rs) + 8 <= size ==> u32_at(b, span(rs)) == 0
}

/// The bytes of segment `b` after the record `(sid, p)` is written at `off`:
/// header, payload and, where one fits, an uncommitted header after it.
pub open spec fn written(b: Seq<u8>, off: int, sid: u32, p: Seq<u8>, size: int) -> Seq<u8> {
    let f = foot(p.len() as int);
    Seq::new(
        b.len(),
        |j: int|
            if off <= j < off + 4 {
                le_byte(p.len() as int + 1, j - off)
            } else if off + 4 <= j < off + 8 {
                le_byte(sid as int, j - off - 4)
            } else if off + 8 <= j < off + 8 + p.len() {
                p[j - off - 8]
            } else if off + f + 8 <= size && off + f <= j < off + f + 4 {
                0u8
            } else {
                b[j]
            },
    )
}

/// The log with its standby segment cleaned and marked ready.
pub open spec fn standby_cleaned(v: SegLogView) -> SegLogView {
    SegLogView {
        segs: v.segs.update(standby_slot(v.epoch), cleaned(v.segs[standby_slot(v.epoch)])),
        ready: true,
        ..v
    }
}

/// The bytes of segment `b` after its first header is marked uncommitted.
pub open spec fn cleaned(b: Seq<u8>) -> Seq<u8> {
    Seq::new(b.len(), |j: int| if 0 <= j < 4 { 0u8 } else { b[j] })
}

proof fn lemma_span_basics(rs: Seq<Rec>)
    ensures
        span(rs) >= 0,
        span(rs) % 8 == 0,
        rs.len() > 0 ==> span(rs) >= 8,
    decreases rs.len(),
{
    if rs.len() > 0 {
        lemma_span_basics(rs.drop_last());
    }
}

proof fn lemma_span_take_step(rs: Seq<Rec>, k: int)
    requires
        0 <= k < rs.len(),
    ensures
        span(rs.take(k + 1)) == span(rs.take(k)) + foot(rs[k].1.len() as int),
{
    assert(rs.take(k + 1).drop_last() =~= rs.take(k));
}

proof fn lemma_span_mono(rs: Seq<Rec>, j: int, k: int)
    requires
        0 <= j <= k <= rs.len(),
    ensures
        span(rs.take(j)) <= span(rs.take(k)),
    decreases k - j,
{
    if j < k {
        lemma_span_take_step(rs, k - 1);
        lemma_span_mono(rs, j, k - 1);
    }
}

proof fn lemma_span_record_inside(rs: Seq<Rec>, k: int)
    requires
        0 <= k < rs.len(),
    ensures
        0 <= span(rs.take(k)),
        span(rs.take(k)) % 8 == 0,
        span(rs.take(k)) + foot(rs[k].1.len() as int) <= span(rs),
{
    lemma_span_take_step(rs, k);
    lemma_span_mono(rs, k + 1, rs.len() as int);
    assert(rs.take(rs.len() as int) =~= rs);
    lemma_span_basics(rs.take(k));
}

proof fn lemma_span_push(rs: Seq<Rec>, r: Rec)
    ensures
        span(rs.push(r)) == span(rs) + foot(r.1.len() as int),
        forall|k: int| 0 <= k <= rs.len() ==> #[trigger] rs.push(r).take(k) == rs.take(k),
{
    assert(rs.push(r).drop_last() =~= rs);
    assert forall|k: int| 0 <= k <= rs.len() implies #[trigger] rs.push(r).take(k) == rs.take(k) by {
        assert(rs.push(r).take(k) =~= rs.take(k));
    }
}

/// Writing a record at the end of the records a segment holds keeps them and
/// adds it.
proof fn lemma_append_holds(b: Seq<u8>, rs: Seq<Rec>, size: int, sid: u32, p: Seq<u8>)
    requires
        seg_holds(b, rs, size),
        size <= 0xFFFF_FFF0,
        span(rs) + foot(p.len() as int) <= size,
    ensures
        seg_holds(written(b, span(rs), sid, p, size), rs.push((sid, p)), size),
{
    reveal(seg_holds);
    let c = span(rs);
    let nb = written(b, c, sid, p, size);
    let nr = rs.push((sid, p));
    lemma_span_push(rs, (sid, p));
    lemma_span_basics(rs);
    assert forall|k: int| 0 <= k < nr.len() implies frame_at(nb, span(nr.take(k)), #[trigger] nr[k]) by {
        if k < rs.len() {
            lemma_span_record_inside(rs, k);
            let o = span(rs.take(k));
            assert(nr.take(k) == rs.take(k));
            assert(frame_at(b, o, rs[k]));
            let len = rs[k].1.len() as int;
            assert(o + 8 + len <= c);
            assert(nb[o] == b[o] && nb[o + 1] == b[o + 1] && nb[o + 2] == b[o + 2] && nb[o + 3] == b[o + 3]);
            assert(nb[o + 4] == b[o + 4] && nb[o + 5] == b[o + 5] && nb[o + 6] == b[o + 6] && nb[o + 7] == b[o + 7]);
            assert(nb.subrange(o + 8, o + 8 + len) =~= b.subrange(o + 8, o + 8 + len));
        } else {
            assert(nr.take(k) == rs.take(k));
            assert(rs.take(k) =~= rs);
            lemma_le_bytes(p.len() as int + 1);
            lemma_le_bytes(sid as int);
            assert(nb.subrange(c + 8, c + 8 + p.len()) =~= p);
        }
    }
    let e = c + foot(p.len() as int);
    if e + 8 <= size {
        assert(nb[e] == 0 && nb[e + 1] == 0 && nb[e + 2] == 0 && nb[e + 3] == 0);
    }
}

/// Little-endian `u32` read from `seg[o..o + 4]`.
pub(crate) fn get_u32(seg: &Vec<u8>, o: usize) -> (r: u32)
    requires
        o + 4 <= seg@.len(),
    ensures
        r == u32_at(seg@, o as int),
{
    let n = seg.len();
    seg[o] as u32 + seg[o + 1] as u32 * 256 + seg[o + 2] as u32 * 65536 + seg[o + 3] as u32
        * 16777216
}

/// Writes `v` little-endian at `seg[o..o + 4]`.
pub(crate) fn put_u32(seg: &mut Vec<u8>, o: usize, v: u32)
    requires
        o + 4 <= old(seg)@.len(),
    ensures
        final(seg)@.len() == old(seg)@.len(),
        forall|j: int|
            0 <= j < old(seg)@.len() ==> #[trigger] final(seg)@[j] == if o <= j < o + 4 {
                le_byte(v as int, j - o)
            } else {
                old(seg)@[j]
            },
{
    let n = seg.len();
    seg[o] = (v % 256) as u8;
    seg[o + 1] = (v / 256 % 256) as u8;
    seg[o + 2] = (v / 65536 % 256) as u8;
    seg[o + 3] = (v / 16777216 % 256) as u8;
}

/// Writes the record `(sid, payload)` at `off`, and an uncommitted header
/// after it where one fits.
fn write_frame(seg: &mut Vec<u8>, off: usize, sid: u32, payload: &[u8], size: usize)
    requires
        old(seg)@.len() == size,
        size <= 0xFFFF_FFF0,
        off + foot(payload@.len() as int) <= size,
    ensures
        final(seg)@ == written(old(seg)@, off as int, sid, payload@, size as int),
{
    let body = payload.len();
    let mut k: usize = 0;
    while k < body
        invariant
            0 <= k <= body == payload@.len(),
            off + 8 + body <= size,
            seg@.len() == size,
            forall|j: int|
                0 <= j < size ==> #[trigger] seg@[j] == if off + 8 <= j < off + 8 + k {
                    payload@[j - off - 8]
                } else {
                    old(seg)@[j]
                },
        decreases body - k,
    {
        seg[off + FRAME_HDR + k] = payload[k];
        k = k + 1;
    }
    put_u32(seg, off + 4, sid);
    let next = off + footprint(body);
    if next + FRAME_HDR <= size {
        put_u32(seg, next, 0);
    }
    put_u32(seg, off, (body as u32) + 1);
    assert(seg@ =~= written(old(seg)@, off as int, sid, payload@, size as int));
}

/// Marks the first header of `seg` uncommitted.
fn clean_segment(seg: &mut Vec<u8>)
    requires
        old(seg)@.len() >= 4,
    ensures
        final(seg)@ == cleaned(old(seg)@),
{
    put_u32(seg, 0, 0);
    assert(seg@ =~= cleaned(old(seg)@));
}

/// Abstract state of a [`SegmentedLog`].
pub struct SegLogView {
    /// Bytes of the three segments, by slot.
    pub segs: Seq<Seq<u8>>,
    pub size: int,
    /// Number of rotations so far; segment number `epoch` is the active one.
    pub epoch: int,
    /// Write position within the active segment.
    pub cursor: int,
    /// The standby segment has been cleaned.
    pub ready: bool,
    /// Generation of each slot.
    pub gens: Seq<u32>,
    /// Records of the active segment, in order.
    pub cur: Seq<Rec>,
    /// Records of the previous segment, in order.
    pub prev: Seq<Rec>,
}

pub open spec fn cur_slot(epoch: int) -> int {
    epoch % 3
}

pub open spec fn prev_slot(epoch: int) -> int {
    (epoch + 2) % 3
}

pub open spec fn standby_slot(epoch: int) -> int {
    (epoch + 1) % 3
}

/// The layout invariant of the log's abstract state.
pub open spec fn log_core(v: SegLogView) -> bool {
    &&& v.segs.len() == 3
    &&& v.gens.len() == 3
    &&& forall|i: int| 0 <= i < 3 ==> (#[trigger] v.segs[i]).len() == v.size
    &&& v.size % 8 == 0
    &&& 64 <= v.size <= 0xFFFF_FFF0
    &&& 0 <= v.epoch
    &&& (v.epoch + 1) * v.size <= u64::MAX
    &&& v.cursor == span(v.cur)
    &&& v.cursor <= v.size
    &&& seg_holds(v.segs[cur_slot(v.epoch)], v.cur, v.size)
    &&& v.gens[cur_slot(v.epoch)] == v.epoch as u32
    &&& v.epoch == 0 ==> v.prev.len() == 0 && v.gens[2] == u32::MAX
    &&& v.epoch >= 1 ==> {
        &&& seg_holds(v.segs[prev_slot(v.epoch)], v.prev, v.size)
        &&& v.gens[prev_slot(v.epoch)] == (v.epoch - 1) as u32
    }
    &&& v.ready ==> u32_at(v.segs[standby_slot(v.epoch)], 0) == 0
}

/// The invariant of the log's abstract state: the layout invariant, and an
/// active segment that is never empty after a rotation.
pub open spec fn log_wf(v: SegLogView) -> bool {
    &&& log_core(v)
    &&& v.epoch >= 1 ==> v.cur.len() >= 1
}

/// Global position of the write cursor.
pub open spec fn write_pos_spec(v: SegLogView) -> int {
    v.epoch * v.size + v.cursor
}

/// Global position of the start of the oldest readable segment.
pub open spec fn read_start_spec(v: SegLogView) -> int {
    if v.epoch == 0 {
        0
    } else {
        (v.epoch - 1) * v.size
    }
}

/// What [`SegmentedLog::read`] returns for the offset `o`.
#[verifier::opaque]
pub open spec fn read_spec(v: SegLogView, o: u64) -> Option<FrameView> {
    let slot = off_slot(o);
    let local = off_local(o);
    if slot != cur_slot(v.epoch) && slot != prev_slot(v.epoch) {
        None
    } else if off_epoch(o) != v.gens[slot] {
        None
    } else if local + 8 > v.size {
        None
    } else {
        let b = v.segs[slot];
        let stored = u32_at(b, local);
        if stored == 0 || local + 8 + (stored - 1) > v.size {
            None
        } else {
            Some(
                FrameView {
                    payload: b.subrange(local + 8, local + 8 + stored - 1),
                    offset: (off_epoch(o) * v.size + local) as u64,
                    session_id: u32_at(b, local + 4) as u32,
                },
            )
        }
    }
}

/// Reads the committed frame whose header is at global position `pos`.
pub open spec fn read_here(v: SegLogView, pos: int) -> (Option<FrameView>, int) {
    let b = v.segs[(pos / v.size) % 3];
    let local = pos % v.size;
    let body = u32_at(b, local) - 1;
    if local + 8 + body > v.size {
        (None, pos)
    } else {
        (
            Some(
                FrameView {
                    payload: b.subrange(local + 8, local + 8 + body),
                    offset: pos as u64,
                    session_id: u32_at(b, local + 4) as u32,
                },
            ),
            pos + foot(body),
        )
    }
}

/// What [`SegmentedLog::read_next`] returns for the position `pos`, and the
/// position it leaves behind.
pub open spec fn read_next_spec(v: SegLogView, pos: int) -> (Option<FrameView>, int) {
    let seg = pos / v.size;
    let local = pos % v.size;
    if seg > v.epoch || (v.epoch > 0 && seg + 1 < v.epoch) {
        (None, pos)
    } else if local + 8 > v.size || u32_at(v.segs[seg % 3], local) == 0 {
        if seg < v.epoch {
            let next = (seg + 1) * v.size;
            if u32_at(v.segs[(seg + 1) % 3], 0) == 0 {
                (None, next)
            } else {
                read_here(v, next)
            }
        } else {
            (None, pos)
        }
    } else {
        read_here(v, pos)
    }
}

proof fn lemma_clean_keeps_wf(v: SegLogView)
    requires
        log_wf(v),
    ensures
        log_wf(
            SegLogView {
                segs: v.segs.update(standby_slot(v.epoch), cleaned(v.segs[standby_slot(v.epoch)])),
                ready: true,
                ..v
            },
        ),
{
    let st = standby_slot(v.epoch);
    let nb = cleaned(v.segs[st]);
    let nv = SegLogView { segs: v.segs.update(st, nb), ready: true, ..v };
    assert(nb.len() == v.size);
    assert(u32_at(nb, 0) == 0);
    assert(nv.segs[cur_slot(v.epoch)] == v.segs[cur_slot(v.epoch)]);
    assert(nv.segs[prev_slot(v.epoch)] == v.segs[prev_slot(v.epoch)]);
    assert forall|i: int| 0 <= i < 3 implies (#[trigger] nv.segs[i]).len() == nv.size by {
        if i != st {
            assert(nv.segs[i] == v.segs[i]);
        }
    }
}

/// The state after `(sid, p)` is written at the cursor of the active segment.
pub open spec fn appended(v: SegLogView, sid: u32, p: Seq<u8>) -> SegLogView {
    SegLogView {
        segs: v.segs.update(
            cur_slot(v.epoch),
            written(v.segs[cur_slot(v.epoch)], v.cursor, sid, p, v.size),
        ),
        cursor: v.cursor + foot(p.len() as int),
        cur: v.cur.push((sid, p)),
        ..v
    }
}

/// The state after a rotation: the active segment becomes the previous one,
/// the standby becomes active and empty, and the old previous one becomes
/// the standby, not yet cleaned.
pub open spec fn rotated(v: SegLogView) -> SegLogView {
    SegLogView {
        epoch: v.epoch + 1,
        cursor: 0,
        ready: false,
        gens: v.gens.update(cur_slot(v.epoch + 1), (v.epoch + 1) as u32),
        cur: Seq::empty(),
        prev: v.cur,
        ..v
    }
}

/// What [`SegmentedLog::append`] does: the offset it returns and the state
/// it leaves, or its error (the state then stays as it was).
pub open spec fn append_spec(v: SegLogView, sid: u32, p: Seq<u8>) -> Result<
    (u64, SegLogView),
    SegmentedLogError,
> {
    let f = foot(p.len() as int);
    if f > v.size {
        Err(SegmentedLogError::RecordTooLarge { max: (v.size - 8) as usize })
    } else if v.cursor + f > v.size {
        if !v.ready {
            Err(SegmentedLogError::StandbyNotReady)
        } else {
            Ok(
                (
                    make_offset(cur_slot(v.epoch + 1), 0, (v.epoch + 1) as u32),
                    appended(rotated(v), sid, p),
                ),
            )
        }
    } else {
        Ok((make_offset(cur_slot(v.epoch), v.cursor, v.epoch as u32), appended(v, sid, p)))
    }
}

proof fn lemma_appended_wf(v: SegLogView, sid: u32, p: Seq<u8>)
    requires
        log_core(v),
        v.cursor + foot(p.len() as int) <= v.size,
    ensures
        log_wf(appended(v, sid, p)),
{
    let c = cur_slot(v.epoch);
    let nv = appended(v, sid, p);
    lemma_append_holds(v.segs[c], v.cur, v.size, sid, p);
    lemma_span_push(v.cur, (sid, p));
    assert(span(v.cur.push((sid, p))) <= v.size);
    assert(nv.segs[c] == written(v.segs[c], v.cursor, sid, p, v.size));
    assert(nv.segs[prev_slot(v.epoch)] == v.segs[prev_slot(v.epoch)]);
    assert(nv.segs[standby_slot(v.epoch)] == v.segs[standby_slot(v.epoch)]);
    assert forall|i: int| 0 <= i < 3 implies (#[trigger] nv.segs[i]).len() == nv.size by {
        if i != c {
            assert(nv.segs[i] == v.segs[i]);
        }
    }
}

proof fn lemma_rotated_core(v: SegLogView)
    requires
        log_wf(v),
        v.ready,
        (v.epoch + 2) * v.size <= u64::MAX,
    ensures
        log_core(rotated(v)),
{
    let r = rotated(v);
    let e = v.epoch;
    assert(cur_slot(e + 1) == standby_slot(e));
    assert(prev_slot(e + 1) == cur_slot(e));
    assert(standby_slot(e + 1) == prev_slot(e));
    assert(span(Seq::<Rec>::empty()) == 0);
    assert(seg_holds(v.segs[standby_slot(e)], Seq::<Rec>::empty(), v.size)) by {
        reveal(seg_holds);
    }
    assert(r.gens[prev_slot(e + 1)] == v.gens[cur_slot(e)]);
}


proof fn lemma_local_aligned(pos: int, size: int)
    requires
        0 <= pos,
        pos % 8 == 0,
        size % 8 == 0,
        size > 0,
    ensures
        pos == (pos / size) * size + pos % size,
        (pos % size) % 8 == 0,
        0 <= pos % size < size,
{
    let q = pos / size;
    let r = pos % size;
    vstd::arithmetic::div_mod::lemma_fundamental_div_mod(pos, size);
    let k = size / 8;
    let m = pos / 8;
    assert(r == 8 * (m - q * k)) by (nonlinear_arith)
        requires
            pos == size * q + r,
            size == 8 * k,
            pos == 8 * m,
    ;
}

proof fn lemma_align_fits(body: int, room: int)
    requires
        0 <= body <= room,
        room % 8 == 0,
    ensures
        align8(body) <= room,
{
}

fn slice_of(v: &Vec<u8>, start: usize, end: usize) -> (r: &[u8])
    requires
        start <= end <= v@.len(),
    ensures
        r@ == v@.subrange(start as int, end as int),
{
    let s = v.as_slice();
    &s[start..end]
}

proof fn lemma_div_mod_exact(q: int, d: int)
    requires
        0 <= q,
        0 < d,
    ensures
        (q * d) / d == q,
        (q * d) % d == 0,
{
    vstd::arithmetic::div_mod::lemma_fundamental_div_mod_converse(q * d, d, q, 0);
}


/// All readable records, oldest first: the previous segment's, then the
/// active one's.
pub open spec fn records(v: SegLogView) -> Seq<Rec> {
    v.prev + v.cur
}

/// Global position of record `k` of [`records`].
pub open spec fn rec_pos(v: SegLogView, k: int) -> int {
    if k < v.prev.len() {
        (v.epoch - 1) * v.size + span(v.prev.take(k))
    } else {
        v.epoch * v.size + span(v.cur.take(k - v.prev.len()))
    }
}

/// The offset handle of record `k` of [`records`], as `append` returned it.
pub open spec fn rec_offset(v: SegLogView, k: int) -> u64 {
    if k < v.prev.len() {
        make_offset(prev_slot(v.epoch), span(v.prev.take(k)), (v.epoch - 1) as u32)
    } else {
        make_offset(cur_slot(v.epoch), span(v.cur.take(k - v.prev.len())), v.epoch as u32)
    }
}

/// Where a sequential reader stands after reading the first `k` records
/// from [`read_start_spec`].
pub open spec fn scan_pos(v: SegLogView, k: int) -> int {
    if v.epoch >= 1 && k <= v.prev.len() {
        (v.epoch - 1) * v.size + span(v.prev.take(k))
    } else {
        v.epoch * v.size + span(v.cur.take(k - v.prev.len()))
    }
}

/// The frame of record `k` of [`records`].
pub open spec fn rec_frame(v: SegLogView, k: int) -> FrameView {
    FrameView {
        payload: records(v)[k].1,
        offset: rec_pos(v, k) as u64,
        session_id: records(v)[k].0,
    }
}

proof fn lemma_div_mod_of(a: int, o: int, size: int)
    requires
        0 <= a,
        0 <= o < size,
    ensures
        (a * size + o) / size == a,
        (a * size + o) % size == o,
{
    vstd::arithmetic::div_mod::lemma_fundamental_div_mod_converse(a * size + o, size, a, o);
}

proof fn lemma_make_offset_decode(slot: int, local: int, g: u32)
    requires
        0 <= slot < 4,
        0 <= local < 0x1_0000_0000,
    ensures
        off_slot(make_offset(slot, local, g)) == slot,
        off_local(make_offset(slot, local, g)) == local,
        off_epoch(make_offset(slot, local, g)) == g as int % 0x4000_0000,
{
    let e = g as int % 0x4000_0000;
    let v = e * 0x4_0000_0000 + slot * 0x1_0000_0000 + local;
    assert(v < 0x1_0000_0000_0000_0000) by (nonlinear_arith)
        requires
            0 <= e < 0x4000_0000,
            0 <= slot < 4,
            0 <= local < 0x1_0000_0000,
            v == e * 0x4_0000_0000 + slot * 0x1_0000_0000 + local,
    ;
    assert(make_offset(slot, local, g) as int == v);
    lemma_div_mod_of(e * 4 + slot, local, 0x1_0000_0000);
    assert((e * 4 + slot) * 0x1_0000_0000 + local == v);
    lemma_div_mod_of(e, slot * 0x1_0000_0000 + local, 0x4_0000_0000);
    assert((e * 4 + slot) % 4 == slot);
}

/// The frame of a record held at `o` in segment bytes `b`.
proof fn lemma_record_in_segment(b: Seq<u8>, rs: Seq<Rec>, size: int, j: int)
    requires
        seg_holds(b, rs, size),
        size <= 0xFFFF_FFF0,
        0 <= j < rs.len(),
    ensures
        span(rs.take(j)) + foot(rs[j].1.len() as int) <= size,
        0 <= span(rs.take(j)),
        span(rs.take(j)) % 8 == 0,
        u32_at(b, span(rs.take(j))) == rs[j].1.len() + 1,
        u32_at(b, span(rs.take(j)) + 4) == rs[j].0,
        b.subrange(span(rs.take(j)) + 8, span(rs.take(j)) + 8 + rs[j].1.len()) == rs[j].1,
{
    reveal(seg_holds);
    lemma_span_record_inside(rs, j);
    assert(frame_at(b, span(rs.take(j)), rs[j]));
}

proof fn lemma_sentinel(b: Seq<u8>, rs: Seq<Rec>, size: int)
    requires
        seg_holds(b, rs, size),
    ensures
        0 <= span(rs) <= size,
        span(rs) % 8 == 0,
        span(rs) + 8 <= size ==> u32_at(b, span(rs)) == 0,
        rs.len() > 0 ==> span(rs) >= 8,
{
    reveal(seg_holds);
    lemma_span_basics(rs);
}

/// Every readable record reads back, through the offset `append` returned
/// for it, as the payload and session id it was written with (while fewer
/// than 2^30 rotations have happened: the offset keeps 30 bits of the
/// generation).
pub proof fn lemma_read_record(v: SegLogView, k: int)
    requires
        log_wf(v),
        v.epoch < 0x4000_0000,
        0 <= k < records(v).len(),
    ensures
        read_spec(v, rec_offset(v, k)) == Some(rec_frame(v, k)),
{
    reveal(read_spec);
    let o = rec_offset(v, k);
    if k < v.prev.len() {
        let j = k;
        let b = v.segs[prev_slot(v.epoch)];
        lemma_record_in_segment(b, v.prev, v.size, j);
        let local = span(v.prev.take(j));
        lemma_make_offset_decode(prev_slot(v.epoch), local, (v.epoch - 1) as u32);
        assert(records(v)[k] == v.prev[j]);
        assert(b.subrange(local + 8, local + 8 + v.prev[j].1.len()) == v.prev[j].1);
    } else {
        let j = k - v.prev.len();
        let b = v.segs[cur_slot(v.epoch)];
        lemma_record_in_segment(b, v.cur, v.size, j);
        let local = span(v.cur.take(j));
        lemma_make_offset_decode(cur_slot(v.epoch), local, v.epoch as u32);
        assert(records(v)[k] == v.cur[j]);
    }
}

/// A record's offset handle and position do not change when the log
/// rotates: what was in the active segment is then in the previous one.
pub proof fn lemma_rotation_keeps_offsets(v: SegLogView, sid: u32, p: Seq<u8>, k: int)
    requires
        log_wf(v),
        0 <= k < v.cur.len(),
    ensures
        records(appended(rotated(v), sid, p))[k] == records(v)[v.prev.len() + k],
        rec_offset(appended(rotated(v), sid, p), k) == rec_offset(v, v.prev.len() + k),
        rec_pos(appended(rotated(v), sid, p), k) == rec_pos(v, v.prev.len() + k),
{
    let w = appended(rotated(v), sid, p);
    assert(w.prev == v.cur);
    assert(records(w)[k] == w.prev[k]);
    assert(records(v)[v.prev.len() + k] == v.cur[k]);
    assert(prev_slot(v.epoch + 1) == cur_slot(v.epoch));
}

/// An offset into the standby segment reads as nothing: two rotations after
/// a record was written its offset no longer reads.
pub proof fn lemma_standby_unreadable(v: SegLogView, o: u64)
    requires
        log_wf(v),
        off_slot(o) == standby_slot(v.epoch),
    ensures
        read_spec(v, o).is_none(),
{
    reveal(read_spec);
}

/// A sequential reader starts at the first readable record.
pub proof fn lemma_scan_start(v: SegLogView)
    requires
        log_wf(v),
    ensures
        scan_pos(v, 0) == read_start_spec(v),
{
    assert(v.prev.take(0) =~= Seq::<Rec>::empty());
    assert(v.cur.take(0) =~= Seq::<Rec>::empty());
    assert(span(Seq::<Rec>::empty()) == 0);
    if v.epoch == 0 {
        assert(v.epoch * v.size == 0);
        assert(scan_pos(v, 0) == v.epoch * v.size + span(v.cur.take(0)));
    } else {
        assert(scan_pos(v, 0) == (v.epoch - 1) * v.size + span(v.prev.take(0)));
    }
}

proof fn lemma_scan_step_in(v: SegLogView, seg: int, rs: Seq<Rec>, j: int)
    requires
        log_wf(v),
        seg == v.epoch || (seg == v.epoch - 1 && v.epoch >= 1),
        seg == v.epoch ==> rs == v.cur,
        seg == v.epoch - 1 ==> rs == v.prev,
        0 <= j < rs.len(),
    ensures
        ({
            let pos = seg * v.size + span(rs.take(j));
            read_next_spec(v, pos) == (
                Some(
                    FrameView {
                        payload: rs[j].1,
                        offset: pos as u64,
                        session_id: rs[j].0,
                    },
                ),
                seg * v.size + span(rs.take(j + 1)),
            )
        }),
{
    let s = v.size;
    let b = v.segs[seg % 3];
    assert(seg % 3 == cur_slot(v.epoch) || seg % 3 == prev_slot(v.epoch));
    assert(seg == v.epoch ==> seg % 3 == cur_slot(v.epoch));
    assert(seg == v.epoch - 1 ==> seg % 3 == prev_slot(v.epoch));
    assert(seg_holds(b, rs, s));
    lemma_record_in_segment(b, rs, s, j);
    lemma_span_take_step(rs, j);
    let o = span(rs.take(j));
    let pos = seg * s + o;
    lemma_div_mod_of(seg, o, s);
    assert(pos / s == seg);
    assert(pos % s == o);
    assert(u32_at(b, o) != 0);
    let body = u32_at(b, o) - 1;
    assert(body == rs[j].1.len());
    assert(read_next_spec(v, pos) == read_here(v, pos));
}

/// Each `read_next` from where the previous one left off returns the next
/// record, in append order, across the segment boundary.
pub proof fn lemma_scan_step(v: SegLogView, k: int)
    requires
        log_wf(v),
        0 <= k < records(v).len(),
    ensures
        read_next_spec(v, scan_pos(v, k)) == (Some(rec_frame(v, k)), scan_pos(v, k + 1)),
{
    let e = v.epoch;
    let s = v.size;
    if e >= 1 && k < v.prev.len() {
        lemma_scan_step_in(v, e - 1, v.prev, k);
        assert(records(v)[k] == v.prev[k]);
    } else if e >= 1 && k == v.prev.len() {
        lemma_boundary_step(v);
        assert(records(v)[k] == v.cur[0]);
    } else {
        let j = k - v.prev.len();
        lemma_scan_step_in(v, e, v.cur, j);
        assert(records(v)[k] == v.cur[j]);
    }
}

proof fn lemma_boundary_step(v: SegLogView)
    requires
        log_wf(v),
        v.epoch >= 1,
    ensures
        read_next_spec(v, scan_pos(v, v.prev.len() as int)) == (
            Some(rec_frame(v, v.prev.len() as int)),
            scan_pos(v, v.prev.len() as int + 1),
        ),
{
    let e = v.epoch;
    let s = v.size;
    let k = v.prev.len() as int;
    let pb = v.segs[prev_slot(e)];
    assert(v.prev.take(k) =~= v.prev);
    let pp = span(v.prev);
    lemma_sentinel(pb, v.prev, s);
    assert(v.cur.take(0) =~= Seq::<Rec>::empty());
    assert(span(Seq::<Rec>::empty()) == 0);
    lemma_scan_step_in(v, e, v.cur, 0);
    assert(records(v)[k] == v.cur[0]);
    let cb = v.segs[cur_slot(e)];
    lemma_record_in_segment(cb, v.cur, s, 0);
    assert(u32_at(cb, 0) != 0);
    let pos = (e - 1) * s + pp;
    assert(scan_pos(v, k) == pos);
    assert(rec_pos(v, k) == e * s);
    if pp < s {
        lemma_div_mod_of(e - 1, pp, s);
        assert(pos / s == e - 1);
        assert(pos % s == pp);
        assert((e - 1) % 3 == prev_slot(e));
        assert(pp + 8 > s || u32_at(pb, pp) == 0);
        assert(((e - 1) + 1) * s == e * s) by (nonlinear_arith);
        assert((e - 1 + 1) % 3 == cur_slot(e));
        lemma_div_mod_of(e, 0, s);
        assert(read_next_spec(v, pos) == read_here(v, e * s));
    } else {
        assert(pos == e * s) by (nonlinear_arith)
            requires
                pos == (e - 1) * s + pp,
                pp == s,
        ;
    }
}

/// Once every record has been read, `read_next` returns nothing and leaves
/// the reader at the write position.
pub proof fn lemma_scan_end(v: SegLogView)
    requires
        log_wf(v),
    ensures
        scan_pos(v, records(v).len() as int) == write_pos_spec(v),
        read_next_spec(v, write_pos_spec(v)) == (None::<FrameView>, write_pos_spec(v)),
{
    let e = v.epoch;
    let s = v.size;
    assert(v.cur.take(v.cur.len() as int) =~= v.cur);
    let b = v.segs[cur_slot(e)];
    lemma_sentinel(b, v.cur, s);
    let pos = e * s + v.cursor;
    if v.cursor < s {
        lemma_div_mod_of(e, v.cursor, s);
        assert(pos / s == e);
        assert(pos % s == v.cursor);
        assert(e % 3 == cur_slot(e));
    } else {
        lemma_div_mod_of(e + 1, 0, s);
        assert(pos == (e + 1) * s + 0) by (nonlinear_arith)
            requires
                pos == e * s + v.cursor,
                v.cursor == s,
        ;
        assert(pos / s == e + 1);
    }
}

/// Every position a sequential reader stands at is frame-aligned.
pub proof fn lemma_scan_pos_aligned(v: SegLogView, k: int)
    requires
        log_wf(v),
        0 <= k <= records(v).len(),
    ensures
        scan_pos(v, k) % 8 == 0,
        0 <= scan_pos(v, k),
{
    let e = v.epoch;
    let s = v.size;
    let q = s / 8;
    if e >= 1 && k <= v.prev.len() {
        let t = span(v.prev.take(k));
        lemma_span_basics(v.prev.take(k));
        assert((e - 1) * s == 8 * ((e - 1) * q)) by (nonlinear_arith)
            requires
                s == 8 * q,
        ;
        assert((e - 1) * s >= 0) by (nonlinear_arith)
            requires
                e >= 1,
                s >= 0,
        ;
    } else {
        let t = span(v.cur.take(k - v.prev.len()));
        lemma_span_basics(v.cur.take(k - v.prev.len()));
        assert(e * s == 8 * (e * q)) by (nonlinear_arith)
            requires
                s == 8 * q,
        ;
        assert(e * s >= 0) by (nonlinear_arith)
            requires
                e >= 0,
                s >= 0,
        ;
    }
}

proof fn lemma_readable_after(mid: SegLogView, sid: u32, p: Seq<u8>)
    requires
        log_core(mid),
        mid.cursor + foot(p.len() as int) <= mid.size,
        mid.epoch < 0x4000_0000,
    ensures
        read_spec(
            appended(mid, sid, p),
            make_offset(cur_slot(mid.epoch), mid.cursor, mid.epoch as u32),
        ) == Some(
            FrameView {
                payload: p,
                offset: (mid.epoch * mid.size + mid.cursor) as u64,
                session_id: sid,
            },
        ),
{
    let w = appended(mid, sid, p);
    lemma_appended_wf(mid, sid, p);
    let last = records(w).len() - 1;
    lemma_span_push(mid.cur, (sid, p));
    assert(w.cur.take(w.cur.len() - 1) == mid.cur.take(mid.cur.len() as int));
    assert(mid.cur.take(mid.cur.len() as int) =~= mid.cur);
    assert(records(w)[last] == (sid, p));
    lemma_read_record(w, last);
}

/// A record that `append` accepted reads back, through the offset it
/// returned, as its payload and session id (while fewer than 2^30 rotations
/// have happened).
pub proof fn lemma_append_readable(v: SegLogView, sid: u32, p: Seq<u8>)
    requires
        log_wf(v),
        (v.epoch + 2) * v.size <= u64::MAX,
        append_spec(v, sid, p) is Ok,
        append_spec(v, sid, p)->Ok_0.1.epoch < 0x4000_0000,
    ensures
        ({
            let (o, w) = append_spec(v, sid, p)->Ok_0;
            read_spec(w, o) == Some(
                FrameView {
                    payload: p,
                    offset: (write_pos_spec(w) - foot(p.len() as int)) as u64,
                    session_id: sid,
                },
            )
        }),
{
    let f = foot(p.len() as int);
    if v.cursor + f > v.size {
        let r = rotated(v);
        lemma_span_basics(v.cur);
        lemma_rotated_core(v);
        assert(r.cursor == 0);
        assert(append_spec(v, sid, p) == Ok::<(u64, SegLogView), SegmentedLogError>(
            (make_offset(cur_slot(r.epoch), r.cursor, r.epoch as u32), appended(r, sid, p)),
        ));
        lemma_readable_after(r, sid, p);
    } else {
        assert(append_spec(v, sid, p) == Ok::<(u64, SegLogView), SegmentedLogError>(
            (make_offset(cur_slot(v.epoch), v.cursor, v.epoch as u32), appended(v, sid, p)),
        ));
        lemma_readable_after(v, sid, p);
    }
}

/// A step a caller takes on a log: an append, or the cleaning of its
/// standby segment.
pub enum LogOp {
    Append { sid: u32, payload: Seq<u8> },
    Clean,
}

/// The log after one step; an append that is refused leaves it as it was.
pub open spec fn apply_op(v: SegLogView, op: LogOp) -> SegLogView {
    match op {
        LogOp::Append { sid, payload } => match append_spec(v, sid, payload) {
            Ok((_, w)) => w,
            Err(_) => v,
        },
        LogOp::Clean => standby_cleaned(v),
    }
}

/// The log after the steps `ops`, in order.
pub open spec fn apply_ops(v: SegLogView, ops: Seq<LogOp>) -> SegLogView
    decreases ops.len(),
{
    if ops.len() == 0 {
        v
    } else {
        apply_ops(apply_op(v, ops[0]), ops.drop_first())
    }
}

/// The epoch in which record `k` of [`records`] was appended.
pub open spec fn rec_epoch(v: SegLogView, k: int) -> int {
    if k < v.prev.len() {
        v.epoch - 1
    } else {
        v.epoch
    }
}

proof fn lemma_ops_epoch_mono(v: SegLogView, ops: Seq<LogOp>)
    ensures
        apply_ops(v, ops).epoch >= v.epoch,
    decreases ops.len(),
{
    if ops.len() > 0 {
        lemma_ops_epoch_mono(apply_op(v, ops[0]), ops.drop_first());
    }
}

/// One step keeps the invariant, moves the epoch on by at most one, and
/// keeps the records: appended to within an epoch, the active ones becoming
/// the previous ones on a rotation.
proof fn lemma_op_step(v: SegLogView, op: LogOp)
    requires
        log_wf(v),
        apply_op(v, op).epoch < 0x4000_0000,
    ensures
        ({
            let w = apply_op(v, op);
            &&& log_wf(w)
            &&& w.size == v.size
            &&& w.epoch == v.epoch || w.epoch == v.epoch + 1
            &&& w.epoch == v.epoch ==> w.prev == v.prev && w.cur.len() >= v.cur.len() && w.cur.take(
                v.cur.len() as int,
            ) == v.cur
            &&& w.epoch == v.epoch + 1 ==> w.prev == v.cur
        }),
{
    match op {
        LogOp::Append { sid, payload } => {
            let f = foot(payload.len() as int);
            if f > v.size {
            } else if v.cursor + f > v.size {
                if v.ready {
                    assert((v.epoch + 2) * v.size <= u64::MAX) by (nonlinear_arith)
                        requires
                            0 <= v.epoch,
                            v.epoch + 1 < 0x4000_0000,
                            0 <= v.size <= 0xFFFF_FFF0,
                    ;
                    lemma_rotated_core(v);
                    lemma_appended_wf(rotated(v), sid, payload);
                }
            } else {
                lemma_appended_wf(v, sid, payload);
                assert(appended(v, sid, payload).cur.take(v.cur.len() as int) =~= v.cur);
            }
        },
        LogOp::Clean => {
            lemma_clean_keeps_wf(v);
        },
    }
}

/// Steps keep the invariant.
proof fn lemma_ops_wf(v: SegLogView, ops: Seq<LogOp>)
    requires
        log_wf(v),
        apply_ops(v, ops).epoch < 0x4000_0000,
    ensures
        log_wf(apply_ops(v, ops)),
    decreases ops.len(),
{
    if ops.len() > 0 {
        let w = apply_op(v, ops[0]);
        lemma_ops_epoch_mono(w, ops.drop_first());
        lemma_op_step(v, ops[0]);
        lemma_ops_wf(w, ops.drop_first());
    }
}

/// A step that does not drop record `k` keeps it, with its offset handle,
/// position and epoch, at the index it then has.
proof fn lemma_op_keeps_record(v: SegLogView, op: LogOp, k: int)
    requires
        log_wf(v),
        apply_op(v, op).epoch < 0x4000_0000,
        0 <= k < records(v).len(),
        apply_op(v, op).epoch <= rec_epoch(v, k) + 1,
    ensures
        ({
            let w = apply_op(v, op);
            let k2 = if w.epoch == v.epoch {
                k
            } else {
                k - v.prev.len()
            };
            &&& 0 <= k2 < records(w).len()
            &&& records(w)[k2] == records(v)[k]
            &&& rec_offset(w, k2) == rec_offset(v, k)
            &&& rec_pos(w, k2) == rec_pos(v, k)
            &&& rec_epoch(w, k2) == rec_epoch(v, k)
        }),
{
    lemma_op_step(v, op);
    let w = apply_op(v, op);
    if w.epoch == v.epoch {
        if k >= v.prev.len() {
            let j = k - v.prev.len();
            assert(w.cur[j] == w.cur.take(v.cur.len() as int)[j]);
            assert(w.cur.take(j) =~= v.cur.take(j)) by {
                assert(w.cur.take(j) =~= w.cur.take(v.cur.len() as int).take(j));
            }
        }
    } else {
        let j = k - v.prev.len();
        match op {
            LogOp::Append { sid, payload } => {
                lemma_rotation_keeps_offsets(v, sid, payload, j);
            },
            LogOp::Clean => {},
        }
    }
}

/// The offset handle of a record names the slot and generation of the
/// epoch it was appended in.
proof fn lemma_rec_offset_decode(v: SegLogView, k: int)
    requires
        log_wf(v),
        v.epoch < 0x4000_0000,
        0 <= k < records(v).len(),
    ensures
        off_slot(rec_offset(v, k)) == rec_epoch(v, k) % 3,
        off_epoch(rec_offset(v, k)) == rec_epoch(v, k),
{
    if k < v.prev.len() {
        lemma_record_in_segment(v.segs[prev_slot(v.epoch)], v.prev, v.size, k);
        lemma_make_offset_decode(prev_slot(v.epoch), span(v.prev.take(k)), (v.epoch - 1) as u32);
    } else {
        let j = k - v.prev.len();
        lemma_record_in_segment(v.segs[cur_slot(v.epoch)], v.cur, v.size, j);
        lemma_make_offset_decode(cur_slot(v.epoch), span(v.cur.take(j)), v.epoch as u32);
    }
}

/// An offset of the epoch `b` reads as nothing from two rotations on.
proof fn lemma_offset_expired(u: SegLogView, o: u64, b: int)
    requires
        log_wf(u),
        u.epoch < 0x4000_0000,
        0 <= b,
        b + 2 <= u.epoch,
        off_slot(o) == b % 3,
        off_epoch(o) == b,
    ensures
        read_spec(u, o).is_none(),
{
    reveal(read_spec);
}

/// The default offset names no slot.
proof fn lemma_default_unreadable(u: SegLogView)
    ensures
        read_spec(u, u64::MAX).is_none(),
{
    reveal(read_spec);
    assert(off_slot(u64::MAX) == 3);
}

/// Record `k` reads back through its offset handle while the log has
/// rotated at most once since the record's epoch, and not from the second
/// rotation on, whatever steps come between.
proof fn lemma_ops_read(v: SegLogView, ops: Seq<LogOp>, k: int)
    requires
        log_wf(v),
        0 <= k < records(v).len(),
        apply_ops(v, ops).epoch < 0x4000_0000,
    ensures
        ({
            let u = apply_ops(v, ops);
            &&& u.epoch <= rec_epoch(v, k) + 1 ==> read_spec(u, rec_offset(v, k)) == Some(
                rec_frame(v, k),
            )
            &&& u.epoch >= rec_epoch(v, k) + 2 ==> read_spec(u, rec_offset(v, k)).is_none()
        }),
    decreases ops.len(),
{
    lemma_ops_epoch_mono(v, ops);
    if ops.len() == 0 {
        lemma_read_record(v, k);
    } else {
        let w = apply_op(v, ops[0]);
        let rest = ops.drop_first();
        lemma_ops_epoch_mono(w, rest);
        lemma_op_step(v, ops[0]);
        if w.epoch <= rec_epoch(v, k) + 1 {
            lemma_op_keeps_record(v, ops[0], k);
            let k2 = if w.epoch == v.epoch {
                k
            } else {
                k - v.prev.len()
            };
            lemma_ops_read(w, rest, k2);
            assert(rec_frame(w, k2) == rec_frame(v, k));
        } else {
            lemma_rec_offset_decode(v, k);
            lemma_ops_wf(w, rest);
            lemma_offset_expired(apply_ops(w, rest), rec_offset(v, k), rec_epoch(v, k));
        }
    }
}

/// The record an accepted append wrote is the last one, appended in the
/// log's epoch afterwards, under the offset the append returned.
proof fn lemma_append_is_last(v: SegLogView, sid: u32, p: Seq<u8>)
    requires
        log_wf(v),
        (v.epoch + 2) * v.size <= u64::MAX,
        append_spec(v, sid, p) is Ok,
    ensures
        ({
            let (o, w) = append_spec(v, sid, p)->Ok_0;
            let last = records(w).len() - 1;
            &&& log_wf(w)
            &&& records(w).len() >= 1
            &&& rec_epoch(w, last) == w.epoch
            &&& rec_offset(w, last) == o
        }),
{
    let f = foot(p.len() as int);
    let mid = if v.cursor + f > v.size {
        lemma_rotated_core(v);
        rotated(v)
    } else {
        v
    };
    lemma_appended_wf(mid, sid, p);
    let w = appended(mid, sid, p);
    assert(w.cur.take(w.cur.len() - 1) =~= mid.cur);
    lemma_span_basics(mid.cur);
}

/// A record that `append` accepted reads back, through the offset it
/// returned, as its payload and session id, with its global position, for
/// as long as the log has rotated at most once since, whatever appends and
/// cleanings come between; from the second rotation on that offset reads as
/// nothing, also once its slot is active again. The default offset
/// (`u64::MAX`) never reads. (While fewer than 2^30 rotations have
/// happened: the offset keeps 30 bits of the generation.)
pub proof fn lemma_read_after_append(v: SegLogView, sid: u32, p: Seq<u8>, ops: Seq<LogOp>)
    requires
        log_wf(v),
        (v.epoch + 2) * v.size <= u64::MAX,
        append_spec(v, sid, p) is Ok,
        apply_ops(append_spec(v, sid, p)->Ok_0.1, ops).epoch < 0x4000_0000,
    ensures
        ({
            let (o, w) = append_spec(v, sid, p)->Ok_0;
            let u = apply_ops(w, ops);
            &&& log_wf(u)
            &&& u.epoch <= w.epoch + 1 ==> read_spec(u, o) == Some(
                FrameView {
                    payload: p,
                    offset: (write_pos_spec(w) - foot(p.len() as int)) as u64,
                    session_id: sid,
                },
            )
            &&& u.epoch >= w.epoch + 2 ==> read_spec(u, o).is_none()
            &&& read_spec(u, u64::MAX).is_none()
        }),
{
    let (o, w) = append_spec(v, sid, p)->Ok_0;
    lemma_append_is_last(v, sid, p);
    lemma_ops_epoch_mono(w, ops);
    lemma_append_readable(v, sid, p);
    let last = records(w).len() - 1;
    lemma_read_record(w, last);
    lemma_ops_read(w, ops, last);
    lemma_ops_wf(w, ops);
    lemma_default_unreadable(apply_ops(w, ops));
}

/// What `n` successive `read_next` calls from position `pos` return, and
/// the position they leave.
pub open spec fn read_n(v: SegLogView, pos: int, n: nat) -> (Seq<Option<FrameView>>, int)
    decreases n,
{
    if n == 0 {
        (Seq::empty(), pos)
    } else {
        let (f, next) = read_next_spec(v, pos);
        let (rest, end) = read_n(v, next, (n - 1) as nat);
        (seq![f] + rest, end)
    }
}

/// The frames of the records from `j` on, each as [`rec_frame`] gives it.
pub open spec fn frames_from(v: SegLogView, j: int) -> Seq<Option<FrameView>> {
    Seq::new((records(v).len() - j) as nat, |i: int| Some(rec_frame(v, j + i)))
}

proof fn lemma_read_n_from(v: SegLogView, j: int)
    requires
        log_wf(v),
        0 <= j <= records(v).len(),
    ensures
        read_n(v, scan_pos(v, j), (records(v).len() - j + 1) as nat) == (
            frames_from(v, j).push(None),
            write_pos_spec(v),
        ),
    decreases records(v).len() - j,
{
    let len = records(v).len() as int;
    if j == len {
        lemma_scan_end(v);
        assert(frames_from(v, j).push(None) =~= seq![None::<FrameView>]);
        assert(read_n(v, write_pos_spec(v), 0) == (Seq::<Option<FrameView>>::empty(), write_pos_spec(v)));
        assert(seq![None::<FrameView>] + Seq::<Option<FrameView>>::empty() =~= seq![None::<FrameView>]);
    } else {
        lemma_scan_step(v, j);
        lemma_read_n_from(v, j + 1);
        assert(seq![Some(rec_frame(v, j))] + frames_from(v, j + 1).push(None) =~= frames_from(
            v,
            j,
        ).push(None));
    }
}

/// The records of the appends among `ops` that the log accepts, in order.
pub open spec fn accepted(v: SegLogView, ops: Seq<LogOp>) -> Seq<Rec>
    decreases ops.len(),
{
    if ops.len() == 0 {
        Seq::empty()
    } else {
        let head = match ops[0] {
            LogOp::Append { sid, payload } => if append_spec(v, sid, payload) is Ok {
                seq![(sid, payload)]
            } else {
                Seq::empty()
            },
            LogOp::Clean => Seq::empty(),
        };
        head + accepted(apply_op(v, ops[0]), ops.drop_first())
    }
}

/// Over steps that rotate the log at most once, the records are those of
/// the active segment (and of the previous one, without a rotation)
/// followed by the accepted appends.
proof fn lemma_ops_records(v: SegLogView, ops: Seq<LogOp>)
    requires
        log_wf(v),
        apply_ops(v, ops).epoch <= v.epoch + 1,
        apply_ops(v, ops).epoch < 0x4000_0000,
    ensures
        ({
            let u = apply_ops(v, ops);
            &&& u.epoch == v.epoch ==> records(u) == records(v) + accepted(v, ops)
            &&& u.epoch == v.epoch + 1 ==> records(u) == v.cur + accepted(v, ops)
        }),
    decreases ops.len(),
{
    if ops.len() == 0 {
        assert(records(v) + Seq::<Rec>::empty() =~= records(v));
    } else {
        let w = apply_op(v, ops[0]);
        let rest = ops.drop_first();
        lemma_ops_epoch_mono(w, rest);
        lemma_op_step(v, ops[0]);
        lemma_ops_records(w, rest);
        let head = match ops[0] {
            LogOp::Append { sid, payload } => if append_spec(v, sid, payload) is Ok {
                seq![(sid, payload)]
            } else {
                Seq::empty()
            },
            LogOp::Clean => Seq::empty(),
        };
        let acc = accepted(w, rest);
        assert(accepted(v, ops) == head + acc);
        if w.epoch == v.epoch {
            assert(w.cur =~= v.cur + head);
            assert(records(w) =~= records(v) + head);
            assert(records(v) + head + acc =~= records(v) + (head + acc));
            assert(v.cur + head + acc =~= v.cur + (head + acc));
        } else {
            assert(w.cur =~= head);
            assert(records(w) =~= v.cur + head);
            assert(v.cur + head + acc =~= v.cur + (head + acc));
        }
    }
}

/// Reading a log sequentially from its read start returns every readable
/// record, oldest first, with the global position where it lies, then
/// nothing, and leaves the reader at the write position. From a log that
/// holds no record, over appends and cleanings that rotate it at most once,
/// those records are the ones of every accepted append, in order.
pub proof fn lemma_scan_reads_appends(v: SegLogView, ops: Seq<LogOp>)
    requires
        log_wf(v),
        records(v).len() == 0,
        apply_ops(v, ops).epoch <= v.epoch + 1,
        apply_ops(v, ops).epoch < 0x4000_0000,
    ensures
        ({
            let u = apply_ops(v, ops);
            let rs = accepted(v, ops);
            &&& records(u) == rs
            &&& read_n(u, read_start_spec(u), rs.len() + 1) == (
                Seq::new(
                    rs.len(),
                    |k: int|
                        Some(
                            FrameView {
                                payload: rs[k].1,
                                offset: rec_pos(u, k) as u64,
                                session_id: rs[k].0,
                            },
                        ),
                ).push(None),
                write_pos_spec(u),
            )
        }),
{
    let u = apply_ops(v, ops);
    lemma_ops_epoch_mono(v, ops);
    lemma_ops_records(v, ops);
    lemma_ops_wf(v, ops);
    assert(v.cur =~= records(v));
    assert(Seq::<Rec>::empty() + accepted(v, ops) =~= accepted(v, ops));
    lemma_scan_start(u);
    lemma_read_n_from(u, 0);
    let rs = accepted(v, ops);
    assert(frames_from(u, 0) =~= Seq::new(
        rs.len(),
        |k: int|
            Some(
                FrameView {
                    payload: rs[k].1,
                    offset: rec_pos(u, k) as u64,
                    session_id: rs[k].0,
                },
            ),
    ));
}

/// Three-segment bounded append log with segment rotation.
///
/// Maintains three fixed segments: one active for appends, one read-only
/// for lookups, one waiting to be cleaned. When the active segment fills,
/// roles rotate: old readable becomes the standby to clean, active becomes
/// readable, clean standby becomes active. Cleaning the standby
/// ([`clean_standby`](Self::clean_standby)) is separate work that must be done
/// before the *next* rotation.
///
/// Sequential reads use a monotonically increasing `u64` position that spans
/// all segments: `segment_number = pos / segment_size`, `local = pos %
/// segment_size`, `slot = segment_number % 3`. The init order (`current=0,
/// prev=2, standby=1`) makes the rotation visit slots 0, 1, 2, 0, ... Only the
/// current (`epoch`) and previous (`epoch - 1`) segments are readable.
pub struct SegmentedLog {
    seg0: Vec<u8>,
    seg1: Vec<u8>,
    seg2: Vec<u8>,
    segment_size: usize,
    current: usize,
    prev: usize,
    standby: usize,
    cursor: usize,
    epoch: u64,
    gen0: u32,
    gen1: u32,
    gen2: u32,
    ready: bool,
    cur_recs: Ghost<Seq<Rec>>,
    prev_recs: Ghost<Seq<Rec>>,
}

impl View for SegmentedLog {
    type V = SegLogView;

    closed spec fn view(&self) -> SegLogView {
        SegLogView {
            segs: seq![self.seg0@, self.seg1@, self.seg2@],
            size: self.segment_size as int,
            epoch: self.epoch as int,
            cursor: self.cursor as int,
            ready: self.ready,
            gens: seq![self.gen0, self.gen1, self.gen2],
            cur: self.cur_recs@,
            prev: self.prev_recs@,
        }
    }
}

impl SegmentedLog {
    /// The log's invariant.
    pub closed spec fn wf(&self) -> bool {
        &&& log_wf(self@)
        &&& self.current as int == cur_slot(self.epoch as int)
        &&& self.prev as int == prev_slot(self.epoch as int)
        &&& self.standby as int == standby_slot(self.epoch as int)
    }

    /// A well-formed log has a well-formed abstract state.
    pub proof fn lemma_wf(&self)
        requires
            self.wf(),
        ensures
            log_wf(self@),
    {
    }

    /// Opens a log of three zeroed segments; `segment_size` is raised to at
    /// least 64 and rounded up to an 8-byte boundary.
    pub fn open(segment_size: usize) -> (r: Self)
        requires
            segment_size <= 0xFFFF_FFF0,
        ensures
            r.wf(),
            r@.size == align8(if segment_size < 64 { 64 } else { segment_size as int }),
            r@.epoch == 0,
            r@.cursor == 0,
            r@.ready,
            r@.cur == Seq::<Rec>::empty(),
            r@.prev == Seq::<Rec>::empty(),
            r@.gens == seq![0u32, u32::MAX, u32::MAX],
            forall|i: int|
                0 <= i < 3 ==> #[trigger] r@.segs[i] == Seq::new(r@.size as nat, |j: int| 0u8),
    {
        let m = if segment_size < FRAME_HDR * 8 {
            FRAME_HDR * 8
        } else {
            segment_size
        };
        let size = align_up(m);
        let seg0 = vec![0u8; size];
        let seg1 = vec![0u8; size];
        let seg2 = vec![0u8; size];
        let r = SegmentedLog {
            seg0,
            seg1,
            seg2,
            segment_size: size,
            current: 0,
            prev: 2,
            standby: 1,
            cursor: 0,
            epoch: 0,
            gen0: 0,
            gen1: u32::MAX,
            gen2: u32::MAX,
            ready: true,
            cur_recs: Ghost(Seq::empty()),
            prev_recs: Ghost(Seq::empty()),
        };
        proof {
            let z = Seq::new(size as nat, |j: int| 0u8);
            assert(r.seg0@ =~= z);
            assert(r.seg1@ =~= z);
            assert(r.seg2@ =~= z);
            assert(r@.segs[0] == z);
            assert(r@.segs[1] == z);
            assert(r@.segs[2] == z);
            assert(u32_at(z, 0) == 0);
            assert(span(Seq::<Rec>::empty()) == 0);
            assert(seg_holds(z, Seq::<Rec>::empty(), size as int)) by {
                reveal(seg_holds);
            }
        }
        r
    }

    pub fn segment_size(&self) -> (r: usize)
        ensures
            r == self@.size,
    {
        self.segment_size
    }

    /// Slot index of the active segment.
    pub fn current_slot(&self) -> (r: usize)
        requires
            self.wf(),
        ensures
            r == cur_slot(self@.epoch),
    {
        self.current
    }

    /// Whether the standby segment has been cleaned and the next rotation may
    /// proceed.
    pub fn standby_ready(&self) -> (r: bool)
        ensures
            r == self@.ready,
    {
        self.ready
    }

    /// The cleaning work for the standby segment: marks its first header
    /// uncommitted so that no stale record is read once it becomes active.
    pub fn clean_standby(&mut self)
        requires
            old(self).wf(),
        ensures
            final(self).wf(),
            final(self)@ == standby_cleaned(old(self)@),
    {
        match self.standby {
            0 => clean_segment(&mut self.seg0),
            1 => clean_segment(&mut self.seg1),
            _ => clean_segment(&mut self.seg2),
        }
        self.ready = true;
        proof {
            let v = old(self)@;
            let st = standby_slot(v.epoch);
            assert(self@.segs =~= v.segs.update(st, cleaned(v.segs[st])));
            lemma_clean_keeps_wf(v);
        }
    }

    fn seg_ref(&self, slot: usize) -> (r: &Vec<u8>)
        requires
            slot < 3,
        ensures
            r@ == self@.segs[slot as int],
    {
        match slot {
            0 => &self.seg0,
            1 => &self.seg1,
            _ => &self.seg2,
        }
    }

    fn gen_of(&self, slot: usize) -> (r: u32)
        requires
            slot < 3,
        ensures
            r == self@.gens[slot as int],
    {
        match slot {
            0 => self.gen0,
            1 => self.gen1,
            _ => self.gen2,
        }
    }

    fn write_into(&mut self, slot: usize, off: usize, sid: u32, payload: &[u8])
        requires
            slot < 3,
            old(self)@.segs.len() == 3,
            old(self)@.segs[slot as int].len() == old(self).segment_size,
            old(self).segment_size <= 0xFFFF_FFF0,
            off + foot(payload@.len() as int) <= old(self).segment_size,
        ensures
            final(self)@ == (SegLogView {
                segs: old(self)@.segs.update(
                    slot as int,
                    written(
                        old(self)@.segs[slot as int],
                        off as int,
                        sid,
                        payload@,
                        old(self)@.size,
                    ),
                ),
                ..old(self)@
            }),
            final(self).current == old(self).current,
            final(self).prev == old(self).prev,
            final(self).standby == old(self).standby,
    {
        let size = self.segment_size;
        match slot {
            0 => write_frame(&mut self.seg0, off, sid, payload, size),
            1 => write_frame(&mut self.seg1, off, sid, payload, size),
            _ => write_frame(&mut self.seg2, off, sid, payload, size),
        }
        proof {
            assert(self@.segs =~= old(self)@.segs.update(
                slot as int,
                written(old(self)@.segs[slot as int], off as int, sid, payload@, old(self)@.size),
            ));
        }
    }

    fn rotate(&mut self)
        requires
            old(self).wf(),
            old(self)@.ready,
            (old(self)@.epoch + 2) * old(self)@.size <= u64::MAX,
        ensures
            final(self)@ == rotated(old(self)@),
            log_core(final(self)@),
            final(self).current as int == cur_slot(final(self)@.epoch),
            final(self).prev as int == prev_slot(final(self)@.epoch),
            final(self).standby as int == standby_slot(final(self)@.epoch),
    {
        let old_prev = self.prev;
        self.prev = self.current;
        self.current = self.standby;
        self.standby = old_prev;
        self.cursor = 0;
        proof {
            assert(self.epoch + 1 <= u64::MAX) by (nonlinear_arith)
                requires
                    (self.epoch + 2) * self.segment_size <= u64::MAX,
                    self.segment_size >= 64,
            ;
        }
        self.epoch = self.epoch + 1;
        let g = self.epoch as u32;
        match self.current {
            0 => self.gen0 = g,
            1 => self.gen1 = g,
            _ => self.gen2 = g,
        }
        self.ready = false;
        self.prev_recs = Ghost(self.cur_recs@);
        self.cur_recs = Ghost(Seq::empty());
        proof {
            assert(self@.gens =~= rotated(old(self)@).gens);
            assert(self@.segs =~= rotated(old(self)@).segs);
            lemma_rotated_core(old(self)@);
        }
    }

    /// Appends `payload` to the active segment, tagged with `session_id`.
    ///
    /// Returns a [`LogOffset`] valid for reads until the slot is rotated out
    /// (two rotations after this write). When the record does not fit in
    /// what is left of the active segment the log rotates first, which
    /// needs a cleaned standby segment.
    pub fn append(&mut self, session_id: u32, payload: &[u8]) -> (r: Result<
        LogOffset,
        SegmentedLogError,
    >)
        requires
            old(self).wf(),
            (old(self)@.epoch + 2) * old(self)@.size <= u64::MAX,
        ensures
            final(self).wf(),
            match append_spec(old(self)@, session_id, payload@) {
                Err(e) => r == Err::<LogOffset, SegmentedLogError>(e) && final(self)@ == old(self)@,
                Ok((o, w)) => r is Ok && r->Ok_0@ == o && final(self)@ == w,
            },
            r is Ok ==> write_pos_spec(final(self)@) > write_pos_spec(old(self)@),
            r is Ok && final(self)@.epoch < 0x4000_0000 ==> read_spec(final(self)@, r->Ok_0@)
                == Some(
                FrameView {
                    payload: payload@,
                    offset: (write_pos_spec(final(self)@) - foot(payload@.len() as int)) as u64,
                    session_id,
                },
            ),
    {
        let body = payload.len();
        let size = self.segment_size;
        if body > size || footprint(body) > size {
            proof {
                if body > size {
                    assert(foot(body as int) > size);
                }
            }
            return Err(SegmentedLogError::RecordTooLarge { max: size - FRAME_HDR });
        }
        let foot_len = footprint(body);
        let ghost v = old(self)@;
        if foot_len > size - self.cursor {
            if !self.ready {
                return Err(SegmentedLogError::StandbyNotReady);
            }
            proof {
                lemma_span_basics(v.cur);
            }
            self.rotate();
        }
        let off = self.cursor;
        let slot = self.current;
        let g = self.gen_of(slot);
        let ghost mid = self@;
        self.write_into(slot, off, session_id, payload);
        self.cursor = off + foot_len;
        self.cur_recs = Ghost(self.cur_recs@.push((session_id, payload@)));
        proof {
            assert(self@ == appended(mid, session_id, payload@));
            lemma_appended_wf(mid, session_id, payload@);
            assert(write_pos_spec(self@) > write_pos_spec(v)) by (nonlinear_arith)
                requires
                    mid.epoch == v.epoch || (mid.epoch == v.epoch + 1 && v.cursor <= v.size),
                    mid.epoch == v.epoch ==> self@.cursor > v.cursor,
                    self@.cursor > 0,
                    self@.epoch == mid.epoch,
                    self@.size == v.size,
            ;
            if self@.epoch < 0x4000_0000 {
                lemma_append_readable(v, session_id, payload@);
            }
        }
        Ok(LogOffset::new(slot as u8, off, g))
    }

    /// Returns the frame stored at `offset`, or `None` if the slot has been
    /// rotated out and is no longer readable.
    pub fn read(&self, offset: LogOffset) -> (r: Option<Frame<'_>>)
        requires
            self.wf(),
        ensures
            match read_spec(self@, offset@) {
                None => r is None,
                Some(f) => r is Some && r->0@ == f,
            },
    {
        proof {
            reveal(read_spec);
        }
        let slot = offset.slot();
        if slot != self.current && slot != self.prev {
            return None;
        }
        if offset.epoch() != self.gen_of(slot) {
            return None;
        }
        let off = offset.local_off();
        let size = self.segment_size;
        if off > size || size - off < FRAME_HDR {
            return None;
        }
        let seg = self.seg_ref(slot);
        let stored = get_u32(seg, off);
        if stored == 0 {
            return None;
        }
        let body = (stored - 1) as usize;
        if size - off - FRAME_HDR < body {
            return None;
        }
        let start = off + FRAME_HDR;
        let payload = slice_of(seg, start, start + body);
        let sid = get_u32(seg, off + 4);
        Some(Frame { payload, offset: offset.global_offset(size), session_id: sid })
    }

    fn read_at(&self, pos: u64) -> (r: (Option<Frame<'_>>, u64))
        requires
            self.wf(),
            pos % 8 == 0,
            pos as int / self@.size <= self@.epoch,
            pos as int % self@.size + 8 <= self@.size,
            u32_at(self@.segs[(pos as int / self@.size) % 3], pos as int % self@.size) != 0,
        ensures
            ({
                let (f, p) = read_here(self@, pos as int);
                &&& r.1 == p
                &&& match f {
                    None => r.0 is None,
                    Some(fv) => r.0 is Some && r.0->0@ == fv,
                }
            }),
    {
        let seg_size = self.segment_size as u64;
        let seg = pos / seg_size;
        let local = (pos % seg_size) as usize;
        let data = self.seg_ref((seg % 3) as usize);
        let stored = get_u32(data, local);
        let body = (stored - 1) as usize;
        if self.segment_size - local - FRAME_HDR < body {
            return (None, pos);
        }
        let start = local + FRAME_HDR;
        let payload = slice_of(data, start, start + body);
        let sid = get_u32(data, local + 4);
        proof {
            lemma_local_aligned(pos as int, seg_size as int);
            lemma_align_fits(body as int, (seg_size - local - 8) as int);
            assert(pos + foot(body as int) <= (self@.epoch + 1) * self@.size) by (nonlinear_arith)
                requires
                    pos == seg * seg_size + local,
                    seg <= self@.epoch,
                    local + foot(body as int) <= seg_size,
                    seg_size == self@.size,
            ;
        }
        (Some(Frame { payload, offset: pos, session_id: sid }), pos + footprint(body) as u64)
    }

    /// Reads the next committed frame at `pos`, advancing past it.
    ///
    /// Returns `None` when caught up to the writer or when `pos` references
    /// an evicted segment. `pos` must be frame-aligned (a multiple of 8);
    /// values obtained from [`read_start`](Self::read_start) and advanced by
    /// this method are.
    pub fn read_next(&self, pos: &mut u64) -> (r: Option<Frame<'_>>)
        requires
            self.wf(),
            *old(pos) % 8 == 0,
        ensures
            ({
                let (f, p) = read_next_spec(self@, *old(pos) as int);
                &&& *final(pos) == p
                &&& match f {
                    None => r is None,
                    Some(fv) => r is Some && r->0@ == fv,
                }
            }),
    {
        let seg_size = self.segment_size as u64;
        let seg = *pos / seg_size;
        let local = (*pos % seg_size) as usize;
        let epoch = self.epoch;
        if seg > epoch || (epoch > 0 && seg + 1 < epoch) {
            return None;
        }
        let skip = if local + FRAME_HDR > self.segment_size {
            true
        } else {
            get_u32(self.seg_ref((seg % 3) as usize), local) == 0
        };
        if skip {
            if seg < epoch {
                proof {
                    assert((seg + 1) * seg_size <= (self@.epoch + 1) * self@.size) by (nonlinear_arith)
                        requires
                            seg + 1 <= self@.epoch,
                            seg_size == self@.size,
                    ;
                }
                let next = (seg + 1) * seg_size;
                *pos = next;
                proof {
                    lemma_div_mod_exact(seg + 1, seg_size as int);
                    let k = seg_size / 8;
                    assert(next == 8 * ((seg + 1) * k)) by (nonlinear_arith)
                        requires
                            next == (seg + 1) * seg_size,
                            seg_size == 8 * k,
                    ;
                }
                if get_u32(self.seg_ref(((seg + 1) % 3) as usize), 0) == 0 {
                    return None;
                }
                let (f, p) = self.read_at(next);
                *pos = p;
                return f;
            }
            return None;
        }
        let (f, p) = self.read_at(*pos);
        *pos = p;
        f
    }

    /// Whether the global positions still have room for a rotation, as
    /// [`append`](Self::append) requires (it fails only after some 2^64
    /// bytes have been written).
    pub fn has_position_room(&self) -> (r: bool)
        requires
            self.wf(),
        ensures
            r == ((self@.epoch + 2) * self@.size <= u64::MAX),
    {
        let s = self.segment_size as u64;
        let q = u64::MAX / s;
        let e = self.epoch;
        proof {
            let m = u64::MAX as int;
            vstd::arithmetic::div_mod::lemma_fundamental_div_mod(m, s as int);
            assert((e + 2) * s <= m <==> e + 2 <= q) by (nonlinear_arith)
                requires
                    m == s * q + m % (s as int),
                    0 <= m % (s as int) < s,
                    s > 0,
                    e >= 0,
                    q >= 0,
            ;
        }
        q >= 2 && e <= q - 2
    }

    /// Monotonically increasing global offset at the current write position.
    pub fn write_pos(&self) -> (r: u64)
        requires
            self.wf(),
        ensures
            r == write_pos_spec(self@),
    {
        proof {
            assert(self.epoch * self.segment_size + self.cursor <= (self.epoch + 1)
                * self.segment_size) by (nonlinear_arith)
                requires
                    self.cursor <= self.segment_size,
            ;
        }
        self.epoch * self.segment_size as u64 + self.cursor as u64
    }

    /// Global offset at the start of the oldest readable segment.
    pub fn read_start(&self) -> (r: u64)
        requires
            self.wf(),
        ensures
            r == read_start_spec(self@),
    {
        if self.epoch == 0 {
            0
        } else {
            proof {
                assert((self.epoch - 1) * self.segment_size <= (self.epoch + 1)
                    * self.segment_size) by (nonlinear_arith)
                    requires
                        self.epoch >= 1,
                ;
            }
            (self.epoch - 1) * self.segment_size as u64
        }
    }
}

} // verus!
