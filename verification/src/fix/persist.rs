use vstd::prelude::*;

use crate::fix::session::wrap_inc;
use crate::seglog::{
    append_spec, le_byte, lemma_append_readable, lemma_scan_end, lemma_scan_pos_aligned,
    lemma_scan_start, lemma_scan_step, log_wf, read_spec, rec_frame, records, scan_pos,
    standby_cleaned, u32_at, Frame, FrameView, LogOffset, Rec, SegLogView, SegmentedLog,
    SegmentedLogError,
};

verus! {

/// How to answer a resend request for one sequence number.
pub enum ResendPlan<'a> {
    /// The stored message, to be sent again.
    Replay(Frame<'a>),
    /// Nothing stored for it: fill the range with a gap fill.
    GapFill { from: u32, to: Option<u32> },
}

/// Abstract value of a [`ResendPlan`].
pub enum ResendView {
    Replay(FrameView),
    GapFill { from: u32, to: Option<u32> },
}

impl<'a> View for ResendPlan<'a> {
    type V = ResendView;

    open spec fn view(&self) -> ResendView {
        match self {
            ResendPlan::Replay(f) => ResendView::Replay(f@),
            ResendPlan::GapFill { from, to } => ResendView::GapFill { from: *from, to: *to },
        }
    }
}

/// Little-endian bytes of a `u32`.
pub open spec fn le4(v: u32) -> Seq<u8> {
    seq![le_byte(v as int, 0), le_byte(v as int, 1), le_byte(v as int, 2), le_byte(v as int, 3)]
}

/// Little-endian bytes of a `u64`.
pub open spec fn le8(v: u64) -> Seq<u8> {
    le4((v % 0x1_0000_0000) as u32) + le4((v / 0x1_0000_0000) as u32)
}

/// The journal payload of a stored message: sequence number, timestamp,
/// then the message bytes.
pub open spec fn stored_payload(seq: u32, timestamp: u64, msg: Seq<u8>) -> Seq<u8> {
    le4(seq) + le8(timestamp) + msg
}

/// The sequence number at the start of a journal payload.
pub open spec fn stored_seq(p: Seq<u8>) -> Option<u32> {
    if p.len() >= 4 {
        Some(u32_at(p, 0) as u32)
    } else {
        None
    }
}

/// The sequence number of the last record that carries one.
pub open spec fn last_seq(rs: Seq<Rec>) -> Option<u32>
    decreases rs.len(),
{
    if rs.len() == 0 {
        None
    } else {
        match stored_seq(rs.last().1) {
            Some(s) => Some(s),
            None => last_seq(rs.drop_last()),
        }
    }
}

/// Index in the offset window where sequence number `seq` is remembered.
pub open spec fn window_slot(seq: u32, window: usize) -> int {
    (seq as usize & (window - 1) as usize) as int
}

/// Abstract state of a [`FixJournal`].
pub struct JournalView {
    pub log: SegLogView,
    pub offsets: Seq<Option<u64>>,
    pub window: usize,
    pub next_outbound: u32,
    pub next_inbound: u32,
}

/// What [`FixJournal::resend`] answers for `begin`.
pub open spec fn resend_spec(j: JournalView, begin: u32, end: Option<u32>) -> ResendView {
    match j.offsets[window_slot(begin, j.window)] {
        Some(o) => match read_spec(j.log, o) {
            Some(f) => if stored_seq(f.payload) == Some(begin) {
                ResendView::Replay(f)
            } else {
                ResendView::GapFill { from: begin, to: end }
            },
            None => ResendView::GapFill { from: begin, to: end },
        },
        None => ResendView::GapFill { from: begin, to: end },
    }
}

/// Outbound message journal of a FIX session over a [`SegmentedLog`]: keeps
/// the offsets of the last `window` sequence numbers for resends.
pub struct FixJournal {
    journal: SegmentedLog,
    offsets: Vec<Option<LogOffset>>,
    window: usize,
    next_outbound: u32,
    next_inbound: u32,
}

impl View for FixJournal {
    type V = JournalView;

    closed spec fn view(&self) -> JournalView {
        JournalView {
            log: self.journal@,
            offsets: self.offsets@.map_values(
                |o: Option<LogOffset>|
                    match o {
                        Some(x) => Some(x@),
                        None => None,
                    },
            ),
            window: self.window,
            next_outbound: self.next_outbound,
            next_inbound: self.next_inbound,
        }
    }
}

/// Little-endian `u32` at the start of `p`.
fn le_u32(p: &[u8]) -> (r: u32)
    requires
        p@.len() >= 4,
    ensures
        r == u32_at(p@, 0),
{
    p[0] as u32 + p[1] as u32 * 256 + p[2] as u32 * 65536 + p[3] as u32 * 16777216
}

fn push_le4(out: &mut Vec<u8>, v: u32)
    ensures
        final(out)@ == old(out)@ + le4(v),
{
    out.push((v % 256) as u8);
    out.push((v / 256 % 256) as u8);
    out.push((v / 65536 % 256) as u8);
    out.push((v / 16777216 % 256) as u8);
    assert(out@ =~= old(out)@ + le4(v));
}

proof fn lemma_stored_seq(seq: u32, timestamp: u64, msg: Seq<u8>)
    ensures
        stored_seq(stored_payload(seq, timestamp, msg)) == Some(seq),
{
    let p = stored_payload(seq, timestamp, msg);
    assert(p[0] == le_byte(seq as int, 0));
    assert(p[1] == le_byte(seq as int, 1));
    assert(p[2] == le_byte(seq as int, 2));
    assert(p[3] == le_byte(seq as int, 3));
    crate::seglog::lemma_le_bytes(seq as int);
}

impl FixJournal {
    /// The journal's invariant.
    pub closed spec fn wf(&self) -> bool {
        &&& self.journal.wf()
        &&& self.offsets@.len() == self.window
        &&& self.window > 0
        &&& self.window & (self.window - 1) as usize == 0
    }

    /// A journal over `journal` remembering offsets for a window of `window`
    /// sequence numbers, which must be a power of two. Both counters start
    /// at 1.
    pub fn open(journal: SegmentedLog, window: usize) -> (r: Self)
        requires
            journal.wf(),
            window > 0,
            window & (window - 1) as usize == 0,
        ensures
            r.wf(),
            r@ == (JournalView {
                log: journal@,
                offsets: Seq::new(window as nat, |i: int| None::<u64>),
                window,
                next_outbound: 1,
                next_inbound: 1,
            }),
    {
        let mut offsets: Vec<Option<LogOffset>> = Vec::new();
        let mut i: usize = 0;
        while i < window
            invariant
                0 <= i <= window,
                offsets@.len() == i,
                forall|k: int| 0 <= k < i ==> (#[trigger] offsets@[k]).is_none(),
            decreases window - i,
        {
            offsets.push(None);
            i = i + 1;
        }
        let r = FixJournal { journal, offsets, window, next_outbound: 1, next_inbound: 1 };
        proof {
            assert(r@.offsets =~= Seq::new(window as nat, |i: int| None::<u64>));
        }
        r
    }

    /// The underlying log, for reading or to open the journal again.
    pub fn into_log(self) -> (r: SegmentedLog)
        ensures
            r@ == self@.log,
            self.wf() ==> r.wf(),
    {
        self.journal
    }

    /// Restores the outbound counter from the journal: one past the sequence
    /// number of the last readable stored message, unchanged when there is
    /// none.
    pub fn recover(&mut self)
        requires
            old(self).wf(),
        ensures
            final(self).wf(),
            final(self)@ == (JournalView {
                next_outbound: match last_seq(records(old(self)@.log)) {
                    Some(s) => wrap_inc(s),
                    None => old(self)@.next_outbound,
                },
                ..old(self)@
            }),
    {
        let ghost v = self.journal@;
        let ghost rs = records(v);
        proof {
            self.journal.lemma_wf();
            lemma_scan_start(v);
        }
        let mut pos = self.journal.read_start();
        let mut last: Option<u32> = None;
        let ghost mut k: int = 0;
        loop
            invariant
                self.wf(),
                self@ == old(self)@,
                self.journal@ == v,
                log_wf(v),
                rs == records(v),
                0 <= k <= rs.len(),
                pos == scan_pos(v, k),
                last == last_seq(rs.take(k)),
            ensures
                self.wf(),
                self@ == old(self)@,
                last == last_seq(rs),
            decreases rs.len() - k,
        {
            proof {
                lemma_scan_pos_aligned(v, k);
                if k < rs.len() {
                    lemma_scan_step(v, k);
                } else {
                    assert(rs.take(k) =~= rs);
                    lemma_scan_end(v);
                }
            }
            match self.journal.read_next(&mut pos) {
                None => {
                    proof {
                        if k < rs.len() {
                            assert(false);
                        }
                        assert(rs.take(k) =~= rs);
                    }
                    break;
                },
                Some(frame) => {
                    let p = frame.payload();
                    if p.len() >= 4 {
                        last = Some(le_u32(p));
                    }
                    proof {
                        assert(k < rs.len());
                        assert(rs.take(k + 1).drop_last() =~= rs.take(k));
                        assert(rs.take(k + 1).last() == rs[k]);
                        assert(rec_frame(v, k).payload == rs[k].1);
                        k = k + 1;
                    }
                },
            }
        }
        match last {
            Some(seq) => {
                self.next_outbound = if seq == u32::MAX {
                    0
                } else {
                    seq + 1
                };
            },
            None => {},
        }
    }

    /// Journals outbound message `msg` with sequence number `seq` and
    /// `timestamp`, remembers its offset for resends and sets the next
    /// outbound number past it.
    pub fn store(&mut self, seq: u32, timestamp: u64, msg: &[u8]) -> (r: Result<
        (),
        SegmentedLogError,
    >)
        requires
            old(self).wf(),
            (old(self)@.log.epoch + 2) * old(self)@.log.size <= u64::MAX,
        ensures
            final(self).wf(),
            match append_spec(old(self)@.log, 0, stored_payload(seq, timestamp, msg@)) {
                Err(e) => r == Err::<(), SegmentedLogError>(e) && final(self)@ == old(self)@,
                Ok((o, w)) => r is Ok && final(self)@ == (JournalView {
                    log: w,
                    offsets: old(self)@.offsets.update(
                        window_slot(seq, old(self)@.window),
                        Some(o),
                    ),
                    next_outbound: wrap_inc(seq),
                    ..old(self)@
                }),
            },
    {
        let mut payload: Vec<u8> = Vec::new();
        push_le4(&mut payload, seq);
        push_le4(&mut payload, (timestamp % 0x1_0000_0000) as u32);
        push_le4(&mut payload, (timestamp / 0x1_0000_0000) as u32);
        crate::fix::codec::push_bytes(&mut payload, msg);
        proof {
            assert(payload@ =~= stored_payload(seq, timestamp, msg@));
        }
        let offset = match self.journal.append(0, payload.as_slice()) {
            Ok(o) => o,
            Err(e) => {
                return Err(e);
            },
        };
        let idx = seq as usize & (self.window - 1);
        proof {
            let w = self.window;
            assert(seq as usize & (w - 1) as usize <= (w - 1) as usize) by (bit_vector);
        }
        self.offsets.set(idx, Some(offset));
        self.next_outbound = if seq == u32::MAX {
            0
        } else {
            seq + 1
        };
        proof {
            let ov = old(self)@.offsets;
            assert(self@.offsets =~= ov.update(window_slot(seq, old(self)@.window), Some(offset@)));
        }
        Ok(())
    }

    /// What to send again for a resend request starting at `begin`: the
    /// stored message when it is still readable, a gap fill otherwise.
    pub fn resend(&self, begin: u32, end: Option<u32>) -> (r: ResendPlan<'_>)
        requires
            self.wf(),
        ensures
            r@ == resend_spec(self@, begin, end),
    {
        let slot = begin as usize & (self.window - 1);
        proof {
            let w = self.window;
            assert(begin as usize & (w - 1) as usize <= (w - 1) as usize) by (bit_vector);
        }
        match self.offsets[slot] {
            Some(off) => match self.journal.read(off) {
                Some(frame) => {
                    let p = frame.payload();
                    if p.len() >= 4 && le_u32(p) == begin {
                        return ResendPlan::Replay(frame);
                    }
                },
                None => {},
            },
            None => {},
        }
        ResendPlan::GapFill { from: begin, to: end }
    }

    /// Cleans the log's standby segment, the work that lets the next
    /// rotation go through (see [`SegmentedLog::clean_standby`]); offsets and
    /// counters are kept.
    pub fn clean_standby(&mut self)
        requires
            old(self).wf(),
        ensures
            final(self).wf(),
            final(self)@ == (JournalView { log: standby_cleaned(old(self)@.log), ..old(self)@ }),
    {
        self.journal.clean_standby();
    }

    /// Whether the standby segment is ready for the next rotation.
    pub fn standby_ready(&self) -> (r: bool)
        ensures
            r == self@.log.ready,
    {
        self.journal.standby_ready()
    }

    /// The journal's log satisfies the log invariant the laws on it assume.
    pub proof fn lemma_wf(&self)
        requires
            self.wf(),
        ensures
            log_wf(self@.log),
            self@.window > 0,
            self@.offsets.len() == self@.window,
    {
        self.journal.lemma_wf();
    }

    /// Whether the log still has room for a rotation, as
    /// [`store`](Self::store) requires.
    pub fn has_position_room(&self) -> (r: bool)
        requires
            self.wf(),
        ensures
            r == ((self@.log.epoch + 2) * self@.log.size <= u64::MAX),
    {
        self.journal.has_position_room()
    }

    pub fn next_outbound(&self) -> (r: u32)
        ensures
            r == self@.next_outbound,
    {
        self.next_outbound
    }

    pub fn next_inbound(&self) -> (r: u32)
        ensures
            r == self@.next_inbound,
    {
        self.next_inbound
    }

    pub fn advance_inbound(&mut self)
        ensures
            final(self)@ == (JournalView { next_inbound: wrap_inc(old(self)@.next_inbound), ..old(self)@ }),
            old(self).wf() ==> final(self).wf(),
    {
        self.next_inbound = if self.next_inbound == u32::MAX {
            0
        } else {
            self.next_inbound + 1
        };
    }

    /// Caller restores from Logon's `NextExpectedMsgSeqNum` field.
    pub fn set_next_inbound(&mut self, seq: u32)
        ensures
            final(self)@ == (JournalView { next_inbound: seq, ..old(self)@ }),
            old(self).wf() ==> final(self).wf(),
    {
        self.next_inbound = seq;
    }
}

/// A message that `store` accepted is what `resend` replays for its sequence
/// number (while the log has rotated fewer than 2^30 times).
pub proof fn lemma_store_then_resend(
    j: JournalView,
    seq: u32,
    timestamp: u64,
    msg: Seq<u8>,
    end: Option<u32>,
)
    requires
        log_wf(j.log),
        (j.log.epoch + 2) * j.log.size <= u64::MAX,
        j.window > 0,
        j.offsets.len() == j.window,
        append_spec(j.log, 0, stored_payload(seq, timestamp, msg)) is Ok,
        append_spec(j.log, 0, stored_payload(seq, timestamp, msg))->Ok_0.1.epoch < 0x4000_0000,
    ensures
        ({
            let (o, w) = append_spec(j.log, 0, stored_payload(seq, timestamp, msg))->Ok_0;
            let nj = JournalView {
                log: w,
                offsets: j.offsets.update(window_slot(seq, j.window), Some(o)),
                next_outbound: wrap_inc(seq),
                ..j
            };
            resend_spec(nj, seq, end) matches ResendView::Replay(f) && f.payload
                == stored_payload(seq, timestamp, msg) && f.session_id == 0
        }),
{
    let p = stored_payload(seq, timestamp, msg);
    let (o, w) = append_spec(j.log, 0, p)->Ok_0;
    let wnd = j.window;
    assert(seq as usize & (wnd - 1) as usize <= (wnd - 1) as usize) by (bit_vector);
    lemma_append_readable(j.log, 0, p);
    lemma_stored_seq(seq, timestamp, msg);
}

/// A stored message's payload carries its sequence number, so after storing
/// `seq` the journal's last sequence number is `seq`.
pub proof fn lemma_last_seq_of_stored(rs: Seq<Rec>, seq: u32, timestamp: u64, msg: Seq<u8>)
    ensures
        last_seq(rs.push((0u32, stored_payload(seq, timestamp, msg)))) == Some(seq),
{
    lemma_stored_seq(seq, timestamp, msg);
    assert(rs.push((0u32, stored_payload(seq, timestamp, msg))).last() == (
    0u32,
    stored_payload(seq, timestamp, msg),
    ));
}

} // verus!
