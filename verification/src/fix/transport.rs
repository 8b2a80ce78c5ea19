use vstd::prelude::*;

use core::time::Duration;

use crate::fix::codec::{
    body_bytes, build_frame, complete_frame_len, dec, field_at, fields_view, first_with_tag,
    frame_bytes, frame_fields, frame_len_spec, lemma_dec_digits, lemma_field_at_bounds,
    lemma_field_value_no_soh, lemma_first_with_tag, lemma_frame_fields_read_back,
    lemma_frame_len_bounds, lemma_frame_len_extend, lemma_tag_value_no_soh, next_field, no_soh,
    push_bytes, push_dec, tag_slice, tag_value, values_no_soh, SOH,
};

use crate::fix::persist::{
    resend_spec, stored_payload, window_slot, FixJournal, JournalView, ResendPlan, ResendView,
};
use crate::fix::session::{
    admin_extra, admin_frame, admin_seq, comp_id_mismatch_spec, comp_ids_match, connect_spec, logout_spec, resend_head,
    step_message, step_timeout, wrap_inc, ConfigView,
    DisconnectReason, Event, Session, SessionView, State, AdminView,
};
use crate::fix::timestamp::{format_utc_timestamp, utc_timestamp_spec};
use crate::seglog::{append_spec, standby_cleaned, FrameView, SegmentedLogError};

verus! {

/// Settings for a FIX connection: buffer sizes and socket options.
pub struct FixConnectionBuilder {
    reader_cap: usize,
    writer_cap: usize,
    nodelay: bool,
    connect_timeout: Option<Duration>,
}

/// Abstract value of a [`FixConnectionBuilder`].
pub struct BuilderView {
    pub reader_cap: usize,
    pub writer_cap: usize,
    pub nodelay: bool,
    pub connect_timeout: Option<Duration>,
}

impl View for FixConnectionBuilder {
    type V = BuilderView;

    closed spec fn view(&self) -> BuilderView {
        BuilderView {
            reader_cap: self.reader_cap,
            writer_cap: self.writer_cap,
            nodelay: self.nodelay,
            connect_timeout: self.connect_timeout,
        }
    }
}

impl Default for FixConnectionBuilder {
    /// 64 KiB read and write buffers, `TCP_NODELAY` on, no connect timeout.
    fn default() -> (r: Self)
        ensures
            r@ == (BuilderView {
                reader_cap: 65536,
                writer_cap: 65536,
                nodelay: true,
                connect_timeout: None,
            }),
    {
        FixConnectionBuilder {
            reader_cap: 64 * 1024,
            writer_cap: 64 * 1024,
            nodelay: true,
            connect_timeout: None,
        }
    }
}

impl FixConnectionBuilder {
    pub fn reader_capacity(self, n: usize) -> (r: Self)
        ensures
            r@ == (BuilderView { reader_cap: n, ..self@ }),
    {
        FixConnectionBuilder { reader_cap: n, ..self }
    }

    pub fn writer_capacity(self, n: usize) -> (r: Self)
        ensures
            r@ == (BuilderView { writer_cap: n, ..self@ }),
    {
        FixConnectionBuilder { writer_cap: n, ..self }
    }

    pub fn nodelay(self, v: bool) -> (r: Self)
        ensures
            r@ == (BuilderView { nodelay: v, ..self@ }),
    {
        FixConnectionBuilder { nodelay: v, ..self }
    }

    pub fn connect_timeout(self, d: Duration) -> (r: Self)
        ensures
            r@ == (BuilderView { connect_timeout: Some(d), ..self@ }),
    {
        FixConnectionBuilder { connect_timeout: Some(d), ..self }
    }

    /// Read buffer capacity.
    pub fn get_reader_capacity(&self) -> (r: usize)
        ensures
            r == self@.reader_cap,
    {
        self.reader_cap
    }

    /// Write buffer capacity.
    pub fn get_writer_capacity(&self) -> (r: usize)
        ensures
            r == self@.writer_cap,
    {
        self.writer_cap
    }

    /// Whether `TCP_NODELAY` is set on connect.
    pub fn get_nodelay(&self) -> (r: bool)
        ensures
            r == self@.nodelay,
    {
        self.nodelay
    }

    /// The connect timeout, if any.
    pub fn get_connect_timeout(&self) -> (r: Option<Duration>)
        ensures
            r == self@.connect_timeout,
    {
        self.connect_timeout
    }
}

/// The fields of `buf` from `pos`, in order, up to the first position that
/// holds no complete field.
pub open spec fn fields_from(buf: Seq<u8>, pos: int) -> Seq<(u32, Seq<u8>)>
    decreases buf.len() - pos,
{
    match field_at(buf, pos) {
        None => Seq::empty(),
        Some((t, vs, ve)) => if pos < ve + 1 <= buf.len() {
            seq![(t, buf.subrange(vs, ve))] + fields_from(buf, ve + 1)
        } else {
            seq![(t, buf.subrange(vs, ve))]
        },
    }
}

/// `(tag, v)` when `v` is present, nothing otherwise.
pub open spec fn opt_field(tag: u32, v: Option<Seq<u8>>) -> Seq<(u32, Seq<u8>)> {
    match v {
        Some(x) => seq![(tag, x)],
        None => Seq::empty(),
    }
}

/// How one field of a stored message is rewritten for a replay: the framing
/// fields (8, 9, 10, 35) and the old duplicate markers (43, 122) go, the
/// sending time becomes `ts` followed by `PossDupFlag=Y` and the first
/// sending time, everything else stays.
pub open spec fn reframe_field(f: (u32, Seq<u8>), ts: Seq<u8>, orig_time: Option<Seq<u8>>) -> Seq<
    (u32, Seq<u8>),
> {
    if f.0 == 8 || f.0 == 9 || f.0 == 10 || f.0 == 35 || f.0 == 43 || f.0 == 122 {
        Seq::empty()
    } else if f.0 == 52 {
        seq![(52u32, ts), (43u32, seq![89u8])] + opt_field(122, orig_time)
    } else {
        seq![f]
    }
}

pub open spec fn reframe_all(fs: Seq<(u32, Seq<u8>)>, ts: Seq<u8>, orig_time: Option<Seq<u8>>) -> Seq<
    (u32, Seq<u8>),
>
    decreases fs.len(),
{
    if fs.len() == 0 {
        Seq::empty()
    } else {
        reframe_field(fs[0], ts, orig_time) + reframe_all(fs.drop_first(), ts, orig_time)
    }
}

pub open spec fn has_tag(fs: Seq<(u32, Seq<u8>)>, t: u32) -> bool
    decreases fs.len(),
{
    fs.len() > 0 && (fs[0].0 == t || has_tag(fs.drop_first(), t))
}

/// The body fields of a replayed message: the rewritten fields, then the
/// duplicate markers when the stored message had no sending time.
pub open spec fn reframed_fields(orig: Seq<u8>, ts: Seq<u8>) -> Seq<(u32, Seq<u8>)> {
    let fs = fields_from(orig, 0);
    let ot = tag_value(orig, 52);
    reframe_all(fs, ts, ot) + if has_tag(fs, 52) {
        Seq::empty()
    } else {
        seq![(43u32, seq![89u8])] + opt_field(122, ot)
    }
}

/// The message type of a stored message, `D` when it has none.
pub open spec fn stored_msg_type(orig: Seq<u8>) -> Seq<u8> {
    match tag_value(orig, 35) {
        Some(t) => t,
        None => seq![68u8],
    }
}

fn one_byte(b: u8) -> (r: Vec<u8>)
    ensures
        r@ == seq![b],
{
    let mut v: Vec<u8> = Vec::new();
    v.push(b);
    assert(v@ =~= seq![b]);
    v
}

fn push_pair(out: &mut Vec<(u32, Vec<u8>)>, tag: u32, v: &[u8])
    ensures
        fields_view(final(out)@) == fields_view(old(out)@).push((tag, v@)),
{
    let mut val: Vec<u8> = Vec::new();
    push_bytes(&mut val, v);
    let ghost vv = val@;
    out.push((tag, val));
    proof {
        assert(fields_view(out@) =~= fields_view(old(out)@).push((tag, vv)));
    }
}

/// Re-frames a stored application message for a resend: new header with
/// `begin_string` and the stored message type, sending time `ts`,
/// `PossDupFlag=Y`, the stored sending time as `OrigSendingTime`, and the
/// other fields as stored.
pub fn reframe_app(orig: &[u8], ts: &[u8], begin_string: &[u8]) -> (r: Vec<u8>)
    ensures
        r@ == frame_bytes(begin_string@, stored_msg_type(orig@), reframed_fields(orig@, ts@)),
{
    let default_type = one_byte(68u8);
    let msg_type: &[u8] = match tag_slice(orig, 35) {
        Some(t) => t,
        None => default_type.as_slice(),
    };
    let yes = one_byte(89u8);
    let orig_time = tag_slice(orig, 52);
    let ghost ot = tag_value(orig@, 52);
    let ghost all = fields_from(orig@, 0);
    let mut out: Vec<(u32, Vec<u8>)> = Vec::new();
    let mut poss_dup_done = false;
    let mut pos: usize = 0;
    let blen = orig.len();
    proof {
        assert(fields_view(out@) =~= Seq::<(u32, Seq<u8>)>::empty());
        assert(Seq::<(u32, Seq<u8>)>::empty() + reframe_all(all, ts@, ot) =~= reframe_all(all, ts@, ot));
    }
    loop
        invariant
            yes@ == seq![89u8],
            blen == orig@.len(),
            pos <= orig@.len(),
            match orig_time {
                None => ot.is_none(),
                Some(t) => ot == Some(t@),
            },
            fields_view(out@) + reframe_all(fields_from(orig@, pos as int), ts@, ot) == reframe_all(
                all,
                ts@,
                ot,
            ),
            (poss_dup_done || has_tag(fields_from(orig@, pos as int), 52)) == has_tag(all, 52),
        ensures
            fields_view(out@) == reframe_all(all, ts@, ot),
            poss_dup_done == has_tag(all, 52),
        decreases orig@.len() - pos,
    {
        let ghost before = fields_view(out@);
        let ghost old_pos = pos as int;
        match next_field(orig, pos) {
            None => {
                proof {
                    assert(fields_from(orig@, old_pos) =~= Seq::<(u32, Seq<u8>)>::empty());
                    assert(fields_view(out@) + Seq::<(u32, Seq<u8>)>::empty() =~= fields_view(out@));
                }
                break;
            },
            Some((f, next)) => {
                let v = f.value.slice(orig);
                let t = f.tag;
                if t == 8 || t == 9 || t == 10 || t == 35 || t == 43 || t == 122 {
                    proof {
                        assert(fields_view(out@) =~= before + reframe_field((t, v@), ts@, ot));
                    }
                } else if t == 52 {
                    push_pair(&mut out, 52, ts);
                    push_pair(&mut out, 43, yes.as_slice());
                    match orig_time {
                        Some(ot_bytes) => push_pair(&mut out, 122, ot_bytes),
                        None => {},
                    }
                    poss_dup_done = true;
                    proof {
                        assert(fields_view(out@) =~= before + reframe_field((t, v@), ts@, ot));
                    }
                } else {
                    push_pair(&mut out, t, v);
                    proof {
                        assert(fields_view(out@) =~= before + reframe_field((t, v@), ts@, ot));
                    }
                }
                proof {
                    lemma_field_at_bounds(orig@, old_pos);
                    let fa = field_at(orig@, old_pos);
                    let (ft, vs, ve) = fa->0;
                    assert(ft == t && next == ve + 1);
                    assert(v@ == orig@.subrange(vs, ve));
                    let fs = fields_from(orig@, old_pos);
                    let rest = fields_from(orig@, next as int);
                    assert(fs == seq![(t, v@)] + rest);
                    assert(fs[0] == (t, v@));
                    assert(fs.drop_first() =~= rest);
                    assert(fields_view(out@) =~= before + reframe_field((t, v@), ts@, ot));
                    assert(reframe_all(fs, ts@, ot) == reframe_field(fs[0], ts@, ot) + reframe_all(
                        fs.drop_first(),
                        ts@,
                        ot,
                    ));
                    assert(fields_view(out@) + reframe_all(rest, ts@, ot) =~= before + reframe_all(
                        fs,
                        ts@,
                        ot,
                    ));
                    assert(has_tag(fs, 52) == (t == 52 || has_tag(rest, 52)));
                }
                pos = next;
            },
        }
    }
    let ghost body = fields_view(out@);
    if !poss_dup_done {
        push_pair(&mut out, 43, yes.as_slice());
        match orig_time {
            Some(ot_bytes) => push_pair(&mut out, 122, ot_bytes),
            None => {},
        }
    }
    proof {
        assert(fields_view(out@) =~= reframed_fields(orig@, ts@));
    }
    build_frame(begin_string, msg_type, &out)
}

/// Encodes a gap fill (`35=4` with `GapFillFlag=Y`) sent with sequence
/// number `seq` that moves the counterparty's expected number to `new_seq`.
pub fn encode_gap_fill(
    begin_string: &[u8],
    sender: &[u8],
    target: &[u8],
    ts: &[u8],
    seq: u32,
    new_seq: u32,
) -> (r: Vec<u8>)
    ensures
        r@ == frame_bytes(
            begin_string@,
            seq![52u8],
            seq![
                (34u32, dec(seq as nat)),
                (49u32, sender@),
                (56u32, target@),
                (52u32, ts@),
                (43u32, seq![89u8]),
                (123u32, seq![89u8]),
                (36u32, dec(new_seq as nat)),
            ],
        ),
{
    let mut seq_digits: Vec<u8> = Vec::new();
    push_dec(&mut seq_digits, seq as u64);
    let mut new_digits: Vec<u8> = Vec::new();
    push_dec(&mut new_digits, new_seq as u64);
    let yes = one_byte(89u8);
    let gap_fill_type = one_byte(52u8);
    let mut out: Vec<(u32, Vec<u8>)> = Vec::new();
    push_pair(&mut out, 34, seq_digits.as_slice());
    push_pair(&mut out, 49, sender);
    push_pair(&mut out, 56, target);
    push_pair(&mut out, 52, ts);
    push_pair(&mut out, 43, yes.as_slice());
    push_pair(&mut out, 123, yes.as_slice());
    push_pair(&mut out, 36, new_digits.as_slice());
    proof {
        assert(fields_view(Seq::<(u32, Vec<u8>)>::empty()) =~= Seq::<(u32, Seq<u8>)>::empty());
        assert(fields_view(out@) =~= seq![
            (34u32, dec(seq as nat)),
            (49u32, sender@),
            (56u32, target@),
            (52u32, ts@),
            (43u32, seq![89u8]),
            (123u32, seq![89u8]),
            (36u32, dec(new_seq as nat)),
        ]);
    }
    build_frame(begin_string, gap_fill_type.as_slice(), &out)
}

proof fn lemma_first_cons(x: (u32, Seq<u8>), b: Seq<(u32, Seq<u8>)>, t: u32)
    ensures
        first_with_tag(seq![x] + b, t) == if x.0 == t {
            0
        } else {
            1 + first_with_tag(b, t)
        },
{
    assert((seq![x] + b).drop_first() =~= b);
    assert((seq![x] + b)[0] == x);
}

proof fn lemma_first_empty_prefix(b: Seq<(u32, Seq<u8>)>, t: u32)
    ensures
        first_with_tag(Seq::<(u32, Seq<u8>)>::empty() + b, t) == first_with_tag(b, t),
{
    assert(Seq::<(u32, Seq<u8>)>::empty() + b =~= b);
}

/// In a run of rewritten fields followed by anything, the first
/// `PossDupFlag` is one the rewrite inserted (`Y`) when the stored fields had
/// a sending time; otherwise the rewritten fields have none.
proof fn lemma_reframe_first_poss_dup(
    fs: Seq<(u32, Seq<u8>)>,
    ts: Seq<u8>,
    ot: Option<Seq<u8>>,
    tail: Seq<(u32, Seq<u8>)>,
)
    ensures
        ({
            let g = reframe_all(fs, ts, ot) + tail;
            let k = first_with_tag(g, 43);
            &&& has_tag(fs, 52) ==> k < reframe_all(fs, ts, ot).len() && g[k] == (
                43u32,
                seq![89u8],
            )
            &&& !has_tag(fs, 52) ==> k == reframe_all(fs, ts, ot).len() + first_with_tag(tail, 43)
        }),
    decreases fs.len(),
{
    if fs.len() == 0 {
        assert(reframe_all(fs, ts, ot) =~= Seq::<(u32, Seq<u8>)>::empty());
        lemma_first_empty_prefix(tail, 43);
    } else {
        let f = fs[0];
        let rest = fs.drop_first();
        let rr = reframe_all(rest, ts, ot);
        let rf = reframe_field(f, ts, ot);
        lemma_reframe_first_poss_dup(rest, ts, ot, tail);
        assert(reframe_all(fs, ts, ot) == rf + rr);
        let g = rf + rr + tail;
        assert(reframe_all(fs, ts, ot) + tail =~= rf + (rr + tail));
        if f.0 == 8 || f.0 == 9 || f.0 == 10 || f.0 == 35 || f.0 == 43 || f.0 == 122 {
            assert(rf =~= Seq::<(u32, Seq<u8>)>::empty());
            lemma_first_empty_prefix(rr + tail, 43);
            assert(rf + (rr + tail) =~= rr + tail);
        } else if f.0 == 52 {
            let o = opt_field(122, ot);
            let r2 = seq![(43u32, seq![89u8])] + o + (rr + tail);
            assert(rf + (rr + tail) =~= seq![(52u32, ts)] + r2);
            lemma_first_cons((52u32, ts), r2, 43);
            assert(r2 =~= seq![(43u32, seq![89u8])] + (o + (rr + tail)));
            lemma_first_cons((43u32, seq![89u8]), o + (rr + tail), 43);
            assert((seq![(52u32, ts)] + r2)[1] == (43u32, seq![89u8]));
        } else {
            assert(rf =~= seq![f]);
            lemma_first_cons(f, rr + tail, 43);
            if has_tag(rest, 52) {
                let x = rr + tail;
                let k1 = first_with_tag(x, 43);
                lemma_first_with_tag(x, 43);
                assert(k1 < rr.len());
                assert(k1 < x.len());
                assert((rf + x)[k1 + 1] == x[k1]);
            }
        }
    }
}

proof fn lemma_fields_from_no_soh(buf: Seq<u8>, pos: int)
    ensures
        values_no_soh(fields_from(buf, pos)),
    decreases buf.len() - pos,
{
    match field_at(buf, pos) {
        None => {},
        Some((t, vs, ve)) => {
            lemma_field_value_no_soh(buf, pos);
            let head = seq![(t, buf.subrange(vs, ve))];
            if pos < ve + 1 <= buf.len() {
                lemma_fields_from_no_soh(buf, ve + 1);
                let fs = fields_from(buf, pos);
                assert forall|i: int| 0 <= i < fs.len() implies no_soh(#[trigger] fs[i].1) by {
                    if i > 0 {
                        assert(fs[i] == fields_from(buf, ve + 1)[i - 1]);
                    }
                }
            }
        },
    }
}

proof fn lemma_reframe_values_no_soh(fs: Seq<(u32, Seq<u8>)>, ts: Seq<u8>, ot: Option<Seq<u8>>)
    requires
        values_no_soh(fs),
        no_soh(ts),
        ot matches Some(o) ==> no_soh(o),
    ensures
        values_no_soh(reframe_all(fs, ts, ot)),
    decreases fs.len(),
{
    if fs.len() > 0 {
        let rest = fs.drop_first();
        assert forall|i: int| 0 <= i < rest.len() implies no_soh(#[trigger] rest[i].1) by {
            assert(rest[i] == fs[i + 1]);
        }
        lemma_reframe_values_no_soh(rest, ts, ot);
        let rf = reframe_field(fs[0], ts, ot);
        let rr = reframe_all(rest, ts, ot);
        assert(no_soh(fs[0].1));
        assert(no_soh(seq![89u8]));
        assert forall|i: int| 0 <= i < rf.len() implies no_soh(#[trigger] rf[i].1) by {}
        let g = reframe_all(fs, ts, ot);
        assert(g == rf + rr);
        assert forall|i: int| 0 <= i < g.len() implies no_soh(#[trigger] g[i].1) by {
            if i >= rf.len() {
                assert(g[i] == rr[i - rf.len()]);
            } else {
                assert(g[i] == rf[i]);
            }
        }
    }
}

/// A re-framed message is always marked as a possible duplicate: its
/// `PossDupFlag` (tag 43) reads `Y`, whatever the stored message said, when
/// the begin string and sending time hold no delimiter.
pub proof fn lemma_reframe_marks_poss_dup(orig: Seq<u8>, ts: Seq<u8>, begin: Seq<u8>)
    requires
        no_soh(begin),
        no_soh(ts),
    ensures
        tag_value(frame_bytes(begin, stored_msg_type(orig), reframed_fields(orig, ts)), 43)
            == Some(seq![89u8]),
{
    let fs = fields_from(orig, 0);
    let ot = tag_value(orig, 52);
    let mt = stored_msg_type(orig);
    let body = reframed_fields(orig, ts);
    let rr = reframe_all(fs, ts, ot);
    let tail = if has_tag(fs, 52) {
        Seq::<(u32, Seq<u8>)>::empty()
    } else {
        seq![(43u32, seq![89u8])] + opt_field(122, ot)
    };
    assert(body == rr + tail);
    lemma_reframe_first_poss_dup(fs, ts, ot, tail);
    let k = first_with_tag(body, 43);
    lemma_first_with_tag(body, 43);
    if !has_tag(fs, 52) {
        lemma_first_cons((43u32, seq![89u8]), opt_field(122, ot), 43);
        assert(body[k] == tail[0]);
    }
    assert(k < body.len() && body[k] == (43u32, seq![89u8]));
    // values hold no delimiter
    lemma_fields_from_no_soh(orig, 0);
    lemma_tag_value_no_soh(orig, 0, 52);
    lemma_tag_value_no_soh(orig, 0, 35);
    lemma_reframe_values_no_soh(fs, ts, ot);
    assert(no_soh(seq![89u8]));
    assert(no_soh(seq![68u8]));
    assert forall|i: int| 0 <= i < tail.len() implies no_soh(#[trigger] tail[i].1) by {}
    assert forall|i: int| 0 <= i < body.len() implies no_soh(#[trigger] body[i].1) by {
        if i < rr.len() {
            assert(body[i] == rr[i]);
        } else {
            assert(body[i] == tail[i - rr.len()]);
        }
    }
    let all = frame_fields(begin, mt, body);
    let blen = body_bytes(mt, body).len();
    lemma_dec_digits(blen);
    assert forall|i: int| 0 <= i < dec(blen).len() implies dec(blen)[i] != SOH by {
        assert(48 <= dec(blen)[i] <= 57);
    }
    assert forall|i: int| 0 <= i < all.len() implies no_soh(#[trigger] all[i].1) by {
        if i >= 3 {
            assert(all[i] == body[i - 3]);
        }
    }
    let h = seq![(8u32, begin), (9u32, dec(blen)), (35u32, mt)];
    assert(all == h + body);
    lemma_first_cons((8u32, begin), seq![(9u32, dec(blen)), (35u32, mt)] + body, 43);
    assert(h + body =~= seq![(8u32, begin)] + (seq![(9u32, dec(blen)), (35u32, mt)] + body));
    lemma_first_cons((9u32, dec(blen)), seq![(35u32, mt)] + body, 43);
    assert(seq![(9u32, dec(blen)), (35u32, mt)] + body =~= seq![(9u32, dec(blen))] + (seq![(
        35u32,
        mt,
    )] + body));
    lemma_first_cons((35u32, mt), body, 43);
    assert(first_with_tag(all, 43) == 3 + k);
    assert(h.len() == 3);
    assert((h + body)[3 + k] == body[k]);
    assert(all[3 + k] == body[k]);
    lemma_frame_fields_read_back(begin, mt, body, 43);
}

/// Why a connection fails.
#[derive(Clone, Copy, Debug, PartialEq, Eq, Structural)]
pub enum Error {
    /// A frame does not fit its buffer: buffered inbound bytes fill the read
    /// buffer without holding a complete frame, or a frame of a resend is
    /// longer than the write buffer.
    FrameTooLarge(usize),
    /// The journal refused an outbound application message.
    Journal(SegmentedLogError),
}

/// The reason of the last `Disconnected` event among `evs`.
pub open spec fn last_reason(evs: Seq<Event>) -> Option<DisconnectReason>
    decreases evs.len(),
{
    if evs.len() == 0 {
        None
    } else {
        match evs.last() {
            Event::Disconnected { reason } => Some(reason),
            _ => last_reason(evs.drop_last()),
        }
    }
}

/// Whether `evs` reports an application message.
pub open spec fn has_app(evs: Seq<Event>) -> bool {
    exists|i: int| 0 <= i < evs.len() && evs[i] is App
}

/// The session with every event taken.
pub open spec fn drained(v: SessionView) -> SessionView {
    SessionView { events: Seq::empty(), ..v }
}

/// The frame of admin message `a` (see [`admin_frame`]).
#[verifier::opaque]
pub open spec fn admin_bytes(a: AdminView, cfg: ConfigView, next_out: u32, ts: Seq<u8>) -> Seq<u8> {
    admin_frame(a, cfg, next_out, ts)
}

/// The message part of a journal payload: what follows its sequence number
/// and timestamp.
pub open spec fn stored_msg(p: Seq<u8>) -> Seq<u8> {
    if p.len() >= 12 {
        p.subrange(12, p.len() as int)
    } else {
        Seq::empty()
    }
}

/// The frame that sends again the message stored in journal payload `p`
/// (see [`reframe_app`]).
pub open spec fn replay_frame(cfg: ConfigView, p: Seq<u8>, ts: Seq<u8>) -> Seq<u8> {
    let m = stored_msg(p);
    frame_bytes(cfg.begin, stored_msg_type(m), reframed_fields(m, ts))
}

/// The gap fill sent as `seq` that moves the counterparty on to `new_seq`
/// (see [`encode_gap_fill`]).
pub open spec fn gap_frame(cfg: ConfigView, ts: Seq<u8>, seq: u32, new_seq: u32) -> Seq<u8> {
    admin_frame(AdminView::GapFill { seq, new_seq }, cfg, seq, ts)
}

/// Frame `f` followed by `rest`, when `f` fits in `cap` bytes and `rest`
/// is there.
pub open spec fn then_frame(f: Seq<u8>, cap: nat, rest: Option<Seq<u8>>) -> Option<Seq<u8>> {
    match rest {
        Some(r) => if f.len() <= cap {
            Some(f + r)
        } else {
            None
        },
        None => None,
    }
}

/// The bytes that answer a resend from `s` up to `n` (exclusive), where,
/// when `hole` is `Some(h)`, the numbers from `h` up to `s` are not in the
/// journal: every message the journal still holds is sent again, and every
/// run of numbers it does not hold is covered by one gap fill from the run's
/// first number to the next held one (or to `n`). `None` when a frame does
/// not fit in `cap` bytes.
#[verifier::opaque]
pub open spec fn resend_from(
    j: JournalView,
    cfg: ConfigView,
    cap: nat,
    s: u32,
    n: u32,
    hole: Option<u32>,
    ts: Seq<u8>,
) -> Option<Seq<u8>>
    decreases n - s,
{
    if s >= n {
        match hole {
            Some(h) => then_frame(gap_frame(cfg, ts, h, n), cap, Some(Seq::empty())),
            None => Some(Seq::empty()),
        }
    } else {
        match resend_spec(j, s, None) {
            ResendView::Replay(f) => {
                let rest = then_frame(
                    replay_frame(cfg, f.payload, ts),
                    cap,
                    resend_from(j, cfg, cap, (s + 1) as u32, n, None, ts),
                );
                match hole {
                    Some(h) => then_frame(gap_frame(cfg, ts, h, s), cap, rest),
                    None => rest,
                }
            },
            ResendView::GapFill { .. } => resend_from(
                j,
                cfg,
                cap,
                (s + 1) as u32,
                n,
                if hole is Some {
                    hole
                } else {
                    Some(s)
                },
                ts,
            ),
        }
    }
}

/// The bytes that answer the oldest pending admin message of `v`: a resend
/// of its range from journal `j` when it asks for one (`None` when a frame
/// of it does not fit in `cap` bytes), its own frame otherwise (nothing
/// when that frame does not fit: it is dropped).
pub open spec fn answer_bytes(
    v: SessionView,
    cfg: ConfigView,
    j: JournalView,
    cap: nat,
    ts: Seq<u8>,
) -> Option<Seq<u8>> {
    match resend_head(v) {
        Some((b, n)) => resend_from(j, cfg, cap, b, n, None, ts),
        None => {
            let f = admin_bytes(v.pending[0], cfg, v.next_out, ts);
            if f.len() > cap {
                Some(Seq::empty())
            } else {
                Some(f)
            }
        },
    }
}

/// Encodes the pending admin messages in order, each frame into a buffer of
/// `cap` bytes stamped `ts` and sent at `now`, a resend answered from
/// journal `j`: the session afterwards, the bytes produced, and whether
/// every resend fit. An admin frame that does not fit is dropped; encoding
/// stops at a resend that does not fit, which stays pending.
pub open spec fn encode_all(
    v: SessionView,
    cfg: ConfigView,
    j: JournalView,
    cap: nat,
    now: u64,
    ts: Seq<u8>,
) -> (SessionView, Seq<u8>, bool)
    decreases v.pending.len(),
{
    if v.pending.len() == 0 {
        (v, Seq::empty(), true)
    } else {
        let a = v.pending[0];
        match answer_bytes(v, cfg, j, cap, ts) {
            None => (v, Seq::empty(), false),
            Some(f) => {
                let v1 = SessionView {
                    pending: v.pending.drop_first(),
                    next_out: if a is GapFill {
                        v.next_out
                    } else {
                        wrap_inc(v.next_out)
                    },
                    last_sent: now,
                    ..v
                };
                let (v2, rest, ok) = encode_all(v1, cfg, j, cap, now, ts);
                (v2, f + rest, ok)
            },
        }
    }
}

/// The gap fill frame field by field, as [`encode_gap_fill`] builds it.
proof fn lemma_gap_frame(cfg: ConfigView, ts: Seq<u8>, seq: u32, new_seq: u32)
    ensures
        gap_frame(cfg, ts, seq, new_seq) == frame_bytes(
            cfg.begin,
            seq![52u8],
            seq![
                (34u32, dec(seq as nat)),
                (49u32, cfg.sender),
                (56u32, cfg.target),
                (52u32, ts),
                (43u32, seq![89u8]),
                (123u32, seq![89u8]),
                (36u32, dec(new_seq as nat)),
            ],
        ),
{
    let a = AdminView::GapFill { seq, new_seq };
    assert(seq![
        (34u32, dec(admin_seq(a, seq) as nat)),
        (49u32, cfg.sender),
        (56u32, cfg.target),
        (52u32, ts),
    ] + admin_extra(a) =~= seq![
        (34u32, dec(seq as nat)),
        (49u32, cfg.sender),
        (56u32, cfg.target),
        (52u32, ts),
        (43u32, seq![89u8]),
        (123u32, seq![89u8]),
        (36u32, dec(new_seq as nat)),
    ]);
}

/// `o` followed by the bytes of `r`, when there are any.
pub open spec fn after(o: Seq<u8>, r: Option<Seq<u8>>) -> Option<Seq<u8>> {
    match r {
        Some(t) => Some(o + t),
        None => None,
    }
}

proof fn lemma_after_empty(r: Option<Seq<u8>>)
    ensures
        after(Seq::empty(), r) == r,
{
    match r {
        Some(t) => assert(Seq::<u8>::empty() + t =~= t),
        None => {},
    }
}

/// A resend step on a number the journal holds: the pending gap fill, if
/// any, then the replayed message.
proof fn lemma_resend_replay(
    j: JournalView,
    cfg: ConfigView,
    cap: nat,
    s: u32,
    n: u32,
    hole: Option<u32>,
    ts: Seq<u8>,
    f: FrameView,
    o: Seq<u8>,
)
    requires
        s < n,
        resend_spec(j, s, None) == ResendView::Replay(f),
    ensures
        ({
            let rf = replay_frame(cfg, f.payload, ts);
            let rest = resend_from(j, cfg, cap, (s + 1) as u32, n, None, ts);
            let r = resend_from(j, cfg, cap, s, n, hole, ts);
            match hole {
                Some(h) => {
                    let g = gap_frame(cfg, ts, h, s);
                    &&& g.len() > cap ==> r is None
                    &&& g.len() <= cap && rf.len() > cap ==> r is None
                    &&& g.len() <= cap && rf.len() <= cap ==> after(o, r) == after(o + g + rf, rest)
                },
                None => {
                    &&& rf.len() > cap ==> r is None
                    &&& rf.len() <= cap ==> after(o, r) == after(o + rf, rest)
                },
            }
        }),
{
    reveal(resend_from);
    let rf = replay_frame(cfg, f.payload, ts);
    let rest = resend_from(j, cfg, cap, (s + 1) as u32, n, None, ts);
    match rest {
        Some(t) => {
            assert(o + (rf + t) =~= (o + rf) + t);
            match hole {
                Some(h) => {
                    let g = gap_frame(cfg, ts, h, s);
                    assert(o + (g + (rf + t)) =~= (o + g + rf) + t);
                },
                None => {},
            }
        },
        None => {},
    }
}

/// A resend step on a number the journal does not hold: it joins the run
/// of missing numbers.
proof fn lemma_resend_gap(
    j: JournalView,
    cfg: ConfigView,
    cap: nat,
    s: u32,
    n: u32,
    hole: Option<u32>,
    ts: Seq<u8>,
)
    requires
        s < n,
        resend_spec(j, s, None) is GapFill,
    ensures
        resend_from(j, cfg, cap, s, n, hole, ts) == resend_from(
            j,
            cfg,
            cap,
            (s + 1) as u32,
            n,
            if hole is Some {
                hole
            } else {
                Some(s)
            },
            ts,
        ),
{
    reveal(resend_from);
}

/// The end of a resend: the last run of missing numbers, if any, gets its
/// gap fill.
proof fn lemma_resend_end(
    j: JournalView,
    cfg: ConfigView,
    cap: nat,
    s: u32,
    n: u32,
    hole: Option<u32>,
    ts: Seq<u8>,
    o: Seq<u8>,
)
    requires
        s >= n,
    ensures
        match hole {
            Some(h) => {
                let g = gap_frame(cfg, ts, h, n);
                &&& g.len() > cap ==> resend_from(j, cfg, cap, s, n, hole, ts) is None
                &&& g.len() <= cap ==> after(o, resend_from(j, cfg, cap, s, n, hole, ts)) == Some(o + g)
            },
            None => after(o, resend_from(j, cfg, cap, s, n, hole, ts)) == Some(o),
        },
{
    reveal(resend_from);
    assert(o + Seq::<u8>::empty() =~= o);
    match hole {
        Some(h) => {
            let g = gap_frame(cfg, ts, h, n);
            assert(g + Seq::<u8>::empty() =~= g);
        },
        None => {},
    }
}

/// The session after the connection handed it the inbound frame `frame` at
/// `now`: a frame with the wrong comp IDs ends the session, whatever its
/// state; any other frame takes the transition [`step_message`] gives.
#[verifier::opaque]
pub open spec fn after_frame(v: SessionView, cfg: ConfigView, frame: Seq<u8>, now: u64) -> SessionView {
    if !comp_ids_match(cfg, frame) {
        comp_id_mismatch_spec(v)
    } else {
        step_message(v, cfg, frame, now)
    }
}

/// Abstract value of a [`FixConnection`].
pub struct ConnView {
    pub session: SessionView,
    pub cfg: ConfigView,
    pub journal: JournalView,
    /// Received bytes not yet part of a handled frame.
    pub rbuf: Seq<u8>,
    pub rcap: nat,
    /// Bytes waiting to be written to the stream.
    pub out: Seq<u8>,
    pub wcap: nat,
}

/// What feeding the buffered bytes gives, with `app` the application frames
/// already delivered: every complete frame at the front is handed to the
/// session in turn, its events taken, and the admin messages it queued
/// encoded, until the session ends, a resend does not fit, or no
/// complete frame is left. Returns the connection afterwards, the outcome,
/// and the application frames delivered.
pub open spec fn recv_spec(c: ConnView, now: u64, ts: Seq<u8>, app: Seq<Seq<u8>>) -> (
    ConnView,
    Result<Option<DisconnectReason>, Error>,
    Seq<Seq<u8>>,
)
    decreases c.rbuf.len(),
{
    match frame_len_spec(c.rbuf) {
        Some(n) => {
            proof {
                lemma_frame_len_bounds(c.rbuf);
            }
            let frame = c.rbuf.subrange(0, n);
            let s1 = after_frame(c.session, c.cfg, frame, now);
            let reason = last_reason(s1.events);
            let e = encode_all(drained(s1), c.cfg, c.journal, c.wcap, now, ts);
            let c1 = ConnView {
                session: e.0,
                rbuf: c.rbuf.subrange(n, c.rbuf.len() as int),
                out: c.out + e.1,
                ..c
            };
            if !e.2 {
                (c1, Err(Error::FrameTooLarge(c.wcap as usize)), app)
            } else {
                let app1 = if has_app(s1.events) {
                    app.push(frame)
                } else {
                    app
                };
                if reason is Some {
                    (c1, Ok(reason), app1)
                } else {
                    recv_spec(c1, now, ts, app1)
                }
            }
        },
        None => if c.rbuf.len() >= c.rcap {
            (c, Err(Error::FrameTooLarge(c.rbuf.len() as usize)), app)
        } else {
            (c, Ok(None), app)
        },
    }
}

/// One step of [`recv_spec`] on a buffer that starts with a complete frame
/// of `n` bytes.
proof fn lemma_recv_frame(c: ConnView, now: u64, ts: Seq<u8>, app: Seq<Seq<u8>>, n: int)
    requires
        frame_len_spec(c.rbuf) == Some(n),
    ensures
        ({
            let fr = c.rbuf.subrange(0, n);
            let s1 = after_frame(c.session, c.cfg, fr, now);
            let e = encode_all(drained(s1), c.cfg, c.journal, c.wcap, now, ts);
            let c1 = ConnView {
                session: e.0,
                rbuf: c.rbuf.subrange(n, c.rbuf.len() as int),
                out: c.out + e.1,
                ..c
            };
            recv_spec(c, now, ts, app) == if !e.2 {
                (c1, Err(Error::FrameTooLarge(c.wcap as usize)), app)
            } else {
                let a1 = if has_app(s1.events) {
                    app.push(fr)
                } else {
                    app
                };
                if last_reason(s1.events) is Some {
                    (c1, Ok(last_reason(s1.events)), a1)
                } else {
                    recv_spec(c1, now, ts, a1)
                }
            }
        }),
{
}

/// The application frames delivered before a call do not change what the
/// call does; they only precede those it delivers.
proof fn lemma_recv_app_prefix(c: ConnView, now: u64, ts: Seq<u8>, app: Seq<Seq<u8>>)
    ensures
        ({
            let (c1, r1, a1) = recv_spec(c, now, ts, Seq::empty());
            recv_spec(c, now, ts, app) == (c1, r1, app + a1)
        }),
    decreases c.rbuf.len(),
{
    lemma_frame_len_bounds(c.rbuf);
    match frame_len_spec(c.rbuf) {
        Some(n) => {
            lemma_recv_frame(c, now, ts, app, n);
            lemma_recv_frame(c, now, ts, Seq::empty(), n);
            let fr = c.rbuf.subrange(0, n);
            let s1 = after_frame(c.session, c.cfg, fr, now);
            let e = encode_all(drained(s1), c.cfg, c.journal, c.wcap, now, ts);
            let c1 = ConnView {
                session: e.0,
                rbuf: c.rbuf.subrange(n, c.rbuf.len() as int),
                out: c.out + e.1,
                ..c
            };
            let a1 = if has_app(s1.events) {
                app.push(fr)
            } else {
                app
            };
            let z1 = if has_app(s1.events) {
                Seq::<Seq<u8>>::empty().push(fr)
            } else {
                Seq::<Seq<u8>>::empty()
            };
            assert(a1 =~= app + z1);
            if e.2 && last_reason(s1.events) is None {
                lemma_recv_app_prefix(c1, now, ts, a1);
                lemma_recv_app_prefix(c1, now, ts, z1);
                let rest = recv_spec(c1, now, ts, Seq::empty()).2;
                assert(a1 + rest =~= app + (z1 + rest));
            } else if e.2 {
                assert(a1 =~= app + z1);
            } else {
                assert(app =~= app + Seq::<Seq<u8>>::empty());
            }
        },
        None => {
            assert(app =~= app + Seq::<Seq<u8>>::empty());
        },
    }
}

/// [`lemma_recv_split`] with the frames delivered before the first call.
proof fn lemma_recv_extend(c: ConnView, y: Seq<u8>, now: u64, ts: Seq<u8>, app: Seq<Seq<u8>>)
    requires
        recv_spec(c, now, ts, app).1 == Ok::<Option<DisconnectReason>, Error>(None),
    ensures
        ({
            let (c1, r1, a1) = recv_spec(c, now, ts, app);
            recv_spec(ConnView { rbuf: c.rbuf + y, ..c }, now, ts, app) == recv_spec(
                ConnView { rbuf: c1.rbuf + y, ..c1 },
                now,
                ts,
                a1,
            )
        }),
    decreases c.rbuf.len(),
{
    lemma_frame_len_bounds(c.rbuf);
    lemma_frame_len_extend(c.rbuf, y);
    let cy = ConnView { rbuf: c.rbuf + y, ..c };
    match frame_len_spec(c.rbuf) {
        Some(n) => {
            lemma_recv_frame(c, now, ts, app, n);
            lemma_recv_frame(cy, now, ts, app, n);
            assert(cy.rbuf.subrange(0, n) =~= c.rbuf.subrange(0, n));
            assert(cy.rbuf.subrange(n, cy.rbuf.len() as int) =~= c.rbuf.subrange(
                n,
                c.rbuf.len() as int,
            ) + y);
            let fr = c.rbuf.subrange(0, n);
            let s1 = after_frame(c.session, c.cfg, fr, now);
            let e = encode_all(drained(s1), c.cfg, c.journal, c.wcap, now, ts);
            let c1 = ConnView {
                session: e.0,
                rbuf: c.rbuf.subrange(n, c.rbuf.len() as int),
                out: c.out + e.1,
                ..c
            };
            let a1 = if has_app(s1.events) {
                app.push(fr)
            } else {
                app
            };
            assert(ConnView { rbuf: c1.rbuf + y, ..c1 } == ConnView {
                session: e.0,
                rbuf: cy.rbuf.subrange(n, cy.rbuf.len() as int),
                out: cy.out + e.1,
                ..cy
            });
            lemma_recv_extend(c1, y, now, ts, a1);
        },
        None => {},
    }
}

/// Received bytes may arrive in any pieces: feeding `x` and then `y` does
/// the same as feeding `x + y` at once, with the application frames of both
/// calls in order, as long as the connection is still running after `x`.
pub proof fn lemma_recv_split(c: ConnView, x: Seq<u8>, y: Seq<u8>, now: u64, ts: Seq<u8>)
    requires
        recv_spec(ConnView { rbuf: c.rbuf + x, ..c }, now, ts, Seq::empty()).1 == Ok::<
            Option<DisconnectReason>,
            Error,
        >(None),
    ensures
        ({
            let (c1, r1, a1) = recv_spec(ConnView { rbuf: c.rbuf + x, ..c }, now, ts, Seq::empty());
            let (c2, r2, a2) = recv_spec(ConnView { rbuf: c1.rbuf + y, ..c1 }, now, ts, Seq::empty());
            recv_spec(ConnView { rbuf: c.rbuf + x + y, ..c }, now, ts, Seq::empty()) == (
                c2,
                r2,
                a1 + a2,
            )
        }),
{
    let cx = ConnView { rbuf: c.rbuf + x, ..c };
    lemma_recv_extend(cx, y, now, ts, Seq::empty());
    let (c1, r1, a1) = recv_spec(cx, now, ts, Seq::empty());
    lemma_recv_app_prefix(ConnView { rbuf: c1.rbuf + y, ..c1 }, now, ts, a1);
    assert(ConnView { rbuf: cx.rbuf + y, ..cx } == ConnView { rbuf: c.rbuf + x + y, ..c });
}

/// What the clock reaching `now` gives: the session's timers fire, its
/// events are taken and the admin messages it queued encoded.
pub open spec fn timeout_spec(c: ConnView, now: u64, ts: Seq<u8>) -> (
    ConnView,
    Result<Option<DisconnectReason>, Error>,
) {
    let s1 = step_timeout(c.session, now);
    let e = encode_all(drained(s1), c.cfg, c.journal, c.wcap, now, ts);
    (
        ConnView { session: e.0, out: c.out + e.1, ..c },
        if e.2 {
            Ok(last_reason(s1.events))
        } else {
            Err(Error::FrameTooLarge(c.wcap as usize))
        },
    )
}

/// The connection after encoding what `s` has pending, and the outcome.
pub open spec fn send_admin_spec(c: ConnView, s: SessionView, now: u64, ts: Seq<u8>) -> (
    ConnView,
    Result<(), Error>,
) {
    let e = encode_all(s, c.cfg, c.journal, c.wcap, now, ts);
    (
        ConnView { session: e.0, out: c.out + e.1, ..c },
        if e.2 {
            Ok(())
        } else {
            Err(Error::FrameTooLarge(c.wcap as usize))
        },
    )
}

/// What a batch of received bytes gave: the application frames, in order,
/// and how the connection fared.
pub struct Received {
    /// `Some` once the session has ended, with the reason.
    pub result: Result<Option<DisconnectReason>, Error>,
    /// Application frames received, to hand to the application in order.
    pub app: Vec<Vec<u8>>,
}

/// The frames of `v` as byte sequences.
pub open spec fn frames_view(v: Seq<Vec<u8>>) -> Seq<Seq<u8>> {
    v.map_values(|f: Vec<u8>| f@)
}

/// A FIX connection without its byte stream: the session, the outbound
/// journal, the bytes received but not yet handled, and the bytes waiting to
/// be written. The caller reads from the stream into [`recv`](Self::recv)
/// and writes what [`flush`](Self::flush) hands out.
pub struct FixConnection<'a> {
    session: Session<'a>,
    journal: FixJournal,
    rbuf: Vec<u8>,
    rcap: usize,
    out: Vec<u8>,
    wcap: usize,
}

impl<'a> View for FixConnection<'a> {
    type V = ConnView;

    closed spec fn view(&self) -> ConnView {
        ConnView {
            session: self.session@,
            cfg: self.session.cfg(),
            journal: self.journal@,
            rbuf: self.rbuf@,
            rcap: self.rcap as nat,
            out: self.out@,
            wcap: self.wcap as nat,
        }
    }
}

fn push_prefix(out: &mut Vec<u8>, src: &Vec<u8>, n: usize)
    requires
        n <= src@.len(),
    ensures
        final(out)@ == old(out)@ + src@.subrange(0, n as int),
{
    let mut i: usize = 0;
    while i < n
        invariant
            0 <= i <= n <= src@.len(),
            out@ == old(out)@ + src@.subrange(0, i as int),
        decreases n - i,
    {
        out.push(src[i]);
        proof {
            assert(src@.subrange(0, i as int + 1) =~= src@.subrange(0, i as int).push(src@[i as int]));
        }
        i = i + 1;
    }
}

impl FixConnectionBuilder {
    /// A connection over `session` and `journal` with this builder's buffer
    /// sizes.
    pub fn accept<'a>(self, session: Session<'a>, journal: FixJournal) -> (r: FixConnection<'a>)
        ensures
            r@ == (ConnView {
                session: session@,
                cfg: session.cfg(),
                journal: journal@,
                rbuf: Seq::empty(),
                rcap: self@.reader_cap as nat,
                out: Seq::empty(),
                wcap: self@.writer_cap as nat,
            }),
            journal.wf() ==> r.wf(),
    {
        FixConnection {
            session,
            journal,
            rbuf: Vec::new(),
            rcap: self.reader_cap,
            out: Vec::new(),
            wcap: self.writer_cap,
        }
    }
}

impl<'a> FixConnection<'a> {
    /// The connection's invariant: its journal's.
    pub closed spec fn wf(&self) -> bool {
        self.journal.wf()
    }

    /// The session.
    pub closed spec fn session(&self) -> Session<'a> {
        self.session
    }

    /// The default settings: 64 KiB buffers, `TCP_NODELAY`, no connect
    /// timeout.
    pub fn builder() -> (r: FixConnectionBuilder)
        ensures
            r@ == (BuilderView {
                reader_cap: 65536,
                writer_cap: 65536,
                nodelay: true,
                connect_timeout: None,
            }),
    {
        FixConnectionBuilder::default()
    }

    /// A connection over `session` and `journal` with 64 KiB buffers.
    pub fn from_parts(session: Session<'a>, journal: FixJournal) -> (r: Self)
        ensures
            r@ == (ConnView {
                session: session@,
                cfg: session.cfg(),
                journal: journal@,
                rbuf: Seq::empty(),
                rcap: 65536,
                out: Seq::empty(),
                wcap: 65536,
            }),
            journal.wf() ==> r.wf(),
    {
        Self::builder().accept(session, journal)
    }

    /// The session.
    pub fn state(&self) -> (r: &Session<'a>)
        ensures
            *r == self.session(),
            r@ == self@.session,
            r.cfg() == self@.cfg,
    {
        &self.session
    }

    /// The session, for the caller to drive directly.
    pub fn state_mut(&mut self) -> (r: &mut Session<'a>)
        ensures
            *r == old(self).session(),
            final(self).session() == *final(r),
            final(self)@ == (ConnView { session: final(r)@, cfg: final(r).cfg(), ..old(self)@ }),
            final(self).wf() == old(self).wf(),
    {
        &mut self.session
    }

    /// Room left in the read buffer: how many bytes to read from the stream
    /// for the next [`recv`](Self::recv).
    pub fn read_room(&self) -> (r: usize)
        ensures
            r == (if self@.rbuf.len() < self@.rcap {
                self@.rcap - self@.rbuf.len()
            } else {
                0
            }),
    {
        if self.rbuf.len() < self.rcap {
            self.rcap - self.rbuf.len()
        } else {
            0
        }
    }

    /// Reserves the sequence number of an application message sent at `now`.
    pub fn allocate_seq(&mut self, now: u64) -> (r: u32)
        ensures
            r == old(self)@.session.next_out,
            final(self)@ == (ConnView {
                session: SessionView {
                    next_out: wrap_inc(old(self)@.session.next_out),
                    last_sent: now,
                    ..old(self)@.session
                },
                ..old(self)@
            }),
            final(self).wf() == old(self).wf(),
    {
        self.session.allocate_seq(now)
    }

    /// Takes every event of the session: the reason of the last
    /// `Disconnected` one, and whether an application message was reported.
    fn take_events(&mut self) -> (r: (Option<DisconnectReason>, bool))
        ensures
            r.0 == last_reason(old(self)@.session.events),
            r.1 == has_app(old(self)@.session.events),
            final(self)@ == (ConnView { session: drained(old(self)@.session), ..old(self)@ }),
            final(self).journal == old(self).journal,
    {
        let ghost evs = self@.session.events;
        let ghost mut k: int = 0;
        let mut reason: Option<DisconnectReason> = None;
        let mut app = false;
        proof {
            assert(evs.subrange(0, evs.len() as int) =~= evs);
            assert(evs.subrange(0, 0) =~= Seq::<Event>::empty());
        }
        loop
            invariant
                0 <= k <= evs.len(),
                self@ == (ConnView {
                    session: SessionView {
                        events: evs.subrange(k, evs.len() as int),
                        ..old(self)@.session
                    },
                    ..old(self)@
                }),
                self.journal == old(self).journal,
                evs == old(self)@.session.events,
                reason == last_reason(evs.subrange(0, k)),
                app == has_app(evs.subrange(0, k)),
            decreases evs.len() - k,
        {
            let ghost pre = evs.subrange(0, k);
            match self.session.poll_event() {
                None => {
                    proof {
                        assert(evs.subrange(0, k) =~= evs);
                        assert(evs.subrange(k, evs.len() as int) =~= Seq::<Event>::empty());
                        assert(self@.session == drained(old(self)@.session));
                    }
                    return (reason, app);
                },
                Some(e) => {
                    proof {
                        let post = evs.subrange(0, k + 1);
                        assert(post =~= pre.push(e));
                        assert(post.drop_last() =~= pre);
                        assert(post.last() == e);
                        assert(forall|i: int| 0 <= i < pre.len() ==> post[i] == pre[i]);
                        if has_app(pre) {
                            let i = choose|i: int| 0 <= i < pre.len() && pre[i] is App;
                            assert(post[i] is App);
                        }
                        if e is App {
                            assert(post[pre.len() as int] is App);
                        }
                        assert(evs.subrange(k, evs.len() as int).drop_first() =~= evs.subrange(
                            k + 1,
                            evs.len() as int,
                        ));
                    }
                    match e {
                        Event::Disconnected { reason: why } => {
                            reason = Some(why);
                        },
                        Event::App { .. } => {
                            app = true;
                        },
                        _ => {},
                    }
                    proof {
                        k = k + 1;
                    }
                },
            }
        }
    }

    /// The bytes that answer a resend from `b` up to `n` (exclusive),
    /// stamped `ts` (see [`resend_from`]).
    fn resend_bytes(&self, b: u32, n: u32, ts: &[u8]) -> (r: Option<Vec<u8>>)
        requires
            self.wf(),
        ensures
            match r {
                Some(v) => resend_from(self@.journal, self@.cfg, self@.wcap, b, n, None, ts@)
                    == Some(v@),
                None => resend_from(self@.journal, self@.cfg, self@.wcap, b, n, None, ts@) is None,
            },
    {
        let ghost j = self@.journal;
        let ghost cfg = self@.cfg;
        let ghost cap = self@.wcap;
        let ghost total = resend_from(j, cfg, cap, b, n, None, ts@);
        let config = self.session.config();
        let begin = config.begin_string;
        let sender = config.sender_comp_id;
        let target = config.target_comp_id;
        let mut out: Vec<u8> = Vec::new();
        let mut hole: Option<u32> = None;
        let mut s: u32 = b;
        proof {
            lemma_after_empty(total);
        }
        while s < n
            invariant
                self.wf(),
                j == self@.journal,
                cfg == self@.cfg,
                cap == self@.wcap,
                begin@ == cfg.begin,
                sender@ == cfg.sender,
                target@ == cfg.target,
                total == resend_from(j, cfg, cap, b, n, None, ts@),
                total == after(out@, resend_from(j, cfg, cap, s, n, hole, ts@)),
            decreases n - s,
        {
            let ghost o0 = out@;
            match self.journal.resend(s, None) {
                ResendPlan::Replay(frame) => {
                    proof {
                        lemma_resend_replay(j, cfg, cap, s, n, hole, ts@, frame@, o0);
                    }
                    match hole {
                        Some(h) => {
                            let g = encode_gap_fill(begin, sender, target, ts, h, s);
                            proof {
                                lemma_gap_frame(cfg, ts@, h, s);
                            }
                            if g.len() > self.wcap {
                                return None;
                            }
                            push_bytes(&mut out, g.as_slice());
                        },
                        None => {},
                    }
                    let p = frame.payload();
                    let m: &[u8] = if p.len() >= 12 {
                        vstd::slice::slice_subrange(p, 12, p.len())
                    } else {
                        vstd::slice::slice_subrange(p, 0, 0)
                    };
                    proof {
                        assert(m@ =~= stored_msg(frame@.payload));
                    }
                    let f = reframe_app(m, ts, begin);
                    if f.len() > self.wcap {
                        return None;
                    }
                    push_bytes(&mut out, f.as_slice());
                    hole = None;
                },
                ResendPlan::GapFill { .. } => {
                    proof {
                        lemma_resend_gap(j, cfg, cap, s, n, hole, ts@);
                    }
                    if hole.is_none() {
                        hole = Some(s);
                    }
                },
            }
            s = s + 1;
        }
        proof {
            lemma_resend_end(j, cfg, cap, s, n, hole, ts@, out@);
        }
        match hole {
            Some(h) => {
                let g = encode_gap_fill(begin, sender, target, ts, h, n);
                proof {
                    lemma_gap_frame(cfg, ts@, h, n);
                }
                if g.len() > self.wcap {
                    return None;
                }
                push_bytes(&mut out, g.as_slice());
            },
            None => {},
        }
        Some(out)
    }

    /// Encodes every pending admin message into the outgoing bytes, stamped
    /// with the wall-clock time `unix_nanos`; a resend is answered from the
    /// journal.
    fn send_admin(&mut self, now: u64, unix_nanos: i128) -> (ok: bool)
        requires
            old(self).wf(),
        ensures
            ({
                let e = encode_all(
                    old(self)@.session,
                    old(self)@.cfg,
                    old(self)@.journal,
                    old(self)@.wcap,
                    now,
                    utc_timestamp_spec(unix_nanos as int),
                );
                &&& final(self)@ == (ConnView {
                    session: e.0,
                    out: old(self)@.out + e.1,
                    ..old(self)@
                })
                &&& ok == e.2
            }),
            final(self).journal == old(self).journal,
    {
        let ghost ts = utc_timestamp_spec(unix_nanos as int);
        let ghost j = self@.journal;
        let ghost target = encode_all(self@.session, self@.cfg, j, self@.wcap, now, ts);
        let mut ts_buf = [0u8;21];
        format_utc_timestamp(unix_nanos, &mut ts_buf);
        let ts_bytes: &[u8] = vstd::array::array_as_slice(&ts_buf);
        let mut scratch: Vec<u8> = vec![0u8; self.wcap];
        while self.session.has_pending()
            invariant
                self.wf(),
                ts == utc_timestamp_spec(unix_nanos as int),
                ts_bytes@ == ts,
                scratch@.len() == self.wcap,
                self.journal == old(self).journal,
                j == self@.journal,
                self@.cfg == old(self)@.cfg,
                self@.wcap == old(self)@.wcap,
                self@ == (ConnView { session: self@.session, out: self@.out, ..old(self)@ }),
                target == encode_all(old(self)@.session, old(self)@.cfg, j, old(self)@.wcap, now, ts),
                target.0 == encode_all(self@.session, self@.cfg, j, self@.wcap, now, ts).0,
                target.2 == encode_all(self@.session, self@.cfg, j, self@.wcap, now, ts).2,
                old(self)@.out + target.1 == self@.out + encode_all(
                    self@.session,
                    self@.cfg,
                    j,
                    self@.wcap,
                    now,
                    ts,
                ).1,
            decreases self@.session.pending.len(),
        {
            let ghost v = self@.session;
            let ghost out0 = self@.out;
            match self.session.resend_due() {
                Some((b, n)) => {
                    match self.resend_bytes(b, n, ts_bytes) {
                        Some(bytes) => {
                            let ghost f = bytes@;
                            push_bytes(&mut self.out, bytes.as_slice());
                            self.session.resend_sent(now);
                            proof {
                                let e1 = encode_all(self@.session, self@.cfg, j, self@.wcap, now, ts);
                                assert(encode_all(v, self@.cfg, j, self@.wcap, now, ts) == (e1.0, f + e1.1, e1.2));
                                assert(out0 + (f + e1.1) =~= (out0 + f) + e1.1);
                            }
                        },
                        None => {
                            proof {
                                assert(old(self)@.out + target.1 =~= self@.out);
                            }
                            return false;
                        },
                    }
                },
                None => {
                    match self.session.encode_pending(scratch.as_mut_slice(), now, unix_nanos) {
                        Some(n) => {
                            let ghost f = admin_bytes(v.pending[0], self@.cfg, v.next_out, ts);
                            push_prefix(&mut self.out, &scratch, n);
                            proof {
                                reveal(admin_bytes);
                                assert(self@.out =~= out0 + f);
                                let e1 = encode_all(self@.session, self@.cfg, j, self@.wcap, now, ts);
                                assert(encode_all(v, self@.cfg, j, self@.wcap, now, ts) == (e1.0, f + e1.1, e1.2));
                                assert(out0 + (f + e1.1) =~= (out0 + f) + e1.1);
                            }
                        },
                        None => {
                            self.session.discard_pending(now);
                            proof {
                                reveal(admin_bytes);
                                let e1 = encode_all(self@.session, self@.cfg, j, self@.wcap, now, ts);
                                assert(encode_all(v, self@.cfg, j, self@.wcap, now, ts) == (
                                    e1.0,
                                    Seq::<u8>::empty() + e1.1,
                                    e1.2,
                                ));
                                assert(Seq::<u8>::empty() + e1.1 =~= e1.1);
                            }
                        },
                    }
                },
            }
        }
        proof {
            assert(old(self)@.out + target.1 =~= self@.out);
        }
        true
    }

    /// Hands one complete inbound frame to the session, takes its events and
    /// encodes the admin messages it queued: the reason of the last
    /// `Disconnected` event, whether an application message was reported, and
    /// whether every admin frame fit.
    fn handle_frame(&mut self, frame: &[u8], now: u64, unix_nanos: i128) -> (r: (
        Option<DisconnectReason>,
        bool,
        bool,
    ))
        requires
            old(self).wf(),
        ensures
            ({
                let s1 = after_frame(old(self)@.session, old(self)@.cfg, frame@, now);
                let e = encode_all(
                    drained(s1),
                    old(self)@.cfg,
                    old(self)@.journal,
                    old(self)@.wcap,
                    now,
                    utc_timestamp_spec(unix_nanos as int),
                );
                &&& final(self)@ == (ConnView {
                    session: e.0,
                    out: old(self)@.out + e.1,
                    ..old(self)@
                })
                &&& r == (last_reason(s1.events), has_app(s1.events), e.2)
            }),
            final(self).journal == old(self).journal,
    {
        if self.session.comp_ids_match(frame) {
            self.session.handle_message(frame, now);
        } else {
            self.session.on_comp_id_mismatch();
        }
        proof {
            reveal(after_frame);
        }
        let (reason, is_app) = self.take_events();
        let ok = self.send_admin(now, unix_nanos);
        (reason, is_app, ok)
    }

    /// Takes the complete frame at the front of the read buffer, if there is
    /// one, and handles it (see [`handle_frame`](Self::handle_frame)).
    fn step_front(&mut self, now: u64, unix_nanos: i128) -> (r: Option<
        (Vec<u8>, Option<DisconnectReason>, bool, bool),
    >)
        requires
            old(self).wf(),
        ensures
            final(self).journal == old(self).journal,
            match frame_len_spec(old(self)@.rbuf) {
                None => r.is_none() && final(self)@ == old(self)@,
                Some(n) => r matches Some((frame, reason, is_app, ok)) && {
                    let c = old(self)@;
                    let fr = c.rbuf.subrange(0, n);
                    let s1 = after_frame(c.session, c.cfg, fr, now);
                    let e = encode_all(
                        drained(s1),
                        c.cfg,
                        c.journal,
                        c.wcap,
                        now,
                        utc_timestamp_spec(unix_nanos as int),
                    );
                    &&& frame@ == fr
                    &&& final(self)@ == (ConnView {
                        session: e.0,
                        rbuf: c.rbuf.subrange(n, c.rbuf.len() as int),
                        out: c.out + e.1,
                        ..c
                    })
                    &&& reason == last_reason(s1.events)
                    &&& is_app == has_app(s1.events)
                    &&& ok == e.2
                },
            },
    {
        let buffered: usize = self.rbuf.len();
        proof {
            lemma_frame_len_bounds(self@.rbuf);
            assert(self@.rbuf.len() == buffered);
        }
        match complete_frame_len(self.rbuf.as_slice()) {
            Some(n) => {
                let ghost c = self@;
                let mut frame = self.rbuf.split_off(n);
                core::mem::swap(&mut frame, &mut self.rbuf);
                proof {
                    assert(frame@ == c.rbuf.subrange(0, n as int));
                    assert(self@ == ConnView {
                        rbuf: c.rbuf.subrange(n as int, c.rbuf.len() as int),
                        ..c
                    });
                }
                let (reason, is_app, ok) = self.handle_frame(frame.as_slice(), now, unix_nanos);
                proof {
                    assert(frame_len_spec(c.rbuf) == Some(n as int));
                }
                Some((frame, reason, is_app, ok))
            },
            None => None,
        }
    }

    /// Feeds bytes read from the stream at `now` (monotonic nanoseconds;
    /// `unix_nanos` is the wall-clock time stamped on replies): handles every
    /// complete frame in turn until the session ends. Inbound bytes that fill
    /// the read buffer without a complete frame are an error.
    pub fn recv(&mut self, now: u64, input: &[u8], unix_nanos: i128) -> (r: Received)
        requires
            old(self).wf(),
        ensures
            ({
                let (c, res, app) = recv_spec(
                    ConnView { rbuf: old(self)@.rbuf + input@, ..old(self)@ },
                    now,
                    utc_timestamp_spec(unix_nanos as int),
                    Seq::empty(),
                );
                &&& final(self)@ == c
                &&& r.result == res
                &&& frames_view(r.app@) == app
            }),
            final(self).wf() == old(self).wf(),
    {
        let ghost ts = utc_timestamp_spec(unix_nanos as int);
        push_bytes(&mut self.rbuf, input);
        let ghost target = recv_spec(self@, now, ts, Seq::empty());
        let mut app: Vec<Vec<u8>> = Vec::new();
        proof {
            assert(frames_view(app@) =~= Seq::<Seq<u8>>::empty());
        }
        loop
            invariant
                self.wf(),
                ts == utc_timestamp_spec(unix_nanos as int),
                self.journal == old(self).journal,
                target == recv_spec(
                    ConnView { rbuf: old(self)@.rbuf + input@, ..old(self)@ },
                    now,
                    ts,
                    Seq::empty(),
                ),
                recv_spec(self@, now, ts, frames_view(app@)) == target,
            decreases self@.rbuf.len(),
        {
            let ghost c0 = self@;
            let ghost a0 = frames_view(app@);
            proof {
                lemma_frame_len_bounds(self@.rbuf);
            }
            match self.step_front(now, unix_nanos) {
                Some((frame, reason, is_app, ok)) => {
                    let ghost n: int = frame@.len() as int;
                    let ghost fr = c0.rbuf.subrange(0, n);
                    proof {
                        lemma_recv_frame(c0, now, ts, a0, n);
                    }
                    if !ok {
                        return Received { result: Err(Error::FrameTooLarge(self.wcap)), app };
                    }
                    if is_app {
                        app.push(frame);
                        proof {
                            assert(frames_view(app@) =~= a0.push(fr));
                        }
                    }
                    match reason {
                        Some(_) => {
                            return Received { result: Ok(reason), app };
                        },
                        None => {},
                    }
                },
                None => {
                    if self.rbuf.len() >= self.rcap {
                        return Received {
                            result: Err(Error::FrameTooLarge(self.rbuf.len())),
                            app,
                        };
                    }
                    return Received { result: Ok(None), app };
                },
            }
        }
    }

    /// The clock reached `now` with nothing received: fires the session's
    /// timers and encodes what they queued. `Some` once the session has
    /// ended, with the reason.
    pub fn on_timeout(&mut self, now: u64, unix_nanos: i128) -> (r: Result<
        Option<DisconnectReason>,
        Error,
    >)
        requires
            old(self).wf(),
        ensures
            (final(self)@, r) == timeout_spec(
                old(self)@,
                now,
                utc_timestamp_spec(unix_nanos as int),
            ),
            final(self).wf() == old(self).wf(),
    {
        self.session.handle_timeout(now);
        let (reason, _) = self.take_events();
        if self.send_admin(now, unix_nanos) {
            Ok(reason)
        } else {
            Err(Error::FrameTooLarge(self.wcap))
        }
    }

    /// Initiator side: starts the logon (see [`Session::connect`]) and
    /// encodes the Logon.
    pub fn connect(&mut self, now: u64, unix_nanos: i128) -> (r: Result<(), Error>)
        requires
            old(self).wf(),
        ensures
            (final(self)@, r) == send_admin_spec(
                old(self)@,
                connect_spec(old(self)@.session, old(self)@.cfg, now),
                now,
                utc_timestamp_spec(unix_nanos as int),
            ),
            final(self).wf() == old(self).wf(),
    {
        self.session.connect(now);
        if self.send_admin(now, unix_nanos) {
            Ok(())
        } else {
            Err(Error::FrameTooLarge(self.wcap))
        }
    }

    /// Starts a logout (see [`Session::logout`]) and encodes the Logout.
    pub fn logout(&mut self, now: u64, unix_nanos: i128) -> (r: Result<(), Error>)
        requires
            old(self).wf(),
        ensures
            (final(self)@, r) == send_admin_spec(
                old(self)@,
                logout_spec(old(self)@.session, now),
                now,
                utc_timestamp_spec(unix_nanos as int),
            ),
            final(self).wf() == old(self).wf(),
    {
        self.session.logout(now);
        if self.send_admin(now, unix_nanos) {
            Ok(())
        } else {
            Err(Error::FrameTooLarge(self.wcap))
        }
    }

    /// Whether the session still expects input.
    pub fn wants_read(&self) -> (r: bool)
        ensures
            r == (self@.session.state != State::Disconnected),
    {
        self.session.state() != State::Disconnected
    }

    /// Whether bytes are waiting to be written.
    pub fn wants_write(&self) -> (r: bool)
        ensures
            r == (self@.out.len() > 0),
    {
        self.out.len() > 0
    }

    /// Hands out every byte waiting to be written, in order.
    pub fn flush(&mut self) -> (r: Vec<u8>)
        ensures
            r@ == old(self)@.out,
            final(self)@ == (ConnView { out: Seq::empty(), ..old(self)@ }),
            final(self).wf() == old(self).wf(),
    {
        let mut taken: Vec<u8> = Vec::new();
        core::mem::swap(&mut taken, &mut self.out);
        proof {
            assert(self@.out =~= Seq::<u8>::empty());
        }
        taken
    }

    /// Journals the application frame `frame`, sent with sequence number
    /// `seq` at `timestamp`, and queues it for writing.
    pub fn send_app(&mut self, seq: u32, timestamp: u64, frame: &[u8]) -> (r: Result<(), Error>)
        requires
            old(self).wf(),
            (old(self)@.journal.log.epoch + 2) * old(self)@.journal.log.size <= u64::MAX,
        ensures
            final(self).wf(),
            match append_spec(old(self)@.journal.log, 0, stored_payload(seq, timestamp, frame@)) {
                Err(e) => r == Err::<(), Error>(Error::Journal(e)) && final(self)@ == old(self)@,
                Ok((o, w)) => r is Ok && final(self)@ == (ConnView {
                    journal: JournalView {
                        log: w,
                        offsets: old(self)@.journal.offsets.update(
                            window_slot(seq, old(self)@.journal.window),
                            Some(o),
                        ),
                        next_outbound: wrap_inc(seq),
                        ..old(self)@.journal
                    },
                    out: old(self)@.out + frame@,
                    ..old(self)@
                }),
            },
    {
        match self.journal.store(seq, timestamp, frame) {
            Ok(()) => {
                push_bytes(&mut self.out, frame);
                Ok(())
            },
            Err(e) => Err(Error::Journal(e)),
        }
    }

    /// Cleans the journal's standby segment so that the next rotation of its
    /// log goes through (see [`FixJournal::clean_standby`]).
    pub fn clean_standby(&mut self)
        requires
            old(self).wf(),
        ensures
            final(self).wf(),
            final(self)@ == (ConnView {
                journal: JournalView {
                    log: standby_cleaned(old(self)@.journal.log),
                    ..old(self)@.journal
                },
                ..old(self)@
            }),
    {
        self.journal.clean_standby();
    }

    /// Whether the journal's standby segment is ready for the next rotation.
    pub fn standby_ready(&self) -> (r: bool)
        ensures
            r == self@.journal.log.ready,
    {
        self.journal.standby_ready()
    }

    /// Whether the journal still has room for a rotation, as
    /// [`send_app`](Self::send_app) requires.
    pub fn has_journal_room(&self) -> (r: bool)
        requires
            self.wf(),
        ensures
            r == ((self@.journal.log.epoch + 2) * self@.journal.log.size <= u64::MAX),
    {
        self.journal.has_position_room()
    }
}

} // verus!
