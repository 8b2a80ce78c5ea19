use vstd::prelude::*;

use crate::fix::codec::{
    all_digits, body_bytes, bool_of, checksum_ok, dec, fields_view, first_with_tag, frame_bytes,
    frame_fields, lemma_dec_digits, lemma_frame_checksum_ok, lemma_frame_fields_read_back, no_soh,
    parse_fix_bool, parse_fix_uint, tag_slice, tag_value, uint_of, values_no_soh, SOH,
};
use crate::fix::dict::{byte_vec, dec_vec, push_field_value, write_admin_frame, AdminHeader};
use crate::fix::timestamp::{format_utc_timestamp, utc_timestamp_spec};

verus! {

/// Nanoseconds in a second.
pub const NANOS: u64 = 1_000_000_000;

/// Session state.
#[derive(Clone, Copy, Debug, PartialEq, Eq, Structural)]
pub enum State {
    /// No session: only an inbound Logon (acceptor) or `connect` starts one.
    Disconnected,
    /// Logon sent, waiting for the counterparty's Logon.
    LogonSent,
    /// Established and in sequence.
    Active,
    /// Established, a ResendRequest is outstanding for a detected gap.
    Resending,
    /// Logout sent, waiting for the counterparty's Logout.
    LogoutPending,
}

/// Why a session ended.
#[derive(Clone, Copy, Debug, PartialEq, Eq, Structural)]
pub enum DisconnectReason {
    Logout,
    LogoutTimeout,
    LogonTimeout,
    TestRequestTimeout,
    SeqNumTooLow,
    CompIdMismatch,
}

/// What the session reports to its caller.
#[derive(Clone, Copy, Debug, PartialEq, Eq, Structural)]
pub enum Event {
    Established { heart_bt_int_s: u32 },
    App { seq_num: u32, poss_dup: bool },
    Disconnected { reason: DisconnectReason },
    ResendRange { begin: u32, end: u32 },
    SequenceReset { new_seq: u32 },
    RejectReceived { ref_seq_num: u32 },
}

/// An admin message waiting to be encoded.
#[derive(Clone, Debug)]
pub enum AdminMsg {
    Logon { heart_bt_int_s: u32, reset: bool },
    Logout,
    Heartbeat { echo: Option<Vec<u8>> },
    TestRequest { id: u64 },
    ResendRequest { begin: u32 },
    /// The answer to a resend request for `seq` up to `new_seq` (exclusive):
    /// a gap fill over the range, which a connection with a journal replaces
    /// by the messages it still holds and gap fills over the rest.
    GapFill { seq: u32, new_seq: u32 },
}

/// Abstract value of an [`AdminMsg`].
pub enum AdminView {
    Logon { heart_bt_int_s: u32, reset: bool },
    Logout,
    Heartbeat { echo: Option<Seq<u8>> },
    TestRequest { id: u64 },
    ResendRequest { begin: u32 },
    GapFill { seq: u32, new_seq: u32 },
}

impl View for AdminMsg {
    type V = AdminView;

    open spec fn view(&self) -> AdminView {
        match self {
            AdminMsg::Logon { heart_bt_int_s, reset } => AdminView::Logon {
                heart_bt_int_s: *heart_bt_int_s,
                reset: *reset,
            },
            AdminMsg::Logout => AdminView::Logout,
            AdminMsg::Heartbeat { echo } => AdminView::Heartbeat {
                echo: match echo {
                    Some(e) => Some(e@),
                    None => None,
                },
            },
            AdminMsg::TestRequest { id } => AdminView::TestRequest { id: *id },
            AdminMsg::ResendRequest { begin } => AdminView::ResendRequest { begin: *begin },
            AdminMsg::GapFill { seq, new_seq } => AdminView::GapFill { seq: *seq, new_seq: *new_seq },
        }
    }
}

/// Static session parameters. `heart_bt_int` is in nanoseconds.
pub struct SessionConfig<'a> {
    pub begin_string: &'a [u8],
    pub sender_comp_id: &'a [u8],
    pub target_comp_id: &'a [u8],
    pub heart_bt_int: u64,
}

/// Abstract session state; times are monotonic nanoseconds.
pub struct SessionView {
    pub state: State,
    pub next_in: u32,
    pub next_out: u32,
    pub hb_s: u32,
    pub hb_nanos: u64,
    pub last_sent: u64,
    pub last_recv: u64,
    pub deadline: u64,
    pub probe_at: Option<u64>,
    pub test_req_id: u64,
    pub resend_target: u32,
    pub events: Seq<Event>,
    pub pending: Seq<AdminView>,
}

/// Abstract value of a [`SessionConfig`].
pub struct ConfigView {
    pub begin: Seq<u8>,
    pub sender: Seq<u8>,
    pub target: Seq<u8>,
    pub hb_nanos: u64,
}

pub open spec fn sat_add(a: u64, b: u64) -> u64 {
    if a + b > u64::MAX {
        u64::MAX
    } else {
        (a + b) as u64
    }
}

pub open spec fn wrap_inc(x: u32) -> u32 {
    if x == u32::MAX {
        0
    } else {
        (x + 1) as u32
    }
}

/// Heartbeat interval in whole seconds, as sent in tag 108.
pub open spec fn hb_secs(hb_nanos: u64) -> u32 {
    if hb_nanos / NANOS > u32::MAX {
        u32::MAX
    } else {
        (hb_nanos / NANOS) as u32
    }
}

/// The session ends: state becomes `Disconnected`, the reason is reported,
/// and a Logout is queued when `send_logout`.
pub open spec fn disconnect(v: SessionView, reason: DisconnectReason, send_logout: bool) -> SessionView {
    SessionView {
        state: State::Disconnected,
        probe_at: None,
        events: v.events.push(Event::Disconnected { reason }),
        pending: if send_logout {
            v.pending.push(AdminView::Logout)
        } else {
            v.pending
        },
        ..v
    }
}

/// A gap up to `seq` was detected: request a resend of everything from the
/// next expected sequence number, unless one is already outstanding.
pub open spec fn request_resend(v: SessionView, seq: u32) -> SessionView {
    if v.state == State::Resending {
        SessionView {
            resend_target: if seq > v.resend_target {
                seq
            } else {
                v.resend_target
            },
            ..v
        }
    } else {
        SessionView {
            state: State::Resending,
            resend_target: seq,
            pending: v.pending.push(AdminView::ResendRequest { begin: v.next_in }),
            ..v
        }
    }
}

/// The resend is complete once the expected sequence number passes the gap.
pub open spec fn settle(v: SessionView) -> SessionView {
    if v.state == State::Resending && v.next_in > v.resend_target {
        SessionView { state: State::Active, ..v }
    } else {
        v
    }
}

pub open spec fn opt_uint(v: Option<Seq<u8>>) -> Option<u32> {
    match v {
        Some(b) => uint_of(b),
        None => None,
    }
}

pub open spec fn opt_bool(v: Option<Seq<u8>>) -> Option<bool> {
    match v {
        Some(b) => bool_of(b),
        None => None,
    }
}

pub open spec fn uint_or(v: Option<u32>, d: u32) -> u32 {
    match v {
        Some(x) => x,
        None => d,
    }
}

/// An inbound Logon while disconnected (acceptor) or while waiting for the
/// Logon answer (initiator).
pub open spec fn on_logon(v: SessionView, cfg: ConfigView, msg: Seq<u8>, seq: u32) -> SessionView {
    let hb = uint_or(opt_uint(tag_value(msg, 108)), hb_secs(cfg.hb_nanos));
    let reset = opt_bool(tag_value(msg, 141)) == Some(true);
    let acceptor = v.state == State::Disconnected;
    let v1 = if reset {
        SessionView {
            next_in: seq,
            next_out: if acceptor {
                1
            } else {
                v.next_out
            },
            ..v
        }
    } else {
        v
    };
    if seq < v1.next_in {
        if acceptor {
            v
        } else {
            disconnect(v1, DisconnectReason::SeqNumTooLow, true)
        }
    } else {
        let v2 = SessionView {
            state: State::Active,
            hb_s: hb,
            hb_nanos: (hb * NANOS) as u64,
            events: v1.events.push(Event::Established { heart_bt_int_s: hb }),
            pending: if acceptor {
                v1.pending.push(AdminView::Logon { heart_bt_int_s: hb, reset })
            } else {
                v1.pending
            },
            ..v1
        };
        if seq == v2.next_in {
            SessionView { next_in: wrap_inc(seq), ..v2 }
        } else {
            request_resend(v2, seq)
        }
    }
}

/// An in-sequence message of type `t` (the expected sequence number has
/// already been advanced past it).
pub open spec fn on_in_sequence(
    v: SessionView,
    msg: Seq<u8>,
    t: Seq<u8>,
    seq: u32,
    poss_dup: bool,
) -> SessionView {
    if t == seq![48u8] {
        v
    } else if t == seq![49u8] {
        SessionView {
            pending: v.pending.push(AdminView::Heartbeat { echo: tag_value(msg, 112) }),
            ..v
        }
    } else if t == seq![50u8] {
        let b = uint_or(opt_uint(tag_value(msg, 7)), 0);
        let e = uint_or(opt_uint(tag_value(msg, 16)), 0);
        SessionView {
            events: v.events.push(Event::ResendRange { begin: b, end: e }),
            pending: v.pending.push(
                AdminView::GapFill {
                    seq: b,
                    new_seq: if e == 0 {
                        v.next_out
                    } else {
                        wrap_inc(e)
                    },
                },
            ),
            ..v
        }
    } else if t == seq![51u8] {
        SessionView {
            events: v.events.push(
                Event::RejectReceived { ref_seq_num: uint_or(opt_uint(tag_value(msg, 45)), 0) },
            ),
            ..v
        }
    } else if t == seq![52u8] {
        let n = uint_or(opt_uint(tag_value(msg, 36)), 0);
        SessionView {
            next_in: if n > v.next_in {
                n
            } else {
                v.next_in
            },
            events: v.events.push(Event::SequenceReset { new_seq: n }),
            ..v
        }
    } else if t == seq![53u8] {
        disconnect(v, DisconnectReason::Logout, v.state != State::LogoutPending)
    } else if t == seq![65u8] {
        v
    } else {
        SessionView { events: v.events.push(Event::App { seq_num: seq, poss_dup }), ..v }
    }
}

/// A message whose comp IDs match, with sequence number `seq` and type `t`,
/// received at `now`.
pub open spec fn dispatch(
    v: SessionView,
    cfg: ConfigView,
    msg: Seq<u8>,
    t: Seq<u8>,
    seq: u32,
    now: u64,
) -> SessionView {
    let poss_dup = opt_bool(tag_value(msg, 43)) == Some(true);
    let v0 = SessionView { last_recv: now, probe_at: None, ..v };
    if t == seq![65u8] && (v.state == State::Disconnected || v.state == State::LogonSent) {
        on_logon(v0, cfg, msg, seq)
    } else if t == seq![52u8] && opt_bool(tag_value(msg, 123)) != Some(true) {
        let n = uint_or(opt_uint(tag_value(msg, 36)), 0);
        settle(
            SessionView {
                next_in: n,
                events: v0.events.push(Event::SequenceReset { new_seq: n }),
                ..v0
            },
        )
    } else if seq > v0.next_in {
        request_resend(v0, seq)
    } else if seq < v0.next_in {
        if poss_dup {
            v0
        } else {
            disconnect(v0, DisconnectReason::SeqNumTooLow, true)
        }
    } else {
        settle(on_in_sequence(SessionView { next_in: wrap_inc(seq), ..v0 }, msg, t, seq, poss_dup))
    }
}

/// The effect of an inbound message received at `now`.
pub open spec fn step_message(v: SessionView, cfg: ConfigView, msg: Seq<u8>, now: u64) -> SessionView {
    let mt = tag_value(msg, 35);
    let is_logon = mt == Some(seq![65u8]);
    if (v.state == State::Disconnected || v.state == State::LogonSent) && !is_logon {
        v
    } else if tag_value(msg, 49) != Some(cfg.target) || tag_value(msg, 56) != Some(cfg.sender) {
        if v.state == State::Disconnected {
            v
        } else {
            disconnect(v, DisconnectReason::CompIdMismatch, true)
        }
    } else {
        match (opt_uint(tag_value(msg, 34)), mt) {
            (Some(seq), Some(t)) => dispatch(v, cfg, msg, t, seq, now),
            _ => v,
        }
    }
}

/// Whether `msg` comes from the counterparty to this side: its
/// `SenderCompID` is the configured target and its `TargetCompID` the
/// configured sender.
pub open spec fn comp_ids_match(cfg: ConfigView, msg: Seq<u8>) -> bool {
    tag_value(msg, 49) == Some(cfg.target) && tag_value(msg, 56) == Some(cfg.sender)
}

/// A frame with the wrong comp IDs ends the session: the reason is reported,
/// and a Logout is sent unless there was no session to log out of.
pub open spec fn comp_id_mismatch_spec(v: SessionView) -> SessionView {
    disconnect(v, DisconnectReason::CompIdMismatch, v.state != State::Disconnected)
}

/// Initiator side: from `Disconnected`, a Logon is queued and its answer
/// awaited for one heartbeat interval; in any other state nothing changes.
pub open spec fn connect_spec(v: SessionView, cfg: ConfigView, now: u64) -> SessionView {
    if v.state == State::Disconnected {
        SessionView {
            state: State::LogonSent,
            hb_nanos: cfg.hb_nanos,
            hb_s: hb_secs(cfg.hb_nanos),
            deadline: sat_add(now, cfg.hb_nanos),
            last_recv: now,
            probe_at: None,
            pending: v.pending.push(
                AdminView::Logon { heart_bt_int_s: hb_secs(cfg.hb_nanos), reset: false },
            ),
            ..v
        }
    } else {
        v
    }
}

/// From an established session, a Logout is queued and its confirmation
/// awaited for one heartbeat interval; in any other state nothing changes.
pub open spec fn logout_spec(v: SessionView, now: u64) -> SessionView {
    if v.state == State::Active || v.state == State::Resending {
        SessionView {
            state: State::LogoutPending,
            deadline: sat_add(now, v.hb_nanos),
            pending: v.pending.push(AdminView::Logout),
            ..v
        }
    } else {
        v
    }
}

/// Whether a heartbeat without a test-request echo is already queued.
pub open spec fn heartbeat_queued(pending: Seq<AdminView>) -> bool {
    exists|i: int| 0 <= i < pending.len() && pending[i] == (AdminView::Heartbeat { echo: None })
}

/// Time at which the counterparty's silence triggers a TestRequest probe.
pub open spec fn probe_deadline(v: SessionView) -> u64 {
    sat_add(v.last_recv, sat_add(v.hb_nanos, v.hb_nanos / 5))
}

/// The effect of the clock reaching `now`.
pub open spec fn step_timeout(v: SessionView, now: u64) -> SessionView {
    match v.state {
        State::Disconnected => v,
        State::LogonSent => if now >= v.deadline {
            disconnect(v, DisconnectReason::LogonTimeout, false)
        } else {
            v
        },
        State::LogoutPending => if now >= v.deadline {
            disconnect(v, DisconnectReason::LogoutTimeout, false)
        } else {
            v
        },
        _ => {
            if v.probe_at is Some && now >= sat_add(v.probe_at->0, v.hb_nanos) {
                disconnect(v, DisconnectReason::TestRequestTimeout, true)
            } else {
                let v1 = if v.probe_at is None && now >= probe_deadline(v) {
                    SessionView {
                        pending: v.pending.push(AdminView::TestRequest { id: v.test_req_id }),
                        test_req_id: if v.test_req_id == u64::MAX {
                            0
                        } else {
                            (v.test_req_id + 1) as u64
                        },
                        probe_at: Some(now),
                        ..v
                    }
                } else {
                    v
                };
                if now >= sat_add(v1.last_sent, v1.hb_nanos) && !heartbeat_queued(v1.pending) {
                    SessionView {
                        pending: v1.pending.push(AdminView::Heartbeat { echo: None }),
                        ..v1
                    }
                } else {
                    v1
                }
            }
        },
    }
}

/// The earliest time at which `handle_timeout` has work to do.
pub open spec fn next_timeout_spec(v: SessionView) -> Option<u64> {
    match v.state {
        State::Disconnected => None,
        State::LogonSent => Some(v.deadline),
        State::LogoutPending => Some(v.deadline),
        _ => {
            let hb = sat_add(v.last_sent, v.hb_nanos);
            let probe = match v.probe_at {
                Some(p) => sat_add(p, v.hb_nanos),
                None => probe_deadline(v),
            };
            Some(
                if hb < probe {
                    hb
                } else {
                    probe
                },
            )
        },
    }
}

/// Message type of an admin message.
pub open spec fn admin_type(a: AdminView) -> Seq<u8> {
    match a {
        AdminView::Logon { .. } => seq![65u8],
        AdminView::Logout => seq![53u8],
        AdminView::Heartbeat { .. } => seq![48u8],
        AdminView::TestRequest { .. } => seq![49u8],
        AdminView::ResendRequest { .. } => seq![50u8],
        AdminView::GapFill { .. } => seq![52u8],
    }
}

/// Sequence number an admin message is sent with: a gap fill carries the
/// first sequence number it replaces, the others take the next outbound one.
pub open spec fn admin_seq(a: AdminView, next_out: u32) -> u32 {
    match a {
        AdminView::GapFill { seq, .. } => seq,
        _ => next_out,
    }
}

/// Body fields of an admin message after the standard header; a Logon
/// carries its heartbeat interval only.
pub open spec fn admin_extra(a: AdminView) -> Seq<(u32, Seq<u8>)> {
    match a {
        AdminView::Logon { heart_bt_int_s, .. } => seq![(108u32, dec(heart_bt_int_s as nat))],
        AdminView::Logout => Seq::empty(),
        AdminView::Heartbeat { echo } => match echo {
            Some(e) => seq![(112u32, e)],
            None => Seq::empty(),
        },
        AdminView::TestRequest { id } => seq![(112u32, dec(id as nat))],
        AdminView::ResendRequest { begin } => seq![(7u32, dec(begin as nat)), (16u32, seq![48u8])],
        AdminView::GapFill { new_seq, .. } => seq![
            (43u32, seq![89u8]),
            (123u32, seq![89u8]),
            (36u32, dec(new_seq as nat)),
        ],
    }
}

/// The resend range `(begin, end)` (end exclusive) that the oldest pending
/// admin message asks to answer, when it is a gap fill over a non-empty range.
pub open spec fn resend_head(v: SessionView) -> Option<(u32, u32)> {
    if v.pending.len() > 0 {
        match v.pending[0] {
            AdminView::GapFill { seq, new_seq } => if seq < new_seq {
                Some((seq, new_seq))
            } else {
                None
            },
            _ => None,
        }
    } else {
        None
    }
}

/// The complete frame of an admin message.
pub open spec fn admin_frame(a: AdminView, cfg: ConfigView, next_out: u32, ts: Seq<u8>) -> Seq<u8> {
    frame_bytes(
        cfg.begin,
        admin_type(a),
        seq![
            (34u32, dec(admin_seq(a, next_out) as nat)),
            (49u32, cfg.sender),
            (56u32, cfg.target),
            (52u32, ts),
        ] + admin_extra(a),
    )
}

/// Sans-IO FIX session: a state machine fed with inbound messages and clock
/// ticks, producing events and admin messages to send.
pub struct Session<'a> {
    config: SessionConfig<'a>,
    state: State,
    next_in: u32,
    next_out: u32,
    hb_s: u32,
    hb_nanos: u64,
    last_sent: u64,
    last_recv: u64,
    deadline: u64,
    probe_at: Option<u64>,
    test_req_id: u64,
    resend_target: u32,
    events: Vec<Event>,
    pending: Vec<AdminMsg>,
}

impl<'a> View for Session<'a> {
    type V = SessionView;

    closed spec fn view(&self) -> SessionView {
        SessionView {
            state: self.state,
            next_in: self.next_in,
            next_out: self.next_out,
            hb_s: self.hb_s,
            hb_nanos: self.hb_nanos,
            last_sent: self.last_sent,
            last_recv: self.last_recv,
            deadline: self.deadline,
            probe_at: self.probe_at,
            test_req_id: self.test_req_id,
            resend_target: self.resend_target,
            events: self.events@,
            pending: self.pending@.map_values(|a: AdminMsg| a@),
        }
    }
}

fn bytes_eq(a: &[u8], b: &[u8]) -> (r: bool)
    ensures
        r == (a@ == b@),
{
    if a.len() != b.len() {
        return false;
    }
    let mut i: usize = 0;
    while i < a.len()
        invariant
            0 <= i <= a@.len(),
            a@.len() == b@.len(),
            forall|k: int| 0 <= k < i ==> a@[k] == b@[k],
        decreases a@.len() - i,
    {
        if a[i] != b[i] {
            return false;
        }
        i = i + 1;
    }
    proof {
        assert(a@ =~= b@);
    }
    true
}

fn is_type(t: &[u8], c: u8) -> (r: bool)
    ensures
        r == (t@ == seq![c]),
{
    if t.len() == 1 && t[0] == c {
        proof {
            assert(t@ =~= seq![c]);
        }
        true
    } else {
        proof {
            if t@ == seq![c] {
                assert(t@.len() == 1);
            }
        }
        false
    }
}

fn tag_uint(msg: &[u8], tag: u32) -> (r: Option<u32>)
    ensures
        r == opt_uint(tag_value(msg@, tag)),
{
    match tag_slice(msg, tag) {
        None => None,
        Some(v) => match parse_fix_uint(v) {
            Ok(n) => Some(n),
            Err(_) => None,
        },
    }
}

fn tag_bool(msg: &[u8], tag: u32) -> (r: Option<bool>)
    ensures
        r == opt_bool(tag_value(msg@, tag)),
{
    match tag_slice(msg, tag) {
        None => None,
        Some(v) => match parse_fix_bool(v) {
            Ok(b) => Some(b),
            Err(_) => None,
        },
    }
}

fn copy_bytes(s: &[u8]) -> (r: Vec<u8>)
    ensures
        r@ == s@,
{
    let mut v: Vec<u8> = Vec::new();
    crate::fix::codec::push_bytes(&mut v, s);
    v
}

impl<'a> Session<'a> {
    /// The configuration as plain values.
    pub closed spec fn cfg(&self) -> ConfigView {
        ConfigView {
            begin: self.config.begin_string@,
            sender: self.config.sender_comp_id@,
            target: self.config.target_comp_id@,
            hb_nanos: self.config.heart_bt_int,
        }
    }

    /// A new session in the `Disconnected` state with both sequence numbers at 1.
    pub fn new(config: SessionConfig<'a>) -> (r: Self)
        ensures
            r.cfg() == (ConfigView {
                begin: config.begin_string@,
                sender: config.sender_comp_id@,
                target: config.target_comp_id@,
                hb_nanos: config.heart_bt_int,
            }),
            r@ == (SessionView {
                state: State::Disconnected,
                next_in: 1,
                next_out: 1,
                hb_s: hb_secs(config.heart_bt_int),
                hb_nanos: config.heart_bt_int,
                last_sent: 0,
                last_recv: 0,
                deadline: 0,
                probe_at: None,
                test_req_id: 1,
                resend_target: 0,
                events: Seq::empty(),
                pending: Seq::empty(),
            }),
    {
        let hb = config.heart_bt_int;
        let hb_s: u32 = if hb / NANOS > u32::MAX as u64 {
            u32::MAX
        } else {
            (hb / NANOS) as u32
        };
        let r = Session {
            config,
            state: State::Disconnected,
            next_in: 1,
            next_out: 1,
            hb_s,
            hb_nanos: hb,
            last_sent: 0,
            last_recv: 0,
            deadline: 0,
            probe_at: None,
            test_req_id: 1,
            resend_target: 0,
            events: Vec::new(),
            pending: Vec::new(),
        };
        proof {
            assert(r@.pending =~= Seq::<AdminView>::empty());
        }
        r
    }

    /// Current state.
    pub fn state(&self) -> (r: State)
        ensures
            r == self@.state,
    {
        self.state
    }

    /// Next sequence number expected from the counterparty.
    pub fn next_inbound_seq(&self) -> (r: u32)
        ensures
            r == self@.next_in,
    {
        self.next_in
    }

    /// Next sequence number this side sends.
    pub fn next_outbound_seq(&self) -> (r: u32)
        ensures
            r == self@.next_out,
    {
        self.next_out
    }

    /// Whether admin messages are waiting to be encoded.
    pub fn has_pending(&self) -> (r: bool)
        ensures
            r == (self@.pending.len() > 0),
    {
        self.pending.len() > 0
    }

    /// Drops the oldest pending admin message unsent (its frame did not fit):
    /// the session moves on as if it had been sent at `now`.
    pub fn discard_pending(&mut self, now: u64)
        requires
            old(self)@.pending.len() > 0,
        ensures
            final(self)@ == (SessionView {
                pending: old(self)@.pending.drop_first(),
                next_out: if old(self)@.pending[0] is GapFill {
                    old(self)@.next_out
                } else {
                    wrap_inc(old(self)@.next_out)
                },
                last_sent: now,
                ..old(self)@
            }),
            final(self).cfg() == old(self).cfg(),
    {
        let is_gap = match &self.pending[0] {
            AdminMsg::GapFill { .. } => true,
            _ => false,
        };
        self.pending.remove(0);
        if !is_gap {
            self.next_out = if self.next_out == u32::MAX {
                0
            } else {
                self.next_out + 1
            };
        }
        self.last_sent = now;
        proof {
            assert(self@.pending =~= old(self)@.pending.drop_first());
        }
    }

    /// The session's configuration.
    pub fn config(&self) -> (r: &SessionConfig<'a>)
        ensures
            r.begin_string@ == self.cfg().begin,
            r.sender_comp_id@ == self.cfg().sender,
            r.target_comp_id@ == self.cfg().target,
            r.heart_bt_int == self.cfg().hb_nanos,
    {
        &self.config
    }

    /// The resend range the oldest pending admin message asks to answer
    /// (see [`resend_head`]).
    pub fn resend_due(&self) -> (r: Option<(u32, u32)>)
        ensures
            r == resend_head(self@),
    {
        if self.pending.len() == 0 {
            return None;
        }
        match &self.pending[0] {
            AdminMsg::GapFill { seq, new_seq } => {
                if *seq < *new_seq {
                    Some((*seq, *new_seq))
                } else {
                    None
                }
            },
            _ => None,
        }
    }

    /// Records that the resend the oldest pending admin message asked for
    /// was sent at `now`: the message is taken; the outbound sequence number
    /// stays, as the resent messages keep their own numbers.
    pub fn resend_sent(&mut self, now: u64)
        requires
            resend_head(old(self)@) is Some,
        ensures
            final(self)@ == (SessionView {
                pending: old(self)@.pending.drop_first(),
                last_sent: now,
                ..old(self)@
            }),
            final(self).cfg() == old(self).cfg(),
    {
        self.pending.remove(0);
        self.last_sent = now;
        proof {
            assert(self@.pending =~= old(self)@.pending.drop_first());
        }
    }

    /// Takes the oldest unreported event.
    pub fn poll_event(&mut self) -> (r: Option<Event>)
        ensures
            old(self)@.events.len() == 0 ==> r.is_none() && final(self)@ == old(self)@,
            old(self)@.events.len() > 0 ==> r == Some(old(self)@.events[0]) && final(self)@ == (
            SessionView { events: old(self)@.events.drop_first(), ..old(self)@ }),
            final(self).cfg() == old(self).cfg(),
    {
        if self.events.len() == 0 {
            return None;
        }
        let e = self.events.remove(0);
        proof {
            assert(self@.events =~= old(self)@.events.drop_first());
        }
        Some(e)
    }

    /// Reserves the next outbound sequence number for an application message
    /// sent at `now`.
    pub fn allocate_seq(&mut self, now: u64) -> (r: u32)
        ensures
            r == old(self)@.next_out,
            final(self)@ == (SessionView {
                next_out: wrap_inc(old(self)@.next_out),
                last_sent: now,
                ..old(self)@
            }),
            final(self).cfg() == old(self).cfg(),
    {
        let r = self.next_out;
        self.next_out = if r == u32::MAX {
            0
        } else {
            r + 1
        };
        self.last_sent = now;
        r
    }

    /// Initiator side: sends a Logon and waits one heartbeat interval for the
    /// answer. Does nothing unless disconnected.
    pub fn connect(&mut self, now: u64)
        ensures
            final(self).cfg() == old(self).cfg(),
            final(self)@ == connect_spec(old(self)@, old(self).cfg(), now),
    {
        if self.state != State::Disconnected {
            return ;
        }
        let hb = self.config.heart_bt_int;
        let hb_s = hb_secs_exec(hb);
        self.state = State::LogonSent;
        self.hb_nanos = hb;
        self.hb_s = hb_s;
        self.deadline = now.saturating_add(hb);
        self.last_recv = now;
        self.probe_at = None;
        self.pending.push(AdminMsg::Logon { heart_bt_int_s: hb_s, reset: false });
        proof {
            assert(self@.pending =~= old(self)@.pending.push(
                AdminView::Logon { heart_bt_int_s: hb_s, reset: false },
            ));
        }
    }

    /// Starts a logout from an established session: sends a Logout and waits
    /// one heartbeat interval for the confirmation.
    pub fn logout(&mut self, now: u64)
        ensures
            final(self).cfg() == old(self).cfg(),
            final(self)@ == logout_spec(old(self)@, now),
    {
        if self.state != State::Active && self.state != State::Resending {
            return ;
        }
        self.state = State::LogoutPending;
        self.deadline = now.saturating_add(self.hb_nanos);
        self.pending.push(AdminMsg::Logout);
        proof {
            assert(self@.pending =~= old(self)@.pending.push(AdminView::Logout));
        }
    }

    /// Earliest time at which [`handle_timeout`](Self::handle_timeout) has
    /// work to do, or `None` while disconnected.
    pub fn next_timeout(&self) -> (r: Option<u64>)
        ensures
            r == next_timeout_spec(self@),
            r is None <==> self@.state == State::Disconnected,
            forall|now: u64|
                (r is None || (r matches Some(t) && now < t)) ==> #[trigger] step_timeout(
                    self@,
                    now,
                ) == self@,
            timers_running(self@) ==> (r matches Some(t) && first_due(self@, t as int)),
            self@.state == State::LogonSent || self@.state == State::LogoutPending ==> (r matches Some(
                t,
            ) && step_timeout(self@, t).state == State::Disconnected),
    {
        proof {
            lemma_quiet_until_next_timeout(self@);
        }
        match self.state {
            State::Disconnected => None,
            State::LogonSent => Some(self.deadline),
            State::LogoutPending => Some(self.deadline),
            _ => {
                let hb = self.last_sent.saturating_add(self.hb_nanos);
                let probe = match self.probe_at {
                    Some(p) => p.saturating_add(self.hb_nanos),
                    None => self.last_recv.saturating_add(
                        self.hb_nanos.saturating_add(self.hb_nanos / 5),
                    ),
                };
                Some(
                    if hb < probe {
                        hb
                    } else {
                        probe
                    },
                )
            },
        }
    }

    fn do_disconnect(&mut self, reason: DisconnectReason, send_logout: bool)
        ensures
            final(self)@ == disconnect(old(self)@, reason, send_logout),
            final(self).cfg() == old(self).cfg(),
    {
        self.state = State::Disconnected;
        self.probe_at = None;
        self.events.push(Event::Disconnected { reason });
        if send_logout {
            self.pending.push(AdminMsg::Logout);
        }
        proof {
            assert(self@.pending =~= disconnect(old(self)@, reason, send_logout).pending);
        }
    }

    fn do_request_resend(&mut self, seq: u32)
        ensures
            final(self)@ == request_resend(old(self)@, seq),
            final(self).cfg() == old(self).cfg(),
    {
        if self.state == State::Resending {
            if seq > self.resend_target {
                self.resend_target = seq;
            }
        } else {
            self.state = State::Resending;
            self.resend_target = seq;
            self.pending.push(AdminMsg::ResendRequest { begin: self.next_in });
            proof {
                assert(self@.pending =~= request_resend(old(self)@, seq).pending);
            }
        }
    }

    fn do_settle(&mut self)
        ensures
            final(self)@ == settle(old(self)@),
            final(self).cfg() == old(self).cfg(),
    {
        if self.state == State::Resending && self.next_in > self.resend_target {
            self.state = State::Active;
        }
    }

    fn do_logon(&mut self, msg: &[u8], seq: u32)
        ensures
            final(self)@ == on_logon(old(self)@, old(self).cfg(), msg@, seq),
            final(self).cfg() == old(self).cfg(),
    {
        let hb = match tag_uint(msg, 108) {
            Some(h) => h,
            None => hb_secs_exec(self.config.heart_bt_int),
        };
        let reset = match tag_bool(msg, 141) {
            Some(b) => b,
            None => false,
        };
        let acceptor = self.state == State::Disconnected;
        if !reset && seq < self.next_in {
            if !acceptor {
                self.do_disconnect(DisconnectReason::SeqNumTooLow, true);
            }
            return ;
        }
        if reset {
            self.next_in = seq;
            if acceptor {
                self.next_out = 1;
            }
        }
        self.state = State::Active;
        self.hb_s = hb;
        self.hb_nanos = hb as u64 * NANOS;
        self.events.push(Event::Established { heart_bt_int_s: hb });
        if acceptor {
            self.pending.push(AdminMsg::Logon { heart_bt_int_s: hb, reset });
        }
        proof {
            let v = old(self)@;
            let v1 = if reset {
                SessionView {
                    next_in: seq,
                    next_out: if acceptor {
                        1
                    } else {
                        v.next_out
                    },
                    ..v
                }
            } else {
                v
            };
            assert(self@.pending =~= if acceptor {
                v1.pending.push(AdminView::Logon { heart_bt_int_s: hb, reset })
            } else {
                v1.pending
            });
        }
        if seq == self.next_in {
            self.next_in = if seq == u32::MAX {
                0
            } else {
                seq + 1
            };
        } else {
            self.do_request_resend(seq);
        }
    }

    fn do_in_sequence(&mut self, msg: &[u8], t: &[u8], seq: u32, poss_dup: bool)
        ensures
            final(self)@ == on_in_sequence(old(self)@, msg@, t@, seq, poss_dup),
            final(self).cfg() == old(self).cfg(),
    {
        if is_type(t, 48u8) {
        } else if is_type(t, 49u8) {
            let echo = match tag_slice(msg, 112) {
                Some(id) => Some(copy_bytes(id)),
                None => None,
            };
            self.pending.push(AdminMsg::Heartbeat { echo });
            proof {
                assert(self@.pending =~= old(self)@.pending.push(
                    AdminView::Heartbeat { echo: tag_value(msg@, 112) },
                ));
            }
        } else if is_type(t, 50u8) {
            let b = match tag_uint(msg, 7) {
                Some(x) => x,
                None => 0,
            };
            let e = match tag_uint(msg, 16) {
                Some(x) => x,
                None => 0,
            };
            self.events.push(Event::ResendRange { begin: b, end: e });
            let new_seq = if e == 0 {
                self.next_out
            } else if e == u32::MAX {
                0
            } else {
                e + 1
            };
            self.pending.push(AdminMsg::GapFill { seq: b, new_seq });
            proof {
                assert(self@.pending =~= old(self)@.pending.push(
                    AdminView::GapFill { seq: b, new_seq },
                ));
            }
        } else if is_type(t, 51u8) {
            let r = match tag_uint(msg, 45) {
                Some(x) => x,
                None => 0,
            };
            self.events.push(Event::RejectReceived { ref_seq_num: r });
        } else if is_type(t, 52u8) {
            let n = match tag_uint(msg, 36) {
                Some(x) => x,
                None => 0,
            };
            if n > self.next_in {
                self.next_in = n;
            }
            self.events.push(Event::SequenceReset { new_seq: n });
        } else if is_type(t, 53u8) {
            let send = self.state != State::LogoutPending;
            self.do_disconnect(DisconnectReason::Logout, send);
        } else if is_type(t, 65u8) {
        } else {
            self.events.push(Event::App { seq_num: seq, poss_dup });
        }
    }

    fn do_dispatch(&mut self, msg: &[u8], t: &[u8], seq: u32, now: u64)
        ensures
            final(self)@ == dispatch(old(self)@, old(self).cfg(), msg@, t@, seq, now),
            final(self).cfg() == old(self).cfg(),
    {
        let poss_dup = match tag_bool(msg, 43) {
            Some(b) => b,
            None => false,
        };
        let was = self.state;
        self.last_recv = now;
        self.probe_at = None;
        if is_type(t, 65u8) && (was == State::Disconnected || was == State::LogonSent) {
            self.do_logon(msg, seq);
            return ;
        }
        let gap_fill = match tag_bool(msg, 123) {
            Some(b) => b,
            None => false,
        };
        if is_type(t, 52u8) && !gap_fill {
            let n = match tag_uint(msg, 36) {
                Some(x) => x,
                None => 0,
            };
            self.next_in = n;
            self.events.push(Event::SequenceReset { new_seq: n });
            self.do_settle();
        } else if seq > self.next_in {
            self.do_request_resend(seq);
        } else if seq < self.next_in {
            if !poss_dup {
                self.do_disconnect(DisconnectReason::SeqNumTooLow, true);
            }
        } else {
            self.next_in = if seq == u32::MAX {
                0
            } else {
                seq + 1
            };
            self.do_in_sequence(msg, t, seq, poss_dup);
            self.do_settle();
        }
    }

    /// Whether `msg` carries this session's comp IDs, seen from the
    /// counterparty.
    pub fn comp_ids_match(&self, msg: &[u8]) -> (r: bool)
        ensures
            r == comp_ids_match(self.cfg(), msg@),
    {
        let sender_ok = match tag_slice(msg, 49) {
            Some(s) => bytes_eq(s, self.config.target_comp_id),
            None => false,
        };
        let target_ok = match tag_slice(msg, 56) {
            Some(s) => bytes_eq(s, self.config.sender_comp_id),
            None => false,
        };
        sender_ok && target_ok
    }

    /// Ends the session on a frame with the wrong comp IDs.
    pub fn on_comp_id_mismatch(&mut self)
        ensures
            final(self)@ == comp_id_mismatch_spec(old(self)@),
            final(self).cfg() == old(self).cfg(),
    {
        let send_logout = self.state != State::Disconnected;
        self.do_disconnect(DisconnectReason::CompIdMismatch, send_logout);
    }

    /// Feeds one inbound message (a complete frame) received at `now`.
    pub fn handle_message(&mut self, msg: &[u8], now: u64)
        ensures
            final(self)@ == step_message(old(self)@, old(self).cfg(), msg@, now),
            final(self).cfg() == old(self).cfg(),
    {
        let mt = tag_slice(msg, 35);
        let is_logon = match mt {
            Some(t) => is_type(t, 65u8),
            None => false,
        };
        if (self.state == State::Disconnected || self.state == State::LogonSent) && !is_logon {
            return ;
        }
        let sender_ok = match tag_slice(msg, 49) {
            Some(s) => bytes_eq(s, self.config.target_comp_id),
            None => false,
        };
        let target_ok = match tag_slice(msg, 56) {
            Some(s) => bytes_eq(s, self.config.sender_comp_id),
            None => false,
        };
        if !sender_ok || !target_ok {
            if self.state != State::Disconnected {
                self.do_disconnect(DisconnectReason::CompIdMismatch, true);
            }
            return ;
        }
        match (tag_uint(msg, 34), mt) {
            (Some(seq), Some(t)) => self.do_dispatch(msg, t, seq, now),
            _ => {},
        }
    }

    fn heartbeat_is_queued(&self) -> (r: bool)
        ensures
            r == heartbeat_queued(self@.pending),
    {
        let mut i: usize = 0;
        while i < self.pending.len()
            invariant
                0 <= i <= self.pending@.len(),
                forall|k: int|
                    0 <= k < i ==> self@.pending[k] != (AdminView::Heartbeat { echo: None }),
            decreases self.pending@.len() - i,
        {
            match &self.pending[i] {
                AdminMsg::Heartbeat { echo: None } => {
                    proof {
                        assert(self@.pending[i as int] == (AdminView::Heartbeat { echo: None }));
                    }
                    return true;
                },
                _ => {},
            }
            i = i + 1;
        }
        false
    }

    /// Advances the session clock to `now`: fires logon/logout timeouts,
    /// probes a silent counterparty with a TestRequest, disconnects when the
    /// probe goes unanswered for a heartbeat interval, and queues a Heartbeat
    /// when nothing was sent for a heartbeat interval.
    pub fn handle_timeout(&mut self, now: u64)
        ensures
            final(self)@ == step_timeout(old(self)@, now),
            final(self).cfg() == old(self).cfg(),
    {
        match self.state {
            State::Disconnected => {},
            State::LogonSent => {
                if now >= self.deadline {
                    self.do_disconnect(DisconnectReason::LogonTimeout, false);
                }
            },
            State::LogoutPending => {
                if now >= self.deadline {
                    self.do_disconnect(DisconnectReason::LogoutTimeout, false);
                }
            },
            _ => {
                let hb = self.hb_nanos;
                match self.probe_at {
                    Some(p) => {
                        if now >= p.saturating_add(hb) {
                            self.do_disconnect(DisconnectReason::TestRequestTimeout, true);
                            return ;
                        }
                    },
                    None => {},
                }
                let probe_due = self.last_recv.saturating_add(hb.saturating_add(hb / 5));
                if self.probe_at.is_none() && now >= probe_due {
                    self.pending.push(AdminMsg::TestRequest { id: self.test_req_id });
                    self.test_req_id = if self.test_req_id == u64::MAX {
                        0
                    } else {
                        self.test_req_id + 1
                    };
                    self.probe_at = Some(now);
                    proof {
                        assert(self@.pending =~= old(self)@.pending.push(
                            AdminView::TestRequest { id: old(self)@.test_req_id },
                        ));
                    }
                }
                let ghost mid = self@;
                if now >= self.last_sent.saturating_add(hb) && !self.heartbeat_is_queued() {
                    self.pending.push(AdminMsg::Heartbeat { echo: None });
                    proof {
                        assert(self@.pending =~= mid.pending.push(
                            AdminView::Heartbeat { echo: None },
                        ));
                    }
                }
            },
        }
    }

    /// Encodes the oldest pending admin message into `buf`, stamped with the
    /// wall-clock time `unix_nanos`, and records `now` as the last send time.
    /// Returns the frame length, or `None` when nothing is pending or the frame
    /// does not fit (it then stays pending).
    pub fn encode_pending(&mut self, buf: &mut [u8], now: u64, unix_nanos: i128) -> (r: Option<
        usize,
    >)
        ensures
            final(self).cfg() == old(self).cfg(),
            final(buf)@.len() == old(buf)@.len(),
            old(self)@.pending.len() == 0 ==> r.is_none() && final(self)@ == old(self)@,
            old(self)@.pending.len() > 0 ==> ({
                let a = old(self)@.pending[0];
                let f = admin_frame(
                    a,
                    old(self).cfg(),
                    old(self)@.next_out,
                    utc_timestamp_spec(unix_nanos as int),
                );
                if f.len() <= old(buf)@.len() {
                    &&& r == Some(f.len() as usize)
                    &&& final(buf)@.subrange(0, f.len() as int) == f
                    &&& final(self)@ == (SessionView {
                        pending: old(self)@.pending.drop_first(),
                        next_out: if a is GapFill {
                            old(self)@.next_out
                        } else {
                            wrap_inc(old(self)@.next_out)
                        },
                        last_sent: now,
                        ..old(self)@
                    })
                } else {
                    r.is_none() && final(self)@ == old(self)@
                }
            }),
    {
        if self.pending.len() == 0 {
            return None;
        }
        let mut ts = [0u8;21];
        format_utc_timestamp(unix_nanos, &mut ts);
        let ghost a = self@.pending[0];
        let ghost tsv = utc_timestamp_spec(unix_nanos as int);
        let (mt, seq, extra, is_gap) = admin_parts(&self.pending[0], self.next_out);
        let ts_vec = array_to_vec(&ts);
        let hdr = AdminHeader {
            seq,
            sender: self.config.sender_comp_id,
            target: self.config.target_comp_id,
            ts: ts_vec.as_slice(),
        };
        let written = write_admin_frame(buf, self.config.begin_string, mt.as_slice(), &hdr, extra);
        let len = match written {
            Some((_, n)) => n,
            None => {
                return None;
            },
        };
        self.pending.remove(0);
        if !is_gap {
            self.next_out = if self.next_out == u32::MAX {
                0
            } else {
                self.next_out + 1
            };
        }
        self.last_sent = now;
        proof {
            assert(self@.pending =~= old(self)@.pending.drop_first());
        }
        Some(len)
    }
}

fn hb_secs_exec(hb_nanos: u64) -> (r: u32)
    ensures
        r == hb_secs(hb_nanos),
{
    if hb_nanos / NANOS > u32::MAX as u64 {
        u32::MAX
    } else {
        (hb_nanos / NANOS) as u32
    }
}

fn array_to_vec(a: &[u8; 21]) -> (r: Vec<u8>)
    ensures
        r@ == a@,
{
    let mut v: Vec<u8> = Vec::new();
    let mut i: usize = 0;
    while i < 21
        invariant
            0 <= i <= 21,
            v@ == a@.subrange(0, i as int),
        decreases 21 - i,
    {
        v.push(a[i]);
        proof {
            assert(a@.subrange(0, i as int + 1) =~= a@.subrange(0, i as int).push(a@[i as int]));
        }
        i = i + 1;
    }
    proof {
        assert(a@.subrange(0, 21) =~= a@);
    }
    v
}

/// Message type, sequence number, type-specific fields and gap-fill flag of
/// an admin message.
fn admin_parts(a: &AdminMsg, next_out: u32) -> (r: (Vec<u8>, u32, Vec<(u32, Vec<u8>)>, bool))
    ensures
        r.0@ == admin_type(a@),
        r.1 == admin_seq(a@, next_out),
        fields_view(r.2@) == admin_extra(a@),
        r.3 == (a@ is GapFill),
{
    let mut extra: Vec<(u32, Vec<u8>)> = Vec::new();
    proof {
        assert(fields_view(extra@) =~= Seq::<(u32, Seq<u8>)>::empty());
    }
    match a {
        AdminMsg::Logon { heart_bt_int_s, .. } => {
            push_field_value(&mut extra, 108u32, dec_vec(*heart_bt_int_s as u64));
            proof {
                assert(fields_view(extra@) =~= admin_extra(a@));
            }
            (byte_vec(65u8), next_out, extra, false)
        },
        AdminMsg::Logout => (byte_vec(53u8), next_out, extra, false),
        AdminMsg::Heartbeat { echo } => {
            match echo {
                Some(e) => push_field_value(&mut extra, 112u32, copy_bytes(e.as_slice())),
                None => {},
            }
            proof {
                assert(fields_view(extra@) =~= admin_extra(a@));
            }
            (byte_vec(48u8), next_out, extra, false)
        },
        AdminMsg::TestRequest { id } => {
            push_field_value(&mut extra, 112u32, dec_vec(*id));
            proof {
                assert(fields_view(extra@) =~= admin_extra(a@));
            }
            (byte_vec(49u8), next_out, extra, false)
        },
        AdminMsg::ResendRequest { begin } => {
            push_field_value(&mut extra, 7u32, dec_vec(*begin as u64));
            push_field_value(&mut extra, 16u32, byte_vec(48u8));
            proof {
                assert(fields_view(extra@) =~= admin_extra(a@));
            }
            (byte_vec(50u8), next_out, extra, false)
        },
        AdminMsg::GapFill { seq, new_seq } => {
            push_field_value(&mut extra, 43u32, byte_vec(89u8));
            push_field_value(&mut extra, 123u32, byte_vec(89u8));
            push_field_value(&mut extra, 36u32, dec_vec(*new_seq as u64));
            proof {
                assert(fields_view(extra@) =~= admin_extra(a@));
            }
            (byte_vec(52u8), *seq, extra, true)
        },
    }
}

/// Whether the session runs its heartbeat timers: it is logged on, neither
/// waiting for a Logon answer nor for a Logout answer.
pub open spec fn timers_running(v: SessionView) -> bool {
    v.state != State::Disconnected && v.state != State::LogonSent && v.state
        != State::LogoutPending
}

/// Whether `t` is the first time a running session has work to do: no
/// later than a heartbeat interval after the last send, nor than the
/// TestRequest probe (1.2 heartbeat intervals after the last receive), nor,
/// with a probe outstanding, than the end of the wait for its answer (one
/// interval after it was sent); and one of these times (capped at the clock's
/// largest value).
pub open spec fn first_due(v: SessionView, t: int) -> bool {
    let hb = v.hb_nanos as int;
    let send_due = v.last_sent + hb;
    let probe_due = match v.probe_at {
        None => v.last_recv + hb + hb / 5,
        Some(p) => p + hb,
    };
    &&& t <= send_due
    &&& t <= probe_due
    &&& (t == send_due || t == probe_due || t == u64::MAX)
}

/// The clock changes nothing before the time `next_timeout` names, and
/// nothing ever while it names none; a running session names the first time
/// one of its timers is due, and a session waiting for a Logon or Logout
/// answer names the time at which it gives up.
pub proof fn lemma_quiet_until_next_timeout(v: SessionView)
    ensures
        next_timeout_spec(v) is None <==> v.state == State::Disconnected,
        forall|now: u64|
            (next_timeout_spec(v) is None || (next_timeout_spec(v) matches Some(t) && now < t))
                ==> #[trigger] step_timeout(v, now) == v,
        timers_running(v) ==> (next_timeout_spec(v) matches Some(t) && first_due(v, t as int)),
        v.state == State::LogonSent || v.state == State::LogoutPending ==> (next_timeout_spec(
            v,
        ) matches Some(t) && step_timeout(v, t).state == State::Disconnected),
{
}

/// Before a session is logged on, anything but a Logon leaves it untouched.
pub proof fn lemma_ignored_before_logon(v: SessionView, cfg: ConfigView, msg: Seq<u8>, now: u64)
    requires
        v.state == State::Disconnected || v.state == State::LogonSent,
        tag_value(msg, 35) != Some(seq![65u8]),
    ensures
        step_message(v, cfg, msg, now) == v,
{
}

/// A disconnected session has no timers: the clock changes nothing and no
/// timeout is due.
pub proof fn lemma_disconnected_has_no_timers(v: SessionView, now: u64)
    requires
        v.state == State::Disconnected,
    ensures
        step_timeout(v, now) == v,
        next_timeout_spec(v).is_none(),
{
}

/// Timeouts, including the ones that end the session, never touch the
/// sequence numbers, so they survive a reconnect.
pub proof fn lemma_timeout_keeps_seq_nums(v: SessionView, now: u64)
    ensures
        step_timeout(v, now).next_in == v.next_in,
        step_timeout(v, now).next_out == v.next_out,
{
}

/// Ending a session keeps both sequence numbers.
pub proof fn lemma_disconnect_keeps_seq_nums(v: SessionView, reason: DisconnectReason, send_logout: bool)
    ensures
        disconnect(v, reason, send_logout).next_in == v.next_in,
        disconnect(v, reason, send_logout).next_out == v.next_out,
        disconnect(v, reason, send_logout).state == State::Disconnected,
{
}

/// The clock only appends to the admin queue, and never queues a second idle
/// heartbeat while one is waiting.
pub proof fn lemma_heartbeat_not_duplicated(v: SessionView, now: u64)
    ensures
        step_timeout(v, now).pending.len() >= v.pending.len(),
        step_timeout(v, now).pending.subrange(0, v.pending.len() as int) == v.pending,
        heartbeat_queued(v.pending) ==> forall|i: int|
            v.pending.len() <= i < step_timeout(v, now).pending.len() ==> (
            #[trigger] step_timeout(v, now).pending[i]) != (AdminView::Heartbeat { echo: None }),
{
    let w = step_timeout(v, now);
    match v.state {
        State::Disconnected => {
            assert(w.pending.subrange(0, v.pending.len() as int) =~= v.pending);
        },
        State::LogonSent | State::LogoutPending => {
            assert(w.pending.subrange(0, v.pending.len() as int) =~= v.pending);
        },
        _ => {
            if v.probe_at is Some && now >= sat_add(v.probe_at->0, v.hb_nanos) {
                assert(w.pending.subrange(0, v.pending.len() as int) =~= v.pending);
            } else {
                let v1 = if v.probe_at is None && now >= probe_deadline(v) {
                    SessionView {
                        pending: v.pending.push(AdminView::TestRequest { id: v.test_req_id }),
                        test_req_id: if v.test_req_id == u64::MAX {
                            0
                        } else {
                            (v.test_req_id + 1) as u64
                        },
                        probe_at: Some(now),
                        ..v
                    }
                } else {
                    v
                };
                assert(v1.pending.subrange(0, v.pending.len() as int) =~= v.pending);
                if heartbeat_queued(v.pending) {
                    let i = choose|i: int|
                        0 <= i < v.pending.len() && v.pending[i] == (AdminView::Heartbeat {
                            echo: None,
                        });
                    assert(v1.pending[i] == v.pending[i]);
                    assert(heartbeat_queued(v1.pending));
                }
                assert(w.pending.subrange(0, v.pending.len() as int) =~= v.pending);
            }
        },
    }
}

proof fn lemma_digits_no_soh(s: Seq<u8>)
    requires
        all_digits(s),
    ensures
        no_soh(s),
{
    assert forall|i: int| 0 <= i < s.len() implies s[i] != SOH by {
        assert(48 <= s[i] <= 57);
    }
}

/// Every admin frame the session sends carries a valid checksum; when the
/// configured strings, the timestamp and the message's own field values are
/// free of the delimiter, its message type and sequence number read back.
pub proof fn lemma_admin_frame_valid(a: AdminView, cfg: ConfigView, next_out: u32, ts: Seq<u8>)
    ensures
        checksum_ok(admin_frame(a, cfg, next_out, ts)),
        no_soh(cfg.begin) && no_soh(cfg.sender) && no_soh(cfg.target) && no_soh(ts)
            && values_no_soh(admin_extra(a)) ==> {
            &&& tag_value(admin_frame(a, cfg, next_out, ts), 35) == Some(admin_type(a))
            &&& tag_value(admin_frame(a, cfg, next_out, ts), 34) == Some(
                dec(admin_seq(a, next_out) as nat),
            )
        },
{
    let t = admin_type(a);
    let fs = seq![
        (34u32, dec(admin_seq(a, next_out) as nat)),
        (49u32, cfg.sender),
        (56u32, cfg.target),
        (52u32, ts),
    ] + admin_extra(a);
    lemma_frame_checksum_ok(cfg.begin, t, fs);
    if no_soh(cfg.begin) && no_soh(cfg.sender) && no_soh(cfg.target) && no_soh(ts)
        && values_no_soh(admin_extra(a)) {
        let all = frame_fields(cfg.begin, t, fs);
        let blen = body_bytes(t, fs).len();
        lemma_dec_digits(blen);
        lemma_digits_no_soh(dec(blen));
        lemma_dec_digits(admin_seq(a, next_out) as nat);
        lemma_digits_no_soh(dec(admin_seq(a, next_out) as nat));
        assert(t.len() == 1 && t[0] != SOH);
        assert(no_soh(t));
        assert forall|i: int| 0 <= i < all.len() implies no_soh(#[trigger] all[i].1) by {
            if i >= 7 {
                assert(all[i] == admin_extra(a)[i - 7]);
            }
        }
        let d1 = all.drop_first();
        let d2 = d1.drop_first();
        let d3 = d2.drop_first();
        assert(d3[0] == all[3]);
        assert(d2[0] == all[2]);
        assert(d1[0] == all[1]);
        assert(first_with_tag(d2, 35) == 0);
        assert(first_with_tag(d1, 35) == 1);
        assert(first_with_tag(all, 35) == 2);
        lemma_frame_fields_read_back(cfg.begin, t, fs, 35);
        assert(first_with_tag(d3, 34) == 0);
        assert(first_with_tag(d2, 34) == 1);
        assert(first_with_tag(d1, 34) == 2);
        assert(first_with_tag(all, 34) == 3);
        lemma_frame_fields_read_back(cfg.begin, t, fs, 34);
    }
}

} // verus!
