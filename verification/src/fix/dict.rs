use vstd::prelude::*;

use crate::fix::codec::{
    build_frame, checksum_ok, dec, fields_view, frame_bytes, lemma_frame_checksum_ok, push_bytes,
    push_dec,
};

verus! {

/// Zero-copy decoder for a session-level admin message, implemented by each
/// admin message type.
pub trait FixAdminMsg<'buf>: Sized {
    /// Constructs the decoder from a raw FIX message buffer; `None` when the
    /// buffer is not such a message.
    fn decode(buf: &'buf [u8]) -> Option<Self>;
}

/// The standard header fields every admin message carries after its type.
pub struct AdminHeader<'a> {
    pub seq: u32,
    pub sender: &'a [u8],
    pub target: &'a [u8],
    pub ts: &'a [u8],
}

/// The header fields of an admin message, in the order they are written:
/// `MsgSeqNum`, `SenderCompID`, `TargetCompID`, `SendingTime`.
pub open spec fn admin_header_spec(seq: u32, sender: Seq<u8>, target: Seq<u8>, ts: Seq<u8>) -> Seq<
    (u32, Seq<u8>),
> {
    seq![(34u32, dec(seq as nat)), (49u32, sender), (56u32, target), (52u32, ts)]
}

fn bytes_of(s: &[u8]) -> (r: Vec<u8>)
    ensures
        r@ == s@,
{
    let mut v: Vec<u8> = Vec::new();
    push_bytes(&mut v, s);
    v
}

/// The header fields of `hdr`, ready to be framed.
pub fn admin_header_fields(hdr: &AdminHeader) -> (r: Vec<(u32, Vec<u8>)>)
    ensures
        fields_view(r@) == admin_header_spec(hdr.seq, hdr.sender@, hdr.target@, hdr.ts@),
{
    let mut seq_digits: Vec<u8> = Vec::new();
    push_dec(&mut seq_digits, hdr.seq as u64);
    let mut r: Vec<(u32, Vec<u8>)> = Vec::new();
    r.push((34u32, seq_digits));
    r.push((49u32, bytes_of(hdr.sender)));
    r.push((56u32, bytes_of(hdr.target)));
    r.push((52u32, bytes_of(hdr.ts)));
    proof {
        assert(seq_digits@ =~= dec(hdr.seq as nat));
        assert(fields_view(r@) =~= admin_header_spec(hdr.seq, hdr.sender@, hdr.target@, hdr.ts@));
    }
    r
}

pub(crate) fn dec_vec(n: u64) -> (r: Vec<u8>)
    ensures
        r@ == dec(n as nat),
{
    let mut v: Vec<u8> = Vec::new();
    push_dec(&mut v, n);
    proof {
        assert(v@ =~= dec(n as nat));
    }
    v
}

pub(crate) fn push_field_value(fields: &mut Vec<(u32, Vec<u8>)>, tag: u32, val: Vec<u8>)
    ensures
        fields_view(final(fields)@) == fields_view(old(fields)@).push((tag, val@)),
{
    let ghost val_view = val@;
    fields.push((tag, val));
    proof {
        assert(fields_view(fields@) =~= fields_view(old(fields)@).push((tag, val_view)));
    }
}

pub(crate) fn byte_vec(b: u8) -> (r: Vec<u8>)
    ensures
        r@ == seq![b],
{
    let mut v: Vec<u8> = Vec::new();
    v.push(b);
    proof {
        assert(v@ =~= seq![b]);
    }
    v
}

/// The frame `f` written at the start of a buffer that held `before` and
/// holds `after`: its start and length when it fits; when it does not, the
/// buffer is untouched.
pub open spec fn written_at_start(
    f: Seq<u8>,
    before: Seq<u8>,
    after: Seq<u8>,
    r: Option<(usize, usize)>,
) -> bool {
    if f.len() <= before.len() {
        &&& r == Some((0usize, f.len() as usize))
        &&& after.len() == before.len()
        &&& after.subrange(0, f.len() as int) == f
    } else {
        r.is_none() && after == before
    }
}

/// The admin frame of type `msg_type` carrying the header fields of `hdr`,
/// then the fields `extra`.
pub open spec fn admin_frame_of(
    begin: Seq<u8>,
    msg_type: Seq<u8>,
    hdr: AdminHeader,
    extra: Seq<(u32, Seq<u8>)>,
) -> Seq<u8> {
    frame_bytes(begin, msg_type, admin_header_spec(hdr.seq, hdr.sender@, hdr.target@, hdr.ts@) + extra)
}

/// Every admin frame carries a valid checksum.
pub proof fn lemma_admin_frame_checksum(
    begin: Seq<u8>,
    msg_type: Seq<u8>,
    hdr: AdminHeader,
    extra: Seq<(u32, Seq<u8>)>,
)
    ensures
        checksum_ok(admin_frame_of(begin, msg_type, hdr, extra)),
{
    lemma_frame_checksum_ok(
        begin,
        msg_type,
        admin_header_spec(hdr.seq, hdr.sender@, hdr.target@, hdr.ts@) + extra,
    );
}

/// Writes the admin frame of type `msg_type` with the header fields of `hdr`
/// and then `extra` at the start of `buf`.
pub(crate) fn write_admin_frame(
    buf: &mut [u8],
    begin: &[u8],
    msg_type: &[u8],
    hdr: &AdminHeader,
    extra: Vec<(u32, Vec<u8>)>,
) -> (r: Option<(usize, usize)>)
    ensures
        written_at_start(
            admin_frame_of(begin@, msg_type@, *hdr, fields_view(extra@)),
            old(buf)@,
            final(buf)@,
            r,
        ),
{
    let mut fields = admin_header_fields(hdr);
    let ghost head = fields_view(fields@);
    let ghost ex = fields_view(extra@);
    let mut extra = extra;
    fields.append(&mut extra);
    proof {
        assert(fields_view(fields@) =~= head + ex);
    }
    let frame = build_frame(begin, msg_type, &fields);
    if frame.len() > buf.len() {
        return None;
    }
    let mut k: usize = 0;
    while k < frame.len()
        invariant
            0 <= k <= frame@.len() <= buf@.len(),
            buf@.len() == old(buf)@.len(),
            forall|j: int| 0 <= j < k ==> buf@[j] == frame@[j],
        decreases frame@.len() - k,
    {
        buf[k] = frame[k];
        k = k + 1;
    }
    proof {
        assert(buf@.subrange(0, frame@.len() as int) =~= frame@);
    }
    Some((0, frame.len()))
}

/// Dictionary-level knowledge for a specific FIX version: its message-type
/// enum and which message types are session-level.
pub trait FixDictionary {
    /// The dictionary's message-type enum (a closed set).
    type MsgType: Copy + Eq + core::fmt::Debug;

    /// The `BeginString` value for this FIX version (e.g. `b"FIX.4.4"`).
    const BEGIN_STRING: &'static [u8];

    /// The message type whose `MsgType` value is `bytes`, if the dictionary
    /// knows it.
    fn msg_type_from_bytes(bytes: &[u8]) -> Option<Self::MsgType>;

    /// Whether the given message type is an admin (session-level) message.
    fn is_admin(msg_type: Self::MsgType) -> bool;

    /// Encodes a Logon (35=A) with `HeartBtInt` at the start of `buf`.
    fn encode_logon(buf: &mut [u8], hdr: AdminHeader<'_>, heart_bt_int_s: u32) -> (r: Option<
        (usize, usize),
    >)
        ensures
            written_at_start(
                admin_frame_of(
                    Self::BEGIN_STRING@,
                    seq![65u8],
                    hdr,
                    seq![(108u32, dec(heart_bt_int_s as nat))],
                ),
                old(buf)@,
                final(buf)@,
                r,
            ),
    {
        let mut extra: Vec<(u32, Vec<u8>)> = Vec::new();
        push_field_value(&mut extra, 108, dec_vec(heart_bt_int_s as u64));
        proof {
            assert(fields_view(extra@) =~= seq![(108u32, dec(heart_bt_int_s as nat))]);
        }
        write_admin_frame(buf, Self::BEGIN_STRING, byte_vec(65u8).as_slice(), &hdr, extra)
    }

    /// Encodes a Logon (35=A) with `HeartBtInt` and `ResetSeqNumFlag=Y` at
    /// the start of `buf`.
    fn encode_logon_reset(buf: &mut [u8], hdr: AdminHeader<'_>, heart_bt_int_s: u32) -> (r: Option<
        (usize, usize),
    >)
        ensures
            written_at_start(
                admin_frame_of(
                    Self::BEGIN_STRING@,
                    seq![65u8],
                    hdr,
                    seq![(108u32, dec(heart_bt_int_s as nat)), (141u32, seq![89u8])],
                ),
                old(buf)@,
                final(buf)@,
                r,
            ),
    {
        let mut extra: Vec<(u32, Vec<u8>)> = Vec::new();
        push_field_value(&mut extra, 108, dec_vec(heart_bt_int_s as u64));
        push_field_value(&mut extra, 141, byte_vec(89u8));
        proof {
            assert(fields_view(extra@) =~= seq![
                (108u32, dec(heart_bt_int_s as nat)),
                (141u32, seq![89u8]),
            ]);
        }
        write_admin_frame(buf, Self::BEGIN_STRING, byte_vec(65u8).as_slice(), &hdr, extra)
    }

    /// Encodes a Logout (35=5) at the start of `buf`.
    fn encode_logout(buf: &mut [u8], hdr: AdminHeader<'_>) -> (r: Option<(usize, usize)>)
        ensures
            written_at_start(
                admin_frame_of(Self::BEGIN_STRING@, seq![53u8], hdr, Seq::empty()),
                old(buf)@,
                final(buf)@,
                r,
            ),
    {
        let extra: Vec<(u32, Vec<u8>)> = Vec::new();
        proof {
            assert(fields_view(extra@) =~= Seq::<(u32, Seq<u8>)>::empty());
        }
        write_admin_frame(buf, Self::BEGIN_STRING, byte_vec(53u8).as_slice(), &hdr, extra)
    }

    /// Encodes a Heartbeat (35=0), echoing a TestRequest's `TestReqID` when
    /// there is one, at the start of `buf`.
    fn encode_heartbeat(buf: &mut [u8], hdr: AdminHeader<'_>, echo: Option<&[u8]>) -> (r: Option<
        (usize, usize),
    >)
        ensures
            written_at_start(
                admin_frame_of(
                    Self::BEGIN_STRING@,
                    seq![48u8],
                    hdr,
                    match echo {
                        Some(id) => seq![(112u32, id@)],
                        None => Seq::empty(),
                    },
                ),
                old(buf)@,
                final(buf)@,
                r,
            ),
    {
        let mut extra: Vec<(u32, Vec<u8>)> = Vec::new();
        match echo {
            Some(id) => push_field_value(&mut extra, 112, bytes_of(id)),
            None => {},
        }
        proof {
            assert(fields_view(extra@) =~= match echo {
                Some(id) => seq![(112u32, id@)],
                None => Seq::empty(),
            });
        }
        write_admin_frame(buf, Self::BEGIN_STRING, byte_vec(48u8).as_slice(), &hdr, extra)
    }

    /// Encodes a TestRequest (35=1) with `TestReqID` `id` at the start of
    /// `buf`.
    fn encode_test_request(buf: &mut [u8], hdr: AdminHeader<'_>, id: u64) -> (r: Option<
        (usize, usize),
    >)
        ensures
            written_at_start(
                admin_frame_of(Self::BEGIN_STRING@, seq![49u8], hdr, seq![(112u32, dec(id as nat))]),
                old(buf)@,
                final(buf)@,
                r,
            ),
    {
        let mut extra: Vec<(u32, Vec<u8>)> = Vec::new();
        push_field_value(&mut extra, 112, dec_vec(id));
        proof {
            assert(fields_view(extra@) =~= seq![(112u32, dec(id as nat))]);
        }
        write_admin_frame(buf, Self::BEGIN_STRING, byte_vec(49u8).as_slice(), &hdr, extra)
    }

    /// Encodes a ResendRequest (35=2) from `begin_seq` to infinity
    /// (`EndSeqNo=0`) at the start of `buf`.
    fn encode_resend_request(buf: &mut [u8], hdr: AdminHeader<'_>, begin_seq: u32) -> (r: Option<
        (usize, usize),
    >)
        ensures
            written_at_start(
                admin_frame_of(
                    Self::BEGIN_STRING@,
                    seq![50u8],
                    hdr,
                    seq![(7u32, dec(begin_seq as nat)), (16u32, seq![48u8])],
                ),
                old(buf)@,
                final(buf)@,
                r,
            ),
    {
        let mut extra: Vec<(u32, Vec<u8>)> = Vec::new();
        push_field_value(&mut extra, 7, dec_vec(begin_seq as u64));
        push_field_value(&mut extra, 16, byte_vec(48u8));
        proof {
            assert(fields_view(extra@) =~= seq![
                (7u32, dec(begin_seq as nat)),
                (16u32, seq![48u8]),
            ]);
        }
        write_admin_frame(buf, Self::BEGIN_STRING, byte_vec(50u8).as_slice(), &hdr, extra)
    }

    /// Encodes a gap-filling SequenceReset (35=4, `PossDupFlag=Y`,
    /// `GapFillFlag=Y`) to `new_seq` at the start of `buf`.
    fn encode_sequence_reset(buf: &mut [u8], hdr: AdminHeader<'_>, new_seq: u32) -> (r: Option<
        (usize, usize),
    >)
        ensures
            written_at_start(
                admin_frame_of(
                    Self::BEGIN_STRING@,
                    seq![52u8],
                    hdr,
                    seq![
                        (43u32, seq![89u8]),
                        (123u32, seq![89u8]),
                        (36u32, dec(new_seq as nat)),
                    ],
                ),
                old(buf)@,
                final(buf)@,
                r,
            ),
    {
        let mut extra: Vec<(u32, Vec<u8>)> = Vec::new();
        push_field_value(&mut extra, 43, byte_vec(89u8));
        push_field_value(&mut extra, 123, byte_vec(89u8));
        push_field_value(&mut extra, 36, dec_vec(new_seq as u64));
        proof {
            assert(fields_view(extra@) =~= seq![
                (43u32, seq![89u8]),
                (123u32, seq![89u8]),
                (36u32, dec(new_seq as nat)),
            ]);
        }
        write_admin_frame(buf, Self::BEGIN_STRING, byte_vec(52u8).as_slice(), &hdr, extra)
    }

    /// Encodes a session-level Reject (35=3) of message `ref_seq_num`, naming
    /// the offending tag when there is one, with `SessionRejectReason`, at
    /// the start of `buf`.
    fn encode_reject(
        buf: &mut [u8],
        hdr: AdminHeader<'_>,
        ref_seq_num: u32,
        ref_tag_id: Option<u32>,
        session_reject_reason: u8,
    ) -> (r: Option<(usize, usize)>)
        ensures
            written_at_start(
                admin_frame_of(
                    Self::BEGIN_STRING@,
                    seq![51u8],
                    hdr,
                    seq![(45u32, dec(ref_seq_num as nat))] + match ref_tag_id {
                        Some(t) => seq![(371u32, dec(t as nat))],
                        None => Seq::empty(),
                    } + seq![(373u32, dec(session_reject_reason as nat))],
                ),
                old(buf)@,
                final(buf)@,
                r,
            ),
    {
        let mut extra: Vec<(u32, Vec<u8>)> = Vec::new();
        push_field_value(&mut extra, 45, dec_vec(ref_seq_num as u64));
        match ref_tag_id {
            Some(t) => push_field_value(&mut extra, 371, dec_vec(t as u64)),
            None => {},
        }
        push_field_value(&mut extra, 373, dec_vec(session_reject_reason as u64));
        proof {
            assert(fields_view(extra@) =~= seq![(45u32, dec(ref_seq_num as nat))] + match ref_tag_id {
                Some(t) => seq![(371u32, dec(t as nat))],
                None => Seq::empty(),
            } + seq![(373u32, dec(session_reject_reason as nat))]);
        }
        write_admin_frame(buf, Self::BEGIN_STRING, byte_vec(51u8).as_slice(), &hdr, extra)
    }
}

} // verus!
