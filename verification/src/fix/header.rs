use vstd::prelude::*;

use crate::fix::codec::{
    bool_of, check_printable, field_at, lemma_field_at_bounds, next_field, parse_fix_bool,
    parse_fix_u64, parse_fix_uint, printable_check, u64_of, uint_of, AsciiError, FieldSpan,
    ParseError, RawField,
};
use crate::fix::dict::FixDictionary;

verus! {

/// Spans of the eight standard header fields, each absent until seen.
pub struct HeaderSpans {
    pub begin_string: Option<FieldSpan>,
    pub body_length: Option<FieldSpan>,
    pub msg_type: Option<FieldSpan>,
    pub msg_seq_num: Option<FieldSpan>,
    pub sender_comp_id: Option<FieldSpan>,
    pub target_comp_id: Option<FieldSpan>,
    pub poss_dup_flag: Option<FieldSpan>,
    pub sending_time: Option<FieldSpan>,
}

pub open spec fn no_spans() -> HeaderSpans {
    HeaderSpans {
        begin_string: None,
        body_length: None,
        msg_type: None,
        msg_seq_num: None,
        sender_comp_id: None,
        target_comp_id: None,
        poss_dup_flag: None,
        sending_time: None,
    }
}

/// Tags 8, 9, 35, 34, 49, 56, 43 and 52.
pub open spec fn is_header_tag(t: u32) -> bool {
    t == 8 || t == 9 || t == 35 || t == 34 || t == 49 || t == 56 || t == 43 || t == 52
}

/// `h` with the span of header field `t` set to `s`.
pub open spec fn with_field(h: HeaderSpans, t: u32, s: FieldSpan) -> HeaderSpans {
    if t == 8 {
        HeaderSpans { begin_string: Some(s), ..h }
    } else if t == 9 {
        HeaderSpans { body_length: Some(s), ..h }
    } else if t == 35 {
        HeaderSpans { msg_type: Some(s), ..h }
    } else if t == 34 {
        HeaderSpans { msg_seq_num: Some(s), ..h }
    } else if t == 49 {
        HeaderSpans { sender_comp_id: Some(s), ..h }
    } else if t == 56 {
        HeaderSpans { target_comp_id: Some(s), ..h }
    } else if t == 43 {
        HeaderSpans { poss_dup_flag: Some(s), ..h }
    } else {
        HeaderSpans { sending_time: Some(s), ..h }
    }
}

/// The header scan from `pos`: header fields update their spans (a repeated
/// one keeps its last value) until a non-header field, which is returned as
/// the overflow, or a position that holds no complete field.
pub open spec fn scan_header(buf: Seq<u8>, pos: int, h: HeaderSpans) -> (HeaderSpans, Option<RawField>)
    decreases buf.len() - pos,
{
    match field_at(buf, pos) {
        None => (h, None),
        Some((t, vs, ve)) => {
            let s = FieldSpan { offset: vs as usize, len: (ve - vs) as usize };
            if !is_header_tag(t) {
                (h, Some(RawField { tag: t, value: s }))
            } else if pos < ve + 1 <= buf.len() {
                scan_header(buf, ve + 1, with_field(h, t, s))
            } else {
                (with_field(h, t, s), None)
            }
        },
    }
}

/// Decoded FIX message header.
///
/// Scans the 8 standard header fields (tags 8, 9, 35, 34, 49, 56, 43, 52)
/// from a FIX message buffer. The first non-header field is stored as
/// [`overflow`](Self::overflow) so that body decoding can continue without
/// re-scanning.
pub struct HeaderDecoder<'buf> {
    buf: &'buf [u8],
    /// First non-header field encountered during header decode.
    pub overflow: Option<RawField>,
    begin_string: Option<FieldSpan>,
    body_length: Option<FieldSpan>,
    msg_type: Option<FieldSpan>,
    msg_seq_num: Option<FieldSpan>,
    sender_comp_id: Option<FieldSpan>,
    target_comp_id: Option<FieldSpan>,
    poss_dup_flag: Option<FieldSpan>,
    sending_time: Option<FieldSpan>,
}

fn span_slice<'b>(s: Option<FieldSpan>, buf: &'b [u8]) -> (r: Option<&'b [u8]>)
    requires
        s matches Some(sp) ==> sp.offset + sp.len <= buf@.len(),
    ensures
        match s {
            None => r.is_none(),
            Some(sp) => r.is_some() && r.unwrap()@ == buf@.subrange(
                sp.offset as int,
                sp.offset + sp.len,
            ),
        },
{
    match s {
        None => None,
        Some(sp) => Some(sp.slice(buf)),
    }
}

/// Every span the scan records lies inside the buffer.
pub open spec fn spans_in(h: HeaderSpans, n: int) -> bool {
    &&& (h.begin_string matches Some(s) ==> s.offset + s.len <= n)
    &&& (h.body_length matches Some(s) ==> s.offset + s.len <= n)
    &&& (h.msg_type matches Some(s) ==> s.offset + s.len <= n)
    &&& (h.msg_seq_num matches Some(s) ==> s.offset + s.len <= n)
    &&& (h.sender_comp_id matches Some(s) ==> s.offset + s.len <= n)
    &&& (h.target_comp_id matches Some(s) ==> s.offset + s.len <= n)
    &&& (h.poss_dup_flag matches Some(s) ==> s.offset + s.len <= n)
    &&& (h.sending_time matches Some(s) ==> s.offset + s.len <= n)
}

impl<'buf> HeaderDecoder<'buf> {
    /// The recorded header spans.
    pub closed spec fn spans(&self) -> HeaderSpans {
        HeaderSpans {
            begin_string: self.begin_string,
            body_length: self.body_length,
            msg_type: self.msg_type,
            msg_seq_num: self.msg_seq_num,
            sender_comp_id: self.sender_comp_id,
            target_comp_id: self.target_comp_id,
            poss_dup_flag: self.poss_dup_flag,
            sending_time: self.sending_time,
        }
    }

    /// The decoded message's bytes.
    pub closed spec fn bytes(&self) -> Seq<u8> {
        self.buf@
    }

    /// The first non-header field, as the public `overflow` field holds it.
    pub closed spec fn overflow_field(&self) -> Option<RawField> {
        self.overflow
    }

    /// The decoder's invariant: its spans lie inside its buffer.
    pub closed spec fn wf(&self) -> bool {
        spans_in(self.spans(), self.buf@.len() as int)
    }

    /// Decodes the standard header from `buf`: scans fields until a
    /// non-header tag (kept as the overflow) or the end of the complete
    /// fields.
    pub fn decode(buf: &'buf [u8]) -> (r: Self)
        ensures
            r.wf(),
            r.bytes() == buf@,
            (r.spans(), r.overflow_field()) == scan_header(buf@, 0, no_spans()),
    {
        let mut h = HeaderDecoder {
            buf,
            overflow: None,
            begin_string: None,
            body_length: None,
            msg_type: None,
            msg_seq_num: None,
            sender_comp_id: None,
            target_comp_id: None,
            poss_dup_flag: None,
            sending_time: None,
        };
        let mut pos: usize = 0;
        let blen = buf.len();
        loop
            invariant_except_break
                h.overflow.is_none(),
                scan_header(buf@, pos as int, h.spans()) == scan_header(buf@, 0, no_spans()),
            invariant
                h.buf@ == buf@,
                blen == buf@.len(),
                pos <= buf@.len(),
                spans_in(h.spans(), buf@.len() as int),
            ensures
                h.buf@ == buf@,
                spans_in(h.spans(), buf@.len() as int),
                (h.spans(), h.overflow) == scan_header(buf@, 0, no_spans()),
            decreases buf@.len() - pos,
        {
            match next_field(buf, pos) {
                None => {
                    break;
                },
                Some((f, next)) => {
                    let s = f.value;
                    let ghost before = h.spans();
                    let ghost old_pos = pos as int;
                    match f.tag {
                        8 => h.begin_string = Some(s),
                        9 => h.body_length = Some(s),
                        35 => h.msg_type = Some(s),
                        34 => h.msg_seq_num = Some(s),
                        49 => h.sender_comp_id = Some(s),
                        56 => h.target_comp_id = Some(s),
                        43 => h.poss_dup_flag = Some(s),
                        52 => h.sending_time = Some(s),
                        _ => {
                            h.overflow = Some(f);
                            break;
                        },
                    }
                    proof {
                        assert(h.spans() == with_field(before, f.tag, s));
                        lemma_field_at_bounds(buf@, old_pos);
                        let fa = field_at(buf@, old_pos);
                        let (t, vs, ve) = fa->0;
                        assert(t == f.tag);
                        assert(is_header_tag(t));
                        assert(s == FieldSpan { offset: vs as usize, len: (ve - vs) as usize });
                        assert(next == ve + 1);
                        assert(scan_header(buf@, old_pos, before) == scan_header(
                            buf@,
                            ve + 1,
                            with_field(before, t, s),
                        ));
                    }
                    pos = next;
                },
            }
        }
        h
    }

    /// The underlying message buffer.
    pub fn buf(&self) -> (r: &'buf [u8])
        ensures
            r@ == self.bytes(),
    {
        self.buf
    }

    pub fn begin_string(&self) -> (r: Option<&'buf [u8]>)
        requires
            self.wf(),
        ensures
            match self.spans().begin_string {
                None => r.is_none(),
                Some(s) => r.is_some() && r.unwrap()@ == self.bytes().subrange(
                    s.offset as int,
                    s.offset + s.len,
                ),
            },
    {
        span_slice(self.begin_string, self.buf)
    }

    pub fn body_length(&self) -> (r: Option<&'buf [u8]>)
        requires
            self.wf(),
        ensures
            match self.spans().body_length {
                None => r.is_none(),
                Some(s) => r.is_some() && r.unwrap()@ == self.bytes().subrange(
                    s.offset as int,
                    s.offset + s.len,
                ),
            },
    {
        span_slice(self.body_length, self.buf)
    }

    pub fn msg_type(&self) -> (r: Option<&'buf [u8]>)
        requires
            self.wf(),
        ensures
            match self.spans().msg_type {
                None => r.is_none(),
                Some(s) => r.is_some() && r.unwrap()@ == self.bytes().subrange(
                    s.offset as int,
                    s.offset + s.len,
                ),
            },
    {
        span_slice(self.msg_type, self.buf)
    }

    pub fn msg_seq_num(&self) -> (r: Option<&'buf [u8]>)
        requires
            self.wf(),
        ensures
            match self.spans().msg_seq_num {
                None => r.is_none(),
                Some(s) => r.is_some() && r.unwrap()@ == self.bytes().subrange(
                    s.offset as int,
                    s.offset + s.len,
                ),
            },
    {
        span_slice(self.msg_seq_num, self.buf)
    }

    pub fn sender_comp_id(&self) -> (r: Option<&'buf [u8]>)
        requires
            self.wf(),
        ensures
            match self.spans().sender_comp_id {
                None => r.is_none(),
                Some(s) => r.is_some() && r.unwrap()@ == self.bytes().subrange(
                    s.offset as int,
                    s.offset + s.len,
                ),
            },
    {
        span_slice(self.sender_comp_id, self.buf)
    }

    pub fn target_comp_id(&self) -> (r: Option<&'buf [u8]>)
        requires
            self.wf(),
        ensures
            match self.spans().target_comp_id {
                None => r.is_none(),
                Some(s) => r.is_some() && r.unwrap()@ == self.bytes().subrange(
                    s.offset as int,
                    s.offset + s.len,
                ),
            },
    {
        span_slice(self.target_comp_id, self.buf)
    }

    pub fn poss_dup_flag(&self) -> (r: Option<&'buf [u8]>)
        requires
            self.wf(),
        ensures
            match self.spans().poss_dup_flag {
                None => r.is_none(),
                Some(s) => r.is_some() && r.unwrap()@ == self.bytes().subrange(
                    s.offset as int,
                    s.offset + s.len,
                ),
            },
    {
        span_slice(self.poss_dup_flag, self.buf)
    }

    pub fn sending_time(&self) -> (r: Option<&'buf [u8]>)
        requires
            self.wf(),
        ensures
            match self.spans().sending_time {
                None => r.is_none(),
                Some(s) => r.is_some() && r.unwrap()@ == self.bytes().subrange(
                    s.offset as int,
                    s.offset + s.len,
                ),
            },
    {
        span_slice(self.sending_time, self.buf)
    }

    /// The bytes of the header field at span `s`.
    pub closed spec fn span_bytes(&self, s: FieldSpan) -> Seq<u8> {
        self.bytes().subrange(s.offset as int, s.offset + s.len)
    }

    /// BodyLength as a number: `None` when absent, the parse error when it
    /// is not an unsigned integer that fits in a `u32`.
    pub fn body_length_value(&self) -> (r: Option<Result<u32, ParseError>>)
        requires
            self.wf(),
        ensures
            match self.spans().body_length {
                None => r.is_none(),
                Some(s) => r == Some(
                    match uint_of(self.span_bytes(s)) {
                        Some(n) => Ok::<u32, ParseError>(n),
                        None => Err(ParseError::InvalidNumber),
                    },
                ),
            },
    {
        match self.body_length() {
            Some(v) => Some(parse_fix_uint(v)),
            None => None,
        }
    }

    /// MsgSeqNum as a number: `None` when absent, the parse error when it
    /// is not an unsigned integer that fits in a `u64`.
    pub fn msg_seq_num_value(&self) -> (r: Option<Result<u64, ParseError>>)
        requires
            self.wf(),
        ensures
            match self.spans().msg_seq_num {
                None => r.is_none(),
                Some(s) => r == Some(
                    match u64_of(self.span_bytes(s)) {
                        Some(n) => Ok::<u64, ParseError>(n),
                        None => Err(ParseError::InvalidNumber),
                    },
                ),
            },
    {
        match self.msg_seq_num() {
            Some(v) => Some(parse_fix_u64(v)),
            None => None,
        }
    }

    /// PossDupFlag as a boolean: `None` when absent, the parse error when it
    /// is neither `Y` nor `N`.
    pub fn poss_dup_flag_value(&self) -> (r: Option<Result<bool, ParseError>>)
        requires
            self.wf(),
        ensures
            match self.spans().poss_dup_flag {
                None => r.is_none(),
                Some(s) => r == Some(
                    match bool_of(self.span_bytes(s)) {
                        Some(b) => Ok::<bool, ParseError>(b),
                        None => Err(ParseError::InvalidBool),
                    },
                ),
            },
    {
        match self.poss_dup_flag() {
            Some(v) => Some(parse_fix_bool(v)),
            None => None,
        }
    }

    /// SenderCompID checked as printable ASCII text: `None` when absent,
    /// the first byte that is not printable otherwise.
    pub fn sender_comp_id_text(&self) -> (r: Option<Result<&'buf [u8], AsciiError>>)
        requires
            self.wf(),
        ensures
            match self.spans().sender_comp_id {
                None => r.is_none(),
                Some(s) => match printable_check(self.span_bytes(s)) {
                    Ok(_) => r matches Some(Ok(t)) && t@ == self.span_bytes(s),
                    Err(e) => r == Some(Err::<&'buf [u8], AsciiError>(e)),
                },
            },
    {
        match self.sender_comp_id() {
            Some(v) => match check_printable(v) {
                Ok(()) => Some(Ok(v)),
                Err(e) => Some(Err(e)),
            },
            None => None,
        }
    }

    /// TargetCompID checked as printable ASCII text: `None` when absent,
    /// the first byte that is not printable otherwise.
    pub fn target_comp_id_text(&self) -> (r: Option<Result<&'buf [u8], AsciiError>>)
        requires
            self.wf(),
        ensures
            match self.spans().target_comp_id {
                None => r.is_none(),
                Some(s) => match printable_check(self.span_bytes(s)) {
                    Ok(_) => r matches Some(Ok(t)) && t@ == self.span_bytes(s),
                    Err(e) => r == Some(Err::<&'buf [u8], AsciiError>(e)),
                },
            },
    {
        match self.target_comp_id() {
            Some(v) => match check_printable(v) {
                Ok(()) => Some(Ok(v)),
                Err(e) => Some(Err(e)),
            },
            None => None,
        }
    }

    /// The MsgType field parsed through the dictionary's enum: the field's
    /// bytes are handed to `D::msg_type_from_bytes` and its answer returned;
    /// `None` when the header has no MsgType.
    pub fn msg_type_enum<D: FixDictionary>(&self) -> (r: Option<D::MsgType>)
        requires
            self.wf(),
        ensures
            self.spans().msg_type.is_none() ==> r.is_none(),
            self.spans().msg_type matches Some(s) ==> exists|b: &[u8]|
                b@ == self.bytes().subrange(s.offset as int, s.offset + s.len) && call_ensures(
                    D::msg_type_from_bytes,
                    (b,),
                    r,
                ),
    {
        match self.msg_type {
            Some(s) => D::msg_type_from_bytes(s.slice(self.buf)),
            None => None,
        }
    }
}

} // verus!
