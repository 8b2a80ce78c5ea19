use vstd::prelude::*;

verus! {

/// Field delimiter of the FIX tag=value encoding.
pub const SOH: u8 = 1;

pub open spec fn is_digit(b: u8) -> bool {
    48 <= b <= 57
}

pub open spec fn all_digits(s: Seq<u8>) -> bool {
    forall|i: int| 0 <= i < s.len() ==> is_digit(#[trigger] s[i])
}

/// Decimal value of a string of ASCII digits.
pub open spec fn digits_value(s: Seq<u8>) -> nat
    decreases s.len(),
{
    if s.len() == 0 {
        0
    } else {
        digits_value(s.drop_last()) * 10 + (s.last() - 48) as nat
    }
}

/// Shortest decimal representation of `n`.
pub open spec fn dec(n: nat) -> Seq<u8>
    decreases n,
{
    if n < 10 {
        seq![(n + 48) as u8]
    } else {
        dec(n / 10).push((n % 10 + 48) as u8)
    }
}

/// First index at or after `from` holding `b`, or `s.len()` when there is none.
pub open spec fn index_from(s: Seq<u8>, from: int, b: u8) -> int
    decreases s.len() - from,
{
    if from >= s.len() {
        s.len() as int
    } else if s[from] == b {
        from
    } else {
        index_from(s, from + 1, b)
    }
}

/// The field `tag=value<SOH>` that starts at `pos`: its tag and the bounds
/// of its value. `None` when the bytes at `pos` are not a complete field
/// whose tag is a decimal number that fits in a `u32`.
pub open spec fn field_at(buf: Seq<u8>, pos: int) -> Option<(u32, int, int)> {
    let e = index_from(buf, pos, 61u8);
    let v = index_from(buf, e + 1, SOH);
    if 0 <= pos && pos < e && e < buf.len() && all_digits(buf.subrange(pos, e)) && digits_value(
        buf.subrange(pos, e),
    ) <= u32::MAX && v < buf.len() {
        Some((digits_value(buf.subrange(pos, e)) as u32, e + 1, v))
    } else {
        None
    }
}

/// Bounds of the value of the first field tagged `tag`, scanning fields
/// from `pos` and stopping at the first malformed field.
pub open spec fn find_tag_spec(buf: Seq<u8>, pos: int, tag: u32) -> Option<(int, int)>
    decreases buf.len() - pos,
{
    match field_at(buf, pos) {
        None => None,
        Some((t, vs, ve)) => if t == tag {
            Some((vs, ve))
        } else if pos < ve + 1 <= buf.len() {
            find_tag_spec(buf, ve + 1, tag)
        } else {
            None
        },
    }
}

/// The value bytes of the first field tagged `tag` in `buf`.
pub open spec fn tag_value(buf: Seq<u8>, tag: u32) -> Option<Seq<u8>> {
    match find_tag_spec(buf, 0, tag) {
        Some((a, b)) => Some(buf.subrange(a, b)),
        None => None,
    }
}

/// A FIX unsigned integer that fits in a `u32`.
pub open spec fn uint_of(v: Seq<u8>) -> Option<u32> {
    if v.len() > 0 && all_digits(v) && digits_value(v) <= u32::MAX {
        Some(digits_value(v) as u32)
    } else {
        None
    }
}

/// A FIX boolean: `Y` or `N`.
pub open spec fn bool_of(v: Seq<u8>) -> Option<bool> {
    if v == seq![89u8] {
        Some(true)
    } else if v == seq![78u8] {
        Some(false)
    } else {
        None
    }
}

/// The encoding of one field: `tag=value<SOH>`.
pub open spec fn field_bytes(tag: nat, value: Seq<u8>) -> Seq<u8> {
    dec(tag) + seq![61u8] + value + seq![SOH]
}

/// The encoding of a list of fields, in order.
pub open spec fn fields_bytes(fs: Seq<(u32, Seq<u8>)>) -> Seq<u8>
    decreases fs.len(),
{
    if fs.len() == 0 {
        Seq::empty()
    } else {
        fields_bytes(fs.drop_last()) + field_bytes(fs.last().0 as nat, fs.last().1)
    }
}

pub open spec fn sum_bytes(s: Seq<u8>) -> nat
    decreases s.len(),
{
    if s.len() == 0 {
        0
    } else {
        sum_bytes(s.drop_last()) + s.last() as nat
    }
}

/// FIX checksum: the byte sum modulo 256.
pub open spec fn checksum(s: Seq<u8>) -> nat {
    sum_bytes(s) % 256
}

/// `n < 1000` written with exactly three digits.
pub open spec fn three_digits(n: nat) -> Seq<u8> {
    seq![(n / 100 % 10 + 48) as u8, (n / 10 % 10 + 48) as u8, (n % 10 + 48) as u8]
}

/// The body of a message: `35=<msg_type>` followed by the given fields.
pub open spec fn body_bytes(msg_type: Seq<u8>, fs: Seq<(u32, Seq<u8>)>) -> Seq<u8> {
    field_bytes(35, msg_type) + fields_bytes(fs)
}

/// A complete frame: `8=<begin>|9=<body length>|<body>10=<checksum>|`.
pub open spec fn frame_bytes(begin: Seq<u8>, msg_type: Seq<u8>, fs: Seq<(u32, Seq<u8>)>) -> Seq<u8> {
    let body = body_bytes(msg_type, fs);
    let pre = field_bytes(8, begin) + field_bytes(9, dec(body.len())) + body;
    pre + seq![49u8, 48u8, 61u8] + three_digits(checksum(pre)) + seq![SOH]
}

/// Whether `msg` ends with a checksum trailer `10=ddd<SOH>` that matches the
/// byte sum of everything before it.
pub open spec fn checksum_ok(msg: Seq<u8>) -> bool {
    let n = msg.len() as int;
    &&& n >= 7
    &&& msg.subrange(n - 7, n - 4) == seq![49u8, 48u8, 61u8]
    &&& msg[n - 1] == SOH
    &&& all_digits(msg.subrange(n - 4, n - 1))
    &&& digits_value(msg.subrange(n - 4, n - 1)) == checksum(msg.subrange(0, n - 7))
}

/// The view of a list of exec fields.
pub open spec fn fields_view(fs: Seq<(u32, Vec<u8>)>) -> Seq<(u32, Seq<u8>)> {
    fs.map_values(|p: (u32, Vec<u8>)| (p.0, p.1@))
}

pub proof fn lemma_dec_digits(n: nat)
    ensures
        all_digits(dec(n)),
        digits_value(dec(n)) == n,
        dec(n).len() >= 1,
        n < 10 ==> dec(n).len() == 1,
        n >= 10 ==> dec(n).len() == dec(n / 10).len() + 1,
    decreases n,
{
    if n >= 10 {
        lemma_dec_digits(n / 10);
        let s = dec(n);
        assert(s.drop_last() =~= dec(n / 10));
        assert(s.last() == (n % 10 + 48) as u8);
        assert(((n % 10 + 48) as u8 - 48) as nat == n % 10);
        assert(n == (n / 10) * 10 + n % 10);
        assert(digits_value(s) == digits_value(s.drop_last()) * 10 + (s.last() - 48) as nat);
    } else {
        let s = dec(n);
        assert(s.drop_last() =~= Seq::<u8>::empty());
        assert(digits_value(Seq::<u8>::empty()) == 0);
        assert(digits_value(s) == digits_value(s.drop_last()) * 10 + (s.last() - 48) as nat);
    }
}

/// Ten to the power `k`.
pub open spec fn pow10(k: nat) -> nat
    decreases k,
{
    if k == 0 {
        1
    } else {
        10 * pow10((k - 1) as nat)
    }
}

proof fn lemma_dec_len_pow(n: nat, k: nat)
    requires
        k >= 1,
        n < pow10(k),
    ensures
        dec(n).len() <= k,
    decreases k,
{
    lemma_dec_digits(n);
    if n >= 10 {
        if k == 1 {
            assert(pow10(1) == 10) by {
                reveal_with_fuel(pow10, 2);
            }
        } else {
            assert(n / 10 < pow10((k - 1) as nat));
            lemma_dec_len_pow(n / 10, (k - 1) as nat);
        }
    }
}

proof fn lemma_dec_len_bound(n: nat)
    ensures
        n <= u64::MAX ==> dec(n).len() <= 20,
        n <= u32::MAX ==> dec(n).len() <= 10,
{
    assert(pow10(10) == 10000000000) by {
        reveal_with_fuel(pow10, 11);
    }
    assert(pow10(20) == 100000000000000000000) by {
        reveal_with_fuel(pow10, 21);
    }
    if n <= u32::MAX {
        lemma_dec_len_pow(n, 10);
    }
    if n <= u64::MAX {
        lemma_dec_len_pow(n, 20);
    }
}


/// No byte of `v` is the field delimiter.
pub open spec fn no_soh(v: Seq<u8>) -> bool {
    forall|i: int| 0 <= i < v.len() ==> v[i] != SOH
}

/// Every value in `fs` is free of the field delimiter.
pub open spec fn values_no_soh(fs: Seq<(u32, Seq<u8>)>) -> bool {
    forall|i: int| 0 <= i < fs.len() ==> no_soh(#[trigger] fs[i].1)
}

/// Index of the first field of `fs` tagged `tag`, or `fs.len()`.
pub open spec fn first_with_tag(fs: Seq<(u32, Seq<u8>)>, tag: u32) -> int
    decreases fs.len(),
{
    if fs.len() == 0 {
        0
    } else if fs[0].0 == tag {
        0
    } else {
        1 + first_with_tag(fs.drop_first(), tag)
    }
}

/// The header fields `8`, `9` and `35` of a frame followed by its body fields.
pub open spec fn frame_fields(begin: Seq<u8>, msg_type: Seq<u8>, fs: Seq<(u32, Seq<u8>)>) -> Seq<
    (u32, Seq<u8>),
> {
    seq![
        (8u32, begin),
        (9u32, dec(body_bytes(msg_type, fs).len())),
        (35u32, msg_type),
    ] + fs
}

/// A number written by `push_dec` parses back to itself.
pub proof fn lemma_uint_round_trip(n: u32)
    ensures
        uint_of(dec(n as nat)) == Some(n),
{
    lemma_dec_digits(n as nat);
}

/// Every frame that `build_frame` produces passes `validate_checksum`.
pub proof fn lemma_frame_checksum_ok(begin: Seq<u8>, msg_type: Seq<u8>, fs: Seq<(u32, Seq<u8>)>)
    ensures
        checksum_ok(frame_bytes(begin, msg_type, fs)),
{
    let body = body_bytes(msg_type, fs);
    let pre = field_bytes(8, begin) + field_bytes(9, dec(body.len())) + body;
    let c = checksum(pre);
    let t = three_digits(c);
    let msg = frame_bytes(begin, msg_type, fs);
    let n = msg.len() as int;
    assert(msg =~= pre + seq![49u8, 48u8, 61u8] + t + seq![SOH]);
    assert(n == pre.len() + 7);
    assert(msg.subrange(n - 7, n - 4) =~= seq![49u8, 48u8, 61u8]);
    assert(msg.subrange(n - 4, n - 1) =~= t);
    assert(msg.subrange(0, n - 7) =~= pre);
    assert(c < 256);
    let d0 = (c / 100 % 10 + 48) as u8;
    let d1 = (c / 10 % 10 + 48) as u8;
    let d2 = (c % 10 + 48) as u8;
    assert(t.drop_last() =~= seq![d0, d1]);
    assert(seq![d0, d1].drop_last() =~= seq![d0]);
    assert(seq![d0].drop_last() =~= Seq::<u8>::empty());
    assert(digits_value(Seq::<u8>::empty()) == 0);
    assert(digits_value(seq![d0]) == (d0 - 48) as nat);
    assert(digits_value(seq![d0, d1]) == (d0 - 48) * 10 + (d1 - 48));
    assert(digits_value(t) == ((d0 - 48) * 10 + (d1 - 48)) * 10 + (d2 - 48));
    assert(c == (c / 100 % 10) * 100 + (c / 10 % 10) * 10 + c % 10);
}

proof fn lemma_fields_bytes_concat(a: Seq<(u32, Seq<u8>)>, b: Seq<(u32, Seq<u8>)>)
    ensures
        fields_bytes(a + b) == fields_bytes(a) + fields_bytes(b),
    decreases b.len(),
{
    if b.len() == 0 {
        assert(a + b =~= a);
        assert(fields_bytes(a) + fields_bytes(b) =~= fields_bytes(a));
    } else {
        lemma_fields_bytes_concat(a, b.drop_last());
        assert((a + b).drop_last() =~= a + b.drop_last());
        assert((a + b).last() == b.last());
        assert(fields_bytes(a + b) =~= fields_bytes(a) + fields_bytes(b));
    }
}

proof fn lemma_fields_bytes_one(f: (u32, Seq<u8>))
    ensures
        fields_bytes(seq![f]) == field_bytes(f.0 as nat, f.1),
{
    let s = seq![f];
    assert(s.drop_last() =~= Seq::<(u32, Seq<u8>)>::empty());
    assert(fields_bytes(Seq::<(u32, Seq<u8>)>::empty()) == Seq::<u8>::empty());
    assert(s.last() == f);
    assert(fields_bytes(s) =~= field_bytes(f.0 as nat, f.1));
}

proof fn lemma_index_from_at(s: Seq<u8>, from: int, k: int, b: u8)
    requires
        0 <= from <= k < s.len(),
        s[k] == b,
        forall|j: int| from <= j < k ==> s[j] != b,
    ensures
        index_from(s, from, b) == k,
    decreases k - from,
{
    if from < k {
        lemma_index_from_at(s, from + 1, k, b);
    }
}

/// The field `tag=value<SOH>` written at `pos` reads back as that tag and
/// value.
proof fn lemma_field_at_written(buf: Seq<u8>, pos: int, tag: u32, v: Seq<u8>)
    requires
        0 <= pos,
        pos + field_bytes(tag as nat, v).len() <= buf.len(),
        buf.subrange(pos, pos + field_bytes(tag as nat, v).len()) == field_bytes(tag as nat, v),
        no_soh(v),
    ensures
        field_at(buf, pos) == Some(
            (tag, pos + dec(tag as nat).len() + 1, pos + dec(tag as nat).len() + 1 + v.len()),
        ),
{
    let d = dec(tag as nat);
    let f = field_bytes(tag as nat, v);
    lemma_dec_digits(tag as nat);
    let e = pos + d.len();
    assert forall|j: int| pos <= j < e implies buf[j] != 61u8 by {
        assert(buf[j] == f[j - pos]);
        assert(f[j - pos] == d[j - pos]);
        assert(is_digit(d[j - pos]));
    }
    assert(buf[e] == f[d.len() as int]);
    lemma_index_from_at(buf, pos, e, 61u8);
    let ve = e + 1 + v.len();
    assert forall|j: int| e + 1 <= j < ve implies buf[j] != SOH by {
        assert(buf[j] == f[j - pos]);
        assert(f[j - pos] == v[j - e - 1]);
    }
    assert(buf[ve] == f[ve - pos]);
    lemma_index_from_at(buf, e + 1, ve, SOH);
    assert(buf.subrange(pos, e) =~= d);
}

/// Scanning for `tag` across encoded fields none of which carries it ends
/// where those fields end.
proof fn lemma_find_skips(buf: Seq<u8>, pos: int, fs: Seq<(u32, Seq<u8>)>, tag: u32)
    requires
        0 <= pos,
        pos + fields_bytes(fs).len() < buf.len(),
        buf.subrange(pos, pos + fields_bytes(fs).len()) == fields_bytes(fs),
        values_no_soh(fs),
        forall|i: int| 0 <= i < fs.len() ==> (#[trigger] fs[i]).0 != tag,
    ensures
        find_tag_spec(buf, pos, tag) == find_tag_spec(buf, pos + fields_bytes(fs).len(), tag),
    decreases fs.len(),
{
    if fs.len() > 0 {
        let f0 = fs[0];
        let rest = fs.drop_first();
        lemma_fields_bytes_concat(seq![f0], rest);
        assert(seq![f0] + rest =~= fs);
        lemma_fields_bytes_one(f0);
        let fb = field_bytes(f0.0 as nat, f0.1);
        assert(buf.subrange(pos, pos + fb.len()) =~= fb) by {
            assert forall|j: int| 0 <= j < fb.len() implies buf.subrange(pos, pos + fb.len())[j]
                == fb[j] by {
                assert(buf.subrange(pos, pos + fields_bytes(fs).len())[j] == fields_bytes(fs)[j]);
            }
        }
        assert(no_soh(fs[0].1));
        lemma_field_at_written(buf, pos, f0.0, f0.1);
        let np = pos + fb.len();
        assert(buf.subrange(np, np + fields_bytes(rest).len()) =~= fields_bytes(rest)) by {
            assert forall|j: int| 0 <= j < fields_bytes(rest).len() implies buf.subrange(
                np,
                np + fields_bytes(rest).len(),
            )[j] == fields_bytes(rest)[j] by {
                assert(buf.subrange(pos, pos + fields_bytes(fs).len())[fb.len() + j]
                    == fields_bytes(fs)[fb.len() + j]);
            }
        }
        assert forall|i: int| 0 <= i < rest.len() implies no_soh(#[trigger] rest[i].1) by {
            assert(rest[i] == fs[i + 1]);
        }
        assert forall|i: int| 0 <= i < rest.len() implies (#[trigger] rest[i]).0 != tag by {
            assert(rest[i] == fs[i + 1]);
        }
        lemma_find_skips(buf, np, rest, tag);
    }
}

/// The index of the first field with a tag is in range, and no earlier field
/// has that tag.
pub proof fn lemma_first_with_tag(fs: Seq<(u32, Seq<u8>)>, tag: u32)
    ensures
        0 <= first_with_tag(fs, tag) <= fs.len(),
        forall|i: int| 0 <= i < first_with_tag(fs, tag) ==> (#[trigger] fs[i]).0 != tag,
        first_with_tag(fs, tag) < fs.len() ==> fs[first_with_tag(fs, tag)].0 == tag,
    decreases fs.len(),
{
    if fs.len() > 0 && fs[0].0 != tag {
        lemma_first_with_tag(fs.drop_first(), tag);
        assert forall|i: int| 0 <= i < first_with_tag(fs, tag) implies (#[trigger] fs[i]).0 != tag by {
            if i > 0 {
                assert(fs[i] == fs.drop_first()[i - 1]);
            }
        }
    }
}

/// Reading a tag from a run of encoded fields gives the value of the first
/// field that carries it.
pub proof fn lemma_tag_value_fields(fs: Seq<(u32, Seq<u8>)>, rest: Seq<u8>, tag: u32)
    requires
        values_no_soh(fs),
        first_with_tag(fs, tag) < fs.len(),
        rest.len() > 0,
    ensures
        tag_value(fields_bytes(fs) + rest, tag) == Some(fs[first_with_tag(fs, tag)].1),
{
    let k = first_with_tag(fs, tag);
    lemma_first_with_tag(fs, tag);
    let a = fs.take(k);
    let b = fs.skip(k);
    assert(a + b =~= fs);
    lemma_fields_bytes_concat(a, b);
    let buf = fields_bytes(fs) + rest;
    let fa = fields_bytes(a);
    assert(buf.subrange(0, fa.len() as int) =~= fa);
    assert forall|i: int| 0 <= i < a.len() implies no_soh(#[trigger] a[i].1) by {
        assert(a[i] == fs[i]);
    }
    assert forall|i: int| 0 <= i < a.len() implies (#[trigger] a[i]).0 != tag by {
        assert(a[i] == fs[i]);
    }
    let hit = fs[k];
    let b_rest = b.drop_first();
    assert(seq![hit] + b_rest =~= b);
    lemma_fields_bytes_concat(seq![hit], b_rest);
    lemma_fields_bytes_one(hit);
    let fb = field_bytes(hit.0 as nat, hit.1);
    assert(fields_bytes(b).len() >= fb.len());
    lemma_find_skips(buf, 0, a, tag);
    let p = fa.len() as int;
    assert(buf.subrange(p, p + fb.len()) =~= fb) by {
        assert forall|j: int| 0 <= j < fb.len() implies buf.subrange(p, p + fb.len())[j] == fb[j] by {
            assert(buf[p + j] == fields_bytes(fs)[p + j]);
            assert(fields_bytes(fs)[p + j] == fields_bytes(b)[j]);
            assert(fields_bytes(b)[j] == fb[j]);
        }
    }
    assert(no_soh(fs[k].1));
    lemma_field_at_written(buf, p, hit.0, hit.1);
    let vs = p + dec(hit.0 as nat).len() + 1;
    assert(buf.subrange(vs, vs + hit.1.len()) =~= hit.1) by {
        assert forall|j: int| 0 <= j < hit.1.len() implies buf.subrange(vs, vs + hit.1.len())[j]
            == hit.1[j] by {
            assert(buf[vs + j] == fb[dec(hit.0 as nat).len() + 1 + j]);
        }
    }
}

/// What `build_frame` writes reads back: the begin string under tag 8, the
/// body length under tag 9, the message type under tag 35, and each body
/// field under its tag (the first one, where a tag repeats), provided no
/// value contains the delimiter.
pub proof fn lemma_frame_fields_read_back(
    begin: Seq<u8>,
    msg_type: Seq<u8>,
    fs: Seq<(u32, Seq<u8>)>,
    tag: u32,
)
    requires
        values_no_soh(frame_fields(begin, msg_type, fs)),
        first_with_tag(frame_fields(begin, msg_type, fs), tag) < frame_fields(
            begin,
            msg_type,
            fs,
        ).len(),
    ensures
        tag_value(frame_bytes(begin, msg_type, fs), tag) == Some(
            frame_fields(begin, msg_type, fs)[first_with_tag(
                frame_fields(begin, msg_type, fs),
                tag,
            )].1,
        ),
        tag == 8 ==> tag_value(frame_bytes(begin, msg_type, fs), tag) == Some(begin),
        tag == 9 ==> tag_value(frame_bytes(begin, msg_type, fs), tag) == Some(
            dec(body_bytes(msg_type, fs).len()),
        ),
        tag == 35 ==> tag_value(frame_bytes(begin, msg_type, fs), tag) == Some(msg_type),
{
    let all = frame_fields(begin, msg_type, fs);
    let body = body_bytes(msg_type, fs);
    let f8 = (8u32, begin);
    let f9 = (9u32, dec(body.len()));
    let f35 = (35u32, msg_type);
    let h = seq![f8, f9, f35];
    lemma_fields_bytes_concat(h, fs);
    assert(h =~= seq![f8] + seq![f9] + seq![f35]);
    lemma_fields_bytes_concat(seq![f8] + seq![f9], seq![f35]);
    lemma_fields_bytes_concat(seq![f8], seq![f9]);
    lemma_fields_bytes_one(f8);
    lemma_fields_bytes_one(f9);
    lemma_fields_bytes_one(f35);
    let pre = field_bytes(8, begin) + field_bytes(9, dec(body.len())) + body;
    assert(fields_bytes(all) =~= pre);
    let trailer = seq![49u8, 48u8, 61u8] + three_digits(checksum(pre)) + seq![SOH];
    assert(frame_bytes(begin, msg_type, fs) =~= fields_bytes(all) + trailer);
    lemma_tag_value_fields(all, trailer, tag);
    assert(all[0] == (8u32, begin));
    assert(all[1] == (9u32, dec(body.len())));
    assert(all[2] == (35u32, msg_type));
    assert(all.drop_first()[0] == all[1]);
    assert(all.drop_first().drop_first()[0] == all[2]);
    if tag == 9 {
        assert(first_with_tag(all.drop_first(), 9) == 0);
        assert(first_with_tag(all, 9) == 1);
    }
    if tag == 35 {
        assert(first_with_tag(all.drop_first().drop_first(), 35) == 0);
        assert(first_with_tag(all.drop_first(), 35) == 1);
        assert(first_with_tag(all, 35) == 2);
    }
}

/// Length of the complete frame at the start of `buf`: the `8=` and `9=`
/// fields, then as many body bytes as tag 9 gives, then the 7-byte checksum
/// trailer. `None` when `buf` does not start with those two fields or is
/// shorter than the frame they announce.
pub open spec fn frame_len_spec(buf: Seq<u8>) -> Option<int> {
    match field_at(buf, 0) {
        Some((t8, vs8, ve8)) => if t8 != 8 {
            None
        } else {
            match field_at(buf, ve8 + 1) {
                Some((t9, vs9, ve9)) => if t9 != 9 {
                    None
                } else {
                    match uint_of(buf.subrange(vs9, ve9)) {
                        Some(n) => if ve9 + 1 + n + 7 <= buf.len() {
                            Some(ve9 + 1 + n + 7)
                        } else {
                            None
                        },
                        None => None,
                    }
                },
                None => None,
            }
        },
        None => None,
    }
}

/// A complete frame is never empty and lies within the buffer.
pub proof fn lemma_frame_len_bounds(buf: Seq<u8>)
    ensures
        frame_len_spec(buf) matches Some(n) ==> 0 < n <= buf.len(),
{
    lemma_field_at_bounds(buf, 0);
    if let Some((t8, vs8, ve8)) = field_at(buf, 0) {
        lemma_field_at_bounds(buf, ve8 + 1);
    }
}

proof fn lemma_index_from_extend(s: Seq<u8>, t: Seq<u8>, from: int, b: u8)
    requires
        0 <= from,
        index_from(s, from, b) < s.len(),
    ensures
        index_from(s + t, from, b) == index_from(s, from, b),
    decreases s.len() - from,
{
    if s[from] != b {
        lemma_index_from_extend(s, t, from + 1, b);
    }
}

/// A complete field stays the same field whatever follows the buffer.
proof fn lemma_field_at_extend(s: Seq<u8>, t: Seq<u8>, pos: int)
    requires
        field_at(s, pos) is Some,
    ensures
        field_at(s + t, pos) == field_at(s, pos),
{
    let e = index_from(s, pos, 61u8);
    lemma_index_from_extend(s, t, pos, 61u8);
    lemma_index_from_extend(s, t, e + 1, SOH);
    assert((s + t).subrange(pos, e) =~= s.subrange(pos, e));
}

/// A complete frame at the front of a buffer stays the same frame whatever
/// follows it.
pub proof fn lemma_frame_len_extend(s: Seq<u8>, t: Seq<u8>)
    ensures
        frame_len_spec(s) matches Some(n) ==> frame_len_spec(s + t) == Some(n),
{
    if let Some(n) = frame_len_spec(s) {
        lemma_field_at_extend(s, t, 0);
        let (t8, vs8, ve8) = field_at(s, 0)->0;
        lemma_field_at_extend(s, t, ve8 + 1);
        let (t9, vs9, ve9) = field_at(s, ve8 + 1)->0;
        lemma_field_at_bounds(s, ve8 + 1);
        assert((s + t).subrange(vs9, ve9) =~= s.subrange(vs9, ve9));
    }
}

/// Finds the end of the first complete frame in `buf` (see
/// [`frame_len_spec`]).
pub fn complete_frame_len(buf: &[u8]) -> (r: Option<usize>)
    ensures
        match frame_len_spec(buf@) {
            Some(n) => r == Some(n as usize),
            None => r.is_none(),
        },
{
    let len = buf.len();
    let (f8, p8) = match next_field(buf, 0) {
        Some(x) => x,
        None => return None,
    };
    if f8.tag != 8 {
        return None;
    }
    proof {
        lemma_field_at_bounds(buf@, 0);
    }
    let (f9, p9) = match next_field(buf, p8) {
        Some(x) => x,
        None => return None,
    };
    if f9.tag != 9 {
        return None;
    }
    proof {
        lemma_field_at_bounds(buf@, p8 as int);
    }
    let n = match parse_fix_uint(f9.value.slice(buf)) {
        Ok(n) => n,
        Err(_) => return None,
    };
    if len - p9 < 7 || len - p9 - 7 < n as usize {
        return None;
    }
    Some(p9 + n as usize + 7)
}

/// The framer finds exactly the frames `build_frame` writes, whatever
/// follows them (when the begin string has no delimiter and the body
/// length fits a `u32`).
#[verifier::rlimit(40)]
pub proof fn lemma_frame_len_of_built(
    begin: Seq<u8>,
    msg_type: Seq<u8>,
    fs: Seq<(u32, Seq<u8>)>,
    rest: Seq<u8>,
)
    requires
        no_soh(begin),
        body_bytes(msg_type, fs).len() <= u32::MAX,
    ensures
        frame_len_spec(frame_bytes(begin, msg_type, fs) + rest) == Some(
            frame_bytes(begin, msg_type, fs).len() as int,
        ),
{
    let body = body_bytes(msg_type, fs);
    let l = body.len();
    let f8 = field_bytes(8, begin);
    let f9 = field_bytes(9, dec(l));
    let frame = frame_bytes(begin, msg_type, fs);
    let buf = frame + rest;
    let pre = f8 + f9 + body;
    assert(frame =~= pre + seq![49u8, 48u8, 61u8] + three_digits(checksum(pre)) + seq![SOH]);
    assert(buf.subrange(0, f8.len() as int) =~= f8);
    lemma_field_at_written(buf, 0, 8, begin);
    lemma_dec_digits(l);
    assert forall|i: int| 0 <= i < dec(l).len() implies dec(l)[i] != SOH by {
        assert(is_digit(dec(l)[i]));
    }
    let p = f8.len() as int;
    assert(buf.subrange(p, p + f9.len()) =~= f9);
    assert(dec(8).len() == 1);
    assert(p == dec(8).len() + 1 + begin.len() + 1);
    lemma_field_at_written(buf, p, 9, dec(l));
    assert(dec(9).len() == 1);
    let vs9 = p + 2;
    assert(buf.subrange(vs9, vs9 + dec(l).len()) =~= dec(l));
    lemma_uint_round_trip(l as u32);
}

/// The value of a complete field holds no delimiter.
pub proof fn lemma_field_value_no_soh(buf: Seq<u8>, pos: int)
    requires
        field_at(buf, pos) is Some,
    ensures
        ({
            let (t, vs, ve) = field_at(buf, pos)->0;
            no_soh(buf.subrange(vs, ve))
        }),
{
    let e = index_from(buf, pos, 61u8);
    lemma_index_from_ge(buf, pos, 61u8);
    lemma_index_from_ge(buf, e + 1, SOH);
    let (t, vs, ve) = field_at(buf, pos)->0;
    assert forall|i: int| 0 <= i < ve - vs implies buf.subrange(vs, ve)[i] != SOH by {
        assert(buf.subrange(vs, ve)[i] == buf[vs + i]);
    }
}

/// A value read by tag holds no delimiter.
pub proof fn lemma_tag_value_no_soh(buf: Seq<u8>, pos: int, tag: u32)
    ensures
        find_tag_spec(buf, pos, tag) matches Some((a, b)) ==> no_soh(buf.subrange(a, b)),
    decreases buf.len() - pos,
{
    match field_at(buf, pos) {
        None => {},
        Some((t, vs, ve)) => {
            lemma_field_value_no_soh(buf, pos);
            if t != tag && pos < ve + 1 <= buf.len() {
                lemma_tag_value_no_soh(buf, ve + 1, tag);
            }
        },
    }
}

/// A span of a buffer: `buf[offset..offset + len]`.
#[derive(Clone, Copy, Debug, PartialEq, Eq)]
pub struct FieldSpan {
    pub offset: usize,
    pub len: usize,
}

impl FieldSpan {
    pub open spec fn end(&self) -> int {
        self.offset + self.len
    }

    /// The bytes of `buf` covered by this span.
    pub fn slice<'b>(&self, buf: &'b [u8]) -> (r: &'b [u8])
        requires
            self.offset + self.len <= buf@.len(),
        ensures
            r@ == buf@.subrange(self.offset as int, self.offset + self.len),
    {
        let l = buf.len();
        let end = self.offset + self.len;
        &buf[self.offset..end]
    }
}

/// One field of a message: its tag and the span of its value.
#[derive(Clone, Copy, Debug, PartialEq, Eq)]
pub struct RawField {
    pub tag: u32,
    pub value: FieldSpan,
}

/// Reads the field starting at `pos`; returns it and the position of the
/// next field, or `None` when the bytes at `pos` are not a complete field.
pub fn next_field(buf: &[u8], pos: usize) -> (r: Option<(RawField, usize)>)
    ensures
        r matches Some((f, next)) ==> pos < f.value.offset && f.value.offset + f.value.len < next
            <= buf@.len(),
        match field_at(buf@, pos as int) {
            None => r.is_none(),
            Some((t, vs, ve)) => r == Some(
                (RawField { tag: t, value: FieldSpan { offset: vs as usize, len: (ve - vs) as usize } }, (ve + 1) as usize),
            ),
        },
{
    let n = buf.len();
    if pos >= n {
        proof {
            assert(index_from(buf@, pos as int, 61u8) == n);
        }
        return None;
    }
    let mut k = pos;
    let mut acc: u64 = 0;
    while k < n && buf[k] != 61u8
        invariant
            pos <= k <= n,
            n == buf@.len(),
            forall|j: int| pos <= j < k ==> buf@[j] != 61u8,
            index_from(buf@, pos as int, 61u8) == index_from(buf@, k as int, 61u8),
            all_digits(buf@.subrange(pos as int, k as int)),
            acc == digits_value(buf@.subrange(pos as int, k as int)),
            acc <= u32::MAX,
        decreases n - k,
    {
        let b = buf[k];
        if b < 48u8 || b > 57u8 {
            proof {
                lemma_index_from_skips_digits(buf@, pos as int, k as int);
            }
            return None;
        }
        let next: u64 = acc * 10 + (b - 48u8) as u64;
        proof {
            assert(buf@.subrange(pos as int, k as int + 1).drop_last() =~= buf@.subrange(
                pos as int,
                k as int,
            ));
        }
        if next > u32::MAX as u64 {
            proof {
                lemma_too_large(buf@, pos as int, k as int + 1);
            }
            return None;
        }
        acc = next;
        k = k + 1;
    }
    proof {
        lemma_index_from_stop(buf@, k as int, 61u8);
    }
    if k == n || k == pos {
        return None;
    }
    let e = k;
    let mut v = e + 1;
    while v < n && buf[v] != SOH
        invariant
            e + 1 <= v <= n,
            n == buf@.len(),
            index_from(buf@, e as int + 1, SOH) == index_from(buf@, v as int, SOH),
        decreases n - v,
    {
        v = v + 1;
    }
    proof {
        lemma_index_from_stop(buf@, v as int, SOH);
    }
    if v >= n {
        return None;
    }
    proof {
        lemma_index_from_ge(buf@, e as int + 1, SOH);
    }
    Some((RawField { tag: acc as u32, value: FieldSpan { offset: e + 1, len: v - (e + 1) } }, v + 1))
}

/// A complete field lies inside the buffer, after where it starts.
pub proof fn lemma_field_at_bounds(buf: Seq<u8>, pos: int)
    ensures
        field_at(buf, pos) matches Some((t, vs, ve)) ==> pos < vs <= ve < buf.len(),
{
    if pos >= 0 && pos <= buf.len() {
        let e = index_from(buf, pos, 61u8);
        lemma_index_from_ge(buf, pos, 61u8);
        if e < buf.len() {
            lemma_index_from_ge(buf, e + 1, SOH);
        }
    }
}

proof fn lemma_index_from_stop(s: Seq<u8>, k: int, b: u8)
    requires
        0 <= k <= s.len(),
        k < s.len() ==> s[k] == b,
    ensures
        index_from(s, k, b) == k,
{
}

/// A non-digit before the first `=` makes the tag malformed.
proof fn lemma_index_from_skips_digits(s: Seq<u8>, pos: int, k: int)
    requires
        0 <= pos <= k < s.len(),
        !is_digit(s[k]),
        s[k] != 61u8,
        forall|j: int| pos <= j < k ==> s[j] != 61u8,
        index_from(s, pos, 61u8) == index_from(s, k, 61u8),
    ensures
        field_at(s, pos).is_none(),
{
    let e = index_from(s, pos, 61u8);
    if pos < e && e < s.len() && all_digits(s.subrange(pos, e)) {
        lemma_index_from_ge(s, k, 61u8);
        assert(e > k);
        assert(s.subrange(pos, e)[k - pos] == s[k]);
    }
}

proof fn lemma_index_from_ge(s: Seq<u8>, from: int, b: u8)
    requires
        0 <= from <= s.len(),
    ensures
        from <= index_from(s, from, b) <= s.len(),
        index_from(s, from, b) < s.len() ==> s[index_from(s, from, b)] == b,
        forall|j: int| from <= j < index_from(s, from, b) ==> s[j] != b,
    decreases s.len() - from,
{
    if from < s.len() && s[from] != b {
        lemma_index_from_ge(s, from + 1, b);
    }
}

/// Values of digit strings grow with their prefixes.
proof fn lemma_digits_prefix_le(s: Seq<u8>, k: int)
    requires
        0 <= k <= s.len(),
        all_digits(s),
    ensures
        digits_value(s.subrange(0, k)) <= digits_value(s),
    decreases s.len() - k,
{
    if k < s.len() {
        lemma_digits_prefix_le(s.drop_last(), if k <= s.len() - 1 {
            k
        } else {
            s.len() - 1
        });
        if k == s.len() {
            assert(s.subrange(0, k) =~= s);
        } else {
            assert(s.drop_last().subrange(0, k) =~= s.subrange(0, k));
            assert(all_digits(s.drop_last()));
        }
    } else {
        assert(s.subrange(0, k) =~= s);
    }
}

/// Once a tag prefix exceeds `u32::MAX`, so does the tag.
proof fn lemma_too_large(s: Seq<u8>, pos: int, k: int)
    requires
        0 <= pos < k <= s.len(),
        all_digits(s.subrange(pos, k)),
        digits_value(s.subrange(pos, k)) > u32::MAX,
    ensures
        field_at(s, pos).is_none(),
{
    let e = index_from(s, pos, 61u8);
    if pos < e && e < s.len() && all_digits(s.subrange(pos, e)) {
        lemma_index_from_ge(s, pos, 61u8);
        if e >= k {
            lemma_digits_prefix_le(s.subrange(pos, e), k - pos);
            assert(s.subrange(pos, e).subrange(0, k - pos) =~= s.subrange(pos, k));
        } else {
            // all bytes of s[pos..k] are digits, so none is '='
            assert(s.subrange(pos, k)[e - pos] == s[e]);
        }
    }
}

/// Span of the value of the first field tagged `tag`, scanning from `pos`.
pub fn find_tag(buf: &[u8], pos: usize, tag: u32) -> (r: Option<FieldSpan>)
    ensures
        match find_tag_spec(buf@, pos as int, tag) {
            None => r.is_none(),
            Some((a, b)) => r == Some(FieldSpan { offset: a as usize, len: (b - a) as usize }),
        },
    decreases buf@.len() - pos,
{
    proof {
        lemma_field_at_bounds(buf@, pos as int);
    }
    match next_field(buf, pos) {
        None => None,
        Some((f, next)) => {
            if f.tag == tag {
                Some(f.value)
            } else {
                if next > pos && next <= buf.len() {
                    find_tag(buf, next, tag)
                } else {
                    None
                }
            }
        },
    }
}

/// The value of the first field tagged `tag`, or `None`.
pub fn tag_slice<'b>(buf: &'b [u8], tag: u32) -> (r: Option<&'b [u8]>)
    ensures
        match tag_value(buf@, tag) {
            None => r.is_none(),
            Some(v) => r.is_some() && r.unwrap()@ == v,
        },
{
    let n = buf.len();
    match find_tag(buf, 0, tag) {
        None => None,
        Some(span) => {
            proof {
                lemma_find_tag_bounds(buf@, 0, tag);
            }
            Some(span.slice(buf))
        },
    }
}

proof fn lemma_find_tag_bounds(buf: Seq<u8>, pos: int, tag: u32)
    ensures
        find_tag_spec(buf, pos, tag) matches Some((a, b)) ==> 0 <= a <= b < buf.len(),
    decreases buf.len() - pos,
{
    match field_at(buf, pos) {
        None => {},
        Some((t, vs, ve)) => {
            let e = index_from(buf, pos, 61u8);
            lemma_index_from_ge(buf, pos, 61u8);
            lemma_index_from_ge(buf, e + 1, SOH);
            if t != tag && pos < ve + 1 <= buf.len() {
                lemma_find_tag_bounds(buf, ve + 1, tag);
            }
        },
    }
}

/// Error from parsing a field value.
#[derive(Clone, Copy, Debug, PartialEq, Eq)]
pub enum ParseError {
    /// Empty value, a non-digit, or a number out of range.
    InvalidNumber,
    /// A boolean other than `Y` or `N`.
    InvalidBool,
}

/// Parses a FIX unsigned integer that fits in a `u32`.
pub fn parse_fix_uint(v: &[u8]) -> (r: Result<u32, ParseError>)
    ensures
        match uint_of(v@) {
            Some(n) => r == Ok::<u32, ParseError>(n),
            None => r == Err::<u32, ParseError>(ParseError::InvalidNumber),
        },
{
    if v.len() == 0 {
        return Err(ParseError::InvalidNumber);
    }
    let mut acc: u64 = 0;
    let mut i: usize = 0;
    while i < v.len()
        invariant
            0 <= i <= v@.len(),
            all_digits(v@.subrange(0, i as int)),
            acc == digits_value(v@.subrange(0, i as int)),
            acc <= u32::MAX,
        decreases v@.len() - i,
    {
        let b = v[i];
        if b < 48u8 || b > 57u8 {
            return Err(ParseError::InvalidNumber);
        }
        proof {
            assert(v@.subrange(0, i as int + 1).drop_last() =~= v@.subrange(0, i as int));
        }
        let next = acc * 10 + (b - 48u8) as u64;
        if next > u32::MAX as u64 {
            proof {
                if all_digits(v@) {
                    lemma_digits_prefix_le(v@, i as int + 1);
                }
            }
            return Err(ParseError::InvalidNumber);
        }
        acc = next;
        i = i + 1;
    }
    proof {
        assert(v@.subrange(0, v@.len() as int) =~= v@);
    }
    Ok(acc as u32)
}

/// Parses a FIX boolean: `Y` is true, `N` is false.
pub fn parse_fix_bool(v: &[u8]) -> (r: Result<bool, ParseError>)
    ensures
        match bool_of(v@) {
            Some(b) => r == Ok::<bool, ParseError>(b),
            None => r == Err::<bool, ParseError>(ParseError::InvalidBool),
        },
{
    if v.len() == 1 && v[0] == 89u8 {
        proof {
            assert(v@ =~= seq![89u8]);
        }
        Ok(true)
    } else if v.len() == 1 && v[0] == 78u8 {
        proof {
            assert(v@ =~= seq![78u8]);
        }
        Ok(false)
    } else {
        proof {
            if v@ == seq![89u8] || v@ == seq![78u8] {
                assert(v@.len() == 1);
            }
        }
        Err(ParseError::InvalidBool)
    }
}

/// A FIX unsigned integer that fits in a `u64`, such as a sequence number.
pub open spec fn u64_of(v: Seq<u8>) -> Option<u64> {
    if v.len() > 0 && all_digits(v) && digits_value(v) <= u64::MAX {
        Some(digits_value(v) as u64)
    } else {
        None
    }
}

/// Parses a FIX unsigned integer that fits in a `u64`.
pub fn parse_fix_u64(v: &[u8]) -> (r: Result<u64, ParseError>)
    ensures
        match u64_of(v@) {
            Some(n) => r == Ok::<u64, ParseError>(n),
            None => r == Err::<u64, ParseError>(ParseError::InvalidNumber),
        },
{
    if v.len() == 0 {
        return Err(ParseError::InvalidNumber);
    }
    let mut acc: u128 = 0;
    let mut i: usize = 0;
    while i < v.len()
        invariant
            0 <= i <= v@.len(),
            all_digits(v@.subrange(0, i as int)),
            acc == digits_value(v@.subrange(0, i as int)),
            acc <= u64::MAX,
        decreases v@.len() - i,
    {
        let b = v[i];
        if b < 48u8 || b > 57u8 {
            return Err(ParseError::InvalidNumber);
        }
        proof {
            assert(v@.subrange(0, i as int + 1).drop_last() =~= v@.subrange(0, i as int));
        }
        let next = acc * 10 + (b - 48u8) as u128;
        if next > u64::MAX as u128 {
            proof {
                if all_digits(v@) {
                    lemma_digits_prefix_le(v@, i as int + 1);
                }
            }
            return Err(ParseError::InvalidNumber);
        }
        acc = next;
        i = i + 1;
    }
    proof {
        assert(v@.subrange(0, v@.len() as int) =~= v@);
    }
    Ok(acc as u64)
}

/// Whether `b` is printable ASCII: space through tilde.
pub open spec fn is_printable(b: u8) -> bool {
    0x20 <= b <= 0x7E
}

/// Why bytes are not printable ASCII text.
#[derive(Clone, Copy, Debug, PartialEq, Eq, Structural)]
pub enum AsciiError {
    /// The first byte that is not printable, and its position.
    NonPrintable { byte: u8, pos: usize },
}

/// What checking `v` as printable ASCII text gives: `Ok` when every byte
/// is printable, the first byte that is not otherwise.
pub open spec fn printable_check(v: Seq<u8>) -> Result<(), AsciiError> {
    if forall|i: int| 0 <= i < v.len() ==> is_printable(#[trigger] v[i]) {
        Ok(())
    } else {
        let pos = choose|p: int|
            0 <= p < v.len() && !is_printable(#[trigger] v[p]) && forall|j: int|
                0 <= j < p ==> is_printable(#[trigger] v[j]);
        Err(AsciiError::NonPrintable { byte: v[pos], pos: pos as usize })
    }
}

/// Checks that `v` is printable ASCII text (see [`printable_check`]).
pub fn check_printable(v: &[u8]) -> (r: Result<(), AsciiError>)
    ensures
        r == printable_check(v@),
{
    let mut i: usize = 0;
    while i < v.len()
        invariant
            0 <= i <= v@.len(),
            forall|j: int| 0 <= j < i ==> is_printable(#[trigger] v@[j]),
        decreases v@.len() - i,
    {
        if v[i] < 0x20u8 || v[i] > 0x7Eu8 {
            proof {
                let p = i as int;
                assert(0 <= p < v@.len() && !is_printable(v@[p]) && forall|j: int|
                    0 <= j < p ==> is_printable(#[trigger] v@[j]));
                let q = choose|q: int|
                    0 <= q < v@.len() && !is_printable(#[trigger] v@[q]) && forall|j: int|
                        0 <= j < q ==> is_printable(#[trigger] v@[j]);
                if q < p {
                    assert(is_printable(v@[q]));
                } else if q > p {
                    assert(is_printable(v@[p]));
                }
            }
            return Err(AsciiError::NonPrintable { byte: v[i], pos: i });
        }
        i = i + 1;
    }
    Ok(())
}

/// Appends the decimal digits of `n` to `out`.
pub fn push_dec(out: &mut Vec<u8>, n: u64)
    ensures
        final(out)@ == old(out)@ + dec(n as nat),
    decreases n,
{
    if n >= 10 {
        push_dec(out, n / 10);
    }
    out.push((n % 10) as u8 + 48u8);
    proof {
        if n >= 10 {
            assert(dec(n as nat) == dec((n / 10) as nat).push((n % 10 + 48) as u8));
        }
    }
}

/// Writes the decimal digits of `v` at the start of `out`; returns their count.
pub fn encode_fix_uint(v: u32, out: &mut [u8; 10]) -> (n: usize)
    ensures
        n <= 10,
        n == dec(v as nat).len(),
        final(out)@.subrange(0, n as int) == dec(v as nat),
{
    let mut d: Vec<u8> = Vec::new();
    push_dec(&mut d, v as u64);
    proof {
        lemma_dec_len_bound(v as nat);
        assert(d@ =~= dec(v as nat));
    }
    let n = d.len();
    let mut i: usize = 0;
    while i < n
        invariant
            0 <= i <= n <= 10,
            d@ == dec(v as nat),
            n == d@.len(),
            forall|k: int| 0 <= k < i ==> out@[k] == d@[k],
        decreases n - i,
    {
        out[i] = d[i];
        i = i + 1;
    }
    proof {
        assert(out@.subrange(0, n as int) =~= d@);
    }
    n
}

/// Writes the decimal digits of `v` at the start of `out`; returns their count.
pub fn encode_fix_seqnum(v: u64, out: &mut [u8; 20]) -> (n: usize)
    ensures
        n <= 20,
        n == dec(v as nat).len(),
        final(out)@.subrange(0, n as int) == dec(v as nat),
{
    let mut d: Vec<u8> = Vec::new();
    push_dec(&mut d, v);
    proof {
        lemma_dec_len_bound(v as nat);
        assert(d@ =~= dec(v as nat));
    }
    let n = d.len();
    let mut i: usize = 0;
    while i < n
        invariant
            0 <= i <= n <= 20,
            d@ == dec(v as nat),
            n == d@.len(),
            forall|k: int| 0 <= k < i ==> out@[k] == d@[k],
        decreases n - i,
    {
        out[i] = d[i];
        i = i + 1;
    }
    proof {
        assert(out@.subrange(0, n as int) =~= d@);
    }
    n
}

/// Appends the encoding of one field, `tag=value<SOH>`, to `out`.
pub fn push_field(out: &mut Vec<u8>, tag: u32, value: &[u8])
    ensures
        final(out)@ == old(out)@ + field_bytes(tag as nat, value@),
{
    push_dec(out, tag as u64);
    out.push(61u8);
    let mut i: usize = 0;
    let ghost base = out@;
    while i < value.len()
        invariant
            0 <= i <= value@.len(),
            out@ == base + value@.subrange(0, i as int),
        decreases value@.len() - i,
    {
        out.push(value[i]);
        proof {
            assert(value@.subrange(0, i as int + 1) =~= value@.subrange(0, i as int).push(
                value@[i as int],
            ));
        }
        i = i + 1;
    }
    out.push(SOH);
    proof {
        assert(value@.subrange(0, value@.len() as int) =~= value@);
        assert(out@ =~= old(out)@ + field_bytes(tag as nat, value@));
    }
}

/// Byte sum of `s` modulo 256.
pub fn compute_checksum(s: &Vec<u8>) -> (r: u32)
    ensures
        r == checksum(s@),
{
    let mut acc: u32 = 0;
    let mut i: usize = 0;
    while i < s.len()
        invariant
            0 <= i <= s@.len(),
            acc == sum_bytes(s@.subrange(0, i as int)) % 256,
        decreases s@.len() - i,
    {
        proof {
            assert(s@.subrange(0, i as int + 1).drop_last() =~= s@.subrange(0, i as int));
        }
        acc = (acc + s[i] as u32) % 256;
        i = i + 1;
    }
    proof {
        assert(s@.subrange(0, s@.len() as int) =~= s@);
    }
    acc
}

/// Appends the bytes of `src` to `out`.
pub fn push_bytes(out: &mut Vec<u8>, src: &[u8])
    ensures
        final(out)@ == old(out)@ + src@,
{
    let mut i: usize = 0;
    while i < src.len()
        invariant
            0 <= i <= src@.len(),
            out@ == old(out)@ + src@.subrange(0, i as int),
        decreases src@.len() - i,
    {
        out.push(src[i]);
        proof {
            assert(src@.subrange(0, i as int + 1) =~= src@.subrange(0, i as int).push(
                src@[i as int],
            ));
        }
        i = i + 1;
    }
    proof {
        assert(src@.subrange(0, src@.len() as int) =~= src@);
    }
}

/// Builds the body `35=<type>|<fields>` of a message.
fn build_body(msg_type: &[u8], fields: &Vec<(u32, Vec<u8>)>) -> (r: Vec<u8>)
    ensures
        r@ == body_bytes(msg_type@, fields_view(fields@)),
{
    let mut body: Vec<u8> = Vec::new();
    push_field(&mut body, 35, msg_type);
    let mut i: usize = 0;
    while i < fields.len()
        invariant
            0 <= i <= fields@.len(),
            body@ == field_bytes(35, msg_type@) + fields_bytes(
                fields_view(fields@).subrange(0, i as int),
            ),
        decreases fields@.len() - i,
    {
        push_field(&mut body, fields[i].0, fields[i].1.as_slice());
        proof {
            let fv = fields_view(fields@);
            assert(fv.subrange(0, i as int + 1).drop_last() =~= fv.subrange(0, i as int));
            assert(body@ =~= field_bytes(35, msg_type@) + fields_bytes(fv.subrange(0, i as int + 1)));
        }
        i = i + 1;
    }
    proof {
        assert(fields_view(fields@).subrange(0, fields@.len() as int) =~= fields_view(fields@));
    }
    body
}

/// Builds the complete frame `8=<begin>|9=<len>|35=<type>|<fields>10=<sum>|`.
pub fn build_frame(begin: &[u8], msg_type: &[u8], fields: &Vec<(u32, Vec<u8>)>) -> (r: Vec<u8>)
    ensures
        r@ == frame_bytes(begin@, msg_type@, fields_view(fields@)),
{
    let body = build_body(msg_type, fields);
    let mut frame: Vec<u8> = Vec::new();
    push_field(&mut frame, 8, begin);
    let mut len_digits: Vec<u8> = Vec::new();
    push_dec(&mut len_digits, body.len() as u64);
    push_field(&mut frame, 9, len_digits.as_slice());
    push_bytes(&mut frame, body.as_slice());
    proof {
        assert(len_digits@ =~= dec(body@.len()));
    }
    let cks = compute_checksum(&frame);
    let ghost pre = frame@;
    frame.push(49u8);
    frame.push(48u8);
    frame.push(61u8);
    frame.push((cks / 100 % 10) as u8 + 48u8);
    frame.push((cks / 10 % 10) as u8 + 48u8);
    frame.push((cks % 10) as u8 + 48u8);
    frame.push(SOH);
    proof {
        assert(frame@ =~= pre + seq![49u8, 48u8, 61u8] + three_digits(checksum(pre)) + seq![SOH]);
    }
    frame
}

/// Error from [`validate_checksum`].
#[derive(Clone, Copy, Debug, PartialEq, Eq)]
pub struct ChecksumError;

/// Checks the `10=ddd<SOH>` trailer of a complete message against the byte
/// sum of everything before it.
pub fn validate_checksum(msg: &[u8]) -> (r: Result<(), ChecksumError>)
    ensures
        r.is_ok() == checksum_ok(msg@),
{
    let n = msg.len();
    if n < 7 {
        return Err(ChecksumError);
    }
    if msg[n - 7] != 49u8 || msg[n - 6] != 48u8 || msg[n - 5] != 61u8 || msg[n - 1] != SOH {
        proof {
            if checksum_ok(msg@) {
                assert(msg@.subrange(n - 7, n - 4)[0] == msg@[n - 7]);
                assert(msg@.subrange(n - 7, n - 4)[1] == msg@[n - 6]);
                assert(msg@.subrange(n - 7, n - 4)[2] == msg@[n - 5]);
            }
        }
        return Err(ChecksumError);
    }
    let d0 = msg[n - 4];
    let d1 = msg[n - 3];
    let d2 = msg[n - 2];
    let ghost digits = msg@.subrange(n - 4, n - 1);
    proof {
        assert(digits[0] == d0);
        assert(digits[1] == d1);
        assert(digits[2] == d2);
        assert(msg@.subrange(n - 7, n - 4) =~= seq![49u8, 48u8, 61u8]);
    }
    if d0 < 48u8 || d0 > 57u8 || d1 < 48u8 || d1 > 57u8 || d2 < 48u8 || d2 > 57u8 {
        return Err(ChecksumError);
    }
    let expect: u32 = (d0 - 48u8) as u32 * 100 + (d1 - 48u8) as u32 * 10 + (d2 - 48u8) as u32;
    proof {
        assert(digits.drop_last().drop_last().drop_last() =~= Seq::<u8>::empty());
        assert(digits.drop_last().drop_last() =~= seq![d0]);
        assert(digits.drop_last() =~= seq![d0, d1]);
        assert(seq![d0].drop_last() =~= Seq::<u8>::empty());
        assert(digits_value(Seq::<u8>::empty()) == 0);
        assert(digits_value(seq![d0]) == digits_value(seq![d0].drop_last()) * 10 + (d0 - 48) as nat);
        assert(digits_value(seq![d0]) == (d0 - 48) as nat);
        assert(seq![d0, d1].drop_last() =~= seq![d0]);
        assert(digits_value(seq![d0, d1]) == (d0 - 48) * 10 + (d1 - 48));
        assert(digits_value(digits) == expect);
    }
    let mut pre: Vec<u8> = Vec::new();
    let mut i: usize = 0;
    while i < n - 7
        invariant
            0 <= i <= n - 7,
            n == msg@.len(),
            pre@ == msg@.subrange(0, i as int),
        decreases n - 7 - i,
    {
        pre.push(msg[i]);
        proof {
            assert(msg@.subrange(0, i as int + 1) =~= msg@.subrange(0, i as int).push(
                msg@[i as int],
            ));
        }
        i = i + 1;
    }
    let sum = compute_checksum(&pre);
    if sum == expect {
        Ok(())
    } else {
        Err(ChecksumError)
    }
}

} // verus!
