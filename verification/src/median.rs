use vstd::prelude::*;
use vstd::relations::sorted_by;
use vstd::seq_lib::lemma_sorted_unique;

verus! {

broadcast use vstd::seq_lib::group_to_multiset_ensures;

/// The order `<=` on `i64`.
pub open spec fn le_i64() -> spec_fn(i64, i64) -> bool {
    |a: i64, b: i64| a <= b
}

/// `s` rearranged in ascending order.
pub open spec fn sorted_seq(s: Seq<i64>) -> Seq<i64> {
    s.sort_by(le_i64())
}

pub open spec fn is_sorted(s: Seq<i64>) -> bool {
    forall|i: int, j: int| 0 <= i <= j < s.len() ==> s[i] <= s[j]
}

/// Midpoint of two integers, rounded towards zero (as `i64::midpoint`).
pub open spec fn midpoint(a: int, b: int) -> int {
    trunc_div(a + b, 2)
}

/// Median of an ascending sequence: the middle element, or the midpoint of
/// the two middle elements when the length is even.
pub open spec fn median_of(s: Seq<i64>) -> Option<int> {
    if s.len() == 0 {
        None
    } else if s.len() % 2 == 1 {
        Some(s[(s.len() / 2) as int] as int)
    } else {
        Some(midpoint(s[s.len() / 2 - 1] as int, s[(s.len() / 2) as int] as int))
    }
}

pub open spec fn abs(x: int) -> int {
    if x < 0 {
        -x
    } else {
        x
    }
}

/// Absolute deviations of each element of `s` from `m`.
pub open spec fn deviations(s: Seq<i64>, m: int) -> Seq<i64> {
    s.map_values(|x: i64| abs(x - m) as i64)
}

/// Whether every absolute deviation of `s` from `m` fits in an `i64`.
pub open spec fn deviations_fit(s: Seq<i64>, m: int) -> bool {
    forall|i: int| 0 <= i < s.len() ==> abs(s[i] - m) <= i64::MAX
}

/// Integer division rounding towards zero, as Rust's `/` does.
pub open spec fn trunc_div(a: int, b: int) -> int {
    let q = abs(a) / abs(b);
    if (a < 0) != (b < 0) {
        -q
    } else {
        q
    }
}

/// First quartile of an ascending sequence of at least four elements.
pub open spec fn q1_of(s: Seq<i64>) -> Option<i64> {
    if s.len() < 4 {
        None
    } else {
        Some(s[(s.len() / 4) as int])
    }
}

/// Third quartile of an ascending sequence of at least four elements.
pub open spec fn q3_of(s: Seq<i64>) -> Option<i64> {
    if s.len() < 4 {
        None
    } else {
        Some(s[(3 * s.len() / 4) as int])
    }
}

/// A sequence that is ascending and holds the elements of `s` is `sorted_seq(s)`.
pub proof fn lemma_sorted_is_sort(s: Seq<i64>, t: Seq<i64>)
    requires
        is_sorted(t),
        t.to_multiset() == s.to_multiset(),
    ensures
        t == sorted_seq(s),
{
    s.lemma_sort_by_ensures(le_i64());
    assert(sorted_by(t, le_i64()));
    lemma_sorted_unique(t, sorted_seq(s), le_i64());
}

/// `sorted_seq(s)` is ascending and holds the elements of `s`.
pub proof fn lemma_sort_props(s: Seq<i64>)
    ensures
        is_sorted(sorted_seq(s)),
        sorted_seq(s).to_multiset() == s.to_multiset(),
        sorted_seq(s).len() == s.len(),
{
    s.lemma_sort_by_ensures(le_i64());
    let t = sorted_seq(s);
    assert forall|i: int, j: int| 0 <= i <= j < t.len() implies t[i] <= t[j] by {
        if i < j {
            assert(le_i64()(t[i], t[j]));
        }
    }
    assert(t.len() == t.to_multiset().len());
    assert(s.len() == s.to_multiset().len());
}

/// The test "is below `v`".
pub open spec fn below(v: int) -> spec_fn(i64) -> bool {
    |x: i64| x < v
}

/// The test "is at most `v`".
pub open spec fn at_most(v: int) -> spec_fn(i64) -> bool {
    |x: i64| x <= v
}

/// Number of elements of `s` that pass `p`.
pub open spec fn count_where(s: Seq<i64>, p: spec_fn(i64) -> bool) -> nat
    decreases s.len(),
{
    if s.len() == 0 {
        0
    } else {
        count_where(s.drop_last(), p) + if p(s.last()) {
            1nat
        } else {
            0nat
        }
    }
}

/// Whether `v` is the element of rank `k` (counting from 0) of `s` taken in
/// ascending order: at most `k` elements of `s` are below `v`, and more than
/// `k` are at most `v`.
pub open spec fn has_rank(s: Seq<i64>, v: int, k: int) -> bool {
    &&& count_where(s, below(v)) <= k
    &&& count_where(s, at_most(v)) > k
}

proof fn lemma_count_le_len(s: Seq<i64>, p: spec_fn(i64) -> bool)
    ensures
        count_where(s, p) <= s.len(),
    decreases s.len(),
{
    if s.len() > 0 {
        lemma_count_le_len(s.drop_last(), p);
    }
}

proof fn lemma_count_remove(t: Seq<i64>, i: int, p: spec_fn(i64) -> bool)
    requires
        0 <= i < t.len(),
    ensures
        count_where(t, p) == count_where(t.remove(i), p) + if p(t[i]) {
            1nat
        } else {
            0nat
        },
    decreases t.len(),
{
    if i == t.len() - 1 {
        assert(t.remove(i) =~= t.drop_last());
    } else {
        lemma_count_remove(t.drop_last(), i, p);
        assert(t.remove(i).drop_last() =~= t.drop_last().remove(i));
        assert(t.remove(i).last() == t.last());
    }
}

/// How many elements pass a test does not depend on their order.
proof fn lemma_count_perm(s: Seq<i64>, t: Seq<i64>, p: spec_fn(i64) -> bool)
    requires
        s.to_multiset() == t.to_multiset(),
    ensures
        count_where(s, p) == count_where(t, p),
    decreases s.len(),
{
    broadcast use vstd::multiset::group_multiset_axioms;

    if s.len() == 0 {
        assert(s.to_multiset().len() == s.len());
        assert(t.to_multiset().len() == t.len());
    } else {
        let x = s.last();
        let sp = s.drop_last();
        assert(sp.push(x) =~= s);
        assert(s.to_multiset().count(x) > 0);
        assert(t.to_multiset().count(x) > 0);
        assert(t.contains(x));
        let i = choose|i: int| 0 <= i < t.len() && t[i] == x;
        let tp = t.remove(i);
        assert(tp.to_multiset() == t.to_multiset().remove(x));
        assert(sp.to_multiset() =~= s.to_multiset().remove(x));
        lemma_count_perm(sp, tp, p);
        lemma_count_remove(t, i, p);
    }
}

proof fn lemma_count_none_from(s: Seq<i64>, k: int, p: spec_fn(i64) -> bool)
    requires
        0 <= k,
        forall|j: int| k <= j < s.len() ==> !p(#[trigger] s[j]),
    ensures
        count_where(s, p) <= k,
    decreases s.len(),
{
    if s.len() > k {
        assert(!p(s[s.len() - 1]));
        lemma_count_none_from(s.drop_last(), k, p);
    } else {
        lemma_count_le_len(s, p);
    }
}

proof fn lemma_count_all_to(s: Seq<i64>, k: int, p: spec_fn(i64) -> bool)
    requires
        0 <= k < s.len(),
        forall|j: int| 0 <= j <= k ==> p(#[trigger] s[j]),
    ensures
        count_where(s, p) >= k + 1,
    decreases s.len(),
{
    if s.len() > 1 {
        if k < s.len() - 1 {
            lemma_count_all_to(s.drop_last(), k, p);
        } else {
            lemma_count_all_to(s.drop_last(), k - 1, p);
            assert(p(s[k]));
        }
    } else {
        assert(p(s[0]));
        assert(s.drop_last().len() == 0);
    }
}

proof fn lemma_count_mono(s: Seq<i64>, p: spec_fn(i64) -> bool, q: spec_fn(i64) -> bool)
    requires
        forall|x: i64| #[trigger] p(x) ==> q(x),
    ensures
        count_where(s, p) <= count_where(s, q),
    decreases s.len(),
{
    if s.len() > 0 {
        lemma_count_mono(s.drop_last(), p, q);
        assert(p(s.last()) ==> q(s.last()));
    }
}

/// The element at position `k` of `s` sorted has rank `k` in `s`: at most
/// `k` elements of `s` lie below it and more than `k` are at most it.
pub proof fn lemma_sorted_rank(s: Seq<i64>, k: int)
    requires
        0 <= k < s.len(),
    ensures
        has_rank(s, sorted_seq(s)[k] as int, k),
{
    lemma_sort_props(s);
    let t = sorted_seq(s);
    let v = t[k] as int;
    lemma_count_perm(s, t, below(v));
    lemma_count_perm(s, t, at_most(v));
    assert forall|j: int| k <= j < t.len() implies !below(v)(#[trigger] t[j]) by {
        assert(t[k] <= t[j]);
    }
    lemma_count_none_from(t, k, below(v));
    assert forall|j: int| 0 <= j <= k implies at_most(v)(#[trigger] t[j]) by {
        assert(t[j] <= t[k]);
    }
    lemma_count_all_to(t, k, at_most(v));
}

/// Each rank has one value: two values of the same rank in `s` are equal.
pub proof fn lemma_rank_unique(s: Seq<i64>, a: int, b: int, k: int)
    requires
        has_rank(s, a, k),
        has_rank(s, b, k),
    ensures
        a == b,
{
    if a < b {
        assert forall|x: i64| #[trigger] at_most(a)(x) implies below(b)(x) by {}
        lemma_count_mono(s, at_most(a), below(b));
    } else if b < a {
        assert forall|x: i64| #[trigger] at_most(b)(x) implies below(a)(x) by {}
        lemma_count_mono(s, at_most(b), below(a));
    }
}

fn midpoint_i64(a: i64, b: i64) -> (r: i64)
    ensures
        r == midpoint(a as int, b as int),
{
    let s: i128 = a as i128 + b as i128;
    if s >= 0 {
        let h: u128 = (s as u128) / 2;
        h as i64
    } else {
        let m: u128 = (0i128 - s) as u128;
        let h: u128 = m / 2;
        (0i128 - h as i128) as i64
    }
}

/// Index of the first element in `v[lo..hi]` greater than `x`.
fn upper_bound(v: &Vec<i64>, lo: usize, hi: usize, x: i64) -> (r: usize)
    requires
        lo <= hi <= v@.len(),
        is_sorted(v@.subrange(lo as int, hi as int)),
    ensures
        lo <= r <= hi,
        forall|k: int| lo <= k < r ==> v@[k] <= x,
        forall|k: int| r <= k < hi ==> v@[k] > x,
{
    let mut a = lo;
    let mut b = hi;
    while a < b
        invariant
            lo <= a <= b <= hi <= v@.len(),
            is_sorted(v@.subrange(lo as int, hi as int)),
            forall|k: int| lo <= k < a ==> v@[k] <= x,
            forall|k: int| b <= k < hi ==> v@[k] > x,
        decreases b - a,
    {
        let mid = a + (b - a) / 2;
        if v[mid] <= x {
            assert forall|k: int| lo <= k < mid + 1 implies v@[k] <= x by {
                assert(v@.subrange(lo as int, hi as int)[k - lo] == v@[k]);
                assert(v@.subrange(lo as int, hi as int)[mid - lo] == v@[mid as int]);
            }
            a = mid + 1;
        } else {
            assert forall|k: int| mid <= k < hi implies v@[k] > x by {
                assert(v@.subrange(lo as int, hi as int)[k - lo] == v@[k]);
                assert(v@.subrange(lo as int, hi as int)[mid - lo] == v@[mid as int]);
            }
            b = mid;
        }
    }
    a
}

/// Index of the first element in `v[0..len]` not less than `x`.
fn lower_bound(v: &Vec<i64>, len: usize, x: i64) -> (r: usize)
    requires
        len <= v@.len(),
        is_sorted(v@.take(len as int)),
    ensures
        r <= len,
        forall|k: int| 0 <= k < r ==> v@[k] < x,
        forall|k: int| r <= k < len ==> v@[k] >= x,
{
    let mut a: usize = 0;
    let mut b = len;
    while a < b
        invariant
            a <= b <= len <= v@.len(),
            is_sorted(v@.take(len as int)),
            forall|k: int| 0 <= k < a ==> v@[k] < x,
            forall|k: int| b <= k < len ==> v@[k] >= x,
        decreases b - a,
    {
        let mid = a + (b - a) / 2;
        if v[mid] < x {
            assert forall|k: int| 0 <= k < mid + 1 implies v@[k] < x by {
                assert(v@.take(len as int)[k] == v@[k]);
                assert(v@.take(len as int)[mid as int] == v@[mid as int]);
            }
            a = mid + 1;
        } else {
            assert forall|k: int| mid <= k < len implies v@[k] >= x by {
                assert(v@.take(len as int)[k] == v@[k]);
                assert(v@.take(len as int)[mid as int] == v@[mid as int]);
            }
            b = mid;
        }
    }
    a
}

/// Sorts `v` ascending in place (insertion sort).
fn sort_in_place(v: &mut Vec<i64>)
    ensures
        is_sorted(final(v)@),
        final(v)@.to_multiset() == old(v)@.to_multiset(),
        final(v)@.len() == old(v)@.len(),
{
    let n = v.len();
    if n == 0 {
        return ;
    }
    let mut i: usize = 1;
    while i < n
        invariant
            1 <= i <= n,
            v@.len() == n,
            forall|a: int, b: int| 0 <= a <= b < i ==> v@[a] <= v@[b],
            v@.to_multiset() == old(v)@.to_multiset(),
        decreases n - i,
    {
        let x = v[i];
        let mut j = i;
        while j > 0 && v[j - 1] > x
            invariant
                0 <= j <= i < n,
                v@.len() == n,
                v@[j as int] == x,
                v@.to_multiset() == old(v)@.to_multiset(),
                forall|a: int, b: int| 0 <= a <= b < j ==> v@[a] <= v@[b],
                forall|a: int, b: int| j < a <= b <= i ==> v@[a] <= v@[b],
                forall|k: int| j < k <= i ==> v@[k] > x,
                j > 0 && j < i ==> v@[j - 1] <= v@[j + 1],
            decreases j,
        {
            let prev = v[j - 1];
            let ghost before = v@;
            v.set(j, prev);
            v.set(j - 1, x);
            proof {
                assert(before.update(j as int, prev).to_multiset() == before.to_multiset().insert(
                    prev,
                ).remove(x));
                assert(before.update(j as int, prev).update(j - 1, x).to_multiset()
                    == before.update(j as int, prev).to_multiset().insert(x).remove(prev));
                assert(v@.to_multiset() =~= before.to_multiset());
            }
            j = j - 1;
        }
        i = i + 1;
    }
}

/// The samples held by a ring of capacity `window` after `count` updates,
/// whose next write position is `head`, oldest first.
pub open spec fn window_samples(ring: Seq<i64>, head: int, count: int, window: int) -> Seq<i64> {
    if count < window {
        ring.take(count)
    } else {
        ring.subrange(head, window) + ring.take(head)
    }
}

proof fn lemma_samples_full(ring: Seq<i64>, head: int, window: int, x: i64)
    requires
        0 <= head < window,
        ring.len() == window,
    ensures
        window_samples(ring.update(head, x), (head + 1) % window, window + 1, window)
            == window_samples(ring, head, window, window).drop_first().push(x),
{
    let r1 = ring.update(head, x);
    if head + 1 == window {
        vstd::arithmetic::div_mod::lemma_mod_self_0(window);
        assert(r1.subrange(0, window) + r1.take(0) =~= ring.subrange(head, window)
            .drop_first() + ring.take(head).push(x));
        assert((ring.subrange(head, window) + ring.take(head)).drop_first() =~= ring.subrange(
            head,
            window,
        ).drop_first() + ring.take(head));
    } else {
        vstd::arithmetic::div_mod::lemma_small_mod((head + 1) as nat, window as nat);
        assert((head + 1) % window == head + 1);
        assert(r1.subrange(head + 1, window) + r1.take(head + 1) =~= (ring.subrange(
            head,
            window,
        ) + ring.take(head)).drop_first().push(x));
    }
}

proof fn lemma_samples_filling(ring: Seq<i64>, count: int, window: int, x: i64)
    requires
        0 <= count < window,
        ring.len() == window,
    ensures
        window_samples(ring.update(count, x), (count + 1) % window, count + 1, window)
            == window_samples(ring, count, count, window).push(x),
{
    let r1 = ring.update(count, x);
    if count + 1 == window {
        vstd::arithmetic::div_mod::lemma_mod_self_0(window);
        assert((count + 1) % window == 0);
        assert(r1.subrange(0, window) + r1.take(0) =~= ring.take(count).push(x));
    } else {
        assert(r1.take(count + 1) =~= ring.take(count).push(x));
    }
}

proof fn lemma_insert_keeps_sorted(v: Seq<i64>, ip: int, x: i64)
    requires
        is_sorted(v),
        0 <= ip <= v.len(),
        forall|k: int| 0 <= k < ip ==> v[k] <= x,
        forall|k: int| ip <= k < v.len() ==> v[k] >= x,
    ensures
        is_sorted(v.insert(ip, x)),
{
    let n = v.insert(ip, x);
    assert forall|a: int, b: int| 0 <= a <= b < n.len() implies n[a] <= n[b] by {
        if a < ip {
            assert(n[a] == v[a]);
        }
        if b < ip {
            assert(n[b] == v[b]);
        }
        if a > ip {
            assert(n[a] == v[a - 1]);
        }
        if b > ip {
            assert(n[b] == v[b - 1]);
        }
    }
}

/// Inserts `x` into the ascending prefix `v[0..len]`, growing it by one.
fn insert_sorted(v: &mut Vec<i64>, len: usize, x: i64)
    requires
        len < old(v)@.len(),
        is_sorted(old(v)@.take(len as int)),
    ensures
        final(v)@.len() == old(v)@.len(),
        is_sorted(final(v)@.take(len as int + 1)),
        final(v)@.take(len as int + 1).to_multiset() == old(v)@.take(len as int).to_multiset().insert(x),
{
    let ghost p = v@.take(len as int);
    proof {
        assert(v@.subrange(0, len as int) =~= p);
    }
    let ip = upper_bound(v, 0, len, x);
    let ghost before = v@;
    let mut i = len;
    while i > ip
        invariant
            ip <= i <= len < v@.len(),
            v@.len() == before.len(),
            forall|k: int|
                0 <= k < v@.len() ==> #[trigger] v@[k] == if i < k <= len {
                    before[k - 1]
                } else {
                    before[k]
                },
        decreases i - ip,
    {
        let pv = v[i - 1];
        v.set(i, pv);
        i = i - 1;
    }
    v.set(ip, x);
    proof {
        let n = v@.take(len as int + 1);
        assert(n =~= p.insert(ip as int, x));
        assert forall|k: int| ip <= k < p.len() implies p[k] >= x by {
            assert(p[k] == before[k]);
        }
        lemma_insert_keeps_sorted(p, ip as int, x);
    }
}

/// Replaces one occurrence of `old_x` in the ascending prefix `v[0..len]` by
/// `x`, keeping the prefix ascending.
fn replace_sorted(v: &mut Vec<i64>, len: usize, old_x: i64, x: i64)
    requires
        len <= old(v)@.len(),
        is_sorted(old(v)@.take(len as int)),
        old(v)@.take(len as int).to_multiset().count(old_x) > 0,
    ensures
        final(v)@.len() == old(v)@.len(),
        is_sorted(final(v)@.take(len as int)),
        final(v)@.take(len as int).to_multiset() == old(v)@.take(len as int).to_multiset().remove(
            old_x,
        ).insert(x),
{
    let ghost p = v@.take(len as int);
    let rp = lower_bound(v, len, old_x);
    proof {
        assert(p.contains(old_x));
        let j = choose|j: int| 0 <= j < p.len() && p[j] == old_x;
        assert(p[j] == v@[j]);
        assert(j >= rp);
        assert(v@[rp as int] == p[rp as int]);
        assert(p[rp as int] <= p[j]);
    }
    let ghost w = p.remove(rp as int);
    let ip = if x <= old_x {
        proof {
            assert(v@.subrange(0, rp as int) =~= p.subrange(0, rp as int));
        }
        upper_bound(v, 0, rp, x)
    } else {
        proof {
            assert(v@.subrange(rp as int + 1, len as int) =~= p.subrange(rp as int + 1, len as int));
        }
        upper_bound(v, rp + 1, len, x) - 1
    };
    proof {
        assert(is_sorted(w));
        assert forall|k: int| 0 <= k < ip implies w[k] <= x by {
            if k < rp {
                assert(w[k] == p[k]);
                assert(p[k] == v@[k]);
            } else {
                assert(w[k] == p[k + 1]);
                assert(p[k + 1] == v@[k + 1]);
            }
        }
        assert forall|k: int| ip <= k < w.len() implies w[k] >= x by {
            if k < rp {
                assert(w[k] == p[k]);
                assert(p[k] == v@[k]);
            } else {
                assert(w[k] == p[k + 1]);
                assert(p[k + 1] == v@[k + 1]);
                assert(p[rp as int] <= p[k + 1]);
            }
        }
        lemma_insert_keeps_sorted(w, ip as int, x);
    }
    let ghost before = v@;
    if rp < ip {
        let mut i = rp;
        while i < ip
            invariant
                rp <= i <= ip < len <= v@.len(),
                v@.len() == before.len(),
                forall|k: int|
                    0 <= k < v@.len() ==> #[trigger] v@[k] == if rp <= k < i {
                        before[k + 1]
                    } else {
                        before[k]
                    },
            decreases ip - i,
        {
            let nx = v[i + 1];
            v.set(i, nx);
            i = i + 1;
        }
        v.set(ip, x);
    } else if rp > ip {
        let mut i = rp;
        while i > ip
            invariant
                ip <= i <= rp < len <= v@.len(),
                v@.len() == before.len(),
                forall|k: int|
                    0 <= k < v@.len() ==> #[trigger] v@[k] == if i < k <= rp {
                        before[k - 1]
                    } else {
                        before[k]
                    },
            decreases i - ip,
        {
            let pv = v[i - 1];
            v.set(i, pv);
            i = i - 1;
        }
        v.set(ip, x);
    } else {
        v.set(rp, x);
    }
    proof {
        assert(v@.take(len as int) =~= w.insert(ip as int, x));
    }
}

/// Windowed median over the last `window` samples of an `i64` stream.
///
/// Keeps a ring buffer of the samples in arrival order and an
/// insertion-sorted shadow array of the same values, so that an update costs
/// O(window) and the median and quartile queries are O(1).
#[derive(Clone, Debug)]
pub struct WindowedMedianI64 {
    ring: Vec<i64>,
    sorted: Vec<i64>,
    window: usize,
    head: usize,
    count: u64,
}

impl WindowedMedianI64 {
    /// Number of samples currently held: `min(count, window)`.
    pub closed spec fn len_spec(&self) -> nat {
        if (self.count as int) < (self.window as int) {
            self.count as nat
        } else {
            self.window as nat
        }
    }

    /// The samples in the window, oldest first.
    pub closed spec fn samples(&self) -> Seq<i64> {
        window_samples(self.ring@, self.head as int, self.count as int, self.window as int)
    }

    /// The samples in the window, in ascending order.
    pub open spec fn sorted_samples(&self) -> Seq<i64> {
        sorted_seq(self.samples())
    }

    pub closed spec fn window_spec(&self) -> nat {
        self.window as nat
    }

    pub closed spec fn count_spec(&self) -> nat {
        self.count as nat
    }

    /// Internal consistency of the ring buffer and the sorted shadow array.
    pub closed spec fn wf(&self) -> bool {
        &&& self.window > 0
        &&& self.ring@.len() == self.window
        &&& self.sorted@.len() == self.window
        &&& self.head < self.window
        &&& (self.count as int) < (self.window as int) ==> self.head == self.count
        &&& is_sorted(self.sorted@.take(self.len_spec() as int))
        &&& self.sorted@.take(self.len_spec() as int).to_multiset() == self.samples().to_multiset()
    }

    proof fn lemma_wf_facts(&self)
        requires
            self.wf(),
        ensures
            self.samples().len() == self.len_spec(),
            self.len_spec() <= self.window_spec(),
            self.sorted@.take(self.len_spec() as int) == self.sorted_samples(),
            is_sorted(self.sorted_samples()),
            self.sorted_samples().len() == self.len_spec(),
    {
        lemma_sorted_is_sort(self.samples(), self.sorted@.take(self.len_spec() as int));
    }

    /// Creates a tracker over the last `window_size` samples.
    ///
    /// `window_size` must be positive.
    pub fn new(window_size: usize) -> (r: Self)
        requires
            window_size > 0,
        ensures
            r.wf(),
            r.window_spec() == window_size,
            r.count_spec() == 0,
            r.samples() == Seq::<i64>::empty(),
    {
        let ring = vec![0i64; window_size];
        let sorted = vec![0i64; window_size];
        let r = WindowedMedianI64 { ring, sorted, window: window_size, head: 0, count: 0 };
        proof {
            assert(r.samples() =~= Seq::<i64>::empty());
            assert(r.sorted@.take(0) =~= Seq::<i64>::empty());
        }
        r
    }

    fn current_len(&self) -> (r: usize)
        requires
            self.wf(),
        ensures
            r == self.len_spec(),
    {
        if self.count < self.window as u64 {
            self.count as usize
        } else {
            self.window
        }
    }

    /// Feeds a sample: it enters the window and, once the window is full,
    /// the oldest sample leaves it.
    pub fn update(&mut self, sample: i64)
        requires
            old(self).wf(),
            old(self).count_spec() < u64::MAX,
        ensures
            final(self).wf(),
            final(self).window_spec() == old(self).window_spec(),
            final(self).count_spec() == old(self).count_spec() + 1,
            final(self).samples() == if old(self).count_spec() < old(self).window_spec() {
                old(self).samples().push(sample)
            } else {
                old(self).samples().drop_first().push(sample)
            },
    {
        let len = self.current_len();
        let head = self.head;
        let window = self.window;
        let ghost p = self.sorted@.take(len as int);
        let ghost s_old = self.samples();
        let ghost r0 = self.ring@;
        proof {
            self.lemma_wf_facts();
        }
        if self.count >= window as u64 {
            let evicted = self.ring[head];
            self.ring.set(head, sample);
            proof {
                assert(s_old[0] == evicted);
                assert(s_old.contains(evicted));
                assert(p.to_multiset().count(evicted) > 0);
            }
            replace_sorted(&mut self.sorted, len, evicted, sample);
            self.head = (head + 1) % window;
            self.count = self.count + 1;
            proof {
                lemma_samples_full(r0, head as int, window as int, sample);
                assert(s_old.drop_first() =~= s_old.remove(0));
                assert(s_old.remove(0).to_multiset() == s_old.to_multiset().remove(s_old[0]));
                assert(s_old.drop_first().push(sample).to_multiset() == s_old.drop_first().to_multiset().insert(sample));
                assert(self.samples() == s_old.drop_first().push(sample));
                assert(self.len_spec() == len);
            }
        } else {
            self.ring.set(head, sample);
            insert_sorted(&mut self.sorted, len, sample);
            self.head = (head + 1) % window;
            self.count = self.count + 1;
            proof {
                lemma_samples_filling(r0, len as int, window as int, sample);
                assert(s_old.push(sample).to_multiset() == s_old.to_multiset().insert(sample));
                if len + 1 < window {
                    vstd::arithmetic::div_mod::lemma_small_mod((len + 1) as nat, window as nat);
                }
                assert(self.samples() == s_old.push(sample));
                assert(self.len_spec() == len + 1);
            }
        }
    }

    /// Number of samples in the window.
    pub fn len(&self) -> (r: usize)
        requires
            self.wf(),
        ensures
            r == self.sorted_samples().len(),
    {
        proof {
            self.lemma_wf_facts();
        }
        self.current_len()
    }

    /// The `i`-th smallest sample of the window, counting from 0.
    pub fn nth_smallest(&self, i: usize) -> (r: i64)
        requires
            self.wf(),
            i < self.sorted_samples().len(),
        ensures
            r == self.sorted_samples()[i as int],
            has_rank(self.samples(), r as int, i as int),
    {
        proof {
            self.lemma_wf_facts();
            lemma_sorted_rank(self.samples(), i as int);
        }
        self.sorted[i]
    }

    /// Median of the window, or `None` when it is empty.
    pub fn median(&self) -> (r: Option<i64>)
        requires
            self.wf(),
        ensures
            r.is_some() == median_of(self.sorted_samples()).is_some(),
            r.is_some() ==> r.unwrap() == median_of(self.sorted_samples()).unwrap(),
            r.is_some() == (self.samples().len() > 0),
            self.samples().len() % 2 == 1 ==> (r matches Some(m) && has_rank(
                self.samples(),
                m as int,
                self.samples().len() as int / 2,
            )),
            self.samples().len() > 0 && self.samples().len() % 2 == 0 ==> exists|lo: i64, hi: i64|
                has_rank(self.samples(), lo as int, self.samples().len() as int / 2 - 1) && has_rank(
                    self.samples(),
                    hi as int,
                    self.samples().len() as int / 2,
                ) && r == Some(midpoint(lo as int, hi as int) as i64),
    {
        proof {
            self.lemma_wf_facts();
            lemma_sort_props(self.samples());
            let n = self.samples().len() as int;
            if n > 0 {
                lemma_sorted_rank(self.samples(), n / 2);
                if n % 2 == 0 {
                    lemma_sorted_rank(self.samples(), n / 2 - 1);
                }
            }
        }
        let len = self.current_len();
        if len == 0 {
            return None;
        }
        if len % 2 == 1 {
            Some(self.sorted[len / 2])
        } else {
            Some(midpoint_i64(self.sorted[len / 2 - 1], self.sorted[len / 2]))
        }
    }

    /// Median Absolute Deviation: the median of the absolute deviations of
    /// the window from its median, or `None` when the window is empty.
    ///
    /// Every deviation must fit in an `i64`.
    pub fn mad(&self) -> (r: Option<i64>)
        requires
            self.wf(),
            median_of(self.sorted_samples()) matches Some(m) ==> deviations_fit(
                self.sorted_samples(),
                m,
            ),
        ensures
            r.is_some() == (self.sorted_samples().len() > 0),
            r.is_some() ==> r.unwrap() >= 0,
            r.is_some() ==> r.unwrap() == median_of(
                sorted_seq(
                    deviations(self.sorted_samples(), median_of(self.sorted_samples()).unwrap()),
                ),
            ).unwrap(),
            r.is_some() ==> r.unwrap() == median_of(
                sorted_seq(deviations(self.samples(), median_of(self.sorted_samples()).unwrap())),
            ).unwrap(),
    {
        proof {
            self.lemma_wf_facts();
            if self.sorted_samples().len() > 0 {
                lemma_sorted_deviations(self.samples(), median_of(self.sorted_samples()).unwrap());
            }
        }
        let median = match self.median() {
            Some(m) => m,
            None => return None,
        };
        let len = self.current_len();
        let ghost s = self.sorted_samples();
        let mut dev: Vec<i64> = Vec::new();
        let mut i: usize = 0;
        while i < len
            invariant
                0 <= i <= len,
                len == s.len(),
                len <= self.sorted@.len(),
                self.sorted@.take(len as int) == s,
                deviations_fit(s, median as int),
                dev@ == deviations(s, median as int).take(i as int),
                forall|k: int| 0 <= k < dev@.len() ==> dev@[k] >= 0,
            decreases len - i,
        {
            let x = self.sorted[i];
            assert(s[i as int] == x);
            let d: i64 = if x >= median {
                (x as i128 - median as i128) as i64
            } else {
                (median as i128 - x as i128) as i64
            };
            dev.push(d);
            proof {
                assert(dev@ =~= deviations(s, median as int).take(i as int + 1));
            }
            i = i + 1;
        }
        proof {
            assert(dev@ =~= deviations(s, median as int));
        }
        let ghost devs = dev@;
        sort_in_place(&mut dev);
        proof {
            lemma_sorted_is_sort(devs, dev@);
            assert forall|k: int| 0 <= k < dev@.len() implies dev@[k] >= 0 by {
                assert(dev@.contains(dev@[k]));
                assert(dev@.to_multiset().count(dev@[k]) > 0);
                assert(devs.to_multiset().count(dev@[k]) > 0);
                assert(devs.contains(dev@[k]));
                let t = choose|t: int| 0 <= t < devs.len() && devs[t] == dev@[k];
            }
        }
        if len % 2 == 1 {
            Some(dev[len / 2])
        } else {
            Some(midpoint_i64(dev[len / 2 - 1], dev[len / 2]))
        }
    }

    /// First quartile, or `None` with fewer than four samples.
    pub fn q1(&self) -> (r: Option<i64>)
        requires
            self.wf(),
        ensures
            r == q1_of(self.sorted_samples()),
            self.samples().len() < 4 ==> r is None,
            self.samples().len() >= 4 ==> (r matches Some(q) && has_rank(
                self.samples(),
                q as int,
                self.samples().len() as int / 4,
            )),
    {
        proof {
            self.lemma_wf_facts();
            lemma_sort_props(self.samples());
            if self.samples().len() >= 4 {
                lemma_sorted_rank(self.samples(), self.samples().len() as int / 4);
            }
        }
        let len = self.current_len();
        if len < 4 {
            None
        } else {
            Some(self.sorted[len / 4])
        }
    }

    /// Third quartile, or `None` with fewer than four samples.
    pub fn q3(&self) -> (r: Option<i64>)
        requires
            self.wf(),
        ensures
            r == q3_of(self.sorted_samples()),
            self.samples().len() < 4 ==> r is None,
            self.samples().len() >= 4 ==> (r matches Some(q) && has_rank(
                self.samples(),
                q as int,
                3 * (self.samples().len() as int) / 4,
            )),
    {
        proof {
            self.lemma_wf_facts();
            lemma_sort_props(self.samples());
            if self.samples().len() >= 4 {
                lemma_sorted_rank(self.samples(), 3 * (self.samples().len() as int) / 4);
            }
        }
        let len = self.current_len();
        if len < 4 {
            None
        } else {
            Some(self.sorted[(3 * (len as u128) / 4) as usize])
        }
    }

    /// Interquartile range `Q3 - Q1`, or `None` with fewer than four samples.
    ///
    /// The range must fit in an `i64`.
    pub fn iqr(&self) -> (r: Option<i64>)
        requires
            self.wf(),
            self.sorted_samples().len() >= 4 ==> q3_of(self.sorted_samples()).unwrap() - q1_of(
                self.sorted_samples(),
            ).unwrap() <= i64::MAX,
        ensures
            r.is_some() == (self.sorted_samples().len() >= 4),
            r.is_some() ==> r.unwrap() == q3_of(self.sorted_samples()).unwrap() - q1_of(
                self.sorted_samples(),
            ).unwrap(),
            self.samples().len() >= 4 ==> exists|a: i64, b: i64|
                #[trigger] has_rank(self.samples(), a as int, self.samples().len() as int / 4)
                    && #[trigger] has_rank(
                    self.samples(),
                    b as int,
                    3 * (self.samples().len() as int) / 4,
                ) && r == Some((b - a) as i64),
    {
        proof {
            if self.sorted_samples().len() >= 4 {
                self.lemma_quartiles_bracket_median();
            }
        }
        match (self.q1(), self.q3()) {
            (Some(q1), Some(q3)) => Some(q3 - q1),
            _ => None,
        }
    }

    /// Modified z-score `0.6745 * (x - median) / MAD`, rounded towards zero, or `None`
    /// when the window is empty or its MAD is zero.
    ///
    /// `x - median` must fit in an `i64`.
    pub fn modified_z_score(&self, sample: i64) -> (r: Option<i64>)
        requires
            self.wf(),
            median_of(self.sorted_samples()) matches Some(m) ==> deviations_fit(
                self.sorted_samples(),
                m,
            ) && i64::MIN <= sample - m <= i64::MAX,
        ensures
            ({
                let s = self.sorted_samples();
                if s.len() == 0 {
                    r.is_none()
                } else {
                    let m = median_of(s).unwrap();
                    let d = median_of(sorted_seq(deviations(s, m))).unwrap();
                    if d == 0 {
                        r.is_none()
                    } else {
                        r == Some(trunc_div(6745 * (sample - m), 10000 * d) as i64)
                    }
                }
            }),
    {
        let median = match self.median() {
            Some(m) => m,
            None => return None,
        };
        let mad = match self.mad() {
            Some(m) => m,
            None => return None,
        };
        if mad == 0 {
            return None;
        }
        let num: i64 = sample - median;
        Some(scaled_z(num, mad))
    }

    /// Window size.
    pub fn window_size(&self) -> (r: usize)
        ensures
            r == self.window_spec(),
    {
        self.window
    }

    /// Number of samples processed.
    pub fn count(&self) -> (r: u64)
        ensures
            r == self.count_spec(),
    {
        self.count
    }

    /// Whether the window is full.
    pub fn is_primed(&self) -> (r: bool)
        ensures
            r == (self.count_spec() >= self.window_spec()),
    {
        self.count >= self.window as u64
    }

    /// Resets to the empty state; the window size is unchanged.
    pub fn reset(&mut self)
        requires
            old(self).wf(),
        ensures
            final(self).wf(),
            final(self).window_spec() == old(self).window_spec(),
            final(self).count_spec() == 0,
            final(self).samples() == Seq::<i64>::empty(),
    {
        let n = self.window;
        let mut i: usize = 0;
        while i < n
            invariant
                0 <= i <= n,
                n == self.window,
                self.ring@.len() == n,
                self.sorted@.len() == n,
            decreases n - i,
        {
            self.ring.set(i, 0);
            self.sorted.set(i, 0);
            i = i + 1;
        }
        self.head = 0;
        self.count = 0;
        proof {
            assert(self.samples() =~= Seq::<i64>::empty());
            assert(self.sorted@.take(0) =~= Seq::<i64>::empty());
        }
    }
}

/// `0.6745 * num / mad`, truncated towards zero.
fn scaled_z(num: i64, mad: i64) -> (r: i64)
    requires
        mad > 0,
    ensures
        r == trunc_div(6745 * num, 10000 * mad),
{
    let a: i128 = num as i128 * 6745;
    let b: i128 = mad as i128 * 10000;
    let ua: u128 = if a < 0 {
        (0i128 - a) as u128
    } else {
        a as u128
    };
    let q: u128 = ua / (b as u128);
    assert(q * 10000 <= ua) by (nonlinear_arith)
        requires
            q == ua / (b as u128),
            b == mad * 10000,
            mad >= 1,
    ;
    assert(ua <= 6745 * 0x8000_0000_0000_0000) by (nonlinear_arith)
        requires
            a == num * 6745,
            ua == (if a < 0 { -(a as int) } else { a as int }),
            i64::MIN <= num <= i64::MAX,
    ;
    if a < 0 {
        (0i128 - q as i128) as i64
    } else {
        q as i64
    }
}

fn trunc_div_i64(a: i64, b: i64) -> (r: i64)
    requires
        b > 0,
    ensures
        r == trunc_div(a as int, b as int),
{
    let ua: u64 = if a < 0 {
        (0i128 - a as i128) as u64
    } else {
        a as u64
    };
    let q: u64 = ua / (b as u64);
    assert(q <= ua) by (nonlinear_arith)
        requires
            q == ua / (b as u64),
            b > 0,
    ;
    if a < 0 {
        (0i128 - q as i128) as i64
    } else {
        q as i64
    }
}

/// The midpoint of two integers lies between them.
proof fn lemma_midpoint_between(a: int, b: int)
    requires
        a <= b,
    ensures
        a <= midpoint(a, b) <= b,
{
    let x = a + b;
    if x >= 0 {
        assert(midpoint(a, b) == x / 2);
        assert(2 * (x / 2) <= x < 2 * (x / 2) + 2);
    } else {
        assert(midpoint(a, b) == -((-x) / 2));
        assert(2 * ((-x) / 2) <= -x < 2 * ((-x) / 2) + 2);
    }
}

/// The last `min(|xs|, n)` samples of `xs`, oldest first.
pub open spec fn last_n(xs: Seq<i64>, n: nat) -> Seq<i64> {
    if xs.len() <= n {
        xs
    } else {
        xs.subrange(xs.len() - n, xs.len() as int)
    }
}

/// The samples a window of `n` holds after being fed `xs` in order from
/// empty, by the step [`WindowedMedianI64::update`] takes: the sample is
/// added, and once `n` samples came before it the oldest one leaves.
pub open spec fn fed(xs: Seq<i64>, n: nat) -> Seq<i64>
    decreases xs.len(),
{
    if xs.len() == 0 {
        Seq::empty()
    } else {
        let s = fed(xs.drop_last(), n);
        if ((xs.len() - 1) as nat) < n {
            s.push(xs.last())
        } else {
            s.drop_first().push(xs.last())
        }
    }
}

/// Whatever samples are fed, a window of `n > 0` holds the last
/// `min(|xs|, n)` of them, oldest first; its median and quartiles are
/// therefore those of these samples sorted.
pub proof fn lemma_fed_is_last_n(xs: Seq<i64>, n: nat)
    requires
        n > 0,
    ensures
        fed(xs, n) == last_n(xs, n),
        median_of(sorted_seq(fed(xs, n))) == median_of(sorted_seq(last_n(xs, n))),
        q1_of(sorted_seq(fed(xs, n))) == q1_of(sorted_seq(last_n(xs, n))),
        q3_of(sorted_seq(fed(xs, n))) == q3_of(sorted_seq(last_n(xs, n))),
    decreases xs.len(),
{
    if xs.len() > 0 {
        let p = xs.drop_last();
        lemma_fed_is_last_n(p, n);
        let k = xs.len() as int;
        if k - 1 < n {
            assert(p.push(xs.last()) =~= xs);
        } else if k - 1 == n {
            assert(fed(p, n) == p);
            assert(p.drop_first().push(xs.last()) =~= xs.subrange(k - n, k));
        } else {
            assert(fed(p, n) == p.subrange(k - 1 - n, k - 1));
            assert(p.subrange(k - 1 - n, k - 1).drop_first().push(xs.last()) =~= xs.subrange(
                k - n,
                k,
            ));
        }
    }
}

/// Deviations of two arrangements of the same samples are arrangements of
/// each other.
proof fn lemma_deviations_perm(s: Seq<i64>, t: Seq<i64>, m: int)
    requires
        s.to_multiset() == t.to_multiset(),
    ensures
        deviations(s, m).to_multiset() == deviations(t, m).to_multiset(),
    decreases s.len(),
{
    broadcast use vstd::multiset::group_multiset_axioms;

    if s.len() == 0 {
        assert(s.to_multiset().len() == s.len());
        assert(t.to_multiset().len() == t.len());
        assert(t.len() == 0);
        assert(deviations(s, m) =~= Seq::<i64>::empty());
        assert(deviations(t, m) =~= Seq::<i64>::empty());
    } else {
        let x = s.last();
        let sp = s.drop_last();
        assert(sp.push(x) =~= s);
        assert(s.to_multiset().count(x) > 0);
        assert(t.to_multiset().count(x) > 0);
        assert(t.contains(x));
        let i = choose|i: int| 0 <= i < t.len() && t[i] == x;
        let tp = t.remove(i);
        assert(tp.to_multiset() == t.to_multiset().remove(x));
        assert(sp.to_multiset() =~= s.to_multiset().remove(x));
        lemma_deviations_perm(sp, tp, m);
        let f = abs(x - m) as i64;
        assert(deviations(s, m) =~= deviations(sp, m).push(f));
        assert(deviations(tp, m) =~= deviations(t, m).remove(i));
        assert(deviations(t, m)[i] == f);
        assert(deviations(tp, m).to_multiset() == deviations(t, m).to_multiset().remove(f));
        assert(deviations(t, m).to_multiset().count(f) > 0);
        assert(deviations(t, m).to_multiset() =~= deviations(t, m).to_multiset().remove(f).insert(
            f,
        ));
    }
}

/// The sorted absolute deviations from `m` do not depend on the order the
/// samples are taken in: those of the samples sorted are those of the
/// samples in arrival order.
pub proof fn lemma_sorted_deviations(s: Seq<i64>, m: int)
    ensures
        sorted_seq(deviations(sorted_seq(s), m)) == sorted_seq(deviations(s, m)),
{
    lemma_sort_props(s);
    lemma_deviations_perm(sorted_seq(s), s, m);
    let d = sorted_seq(deviations(sorted_seq(s), m));
    lemma_sort_props(deviations(sorted_seq(s), m));
    lemma_sorted_is_sort(deviations(s, m), d);
}

/// Laws of the window statistics.
impl WindowedMedianI64 {
    /// The window statistics by rank among the samples, whatever their
    /// arrival order: with `n` samples, the first quartile is the sample of
    /// rank `n/4` (counting from 0, in ascending order), the third quartile
    /// the one of rank `3n/4`, and the median the one of rank `n/2` when `n`
    /// is odd, the midpoint of those of ranks `n/2 - 1` and `n/2` when it is
    /// even. A rank names one value (see [`lemma_rank_unique`]).
    pub proof fn lemma_rank_statistics(&self)
        requires
            self.wf(),
        ensures
            ({
                let s = self.samples();
                let n = s.len() as int;
                &&& n >= 4 ==> (q1_of(self.sorted_samples()) matches Some(q) && has_rank(
                    s,
                    q as int,
                    n / 4,
                ))
                &&& n >= 4 ==> (q3_of(self.sorted_samples()) matches Some(q) && has_rank(
                    s,
                    q as int,
                    3 * n / 4,
                ))
                &&& n % 2 == 1 ==> (median_of(self.sorted_samples()) matches Some(m) && has_rank(
                    s,
                    m,
                    n / 2,
                ))
                &&& n > 0 && n % 2 == 0 ==> (median_of(self.sorted_samples()) matches Some(m) && m
                    == midpoint(self.sorted_samples()[n / 2 - 1] as int, self.sorted_samples()[n / 2] as int)
                    && has_rank(s, self.sorted_samples()[n / 2 - 1] as int, n / 2 - 1) && has_rank(
                    s,
                    self.sorted_samples()[n / 2] as int,
                    n / 2,
                ))
            }),
    {
        self.lemma_wf_facts();
        let s = self.samples();
        let n = s.len() as int;
        lemma_sort_props(s);
        if n > 0 {
            lemma_sorted_rank(s, n / 2);
            if n % 2 == 0 {
                lemma_sorted_rank(s, n / 2 - 1);
            }
        }
        if n >= 4 {
            lemma_sorted_rank(s, n / 4);
            lemma_sorted_rank(s, 3 * n / 4);
        }
    }

    /// The quartiles bracket the median: with at least four samples,
    /// `Q1 <= median <= Q3`, so the interquartile range is never negative.
    pub proof fn lemma_quartiles_bracket_median(&self)
        requires
            self.wf(),
            self.sorted_samples().len() >= 4,
        ensures
            q1_of(self.sorted_samples()).unwrap() <= median_of(self.sorted_samples()).unwrap(),
            median_of(self.sorted_samples()).unwrap() <= q3_of(self.sorted_samples()).unwrap(),
    {
        self.lemma_wf_facts();
        let s = self.sorted_samples();
        let n: int = s.len() as int;
        assert(n / 4 <= n / 2 - 1);
        assert(n / 2 <= 3 * n / 4);
        assert(s[n / 4] <= s[n / 2 - 1]);
        assert(s[n / 2 - 1] <= s[n / 2]);
        assert(s[n / 2] <= s[3 * n / 4]);
        lemma_midpoint_between(s[n / 2 - 1] as int, s[n / 2] as int);
    }

    /// The median lies between the smallest and the largest sample.
    pub proof fn lemma_median_within_range(&self)
        requires
            self.wf(),
            self.sorted_samples().len() > 0,
        ensures
            self.sorted_samples()[0] <= median_of(self.sorted_samples()).unwrap(),
            median_of(self.sorted_samples()).unwrap() <= self.sorted_samples().last(),
    {
        self.lemma_wf_facts();
        let s = self.sorted_samples();
        let n: int = s.len() as int;
        if n % 2 == 0 {
            assert(s[0] <= s[n / 2 - 1]);
            assert(s[n / 2] <= s[n - 1]);
            assert(s[n / 2 - 1] <= s[n / 2]);
            lemma_midpoint_between(s[n / 2 - 1] as int, s[n / 2] as int);
        } else {
            assert(s[0] <= s[n / 2]);
            assert(s[n / 2] <= s[n - 1]);
        }
    }

    /// The window has room for at least one sample, never holds more than
    /// `window` samples, and holds exactly `min(count, window)` of them.
    pub proof fn lemma_window_len(&self)
        requires
            self.wf(),
        ensures
            self.window_spec() > 0,
            self.samples().len() == if self.count_spec() < self.window_spec() {
                self.count_spec()
            } else {
                self.window_spec()
            },
    {
        self.lemma_wf_facts();
    }
}

} // verus!
