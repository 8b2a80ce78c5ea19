use vstd::prelude::*;

verus! {

/// Fixed-capacity FIFO ring. Push on a full ring drops the value.
pub struct Ring<T, const N: usize> {
    items: Vec<Option<T>>,
    head: usize,
    len: usize,
}

impl<T, const N: usize> View for Ring<T, N> {
    type V = Seq<T>;

    /// The queued items, oldest first.
    closed spec fn view(&self) -> Seq<T> {
        Seq::new(self.len as nat, |i: int| self.items@[(self.head + i) % (N as int)]->0)
    }
}

impl<T: Copy, const N: usize> Ring<T, N> {
    /// The ring's invariant.
    pub closed spec fn wf(&self) -> bool {
        &&& self.items@.len() == N
        &&& self.len <= N
        &&& (N > 0 ==> self.head < N)
        &&& forall|i: int| 0 <= i < self.len ==> (#[trigger] self.items@[(self.head + i) % (N as int)]) is Some
    }

    pub fn new() -> (r: Self)
        ensures
            r.wf(),
            r@ == Seq::<T>::empty(),
    {
        let mut items: Vec<Option<T>> = Vec::new();
        let mut i: usize = 0;
        while i < N
            invariant
                0 <= i <= N,
                items@.len() == i,
            decreases N - i,
        {
            items.push(None);
            i = i + 1;
        }
        let r = Ring { items, head: 0, len: 0 };
        proof {
            assert(r@ =~= Seq::<T>::empty());
        }
        r
    }

    /// Appends `item`; on a full ring the item is dropped.
    pub fn push(&mut self, item: T)
        requires
            old(self).wf(),
        ensures
            final(self).wf(),
            old(self)@.len() < N ==> final(self)@ == old(self)@.push(item),
            old(self)@.len() == N ==> final(self)@ == old(self)@,
    {
        if self.len == N {
            return ;
        }
        let idx = if self.head < N - self.len {
            self.head + self.len
        } else {
            self.head - (N - self.len)
        };
        proof {
            let n = N as int;
            let t = self.head + self.len;
            if t < n {
                vstd::arithmetic::div_mod::lemma_small_mod(t as nat, n as nat);
            } else {
                vstd::arithmetic::div_mod::lemma_fundamental_div_mod_converse(t, n, 1, t - n);
            }
        }
        self.items.set(idx, Some(item));
        self.len = self.len + 1;
        proof {
            let n = N as int;
            let h = self.head as int;
            let l = old(self).len as int;
            assert forall|i: int| 0 <= i < self.len implies (#[trigger] self.items@[(self.head + i) % (
            N as int)]) is Some by {
                if i < l {
                    lemma_mod_distinct(h, i, l, n);
                    assert(old(self).items@[(h + i) % n] is Some);
                }
            }
            assert forall|i: int| 0 <= i < l implies #[trigger] self.items@[(h + i) % n] == old(
                self,
            ).items@[(h + i) % n] by {
                lemma_mod_distinct(h, i, l, n);
            }
            assert(self@ =~= old(self)@.push(item));
        }
    }

    /// Removes and returns the oldest item.
    pub fn pop(&mut self) -> (r: Option<T>)
        requires
            old(self).wf(),
        ensures
            final(self).wf(),
            old(self)@.len() == 0 ==> r.is_none() && final(self)@ == old(self)@,
            old(self)@.len() > 0 ==> r == Some(old(self)@[0]) && final(self)@ == old(
                self,
            )@.drop_first(),
    {
        if self.len == 0 {
            return None;
        }
        let h = self.head;
        let item = self.items[h];
        self.items.set(h, None);
        self.head = (h + 1) % N;
        self.len = self.len - 1;
        proof {
            let n = N as int;
            let hi = h as int;
            vstd::arithmetic::div_mod::lemma_small_mod(hi as nat, n as nat);
            assert(hi % n == hi);
            assert(old(self).items@[(hi + 0) % n] is Some);
            assert forall|i: int| 0 <= i < self.len implies #[trigger] self.items@[(self.head + i) % n]
                == old(self).items@[(hi + 1 + i) % n] by {
                lemma_mod_shift(hi, i, n);
                lemma_mod_distinct(hi, 0, i + 1, n);
            }
            assert forall|i: int| 0 <= i < self.len implies (#[trigger] self.items@[(self.head + i) % (
            N as int)]) is Some by {
                assert(old(self).items@[(hi + (i + 1)) % n] is Some);
            }
            assert(self@ =~= old(self)@.drop_first());
        }
        item
    }

    pub fn is_empty(&self) -> (r: bool)
        ensures
            r == (self@.len() == 0),
    {
        self.len == 0
    }
}

proof fn lemma_mod_distinct(h: int, i: int, l: int, n: int)
    requires
        0 <= h < n,
        0 <= i < l < n,
    ensures
        (h + i) % n != (h + l) % n,
{
    vstd::arithmetic::div_mod::lemma_fundamental_div_mod(h + i, n);
    vstd::arithmetic::div_mod::lemma_fundamental_div_mod(h + l, n);
    let qi = (h + i) / n;
    let ql = (h + l) / n;
    assert(0 <= qi <= 1 && 0 <= ql <= 1) by {
        vstd::arithmetic::div_mod::lemma_div_pos_is_pos(h + i, n);
        vstd::arithmetic::div_mod::lemma_div_pos_is_pos(h + l, n);
        vstd::arithmetic::div_mod::lemma_div_is_ordered(h + l, 2 * n - 1, n);
        vstd::arithmetic::div_mod::lemma_div_is_ordered(h + i, 2 * n - 1, n);
        vstd::arithmetic::div_mod::lemma_fundamental_div_mod_converse(2 * n - 1, n, 1, n - 1);
    }
    if (h + i) % n == (h + l) % n {
        assert(l - i == n * (ql - qi)) by (nonlinear_arith)
            requires
                n * qi + (h + i) % n == h + i,
                n * ql + (h + l) % n == h + l,
                (h + i) % n == (h + l) % n,
        ;
        assert(ql - qi == 1 || ql - qi == 0 || ql - qi == -1);
        if ql - qi == 1 {
            assert(l - i == n);
        }
    }
}

proof fn lemma_mod_shift(h: int, i: int, n: int)
    requires
        0 <= h < n,
        0 <= i,
    ensures
        ((h + 1) % n + i) % n == (h + 1 + i) % n,
{
    vstd::arithmetic::div_mod::lemma_add_mod_noop(h + 1, i, n);
    vstd::arithmetic::div_mod::lemma_mod_twice(i, n);
    vstd::arithmetic::div_mod::lemma_add_mod_noop((h + 1) % n, i, n);
    vstd::arithmetic::div_mod::lemma_mod_twice(h + 1, n);
}

} // verus!
