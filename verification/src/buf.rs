use vstd::prelude::*;

verus! {

/// Returns the sub-slice `s[start..end]` for in-place mutation.
///
/// Wraps `<[u8] as IndexMut<Range<usize>>>::index_mut`; the contract claims
/// that the returned slice is exactly that range and that, once the borrow
/// ends, the bytes outside the range are unchanged.
#[verifier::external_body]
fn slice_range_mut(s: &mut [u8], start: usize, end: usize) -> (r: &mut [u8])
    requires
        start <= end <= old(s)@.len(),
    ensures
        r@ == old(s)@.subrange(start as int, end as int),
        final(r)@.len() == r@.len(),
        final(s)@ == old(s)@.subrange(0, start as int) + final(r)@
            + old(s)@.subrange(end as int, old(s)@.len() as int),
{
    &mut s[start..end]
}

/// Flat byte slab for outbound protocol frames.
///
/// Payload is appended at the tail, protocol headers are prepended into
/// reserved headroom, and the result is one contiguous `data()` slice.
/// Fixed capacity, no growth.
///
/// ```text
/// [ headroom          | payload data         | tailroom    ]
/// 0                   head                   tail          capacity
/// ```
pub struct WriteBuf {
    buf: Vec<u8>,
    head: usize,
    tail: usize,
    reset_offset: usize,
}

/// Abstract state of a [`WriteBuf`]: the whole backing store and its cursors.
pub struct WriteBufView {
    pub bytes: Seq<u8>,
    pub head: nat,
    pub tail: nat,
    pub reset_offset: nat,
}

impl WriteBufView {
    /// The outbound bytes, `bytes[head..tail]`.
    pub open spec fn data(self) -> Seq<u8> {
        self.bytes.subrange(self.head as int, self.tail as int)
    }

    pub open spec fn capacity(self) -> nat {
        self.bytes.len()
    }

    pub open spec fn headroom(self) -> nat {
        self.head
    }

    pub open spec fn tailroom(self) -> int {
        self.bytes.len() - self.tail
    }

    /// The cursor invariant every `WriteBuf` keeps.
    pub open spec fn wf(self) -> bool {
        &&& self.head <= self.tail <= self.bytes.len()
        &&& self.reset_offset < self.bytes.len()
        &&& self.bytes.len() <= usize::MAX
    }
}

impl View for WriteBuf {
    type V = WriteBufView;

    closed spec fn view(&self) -> WriteBufView {
        WriteBufView {
            bytes: self.buf@,
            head: self.head as nat,
            tail: self.tail as nat,
            reset_offset: self.reset_offset as nat,
        }
    }
}

impl WriteBuf {
    /// Create with total capacity and reserved headroom.
    ///
    /// Usable tailroom is `capacity - headroom`, so `headroom` must be below
    /// `capacity`.
    pub fn new(capacity: usize, headroom: usize) -> (r: Self)
        requires
            headroom < capacity,
        ensures
            r@.wf(),
            r@.bytes == Seq::new(capacity as nat, |i: int| 0u8),
            r@.head == headroom,
            r@.tail == headroom,
            r@.reset_offset == headroom,
    {
        let buf = vec![0u8; capacity];
        proof {
            assert(buf@ =~= Seq::new(capacity as nat, |i: int| 0u8));
        }
        WriteBuf { buf, head: headroom, tail: headroom, reset_offset: headroom }
    }

    /// Prepend bytes into headroom (protocol headers); moves head backward.
    ///
    /// `src` must fit in the headroom.
    pub fn prepend(&mut self, src: &[u8])
        requires
            old(self)@.wf(),
            src@.len() <= old(self)@.head,
        ensures
            final(self)@.wf(),
            final(self)@.head == old(self)@.head - src@.len(),
            final(self)@.tail == old(self)@.tail,
            final(self)@.reset_offset == old(self)@.reset_offset,
            final(self)@.data() == src@ + old(self)@.data(),
            final(self)@.bytes == old(self)@.bytes.subrange(0, final(self)@.head as int) + src@
                + old(self)@.bytes.subrange(old(self)@.head as int, old(self)@.bytes.len() as int),
    {
        let new_head = self.head - src.len();
        let mut i: usize = 0;
        while i < src.len()
            invariant
                0 <= i <= src@.len(),
                new_head + src@.len() == old(self).head,
                old(self)@.wf(),
                self.head == old(self).head,
                self.tail == old(self).tail,
                self.reset_offset == old(self).reset_offset,
                self.buf@.len() == old(self).buf@.len(),
                forall|k: int|
                    0 <= k < self.buf@.len() ==> #[trigger] self.buf@[k] == if new_head <= k
                        < new_head + i {
                        src@[k - new_head]
                    } else {
                        old(self).buf@[k]
                    },
            decreases src@.len() - i,
        {
            self.buf.set(new_head + i, src[i]);
            i = i + 1;
        }
        self.head = new_head;
        proof {
            let v = self@;
            let o = old(self)@;
            assert(v.bytes =~= o.bytes.subrange(0, new_head as int) + src@ + o.bytes.subrange(
                o.head as int,
                o.bytes.len() as int,
            ));
            assert(v.data() =~= src@ + o.data());
        }
    }

    /// Append bytes at tail (payload data).
    ///
    /// `src` must fit in the tailroom.
    pub fn append(&mut self, src: &[u8])
        requires
            old(self)@.wf(),
            src@.len() <= old(self)@.tailroom(),
        ensures
            final(self)@.wf(),
            final(self)@.head == old(self)@.head,
            final(self)@.tail == old(self)@.tail + src@.len(),
            final(self)@.reset_offset == old(self)@.reset_offset,
            final(self)@.data() == old(self)@.data() + src@,
            final(self)@.bytes == old(self)@.bytes.subrange(0, old(self)@.tail as int) + src@
                + old(self)@.bytes.subrange(final(self)@.tail as int, old(self)@.bytes.len() as int),
    {
        let start = self.tail;
        let mut i: usize = 0;
        while i < src.len()
            invariant
                0 <= i <= src@.len(),
                start == old(self).tail,
                start + src@.len() <= self.buf@.len(),
                old(self)@.wf(),
                self.head == old(self).head,
                self.tail == old(self).tail,
                self.reset_offset == old(self).reset_offset,
                self.buf@.len() == old(self).buf@.len(),
                forall|k: int|
                    0 <= k < self.buf@.len() ==> #[trigger] self.buf@[k] == if start <= k < start
                        + i {
                        src@[k - start]
                    } else {
                        old(self).buf@[k]
                    },
            decreases src@.len() - i,
        {
            self.buf.set(start + i, src[i]);
            i = i + 1;
        }
        self.tail = start + src.len();
        proof {
            let v = self@;
            let o = old(self)@;
            assert(v.bytes =~= o.bytes.subrange(0, o.tail as int) + src@ + o.bytes.subrange(
                v.tail as int,
                o.bytes.len() as int,
            ));
            assert(v.data() =~= o.data() + src@);
        }
    }

    /// Extend the buffer with `n` zeroed bytes at the tail.
    ///
    /// `n` must fit in the tailroom.
    pub fn extend_zeroed(&mut self, n: usize)
        requires
            old(self)@.wf(),
            n <= old(self)@.tailroom(),
        ensures
            final(self)@.wf(),
            final(self)@.head == old(self)@.head,
            final(self)@.tail == old(self)@.tail + n,
            final(self)@.reset_offset == old(self)@.reset_offset,
            final(self)@.data() == old(self)@.data() + Seq::new(n as nat, |i: int| 0u8),
            final(self)@.bytes == old(self)@.bytes.subrange(0, old(self)@.tail as int) + Seq::new(
                n as nat,
                |i: int| 0u8,
            ) + old(self)@.bytes.subrange(final(self)@.tail as int, old(self)@.bytes.len() as int),
    {
        let start = self.tail;
        let mut i: usize = 0;
        while i < n
            invariant
                0 <= i <= n,
                start == old(self).tail,
                start + n <= self.buf@.len(),
                old(self)@.wf(),
                self.head == old(self).head,
                self.tail == old(self).tail,
                self.reset_offset == old(self).reset_offset,
                self.buf@.len() == old(self).buf@.len(),
                forall|k: int|
                    0 <= k < self.buf@.len() ==> #[trigger] self.buf@[k] == if start <= k < start
                        + i {
                        0u8
                    } else {
                        old(self).buf@[k]
                    },
            decreases n - i,
        {
            self.buf.set(start + i, 0u8);
            i = i + 1;
        }
        self.tail = start + n;
        proof {
            let v = self@;
            let o = old(self)@;
            let z = Seq::new(n as nat, |i: int| 0u8);
            assert(v.bytes =~= o.bytes.subrange(0, o.tail as int) + z + o.bytes.subrange(
                v.tail as int,
                o.bytes.len() as int,
            ));
            assert(v.data() =~= o.data() + z);
        }
    }

    /// Complete outbound data (contiguous: headers + payload).
    pub fn data(&self) -> (r: &[u8])
        requires
            self@.wf(),
        ensures
            r@ == self@.data(),
    {
        &self.buf.as_slice()[self.head..self.tail]
    }

    /// Mutable access to outbound data, for in-place operations such as
    /// XOR masking. Cursors are unchanged; only bytes of `data()` change.
    pub fn data_mut(&mut self) -> (r: &mut [u8])
        requires
            old(self)@.wf(),
        ensures
            final(self)@.wf(),
            r@ == old(self)@.data(),
            final(r)@.len() == r@.len(),
            final(self)@ == (WriteBufView {
                bytes: old(self)@.bytes.subrange(0, old(self)@.head as int) + final(r)@
                    + old(self)@.bytes.subrange(old(self)@.tail as int, old(self)@.bytes.len() as int),
                ..old(self)@
            }),
    {
        let head = self.head;
        let tail = self.tail;
        slice_range_mut(self.buf.as_mut_slice(), head, tail)
    }

    /// Writable tail region `bytes[tail..capacity]` for direct in-place writes;
    /// pair with [`filled`](Self::filled) to commit.
    pub fn spare(&mut self) -> (r: &mut [u8])
        requires
            old(self)@.wf(),
        ensures
            final(self)@.wf(),
            r@ == old(self)@.bytes.subrange(old(self)@.tail as int, old(self)@.bytes.len() as int),
            final(r)@.len() == r@.len(),
            final(self)@ == (WriteBufView {
                bytes: old(self)@.bytes.subrange(0, old(self)@.tail as int) + final(r)@,
                ..old(self)@
            }),
    {
        let tail = self.tail;
        let len = self.buf.len();
        slice_range_mut(self.buf.as_mut_slice(), tail, len)
    }

    /// Commit `n` bytes written into [`spare`](Self::spare).
    ///
    /// `tail + n` must stay within the buffer.
    pub fn filled(&mut self, n: usize)
        requires
            old(self)@.wf(),
            old(self)@.tail + n <= old(self)@.bytes.len(),
        ensures
            final(self)@.wf(),
            final(self)@ == (WriteBufView { tail: (old(self)@.tail + n) as nat, ..old(self)@ }),
    {
        self.tail = self.tail + n;
    }

    /// Consume `n` bytes from the front after a partial write.
    ///
    /// If the buffer becomes empty, head and tail return to the reset offset,
    /// so the buffer works as a cursor FIFO without an explicit `clear()`.
    /// `n` must not exceed `len()`.
    pub fn advance(&mut self, n: usize)
        requires
            old(self)@.wf(),
            n <= old(self)@.tail - old(self)@.head,
        ensures
            final(self)@.wf(),
            final(self)@.bytes == old(self)@.bytes,
            final(self)@.reset_offset == old(self)@.reset_offset,
            final(self)@.data() == old(self)@.data().subrange(n as int, old(self)@.data().len() as int),
            if n == old(self)@.tail - old(self)@.head {
                final(self)@.head == old(self)@.reset_offset && final(self)@.tail
                    == old(self)@.reset_offset
            } else {
                final(self)@.head == old(self)@.head + n && final(self)@.tail == old(self)@.tail
            },
    {
        self.head = self.head + n;
        if self.head == self.tail {
            self.head = self.reset_offset;
            self.tail = self.reset_offset;
        }
        proof {
            let v = self@;
            let o = old(self)@;
            assert(v.data() =~= o.data().subrange(n as int, o.data().len() as int));
        }
    }

    /// Total size of the backing store.
    pub fn capacity(&self) -> (r: usize)
        ensures
            r == self@.capacity(),
    {
        self.buf.len()
    }

    /// Bytes available for prepend.
    pub fn headroom(&self) -> (r: usize)
        requires
            self@.wf(),
        ensures
            r == self@.headroom(),
    {
        self.head
    }

    /// Bytes available for append.
    pub fn tailroom(&self) -> (r: usize)
        requires
            self@.wf(),
        ensures
            r == self@.tailroom(),
    {
        self.buf.len() - self.tail
    }

    /// Bytes of outbound data.
    pub fn len(&self) -> (r: usize)
        requires
            self@.wf(),
        ensures
            r == self@.data().len(),
            r == self@.tail - self@.head,
    {
        self.tail - self.head
    }

    /// Whether the buffer has no outbound data.
    pub fn is_empty(&self) -> (r: bool)
        requires
            self@.wf(),
        ensures
            r == (self@.data().len() == 0),
    {
        self.head == self.tail
    }

    /// Remove `n` bytes from the end (Content-Length backfill after shifting
    /// body bytes left); `n` must not exceed `len()`.
    pub fn shrink_tail(&mut self, n: usize)
        requires
            old(self)@.wf(),
            n <= old(self)@.tail - old(self)@.head,
        ensures
            final(self)@.wf(),
            final(self)@ == (WriteBufView { tail: (old(self)@.tail - n) as nat, ..old(self)@ }),
            final(self)@.data() == old(self)@.data().subrange(0, old(self)@.data().len() - n),
    {
        self.tail = self.tail - n;
        proof {
            assert(self@.data() =~= old(self)@.data().subrange(0, old(self)@.data().len() - n));
        }
    }

    /// Reset for the next message; cursors return to the headroom offset.
    pub fn clear(&mut self)
        requires
            old(self)@.wf(),
        ensures
            final(self)@.wf(),
            final(self)@ == (WriteBufView {
                head: old(self)@.reset_offset,
                tail: old(self)@.reset_offset,
                ..old(self)@
            }),
    {
        self.head = self.reset_offset;
        self.tail = self.reset_offset;
    }
}

/// Sequential writer over a [`WriteBuf`]'s tail region.
///
/// Each write is all-or-nothing: it is refused when it exceeds the tailroom.
pub struct WriteBufWriter<'a> {
    buf: &'a mut WriteBuf,
    written: usize,
    start: Ghost<nat>,
}

impl<'a> WriteBufWriter<'a> {
    /// The writer has appended no more than the buffer's tail offset, what
    /// it wrote is exactly what the buffer's data grew by since the writer
    /// was made, and the buffer keeps its own invariant.
    pub closed spec fn wf(&self) -> bool {
        &&& self.written <= self.buf@.tail
        &&& self.buf@.wf()
        &&& self.start@ + self.written == self.buf@.data().len()
    }

    /// Create a writer over the buffer's spare region.
    pub fn new(buf: &'a mut WriteBuf) -> (r: Self)
        requires
            old(buf)@.wf(),
        ensures
            r.wf(),
            r.written_spec() == 0,
            r.buffer() == *old(buf),
            r.start_len() == old(buf)@.data().len(),
    {
        let ghost n = buf@.data().len();
        WriteBufWriter { buf, written: 0, start: Ghost(n) }
    }

    /// Bytes written so far.
    pub closed spec fn written_spec(&self) -> nat {
        self.written as nat
    }

    /// Length of the buffer's data when the writer was made.
    pub closed spec fn start_len(&self) -> nat {
        self.start@
    }

    pub closed spec fn buffer(&self) -> WriteBuf {
        *self.buf
    }

    /// Over any sequence of writes, the bytes written are what the buffer's
    /// data grew by since the writer was made.
    pub proof fn lemma_written_is_growth(&self)
        requires
            self.wf(),
        ensures
            self.written_spec() == self.buffer()@.data().len() - self.start_len(),
    {
    }

    /// Bytes written so far.
    pub fn written(&self) -> (r: usize)
        ensures
            r == self.written_spec(),
    {
        self.written
    }

    /// Write `data` at the tail. Returns `Some(data.len())` when it fits in
    /// the tailroom, `None` (buffer unchanged) when it does not.
    pub fn write(&mut self, data: &[u8]) -> (r: Option<usize>)
        requires
            old(self).wf(),
        ensures
            final(self).wf(),
            final(self).start_len() == old(self).start_len(),
            data@.len() <= old(self).buffer()@.tailroom() ==> {
                &&& r == Some(data@.len() as usize)
                &&& final(self).buffer()@.data() == old(self).buffer()@.data() + data@
                &&& final(self).buffer()@.head == old(self).buffer()@.head
                &&& final(self).written_spec() == old(self).written_spec() + data@.len()
            },
            data@.len() > old(self).buffer()@.tailroom() ==> {
                &&& r.is_none()
                &&& final(self).buffer() == old(self).buffer()
                &&& final(self).written_spec() == old(self).written_spec()
            },
    {
        let available = self.buf.tailroom();
        if data.len() > available {
            return None;
        }
        self.buf.append(data);
        self.written = self.written + data.len();
        Some(data.len())
    }
}

} // verus!
