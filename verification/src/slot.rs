use vstd::prelude::*;

verus! {

/// Result of a slot read.
pub enum SlotRead<'a, T> {
    /// Consistent value from the current write epoch.
    Fresh(&'a T),
    /// Writer is dead mid-write; last successfully read value returned.
    Stale(&'a T),
    /// No write has occurred since the slot was created.
    Empty,
}

/// What a seqlock reader does with the version it loaded before copying the
/// payload.
#[derive(Clone, Copy, Debug, PartialEq, Eq, Structural)]
pub enum SlotStep {
    /// Version 0: the slot was never written.
    Empty,
    /// Odd version and a live writer: a write is in progress, load again.
    Retry,
    /// Odd version and a dead writer: the write will never finish, answer
    /// from the last good copy.
    FallBack,
    /// Even version: copy the payload, then check the version again.
    Copy,
}

/// Decides on the version `v1` loaded before a copy. An odd version marks a
/// write in progress.
pub fn slot_read_start(v1: u64, writer_alive: bool) -> (r: SlotStep)
    ensures
        r == slot_start_spec(v1, writer_alive),
{
    if v1 == 0 {
        SlotStep::Empty
    } else if v1 & 1 == 1 {
        assert(v1 & 1 == v1 % 2) by (bit_vector);
        if writer_alive {
            SlotStep::Retry
        } else {
            SlotStep::FallBack
        }
    } else {
        assert(v1 & 1 == v1 % 2) by (bit_vector);
        SlotStep::Copy
    }
}

/// The last consistent value after a copy taken between the version loads
/// `v1` and `v2`: the copy when both loads agree (no write started or
/// finished in between), the previous one otherwise.
pub open spec fn after_copy<T>(shadow: Option<T>, v1: u64, copy: T, v2: u64) -> Option<T> {
    if v1 == v2 {
        Some(copy)
    } else {
        shadow
    }
}

/// Reader side of a shared-memory seqlock slot: the decisions of a read, and
/// the copy of the last consistent value that answers when the writer died
/// mid-write. The caller loads the version and copies the payload out of the
/// shared mapping: it asks [`start`](Self::start) what to do with the version
/// loaded first, and hands a copy to [`on_copy`](Self::on_copy) with the
/// version loaded after it.
pub struct ShmSlotReader<T> {
    shadow: Option<T>,
}

impl<T: Copy> ShmSlotReader<T> {
    /// The last consistent value read.
    pub closed spec fn shadow(&self) -> Option<T> {
        self.shadow
    }

    /// A reader attached to a slot: nothing read yet.
    pub fn attach() -> (r: Self)
        ensures
            r.shadow() is None,
    {
        ShmSlotReader { shadow: None }
    }

    /// What to do with the version `v1` loaded before a copy.
    pub fn start(&self, v1: u64, writer_alive: bool) -> (r: SlotStep)
        ensures
            r == slot_start_spec(v1, writer_alive),
    {
        slot_read_start(v1, writer_alive)
    }

    /// The payload `copy` was taken between the version loads `v1` and `v2`.
    /// When they agree the copy is consistent: it becomes the last good value
    /// and is the fresh answer. Otherwise a write raced the copy: `None`, load
    /// again.
    pub fn on_copy(&mut self, v1: u64, copy: T, v2: u64) -> (r: Option<SlotRead<'_, T>>)
        ensures
            final(self).shadow() == after_copy(old(self).shadow(), v1, copy, v2),
            v1 == v2 ==> (r matches Some(SlotRead::Fresh(v)) && *v == copy),
            v1 != v2 ==> r is None,
    {
        if v1 != v2 {
            return None;
        }
        self.shadow = Some(copy);
        match &self.shadow {
            Some(v) => Some(SlotRead::Fresh(v)),
            None => None,
        }
    }

    /// The answer when the writer died mid-write: the last consistent value
    /// when there is one.
    pub fn fall_back(&self) -> (r: SlotRead<'_, T>)
        ensures
            match self.shadow() {
                Some(s) => r matches SlotRead::Stale(v) && *v == s,
                None => r is Empty,
            },
    {
        match &self.shadow {
            Some(v) => SlotRead::Stale(v),
            None => SlotRead::Empty,
        }
    }
}

/// A reader falls back to the value of its last consistent copy, and to
/// nothing before its first one.
pub proof fn lemma_fall_back_is_last_fresh<T>(shadow: Option<T>, v: u64, copy: T, v1: u64, other: T, v2: u64)
    requires
        v1 != v2,
    ensures
        after_copy(shadow, v, copy, v) == Some(copy),
        after_copy(after_copy(shadow, v, copy, v), v1, other, v2) == Some(copy),
{
}

/// The version after `v`, as an atomic increment gives it (wrapping).
pub open spec fn next_version(v: u64) -> u64 {
    if v == u64::MAX {
        0
    } else {
        (v + 1) as u64
    }
}

/// Writer side of a shared-memory seqlock slot: the version it stores
/// around each write. The caller stores [`begin`](Self::begin)'s version,
/// copies the value into the slot, then stores [`end`](Self::end)'s. The
/// version is 0 until the first write.
pub struct ShmSlotWriter {
    version: u64,
}

impl ShmSlotWriter {
    /// The version last stored.
    pub closed spec fn version(&self) -> u64 {
        self.version
    }

    /// A writer over a newly created, zeroed slot: version 0, never written.
    pub fn create() -> (r: Self)
        ensures
            r.version() == 0,
    {
        ShmSlotWriter { version: 0 }
    }

    /// The version to store before copying a value in.
    pub fn begin(&mut self) -> (r: u64)
        ensures
            r == next_version(old(self).version()),
            final(self).version() == r,
    {
        self.version = if self.version == u64::MAX {
            0
        } else {
            self.version + 1
        };
        self.version
    }

    /// The version to store once the value is copied in.
    pub fn end(&mut self) -> (r: u64)
        ensures
            r == next_version(old(self).version()),
            final(self).version() == r,
    {
        self.version = if self.version == u64::MAX {
            0
        } else {
            self.version + 1
        };
        self.version
    }
}

/// From an even version, a write stores an odd version while the value is
/// copied in (a reader that sees it retries, or falls back when the writer
/// died) and an even one once it is in (a reader copies).
pub proof fn lemma_write_brackets(v: u64, alive: bool)
    requires
        v % 2 == 0,
    ensures
        next_version(v) % 2 == 1,
        next_version(v) != 0,
        next_version(next_version(v)) % 2 == 0,
        next_version(next_version(v)) != 0 ==> slot_start_spec(next_version(next_version(v)), alive)
            == SlotStep::Copy,
        slot_start_spec(next_version(v), alive) == if alive {
            SlotStep::Retry
        } else {
            SlotStep::FallBack
        },
{
}

/// What a reader does with the version `v1` it loaded first (see
/// [`slot_read_start`]).
pub open spec fn slot_start_spec(v1: u64, writer_alive: bool) -> SlotStep {
    if v1 == 0 {
        SlotStep::Empty
    } else if v1 % 2 == 1 {
        if writer_alive {
            SlotStep::Retry
        } else {
            SlotStep::FallBack
        }
    } else {
        SlotStep::Copy
    }
}

} // verus!
