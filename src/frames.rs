use vstd::prelude::*;

verus! {

/// Nanoseconds in one second.
pub const NANOS_PER_SECOND: u64 = 1_000_000_000;

/// Which of `count` frame slots is current; it steps round them in turn.
pub struct FrameIndex {
    current: usize,
    count: usize,
}

impl FrameIndex {
    /// The current slot.
    pub closed spec fn spec_index(&self) -> nat {
        self.current as nat
    }

    /// The number of slots.
    pub closed spec fn spec_count(&self) -> nat {
        self.count as nat
    }

    pub open spec fn wf(&self) -> bool {
        self.spec_index() < self.spec_count() || self.spec_index() == 0
    }

    /// Slot 0 of `count`.
    pub fn new(count: usize) -> (r: Self)
        ensures
            r.wf(),
            r.spec_index() == 0,
            r.spec_count() == count,
    {
        Self { current: 0, count }
    }

    /// The current slot.
    pub fn index(&self) -> (r: usize)
        ensures
            r == self.spec_index(),
    {
        self.current
    }

    /// Moves to the next slot, from the last back to the first.
    pub fn advance(&mut self)
        requires
            old(self).wf(),
            old(self).spec_count() > 0,
        ensures
            final(self).wf(),
            final(self).spec_count() == old(self).spec_count(),
            final(self).spec_index() == (old(self).spec_index() + 1) % old(self).spec_count(),
    {
        self.current = (self.current + 1) % self.count;
    }
}

/// Counts frames and tells, once at least a second has passed since the
/// last report, how many were drawn in that time.
#[derive(Debug)]
pub struct FPSCounter {
    frame_count: u32,
}

impl Default for FPSCounter {
    fn default() -> (r: Self)
        ensures
            r.frames() == 0,
    {
        Self { frame_count: 0 }
    }
}

impl FPSCounter {
    /// The frames counted since the last report.
    pub closed spec fn frames(&self) -> nat {
        self.frame_count as nat
    }

    /// The frames counted since the last report.
    pub fn frame_count(&self) -> (r: u32)
        ensures
            r == self.frames(),
    {
        self.frame_count
    }

    /// Counts one frame. `elapsed_nanos` is the time since the last report;
    /// when it is a second or more, the frames counted (this one included)
    /// are returned and the count starts again from zero.
    pub fn tick(&mut self, elapsed_nanos: u64) -> (r: Option<u32>)
        requires
            old(self).frames() < u32::MAX,
        ensures
            elapsed_nanos >= NANOS_PER_SECOND ==> r == Some((old(self).frames() + 1) as u32)
                && final(self).frames() == 0,
            elapsed_nanos < NANOS_PER_SECOND ==> r is None && final(self).frames() == old(
                self,
            ).frames() + 1,
    {
        self.frame_count = self.frame_count + 1;
        if elapsed_nanos >= NANOS_PER_SECOND {
            let frames = self.frame_count;
            self.frame_count = 0;
            Some(frames)
        } else {
            None
        }
    }
}

} // verus!
