use vstd::prelude::*;

verus! {

/// Three copies of a value, one per frame in flight: the frame being
/// written on the CPU never shares a copy with the frames still read.
pub struct CpuRingQueue<T> {
    queues: [T; 3],
}

impl<T> CpuRingQueue<T> {
    /// The copy of each frame slot.
    pub closed spec fn slots(&self) -> Seq<T> {
        self.queues@
    }

    /// Three copies of `init`: two clones and `init` itself last.
    pub fn new(init: T) -> (r: Self) where T: Clone
        ensures
            r.slots().len() == 3,
            cloned(init, r.slots()[0]),
            cloned(init, r.slots()[1]),
            r.slots()[2] == init,
    {
        Self { queues: [init.clone(), init.clone(), init] }
    }

    /// The copy of frame slot `frame_index`.
    pub fn get_read(&self, frame_index: usize) -> (r: &T)
        requires
            frame_index < 3,
        ensures
            self.slots().len() == 3,
            *r == self.slots()[frame_index as int],
    {
        &self.queues[frame_index]
    }

    /// The copy of frame slot `frame_index`, for writing.
    pub fn get_write(&mut self, frame_index: usize) -> (r: &mut T)
        requires
            frame_index < 3,
        ensures
            old(self).slots().len() == 3,
            final(self).slots().len() == 3,
            *r == old(self).slots()[frame_index as int],
            final(self).slots() == old(self).slots().update(frame_index as int, *final(r)),
    {
        &mut self.queues[frame_index]
    }
}

impl<T> CpuRingQueue<Vec<T>> {
    /// Empties the list of frame slot `frame_index`.
    pub fn clear(&mut self, frame_index: usize)
        requires
            frame_index < 3,
        ensures
            old(self).slots().len() == 3,
            final(self).slots().len() == 3,
            final(self).slots()[frame_index as int]@ == Seq::<T>::empty(),
            forall|i: int|
                0 <= i < 3 && i != frame_index ==> final(self).slots()[i] == old(self).slots()[i],
    {
        self.queues[frame_index].clear();
    }
}

/// Three copies of a value, one per frame in flight, as staged on the CPU
/// before upload.
pub struct CpuRingBuffer<T> {
    queues: [T; 3],
}

impl<T> CpuRingBuffer<T> {
    /// The copy of each frame slot.
    pub closed spec fn slots(&self) -> Seq<T> {
        self.queues@
    }

    /// Three copies of `init`: two clones and `init` itself last.
    pub fn new(init: T) -> (r: Self) where T: Clone
        ensures
            r.slots().len() == 3,
            cloned(init, r.slots()[0]),
            cloned(init, r.slots()[1]),
            r.slots()[2] == init,
    {
        Self { queues: [init.clone(), init.clone(), init] }
    }

    /// The copy of frame slot `frame_index`.
    pub fn get_read(&self, frame_index: usize) -> (r: &T)
        requires
            frame_index < 3,
        ensures
            self.slots().len() == 3,
            *r == self.slots()[frame_index as int],
    {
        &self.queues[frame_index]
    }

    /// The copy of frame slot `frame_index`, for writing.
    pub fn get_write(&mut self, frame_index: usize) -> (r: &mut T)
        requires
            frame_index < 3,
        ensures
            old(self).slots().len() == 3,
            final(self).slots().len() == 3,
            *r == old(self).slots()[frame_index as int],
            final(self).slots() == old(self).slots().update(frame_index as int, *final(r)),
    {
        &mut self.queues[frame_index]
    }
}

} // verus!
