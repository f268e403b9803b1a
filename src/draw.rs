use vstd::prelude::*;

verus! {

/// A request to draw one entity.
#[derive(Debug, Clone, Copy, PartialEq, Eq, Structural)]
pub struct DrawCommand {
    pub entity_id: u32,
}

/// The draw requests of a frame.
pub struct DrawQueue {
    pub opaque: Vec<DrawCommand>,
}

impl DrawQueue {
    /// An empty queue.
    pub fn new() -> (r: Self)
        ensures
            r.opaque@ == Seq::<DrawCommand>::empty(),
    {
        Self { opaque: Vec::new() }
    }

    /// Drops every request.
    pub fn clear(&mut self)
        ensures
            final(self).opaque@ == Seq::<DrawCommand>::empty(),
    {
        self.opaque.clear();
    }
}

/// The arguments of one indexed indirect draw, laid out as the GPU reads
/// them.
#[derive(Debug, Clone, Copy, PartialEq, Eq, Structural)]
pub struct IndirectDraw {
    pub index_count: u32,
    pub instance_count: u32,
    pub first_index: u32,
    pub base_vertex: i32,
    pub first_instance: u32,
}

/// The draw that draws nothing: every field zero.
pub open spec fn empty_draw() -> IndirectDraw {
    IndirectDraw {
        index_count: 0,
        instance_count: 0,
        first_index: 0,
        base_vertex: 0,
        first_instance: 0,
    }
}

impl Default for IndirectDraw {
    fn default() -> (r: Self)
        ensures
            r == empty_draw(),
    {
        Self::_new()
    }
}

impl IndirectDraw {
    /// The draw that draws nothing.
    pub fn _new() -> (r: Self)
        ensures
            r == empty_draw(),
    {
        Self { index_count: 0, instance_count: 0, first_index: 0, base_vertex: 0, first_instance: 0 }
    }
}

} // verus!
