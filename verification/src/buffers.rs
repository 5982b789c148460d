//! What the compiled schedule records of each audio buffer between
//! processing blocks: whether it holds silence, a constant value, and for
//! how many frames that is known.
use vstd::prelude::*;

verus! {

/// The flags of one buffer of the compiled schedule.
#[derive(Debug, Clone, Copy, PartialEq, Eq, Structural)]
pub struct BufferFlags {
    /// The buffer holds only zeros (over its first `frames` frames).
    pub silent: bool,
    /// The buffer holds one value repeated (over its first `frames` frames).
    pub constant: bool,
    /// The number of frames the two flags above cover.
    pub frames: u16,
}

/// A buffer assigned to an input port.
#[derive(Debug, Clone, Copy, PartialEq, Eq, Structural)]
pub struct InBufferAssignment {
    /// The index of the buffer.
    pub buffer_index: usize,
    /// Whether the buffer is cleared before it is handed to the node (no
    /// edge feeds the port).
    pub should_clear: bool,
}

/// A buffer assigned to an output port.
#[derive(Debug, Clone, Copy, PartialEq, Eq, Structural)]
pub struct OutBufferAssignment {
    /// The index of the buffer.
    pub buffer_index: usize,
}

impl BufferFlags {
    /// Marks the buffer as silent, or as holding arbitrary data, over its
    /// first `frames` frames. A silent buffer is also constant; a buffer that
    /// is not silent is not known to be constant.
    pub fn set_silent(&mut self, silent: bool, frames: u16)
        ensures
            final(self).silent == silent,
            final(self).constant == silent,
            final(self).frames == frames,
    {
        self.silent = silent;
        self.constant = silent;
        self.frames = frames;
    }
}

} // verus!
