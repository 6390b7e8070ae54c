//! What the modes tell the presentation: how the document is laid out and
//! what is to be drawn again.

use crate::buffer::DirtyBytes;
use vstd::prelude::*;

verus! {

/// The layout of the view, the message to show, and what is to be drawn
/// again.
pub struct ViewOptions {
    pub size: (u16, u16),
    pub bytes_per_line: usize,
    pub start_offset: usize,
    pub info: Option<String>,
    pub dirty: Option<DirtyBytes>,
}

impl ViewOptions {
    /// The options for a terminal of `size`: sixteen bytes a line, from the
    /// start of the document, with nothing to say or to draw again.
    pub fn new(size: (u16, u16)) -> (r: ViewOptions)
        ensures
            r.size == size,
            r.bytes_per_line == 16,
            r.start_offset == 0,
            r.info is None,
            r.dirty is None,
    {
        ViewOptions { bytes_per_line: 0x10, start_offset: 0, size, info: None, dirty: None }
    }

    /// What is asked to be drawn again is in order.
    pub open spec fn dirty_wf(&self) -> bool {
        match self.dirty {
            Some(dirty) => dirty.wf(),
            None => true,
        }
    }

    /// What is to be drawn once `new_dirty` is asked for on top of `dirty`:
    /// a change of length stays, anything else gives way to the new.
    pub open spec fn merged(dirty: Option<DirtyBytes>, new_dirty: DirtyBytes) -> Option<DirtyBytes> {
        match dirty {
            Some(DirtyBytes::ChangeLength) => dirty,
            _ => Some(new_dirty),
        }
    }

    /// Asks for `new_dirty` to be drawn again.
    pub fn make_dirty(&mut self, new_dirty: DirtyBytes)
        ensures
            final(self).dirty == Self::merged(old(self).dirty, new_dirty),
            final(self).size == old(self).size,
            final(self).bytes_per_line == old(self).bytes_per_line,
            final(self).start_offset == old(self).start_offset,
            final(self).info == old(self).info,
    {
        let keep = match &self.dirty {
            Some(DirtyBytes::ChangeLength) => true,
            _ => false,
        };
        if !keep {
            self.dirty = Some(new_dirty);
        }
    }

    /// Asks for what `dirty` holds, if anything, to be drawn again.
    pub fn make_dirty_if(&mut self, dirty: Option<DirtyBytes>)
        ensures
            final(self).dirty == match dirty {
                Some(d) => Self::merged(old(self).dirty, d),
                None => old(self).dirty,
            },
            final(self).size == old(self).size,
            final(self).bytes_per_line == old(self).bytes_per_line,
            final(self).start_offset == old(self).start_offset,
            final(self).info == old(self).info,
    {
        match dirty {
            Some(d) => self.make_dirty(d),
            None => {},
        }
    }
}

} // verus!
