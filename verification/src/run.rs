//! The full ordered history of frames for a profiling session, plus the
//! cycle counter.

use vstd::prelude::*;
use crate::frame::FrameData;

verus! {

/// An append-only sequence of frame records; only the last element is ever
/// mutated after creation.
pub struct ProfileData {
    /// Number of cycle boundaries seen so far.
    pub frame_count: usize,
    /// One record per cycle, in creation order; the open frame is last.
    pub frames: Vec<FrameData>,
}

impl ProfileData {
    /// Every frame of the history is well formed.
    pub open spec fn wf(self) -> bool {
        forall|i: int| 0 <= i < self.frames@.len() ==> (#[trigger] self.frames@[i]).wf()
    }

    /// An empty history: no cycle has begun.
    pub fn new() -> (r: ProfileData)
        ensures
            r.wf(),
            r.frame_count == 0,
            r.frames@.len() == 0,
    {
        ProfileData { frame_count: 0, frames: Vec::new() }
    }

    /// Begin a cycle: count it and append a fresh, empty frame record,
    /// which becomes the mutation target for subsequent calls.
    pub fn frame(&mut self)
        requires
            old(self).wf(),
            old(self).frame_count < usize::MAX,
        ensures
            final(self).wf(),
            final(self).frame_count == old(self).frame_count + 1,
            final(self).frames@.len() == old(self).frames@.len() + 1,
            forall|i: int|
                0 <= i < old(self).frames@.len() ==> #[trigger] final(self).frames@[i] == old(
                    self,
                ).frames@[i],
            final(self).frames@.last().path@.len() == 0,
            final(self).frames@.last().start_times@.len() == 0,
            final(self).frames@.last().table@.len() == 0,
            final(self).frames@.last().messages@.len() == 0,
    {
        self.frame_count = self.frame_count + 1;
        self.frames.push(FrameData::new());
    }

    /// Mutable access to the current (last) frame record. Before any
    /// explicit cycle boundary an implicit first frame is created lazily,
    /// so instrumentation calls ahead of the first boundary do not fail.
    pub fn curr_frame_mut(&mut self) -> (frame: &mut FrameData)
        requires
            old(self).wf(),
        ensures
            frame.wf(),
            final(self).frame_count == old(self).frame_count,
            old(self).frames@.len() > 0 ==> *frame == old(self).frames@.last()
                && final(self).frames@ == old(self).frames@.update(
                old(self).frames@.len() - 1,
                *final(frame),
            ),
            old(self).frames@.len() == 0 ==> frame.path@.len() == 0 && frame.table@.len() == 0
                && frame.messages@.len() == 0 && final(self).frames@.len() == 1
                && final(self).frames@[0] == *final(frame),
    {
        if self.frames.len() == 0 {
            self.frames.push(FrameData::new());
        }
        let i = self.frames.len() - 1;
        &mut self.frames[i]
    }
}

} // verus!
