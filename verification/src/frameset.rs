//! Animation clip descriptors.

use vstd::prelude::*;

use crate::geom::Rect;

verus! {

/// Largest frame duration (and largest single time step) accepted, in
/// fixed-point seconds: one thousandth of a second is 1.
pub const TIME_LIMIT: u64 = 4_000_000_000;

/// An immutable animation clip: an ordered, non-empty sequence of source
/// rectangles, each displayed for `frame_time` fixed-point seconds, with a
/// flag saying whether the clip loops back to its first frame.
#[derive(Clone, Debug)]
pub struct FrameSet {
    /// Whether the clip loops back to frame 0 instead of freezing or
    /// chaining at the end.
    pub repeat: bool,
    /// How long each frame is displayed, in fixed-point seconds.
    pub frame_time: u64,
    /// The source rectangle of each frame, in order.
    pub frames: Vec<Rect>,
}

/// The mathematical image of a [`FrameSet`].
#[verifier::ext_equal]
pub struct SpecFrameSet {
    pub repeat: bool,
    pub frame_time: u64,
    pub frames: Seq<Rect>,
}

impl View for FrameSet {
    type V = SpecFrameSet;

    open spec fn view(&self) -> SpecFrameSet {
        SpecFrameSet { repeat: self.repeat, frame_time: self.frame_time, frames: self.frames@ }
    }
}

impl SpecFrameSet {
    /// A clip the scene graph can hold: non-empty, with a bounded frame
    /// duration and bounded frame dimensions.
    pub open spec fn wf(self) -> bool {
        &&& self.frames.len() > 0
        &&& self.frame_time <= TIME_LIMIT
        &&& forall|i: int| 0 <= i < self.frames.len() ==> (#[trigger] self.frames[i]).dims_bounded()
    }
}

} // verus!
