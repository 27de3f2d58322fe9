use vstd::prelude::*;

verus! {

/// Number of a rendered frame. 32 bits cover more than a year at 60 frames per second.
#[derive(Copy, Clone, PartialEq, Eq, Structural)]
pub struct FrameNumber(pub u32);

impl FrameNumber {
    /// The first frame.
    pub fn new() -> (r: FrameNumber)
        ensures
            r.0 == 0,
    {
        FrameNumber(0)
    }

    /// Advances to the following frame.
    pub fn next(&mut self)
        requires
            old(self).0 < u32::MAX,
        ensures
            final(self).0 == old(self).0 + 1,
    {
        self.0 = self.0 + 1;
    }
}

impl Default for FrameNumber {
    /// The first frame.
    fn default() -> (r: Self)
        ensures
            r.0 == 0,
    {
        FrameNumber(0)
    }
}

} // verus!
