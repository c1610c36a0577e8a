use vstd::prelude::*;

verus! {

/// Frames-per-second bookkeeping: frames counted in the second under way,
/// and the count of the last full second.
pub struct FpsComponent {
    frames_in_second: u32,
    last_second_frame_count: u32,
}

impl FpsComponent {
    /// No frame counted yet.
    pub fn new() -> (r: FpsComponent)
        ensures
            r.frames_in_second() == 0,
            r.last_second_frame_count() == 0,
    {
        FpsComponent { frames_in_second: 0, last_second_frame_count: 0 }
    }

    /// Frames counted in the second under way.
    #[verifier::when_used_as_spec(spec_frames_in_second)]
    pub fn frames_in_second(&self) -> (r: u32)
        ensures
            r == self.spec_frames_in_second(),
    {
        self.frames_in_second
    }

    pub closed spec fn spec_frames_in_second(&self) -> u32 {
        self.frames_in_second
    }

    /// Frames counted in the last full second: the rate on display.
    #[verifier::when_used_as_spec(spec_last_second_frame_count)]
    pub fn last_second_frame_count(&self) -> (r: u32)
        ensures
            r == self.spec_last_second_frame_count(),
    {
        self.last_second_frame_count
    }

    pub closed spec fn spec_last_second_frame_count(&self) -> u32 {
        self.last_second_frame_count
    }

    /// Records one frame, `elapsed_ms` milliseconds after the second under way
    /// began. Up to 1000 ms the frame is counted; past that the second is
    /// closed: its count becomes the rate on display, counting starts again
    /// from zero, and `true` tells the caller to restart its clock.
    pub fn tick(&mut self, elapsed_ms: u128) -> (restart: bool)
        ensures
            restart == (elapsed_ms > 1000),
            !restart ==> final(self).frames_in_second() == if old(self).frames_in_second()
                == u32::MAX {
                u32::MAX
            } else {
                (old(self).frames_in_second() + 1) as u32
            },
            !restart ==> final(self).last_second_frame_count()
                == old(self).last_second_frame_count(),
            restart ==> final(self).frames_in_second() == 0,
            restart ==> final(self).last_second_frame_count() == old(self).frames_in_second(),
    {
        if elapsed_ms <= 1000 {
            self.frames_in_second = self.frames_in_second.saturating_add(1);
            false
        } else {
            self.last_second_frame_count = self.frames_in_second;
            self.frames_in_second = 0;
            true
        }
    }
}

} // verus!
