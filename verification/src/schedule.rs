//! The playback scheduler: Idle, then Playing, then Done. Each cycle hands
//! out the next frame index exactly once, in order; the caller draws that
//! frame and then holds it for the fixed interval the frame rate gives.
//! The pacing is naive by design: the hold does not subtract drawing cost,
//! so actual playback drifts slower by that cost per frame.
use vstd::prelude::*;

verus! {

/// Where playback stands.
#[derive(Clone, Copy, Debug, PartialEq, Eq, Structural)]
pub enum PlaybackState {
    /// No cycle has run yet.
    Idle,
    /// Frames are still being handed out.
    Playing,
    /// Every frame has been handed out.
    Done,
}

/// The per-frame hold: floor(1_000_000 / fps) microseconds, with the frame
/// rate given in thousandths of a frame per second.
pub open spec fn interval_micros_spec(fps_thousandths: u64) -> int {
    1_000_000_000int / (fps_thousandths as int)
}

/// Hands out frame indices one per display cycle, in order, none skipped
/// and none repeated, together with the fixed hold interval.
pub struct Scheduler {
    /// How many frames playback has.
    pub total: usize,
    /// The next frame index to hand out.
    pub next: usize,
    /// Whether any cycle has run.
    pub started: bool,
    /// Microseconds to hold each frame on screen.
    pub interval_micros: u64,
}

impl Scheduler {
    /// No index was skipped: everything before `next` is handed out,
    /// nothing from `next` on is.
    pub open spec fn wf(self) -> bool {
        self.next <= self.total
    }

    /// The state the scheduler is in.
    pub open spec fn state_spec(self) -> PlaybackState {
        if !self.started {
            PlaybackState::Idle
        } else if self.next < self.total {
            PlaybackState::Playing
        } else {
            PlaybackState::Done
        }
    }

    /// A scheduler for `total` frames at the given rate, still idle.
    pub fn new(total: usize, fps_thousandths: u64) -> (s: Scheduler)
        requires
            fps_thousandths > 0,
        ensures
            s.wf(),
            s.total == total,
            s.next == 0,
            s.state_spec() == PlaybackState::Idle,
            s.interval_micros == interval_micros_spec(fps_thousandths),
    {
        Scheduler { total, next: 0, started: false, interval_micros: 1_000_000_000u64
            / fps_thousandths }
    }

    /// One display cycle: the index of the frame to clear-and-write now,
    /// or nothing once every frame has been handed out.
    pub fn next_frame(&mut self) -> (r: Option<usize>)
        requires
            old(self).wf(),
        ensures
            final(self).wf(),
            final(self).total == old(self).total,
            final(self).interval_micros == old(self).interval_micros,
            final(self).started,
            match r {
                Some(k) => {
                    &&& old(self).next < old(self).total
                    &&& k == old(self).next
                    &&& final(self).next == old(self).next + 1
                },
                None => {
                    &&& old(self).next == old(self).total
                    &&& final(self).next == old(self).next
                    &&& final(self).state_spec() == PlaybackState::Done
                },
            },
    {
        self.started = true;
        if self.next < self.total {
            let k = self.next;
            self.next = self.next + 1;
            Some(k)
        } else {
            None
        }
    }

    /// The state the scheduler is in.
    pub fn state(&self) -> (st: PlaybackState)
        ensures
            st == self.state_spec(),
    {
        if !self.started {
            PlaybackState::Idle
        } else if self.next < self.total {
            PlaybackState::Playing
        } else {
            PlaybackState::Done
        }
    }
}

} // verus!
