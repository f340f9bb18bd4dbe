//! The course of a run over its candidate images: which of them are
//! composited, what is counted, and when the run stops.

use vstd::prelude::*;

verus! {

/// What was found out about a candidate before any compositing.
#[derive(Clone, Copy, Debug, PartialEq, Eq, Structural)]
pub enum Candidate {
    /// The path could not be read.
    Unreadable,
    /// The file is no image that can be decoded.
    Undecodable,
    /// The image was decoded and this many faces were detected in it.
    Detected { faces: usize },
}

/// What is done with a candidate.
#[derive(Clone, Copy, Debug, PartialEq, Eq, Structural)]
pub enum Verdict {
    Skip,
    Composite,
}

/// The counters of a run, as plain values.
pub struct RunState {
    pub max_images: u32,
    pub read: nat,
    pub used: nat,
}

impl RunState {
    /// No more candidates were used than were read.
    pub open spec fn well_formed(self) -> bool {
        self.used <= self.read
    }

    /// Whether the cap on candidates is reached. A cap of zero is no cap.
    pub open spec fn is_capped(self) -> bool {
        self.max_images > 0 && self.read >= self.max_images
    }

    /// The counters after a candidate: it counts as read whatever became of
    /// it, and as used where it was composited.
    pub open spec fn after(self, verdict: Verdict) -> RunState {
        RunState {
            max_images: self.max_images,
            read: self.read + 1,
            used: if verdict == Verdict::Composite {
                self.used + 1
            } else {
                self.used
            },
        }
    }
}

/// A layer is composited where exactly one face anchors it. None, or more
/// than one, is no error: the candidate is passed over.
pub open spec fn verdict_spec(candidate: Candidate) -> Verdict {
    match candidate {
        Candidate::Detected { faces } => if faces == 1 {
            Verdict::Composite
        } else {
            Verdict::Skip
        },
        _ => Verdict::Skip,
    }
}

/// Decides what is done with a candidate.
pub fn verdict(candidate: Candidate) -> (verdict: Verdict)
    ensures
        verdict == verdict_spec(candidate),
{
    match candidate {
        Candidate::Detected { faces } => if faces == 1 {
            Verdict::Composite
        } else {
            Verdict::Skip
        },
        _ => Verdict::Skip,
    }
}

/// The counters of a run and its cap on candidates.
pub struct Run {
    max_images: u32,
    read: usize,
    used: usize,
}

impl View for Run {
    type V = RunState;

    closed spec fn view(&self) -> RunState {
        RunState { max_images: self.max_images, read: self.read as nat, used: self.used as nat }
    }
}

impl Run {
    /// A run that stops after `max_images` candidates, or only when they are
    /// exhausted where `max_images` is zero.
    pub fn new(max_images: u32) -> (run: Run)
        ensures
            run@ == (RunState { max_images, read: 0, used: 0 }),
            run@.well_formed(),
    {
        Run { max_images, read: 0, used: 0 }
    }

    /// How many candidates are done with.
    pub fn images_read(&self) -> (read: usize)
        ensures
            read == self@.read,
    {
        self.read
    }

    /// How many candidates were composited.
    pub fn images_used(&self) -> (used: usize)
        ensures
            used == self@.used,
    {
        self.used
    }

    /// Counts a candidate that is done with and tells whether the run goes
    /// on to the next one.
    pub fn record(&mut self, verdict: Verdict) -> (goes_on: bool)
        requires
            old(self)@.well_formed(),
            old(self)@.read < usize::MAX,
        ensures
            final(self)@ == old(self)@.after(verdict),
            final(self)@.well_formed(),
            goes_on == !final(self)@.is_capped(),
    {
        self.read = self.read + 1;
        match verdict {
            Verdict::Composite => {
                self.used = self.used + 1;
            },
            Verdict::Skip => {},
        }
        !(self.max_images > 0 && self.read >= self.max_images as usize)
    }
}

} // verus!
