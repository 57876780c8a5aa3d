//! The caller-supplied progress capability: a trait for values that can
//! report one step of progress, and a ready-made step counter that caps at a
//! configured total.

use vstd::prelude::*;

verus! {

/// Structs implementing this trait hold the current progress of a task.
///
/// The registry never inspects a progress value; it only advances it through
/// [`Progressible::progress`] and snapshots it by cloning. An implementor
/// says what one advance step produces through the specification function
/// [`Progressible::progressed`], and promises that cloning reproduces the
/// value exactly, so that a snapshot faithfully reports the stored progress.
pub trait Progressible: Sized + Clone {
    /// The value that one advance step produces.
    spec fn progressed(&self) -> Self;

    /// Report progress on a task, for example by increasing a progress field
    /// by 1.
    fn progress(&mut self)
        ensures
            *final(self) == old(self).progressed(),
    ;

    /// Cloning a progress value reproduces it exactly.
    proof fn clone_preserves_value(a: Self, b: Self)
        requires
            cloned::<Self>(a, b),
        ensures
            b == a,
    ;
}

/// A step counter: progress out of a fixed total, where advancing caps at the
/// total and never overshoots it.
#[derive(PartialEq, Eq, Debug)]
pub struct StepProgress {
    /// How many steps have been reported so far.
    pub progress: usize,
    /// The number of steps the task needs in all.
    pub total: usize,
}

impl StepProgress {
    /// A counter starting at `progress` out of `total` steps.
    pub fn new(progress: usize, total: usize) -> (r: StepProgress)
        ensures
            r == (StepProgress { progress, total }),
    {
        StepProgress { progress, total }
    }
}

impl Clone for StepProgress {
    fn clone(&self) -> (r: Self)
        ensures
            r == *self,
    {
        StepProgress { progress: self.progress, total: self.total }
    }
}

impl Progressible for StepProgress {
    open spec fn progressed(&self) -> Self {
        StepProgress {
            progress: if self.progress < self.total {
                (self.progress + 1) as usize
            } else {
                self.total
            },
            total: self.total,
        }
    }

    fn progress(&mut self) {
        self.progress = if self.progress < self.total { self.progress + 1 } else { self.total };
    }

    proof fn clone_preserves_value(a: Self, b: Self) {
    }
}

/// The counter after `k` advance steps.
pub open spec fn advanced_by(p: StepProgress, k: nat) -> StepProgress
    decreases k,
{
    if k == 0 {
        p
    } else {
        advanced_by(p, (k - 1) as nat).progressed()
    }
}

/// Advancing a step counter never overshoots its total, and advancing it at
/// least as many times as the remaining distance to the total leaves it
/// exactly at the total.
pub proof fn lemma_progress_caps(p: StepProgress, k: nat)
    requires
        p.progress <= p.total,
    ensures
        advanced_by(p, k).total == p.total,
        advanced_by(p, k).progress <= p.total,
        advanced_by(p, k).progress
            == if p.progress + k <= p.total { p.progress + k } else { p.total as int },
        k >= p.total - p.progress ==> advanced_by(p, k).progress == p.total,
    decreases k,
{
    if k > 0 {
        lemma_progress_caps(p, (k - 1) as nat);
    }
}

} // verus!
