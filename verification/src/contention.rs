//! How much contention an operation has met.
use vstd::prelude::*;

verus! {

/// How often contention may be met before an operation takes the slow path.
pub const CONTENTION_THRESHOLD: usize = 2;

/// The error of an operation that has met contention.
#[derive(Debug)]
pub struct Contention;

/// Counts how often an operation has met contention.
pub struct ContentionMeasure(usize);

impl View for ContentionMeasure {
    type V = usize;

    closed spec fn view(&self) -> usize {
        self.0
    }
}

impl ContentionMeasure {
    /// A measure for an operation that has met no contention yet.
    pub fn new() -> (measure: Self)
        ensures
            measure@ == 0,
    {
        ContentionMeasure(0)
    }

    /// Counts one more contention. Up to the threshold each one is an error;
    /// beyond it the operation goes on, on the slow path.
    pub fn detected(&mut self) -> (met: Result<(), Contention>)
        requires
            old(self)@ < usize::MAX,
        ensures
            final(self)@ == old(self)@ + 1,
            met == if final(self)@ > CONTENTION_THRESHOLD {
                Ok::<(), Contention>(())
            } else {
                Err(Contention)
            },
    {
        self.0 = self.0 + 1;
        if self.0 > CONTENTION_THRESHOLD {
            Ok(())
        } else {
            Err(Contention)
        }
    }

    /// Whether more contention has been met than the threshold allows.
    pub fn use_slow_path(&self) -> (slow: bool)
        ensures
            slow == (self@ > CONTENTION_THRESHOLD),
    {
        self.0 > CONTENTION_THRESHOLD
    }
}

} // verus!
