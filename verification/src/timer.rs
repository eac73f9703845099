use vstd::prelude::*;

verus! {

/// A labelled stopwatch handle. The library only carries the label; reading
/// the clock and reporting are left to the program that owns the handle.
pub struct Timer {
    label: &'static str,
}

impl Timer {
    /// The label this timer was created with.
    pub closed spec fn spec_label(&self) -> Seq<char> {
        self.label@
    }

    pub fn new(label: &'static str) -> (timer: Self)
        ensures
            timer.spec_label() == label@,
    {
        Timer { label }
    }

    pub fn label(&self) -> (label: &'static str)
        ensures
            label@ == self.spec_label(),
    {
        self.label
    }
}

} // verus!
