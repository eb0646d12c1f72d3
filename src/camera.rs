//! Planning of the progressive render passes.
use vstd::prelude::*;

verus! {

/// How a render is split into progressive passes: `passes` passes of
/// `samples_per_pass` samples per pixel each.
#[derive(Clone, Copy, Debug, PartialEq, Eq)]
pub struct PassPlan {
    pub passes: u16,
    pub samples_per_pass: u16,
}

impl PassPlan {
    /// At least one pass, and the samples of all passes together fit in a `u16`.
    pub open spec fn wf(self) -> bool {
        self.passes >= 1 && self.passes * self.samples_per_pass <= u16::MAX
    }

    /// Splits `samples_pp` samples per pixel into passes of `step_size`
    /// samples. Without a usable step (zero, or not smaller than the sample
    /// count) everything is rendered in one pass. A remainder that does not
    /// fill a whole pass is dropped.
    pub fn new(samples_pp: u16, step_size: u16) -> (r: PassPlan)
        ensures
            r.wf(),
            r.passes * r.samples_per_pass <= samples_pp,
            step_size > 0 && samples_pp > step_size ==> r.passes == samples_pp / step_size
                && r.samples_per_pass == step_size,
            !(step_size > 0 && samples_pp > step_size) ==> r.passes == 1 && r.samples_per_pass
                == samples_pp,
    {
        if step_size > 0 && samples_pp > step_size {
            let passes = samples_pp / step_size;
            assert(passes * step_size <= samples_pp) by (nonlinear_arith)
                requires
                    passes == samples_pp / step_size,
                    step_size > 0,
            ;
            assert(passes >= 1) by (nonlinear_arith)
                requires
                    passes == samples_pp / step_size,
                    samples_pp > step_size > 0,
            ;
            PassPlan { passes, samples_per_pass: step_size }
        } else {
            PassPlan { passes: 1, samples_per_pass: samples_pp }
        }
    }

    /// The number of samples per pixel accumulated once pass `pass`
    /// (counted from 1) has finished.
    pub fn samples_after(&self, pass: u16) -> (r: u16)
        requires
            self.wf(),
            1 <= pass <= self.passes,
        ensures
            r == pass * self.samples_per_pass,
    {
        assert(pass * self.samples_per_pass <= self.passes * self.samples_per_pass)
            by (nonlinear_arith)
            requires
                pass <= self.passes,
        ;
        pass * self.samples_per_pass
    }
}

} // verus!
