//! When the training loop reports progress.

use vstd::prelude::*;

verus! {

/// How many steps lie between two progress reports.
pub const REPORT_INTERVAL: usize = 25;

/// Whether step `step` of a run of `total_steps` steps reports progress (and
/// may snapshot the best model): every 25th step, and the last step.
pub fn is_report_step(step: usize, total_steps: usize) -> (b: bool)
    ensures
        b == (step % REPORT_INTERVAL == 0 || step == total_steps),
{
    step % REPORT_INTERVAL == 0 || step == total_steps
}

} // verus!
