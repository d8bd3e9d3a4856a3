//! When the whole-repository file-scanning phases report progress.
use vstd::prelude::*;

verus! {

/// How many completed files pass between two progress calls.
pub const PROGRESS_REPORT_STRIDE: usize = 16;

/// Whether the file at `completed_count` (1-indexed: the count after this
/// file finished) should trigger a progress call: every
/// [`PROGRESS_REPORT_STRIDE`]th file, plus always the last one, and never
/// when there are no files at all.
pub fn should_report_progress(completed_count: usize, total: usize) -> (r: bool)
    ensures
        r == (total != 0 && (completed_count == total || completed_count % PROGRESS_REPORT_STRIDE
            == 0)),
{
    if total == 0 {
        return false;
    }
    completed_count == total || completed_count % PROGRESS_REPORT_STRIDE == 0
}

} // verus!
