use vstd::prelude::*;

verus! {

/// Configuration for one archiving run: which capture options each
/// submission requests, how many submissions may be in flight at once,
/// and the pacing delay (in seconds) paid after each submission before
/// its slot is reused.
#[derive(Clone, Copy, Debug)]
pub struct ArchiveOpts {
    pub save_outlinks: bool,
    pub save_error: bool,
    pub save_screenshot: bool,
    pub concurrency: usize,
    pub sleep_secs: u64,
}

impl Default for ArchiveOpts {
    /// Error-page capture on, the other captures off, ten concurrent
    /// slots, thirty seconds of pacing.
    fn default() -> (r: Self)
        ensures
            !r.save_outlinks,
            r.save_error,
            !r.save_screenshot,
            r.concurrency == 10,
            r.sleep_secs == 30,
    {
        ArchiveOpts {
            save_outlinks: false,
            save_error: true,
            save_screenshot: false,
            concurrency: 10,
            sleep_secs: 30,
        }
    }
}

} // verus!
