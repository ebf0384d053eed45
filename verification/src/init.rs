//! `forge init`: which example files are copied, and what is reported.

use vstd::prelude::*;

verus! {

/// Whether an example file is copied to its destination: always with
/// `--force`, otherwise only where no file exists yet.
pub fn should_write(present: bool, force: bool) -> (b: bool)
    ensures
        b == (!present || force),
{
    !present || force
}

/// What `forge init` reports once the example files are handled.
#[derive(Debug, Clone, Copy, PartialEq, Eq, Structural)]
pub enum InitOutcome {
    /// There were no example files at all.
    NoFiles,
    /// Every file already existed; `skipped` were left alone.
    AllExisted { skipped: usize },
    /// `written` files were copied.
    Initialized { written: usize },
}

/// The report for `written` copied and `skipped` existing files.
pub fn init_outcome(written: usize, skipped: usize) -> (r: InitOutcome)
    ensures
        written == 0 && skipped == 0 ==> r == InitOutcome::NoFiles,
        written == 0 && skipped > 0 ==> r == (InitOutcome::AllExisted { skipped }),
        written > 0 ==> r == (InitOutcome::Initialized { written }),
{
    if written == 0 && skipped == 0 {
        InitOutcome::NoFiles
    } else if written == 0 {
        InitOutcome::AllExisted { skipped }
    } else {
        InitOutcome::Initialized { written }
    }
}

} // verus!
