//! The user's settings for launching the solver, and the choice of input
//! file among those found in the project directory.

use vstd::prelude::*;
use std::path::PathBuf;

verus! {

/// Declares `std::path::PathBuf`, which the settings carry through unread.
#[verifier::external_type_specification]
#[verifier::external_body]
pub struct ExPathBuf(PathBuf);

/// Where the solver is, where the project lives, and how many cores the
/// solver may use.
pub struct UserSetup {
    pub calculix_bin_path: PathBuf,
    pub project_dir_path: PathBuf,
    pub num_cores: usize,
}

impl UserSetup {
    pub fn new(calculix_bin_path: PathBuf, project_dir_path: PathBuf, num_cores: usize) -> (r:
        UserSetup)
        ensures
            r.calculix_bin_path == calculix_bin_path,
            r.project_dir_path == project_dir_path,
            r.num_cores == num_cores,
    {
        UserSetup { calculix_bin_path, project_dir_path, num_cores }
    }
}

/// The input file chosen after the list of available files was read again:
/// the previous choice while it is still available, else the first file,
/// else none.
pub open spec fn chosen_file(still_available: Option<usize>, n_available: usize) -> Option<usize> {
    match still_available {
        Some(i) => Some(i),
        None => if n_available > 0 {
            Some(0)
        } else {
            None
        },
    }
}

/// Chooses the input file, given where the previous choice stands in the new
/// list of `n_available` files (`None` where it is gone or there was none).
pub fn reconcile_selection(still_available: Option<usize>, n_available: usize) -> (r: Option<
    usize,
>)
    requires
        still_available matches Some(i) ==> i < n_available,
    ensures
        r == chosen_file(still_available, n_available),
        r matches Some(i) ==> i < n_available,
{
    match still_available {
        Some(i) => Some(i),
        None => if n_available > 0 {
            Some(0)
        } else {
            None
        },
    }
}

} // verus!
