//! Small helpers around a profiling run.

use vstd::prelude::*;
use crate::text::{decimal, decimal_digits};

verus! {

/// The path of the link that the kernel keeps to the executable of the
/// process `pid`: `/proc/`, the process identifier in decimal, and `/exe`.
pub open spec fn proc_exe_text(pid: u32) -> Seq<char> {
    "/proc/"@ + decimal_digits(pid as nat) + "/exe"@
}

/// Renders the path of the link to the executable of the process `pid`.
pub fn proc_exe_path(pid: u32) -> (path: String)
    ensures
        path@ == proc_exe_text(pid),
{
    let mut path = String::from_str("/proc/");
    path.append(decimal(pid as u64).as_str());
    path.append("/exe");
    path
}

} // verus!
