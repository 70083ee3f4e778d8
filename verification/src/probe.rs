//! The probe boundary: errors a duration probe can report, the fixed
//! argument list handed to the external probing tool, and the rule that
//! maps a failed probe to a zero contribution.

use vstd::prelude::*;

verus! {

/// Why a single probe produced no duration.
#[derive(Clone, Copy, PartialEq, Eq, Structural, Debug)]
pub enum ProbeError {
    /// The external tool could not be started.
    LaunchFailure,
    /// The tool's output was empty, non-numeric or malformed.
    ParseFailure,
}

/// The external probing tool.
pub fn probe_tool_name() -> (name: &'static str)
    ensures
        name@ == "ffprobe"@,
{
    "ffprobe"
}

/// The arguments handed to the probing tool before the file path:
/// verbosity suppressed, only the container-level duration requested,
/// printed bare with no key names or wrapper text.
pub fn probe_tool_args() -> (args: Vec<&'static str>)
    ensures
        args@.len() == 6,
        args@[0]@ == "-v"@,
        args@[1]@ == "error"@,
        args@[2]@ == "-show_entries"@,
        args@[3]@ == "format=duration"@,
        args@[4]@ == "-of"@,
        args@[5]@ == "default=noprint_wrappers=1:nokey=1"@,
{
    let mut args: Vec<&'static str> = Vec::new();
    args.push("-v");
    args.push("error");
    args.push("-show_entries");
    args.push("format=duration");
    args.push("-of");
    args.push("default=noprint_wrappers=1:nokey=1");
    args
}

/// A failed probe contributes exactly zero microseconds; a successful one
/// contributes its reported duration. A failure never aborts anything: the
/// caller always receives a value to aggregate.
pub fn duration_or_zero(outcome: Result<u64, ProbeError>) -> (micros: u64)
    ensures
        micros == match outcome {
            Result::Ok(d) => d,
            Result::Err(_) => 0u64,
        },
{
    match outcome {
        Result::Ok(d) => d,
        Result::Err(_) => 0,
    }
}

} // verus!
