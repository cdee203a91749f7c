//! The command seam: one injectable adapter for every host tool.
//!
//! The library decides which argv to run and what the reply means; a
//! [`CommandRunner`] runs it.

use vstd::prelude::*;

verus! {

/// The error of a command that could not be run.
#[verifier::external_type_specification]
#[verifier::external_body]
pub struct ExIoError(std::io::Error);

/// Result of one command run: the exit code (negative when the process was
/// ended by a signal and carried none) plus the captured streams.
#[derive(Debug, Clone)]
pub struct RunnerOutput {
    pub code: i32,
    pub stdout: Vec<u8>,
    pub stderr: String,
}

/// Runs host tools. `argv[0]` is the program name; the rest are its
/// arguments, passed verbatim. No shell is involved.
pub trait CommandRunner {
    fn run(&self, argv: &[String]) -> std::io::Result<RunnerOutput>;
}

/// The exit code to report: the code itself when the process exited, `1`
/// when a signal ended it.
pub open spec fn reported_code(code: int) -> int {
    if code < 0 {
        1
    } else {
        code
    }
}

/// The exit code a call site should report for a finished command.
pub fn exit_code(out: &RunnerOutput) -> (r: i32)
    ensures
        r == reported_code(out.code as int),
{
    if out.code < 0 {
        1
    } else {
        out.code
    }
}

} // verus!
