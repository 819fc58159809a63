//! The outcome of running a command.

use vstd::prelude::*;

verus! {

/// What a command printed and the status it exited with.
#[derive(Debug, Clone)]
pub struct Output {
    pub stdout: String,
    pub stderr: String,
    pub exit_code: i32,
}

impl Output {
    pub fn new(exit_code: i32, stdout: String, stderr: String) -> (r: Self)
        ensures
            r.exit_code == exit_code,
            r.stdout == stdout,
            r.stderr == stderr,
    {
        Self { stdout, stderr, exit_code }
    }

    /// A successful outcome (exit code 0) with the given standard output and no error output.
    pub fn success(stdout: String) -> (r: Self)
        ensures
            r.exit_code == 0,
            r.stdout == stdout,
            r.stderr@ == Seq::<char>::empty(),
    {
        Self::new(0, stdout, String::new())
    }

    pub fn error(exit_code: i32, stdout: String, stderr: String) -> (r: Self)
        ensures
            r.exit_code == exit_code,
            r.stdout == stdout,
            r.stderr == stderr,
    {
        Self::new(exit_code, stdout, stderr)
    }

    /// A command succeeded when it exited with code 0.
    pub fn is_success(&self) -> (r: bool)
        ensures
            r == (self.exit_code == 0),
    {
        self.exit_code == 0
    }
}

} // verus!
