//! The command line: what `record` is asked to do.

use vstd::prelude::*;

use crate::num::{parse_u64, parse_unsigned, IntErrorKind};
use crate::text::{chars_of, push_str, string_of};

verus! {

/// The output format of a recording.
#[derive(Clone, Copy, Debug, PartialEq, Eq, Structural)]
pub enum OutputFormat {
    Folded,
    Svg,
}

/// Options of `record`.
#[derive(Clone, Debug)]
pub struct RecordArgs {
    /// Restrict profiling to these PIDs; empty means all processes.
    pub pids: Vec<u32>,
    /// How long to sample, in seconds.
    pub duration_secs: u64,
    /// Sampling frequency in Hz.
    pub frequency: u64,
    /// How often to drain the kernel maps, in milliseconds.
    pub drain_interval_ms: u64,
    /// Output file path; standard output for folded output, `profile.svg`
    /// for SVG output when absent.
    pub output: Option<String>,
    /// Output format.
    pub format: OutputFormat,
}

/// A subcommand.
#[derive(Clone, Debug)]
pub enum Command {
    /// Sample on-CPU stacks system-wide (or for specific PIDs) and emit a
    /// flame graph.
    Record(RecordArgs),
}

/// The command line.
#[derive(Clone, Debug)]
pub struct Cli {
    pub command: Command,
}

impl RecordArgs {
    /// How long to wait between drains, in milliseconds.
    pub fn drain_interval(&self) -> (ms: u64)
        ensures
            ms == self.drain_interval_ms,
    {
        self.drain_interval_ms
    }
}

/// The message for a duration argument that is not a number of seconds.
pub open spec fn duration_error(s: Seq<char>, kind: IntErrorKind) -> Seq<char> {
    "invalid duration '"@ + s + "': "@ + kind.spec_message()
}

/// Parses a duration argument given in whole seconds: a decimal `u64`, with
/// an optional leading `+`.
pub fn parse_seconds(s: &str) -> (r: Result<u64, String>)
    ensures
        match parse_unsigned(s@, 10) {
            Ok(v) => r == Ok::<u64, String>(v),
            Err(kind) => r matches Err(m) && m@ == duration_error(s@, kind),
        },
{
    let cs = chars_of(s);
    match parse_u64(cs.as_slice(), 10) {
        Ok(v) => Ok(v),
        Err(kind) => {
            let mut m: Vec<char> = Vec::new();
            push_str(&mut m, "invalid duration '");
            push_str(&mut m, s);
            push_str(&mut m, "': ");
            push_str(&mut m, kind.message());
            Err(string_of(m.as_slice()))
        },
    }
}

} // verus!
