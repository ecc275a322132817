use vstd::prelude::*;
use crate::builder::{CommandView, ProcessBuilder};
use crate::render::{ShellStyle, rendered};

verus! {

/// How a process ended: its exit code, where it has one, and whether the
/// platform counts the exit as a success.
#[derive(Clone, Copy, Debug, PartialEq, Eq, Structural)]
pub struct ExitStatus {
    pub code: Option<i32>,
    pub success: bool,
}

/// What a finished process produced: the bytes of both streams (empty where
/// they were not captured) and how it ended.
#[derive(Clone, Debug)]
pub struct Output {
    pub stdout: Vec<u8>,
    pub stderr: Vec<u8>,
    pub status: ExitStatus,
}

/// The kinds of failure of a run.
#[derive(Clone, Copy, Debug, PartialEq, Eq, Structural)]
pub enum ErrorKind {
    /// The process could not be started or waited on.
    Spawn,
    /// Reading one of the output streams failed.
    Multiplex,
    /// A line callback returned an error.
    Callback,
    /// The process ran and reported failure.
    NonZeroExit,
    /// The calling process could not be replaced.
    Replace,
}

/// A failed run: its kind, a description naming the command, and the exit
/// status and output where they exist.
#[derive(Clone, Debug)]
pub struct ProcessError {
    pub kind: ErrorKind,
    pub desc: String,
    pub status: Option<ExitStatus>,
    pub output: Option<Output>,
}

/// The failure of a streaming run: a callback error (with the failure it
/// caused as context) or a failure of the process itself.
pub enum StreamingError<E> {
    Callback(E, ProcessError),
    Process(ProcessError),
}

pub open spec fn could_not_execute(b: CommandView, style: ShellStyle) -> Seq<char> {
    "could not execute process "@ + rendered(b, style)
}

pub open spec fn not_successful(b: CommandView, style: ShellStyle) -> Seq<char> {
    "process didn't exit successfully: "@ + rendered(b, style)
}

pub open spec fn failed_to_parse(b: CommandView, style: ShellStyle) -> Seq<char> {
    "failed to parse process output: "@ + rendered(b, style)
}

pub open spec fn ctrl_c_message() -> Seq<char> {
    "Could not set Ctrl-C handler."@
}

/// `prefix` followed by the rendering of `b`.
fn describe(prefix: &str, b: &ProcessBuilder, style: ShellStyle) -> (r: String)
    ensures
        r@ == prefix@ + rendered(b@, style),
{
    let mut d = prefix.to_owned();
    let shown = b.render(style);
    d.append(shown.as_str());
    d
}

impl ProcessBuilder {
    /// The failure of a process that could not be started, read or waited
    /// on, of kind `kind`; it carries no status and no output.
    pub fn execution_error(&self, kind: ErrorKind, style: ShellStyle) -> (r: ProcessError)
        ensures
            r.kind == kind,
            r.desc@ == could_not_execute(self@, style),
            r.status is None,
            r.output is None,
    {
        ProcessError {
            kind,
            desc: describe("could not execute process ", self, style),
            status: None,
            output: None,
        }
    }

    /// The result of a run that only waits for the exit: success, or a
    /// non-zero-exit failure that carries the status and no output.
    pub fn exit_outcome(&self, status: ExitStatus, style: ShellStyle) -> (r: Result<(), ProcessError>)
        ensures
            r is Ok <==> status.success,
            r matches Err(e) ==> e.kind == ErrorKind::NonZeroExit && e.desc@ == not_successful(self@, style)
                && e.status == Some(status) && e.output is None,
    {
        if status.success {
            Ok(())
        } else {
            Err(ProcessError {
                kind: ErrorKind::NonZeroExit,
                desc: describe("process didn't exit successfully: ", self, style),
                status: Some(status),
                output: None,
            })
        }
    }

    /// The result of a run whose whole output was read: the output on
    /// success, else a non-zero-exit failure that carries it.
    pub fn output_outcome(&self, output: Output, style: ShellStyle) -> (r: Result<Output, ProcessError>)
        ensures
            r is Ok <==> output.status.success,
            r matches Ok(o) ==> o == output,
            r matches Err(e) ==> e.kind == ErrorKind::NonZeroExit && e.desc@ == not_successful(self@, style)
                && e.status == Some(output.status) && e.output == Some(output),
    {
        if output.status.success {
            Ok(output)
        } else {
            let status = output.status;
            Err(ProcessError {
                kind: ErrorKind::NonZeroExit,
                desc: describe("process didn't exit successfully: ", self, style),
                status: Some(status),
                output: Some(output),
            })
        }
    }

    /// The failure of an attempt to replace the calling process with this
    /// command (the replacement returned).
    pub fn replace_error(&self, style: ShellStyle) -> (r: ProcessError)
        ensures
            r.kind == ErrorKind::Replace,
            r.desc@ == could_not_execute(self@, style),
            r.status is None,
            r.output is None,
    {
        ProcessError {
            kind: ErrorKind::Replace,
            desc: describe("could not execute process ", self, style),
            status: None,
            output: None,
        }
    }
}

/// The failure of installing the interrupt handler that emulated process
/// replacement needs.
pub fn ctrl_handler_error() -> (r: ProcessError)
    ensures
        r.kind == ErrorKind::Replace,
        r.desc@ == ctrl_c_message(),
        r.status is None,
        r.output is None,
{
    ProcessError {
        kind: ErrorKind::Replace,
        desc: "Could not set Ctrl-C handler.".to_owned(),
        status: None,
        output: None,
    }
}

} // verus!
