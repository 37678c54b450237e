//! Errors that a command reports to its caller.

use vstd::prelude::*;

verus! {

/// The reason for which a command failed.
#[derive(Clone, Copy, Debug, PartialEq, Eq, Structural)]
pub enum ErrorKind {
    /// The request itself is wrong.
    Usage,
    /// What was asked for does not exist.
    NotFound,
    /// Something outside the program did not do its part.
    External,
    /// The program broke an assumption of its own.
    Internal,
    /// The work cannot be planned.
    Preflight,
    /// A file or a process could not be used.
    Io,
    /// A child process or a realization failed.
    Child,
    /// The work was cancelled.
    Cancelled,
}

/// A failed command.
#[derive(Debug, PartialEq, Eq)]
pub struct Error {
    /// Why it failed.
    pub kind: ErrorKind,
    /// What a person should read.
    pub message: String,
    /// The status with which the program should exit; never zero.
    pub exit_code: u8,
}

/// What an error says.
#[verifier::ext_equal]
pub struct ErrorModel {
    /// Why the command failed.
    pub kind: ErrorKind,
    /// What a person should read.
    pub message: Seq<char>,
    /// The status with which the program should exit.
    pub exit_code: int,
}

impl View for Error {
    type V = ErrorModel;

    open spec fn view(&self) -> ErrorModel {
        ErrorModel { kind: self.kind, message: self.message@, exit_code: self.exit_code as int }
    }
}

/// An error that exits with status one.
pub open spec fn plain(kind: ErrorKind, message: Seq<char>) -> ErrorModel {
    ErrorModel { kind, message, exit_code: 1 }
}

/// A usage error.
pub open spec fn usage(message: Seq<char>) -> ErrorModel {
    plain(ErrorKind::Usage, message)
}

/// An error of something outside the program.
pub open spec fn external(message: Seq<char>) -> ErrorModel {
    plain(ErrorKind::External, message)
}

/// The exit status of work that a signal ended: 128 above a signal that leaves room for that.
pub open spec fn signal_code(signal: int) -> int {
    if 0 < signal < 128 {
        128 + signal
    } else {
        1
    }
}

/// The error of work that a signal cancelled.
pub open spec fn cancelled(signal: int, message: Seq<char>) -> ErrorModel {
    ErrorModel { kind: ErrorKind::Cancelled, message, exit_code: signal_code(signal) }
}

/// The error of a child that exited with a status; a status that cannot be handed on counts as one.
pub open spec fn child(status: int, message: Seq<char>) -> ErrorModel {
    ErrorModel {
        kind: ErrorKind::Child,
        message,
        exit_code: if 0 < status < 256 {
            status
        } else {
            1
        },
    }
}

/// Returns the exit status of work that a signal ended.
pub fn signal_status(signal: i32) -> (result: u8)
    ensures
        result == signal_code(signal as int),
{
    if 0 < signal && signal < 128 {
        (128 + signal) as u8
    } else {
        1
    }
}

impl Error {
    /// Creates an error that exits with status one.
    pub fn new(kind: ErrorKind, message: String) -> (result: Self)
        ensures
            result@ == plain(kind, message@),
    {
        Error { kind, message, exit_code: 1 }
    }

    /// Creates a usage error.
    pub fn usage(message: String) -> (result: Self)
        ensures
            result@ == usage(message@),
    {
        Error::new(ErrorKind::Usage, message)
    }

    /// Creates an error of something outside the program.
    pub fn external(message: String) -> (result: Self)
        ensures
            result@ == external(message@),
    {
        Error::new(ErrorKind::External, message)
    }

    /// Creates the error of work that a signal cancelled.
    pub fn cancelled(signal: i32, message: String) -> (result: Self)
        ensures
            result@ == cancelled(signal as int, message@),
    {
        Error { kind: ErrorKind::Cancelled, message, exit_code: signal_status(signal) }
    }

    /// Creates the error of a child that exited with a status.
    pub fn child(status: i32, message: String) -> (result: Self)
        ensures
            result@ == child(status as int, message@),
    {
        let exit_code: u8 = if 0 < status && status < 256 {
            status as u8
        } else {
            1
        };
        Error { kind: ErrorKind::Child, message, exit_code }
    }
}

impl Clone for Error {
    fn clone(&self) -> (result: Self)
        ensures
            result@ == self@,
    {
        Error { kind: self.kind, message: self.message.clone(), exit_code: self.exit_code }
    }
}

/// A result says what a model of it says: the same success value, or an error of the same words.
pub open spec fn agrees<T>(result: Result<T, Error>, model: Result<T, ErrorModel>) -> bool {
    match (result, model) {
        (Ok(value), Ok(expected)) => value == expected,
        (Err(error), Err(expected)) => error@ == expected,
        _ => false,
    }
}

/// The status of a failed command is never zero and fits a byte. Signals that leave room for it are
/// told apart by their status, which lies above that of any signal, and a status that a child may
/// exit with is handed on.
pub proof fn law_failures_have_a_failing_status(a: int, b: int, message: Seq<char>)
    ensures
        0 < cancelled(a, message).exit_code < 256,
        0 < child(a, message).exit_code < 256,
        0 < a < 128 && 0 < b < 128 && a != b ==> cancelled(a, message).exit_code != cancelled(
            b,
            message,
        ).exit_code,
        0 < a < 128 ==> cancelled(a, message).exit_code - 128 == a,
        !(0 < a < 128) ==> cancelled(a, message).exit_code == 1,
        0 < a < 256 ==> child(a, message).exit_code == a,
        !(0 < a < 256) ==> child(a, message).exit_code == 1,
        cancelled(a, message).kind is Cancelled,
        child(a, message).kind is Child,
{
}

} // verus!
