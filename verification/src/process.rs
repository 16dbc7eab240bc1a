//! What comes of a process that was started.

use vstd::prelude::*;
use crate::error::{outcome, Error};
use crate::model::fault;
use crate::text::glue;

verus! {

/// The most that is kept of what a command writes.
pub const CAPTURE_LIMIT: u64 = 4194304;

/// What stands for the end of a process that was cancelled.
pub const CANCELLED: i32 = 130;

/// What stands for the end of a process that ran out of time.
pub const TIMED_OUT: i32 = 124;

/// How a process has ended: with a code, or by a signal.
#[derive(Debug, Clone, Copy)]
pub struct Ended {
    pub code: Option<i32>,
}

/// What is known of a process at one moment: nothing as long as it may go on.
pub open spec fn verdict_on(
    cancelled: bool,
    ended: Option<Ended>,
    elapsed_seconds: u64,
    timeout: Option<u64>,
) -> Option<i32> {
    if cancelled {
        Some(CANCELLED)
    } else if ended is Some {
        match ended->0.code {
            Some(code) => Some(code),
            None => Some(1i32),
        }
    } else if timeout is Some && elapsed_seconds >= timeout->0 {
        Some(TIMED_OUT)
    } else {
        None
    }
}

/// What comes of a process at one moment: cancelling goes before its end, and its end
/// before the time that it has.
pub fn wait(
    cancelled: bool,
    ended: Option<Ended>,
    elapsed_seconds: u64,
    timeout: Option<u64>,
) -> (r: Option<i32>)
    ensures
        r == verdict_on(cancelled, ended, elapsed_seconds, timeout),
{
    if cancelled {
        return Some(CANCELLED);
    }
    if let Some(e) = ended {
        return match e.code {
            Some(code) => Some(code),
            None => Some(1),
        };
    }
    match timeout {
        Some(t) => if elapsed_seconds >= t {
            Some(TIMED_OUT)
        } else {
            None
        },
        None => None,
    }
}

/// Only a command that ends with zero has succeeded.
pub open spec fn capture_check(code: i32, complaint: Seq<char>) -> Result<(), Seq<Seq<char>>> {
    if code == 0 {
        Ok(())
    } else {
        fault("command failed or timed out: "@ + complaint)
    }
}

/// Whether a command has succeeded, by its code and what it has written as complaint.
pub fn capture(code: i32, complaint: &str) -> (r: Result<(), Error>)
    ensures
        outcome(r) == capture_check(code, complaint@),
{
    if code == 0 {
        Ok(())
    } else {
        Err(Error::of(glue("command failed or timed out: ", complaint)))
    }
}

/// Whether a workload may be started, as far as nobody has cancelled the run.
pub fn check_launch(cancelled: bool) -> (r: Result<(), Error>)
    ensures
        outcome(r) == if cancelled {
            fault("cancelled before launch"@)
        } else {
            Ok(())
        },
{
    if cancelled {
        Err(Error::new("cancelled before launch"))
    } else {
        Ok(())
    }
}

/// A process with a limit does not outlast it.
pub proof fn law_limits_are_kept(
    cancelled: bool,
    ended: Option<Ended>,
    elapsed_seconds: u64,
    timeout: u64,
)
    requires
        elapsed_seconds >= timeout,
    ensures
        verdict_on(cancelled, ended, elapsed_seconds, Some(timeout)) is Some,
{
}

/// A process that is cancelled ends with one code, one that ran out of time with another, and one
/// that has ended with its own, or with one where a signal has ended it. Until then it goes on.
pub proof fn law_processes_end_for_one_reason(
    ended: Option<Ended>,
    elapsed_seconds: u64,
    timeout: Option<u64>,
    code: i32,
    complaint: Seq<char>,
)
    ensures
        verdict_on(true, ended, elapsed_seconds, timeout) == Some(130i32),
        ended is Some && ended->0.code is Some ==> verdict_on(false, ended, elapsed_seconds, timeout)
            == ended->0.code,
        ended is Some && ended->0.code is None ==> verdict_on(false, ended, elapsed_seconds, timeout)
            == Some(1i32),
        ended is None && timeout is Some && elapsed_seconds >= timeout->0 ==> verdict_on(
            false,
            ended,
            elapsed_seconds,
            timeout,
        ) == Some(124i32),
        ended is None && !(timeout is Some && elapsed_seconds >= timeout->0) ==> verdict_on(
            false,
            ended,
            elapsed_seconds,
            timeout,
        ) is None,
        capture_check(code, complaint) is Ok <==> code == 0,
{
}

/// A process is watched until it ends for one of its reasons, what it complains of fails what it
/// was captured for, and nothing is started once the run is cancelled.
pub proof fn law_processes_are_watched(
    cancelled: bool,
    ended: Option<Ended>,
    elapsed_seconds: u64,
    timeout: Option<u64>,
    code: Option<i32>,
    exit: i32,
    complaint: &str,
    captured: Result<(), Error>,
    launch: Result<(), Error>,
)
    requires
        call_ensures(wait, (cancelled, ended, elapsed_seconds, timeout), code),
        call_ensures(capture, (exit, complaint), captured),
        call_ensures(check_launch, (cancelled,), launch),
    ensures
        cancelled ==> code == Some(130i32),
        !cancelled && ended is Some && ended->0.code is Some ==> code == ended->0.code,
        !cancelled && ended is None && timeout is Some && elapsed_seconds >= timeout->0 ==> code
            == Some(124i32),
        !cancelled && ended is None && timeout is None ==> code is None,
        captured is Ok <==> exit == 0,
        launch is Ok <==> !cancelled,
        CAPTURE_LIMIT == 4 * 1024 * 1024,
{
}

} // verus!
