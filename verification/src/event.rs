//! What the supervisor is told.
use vstd::prelude::*;

verus! {

/// A signal to the supervisor.
#[derive(Clone, Copy, PartialEq, Eq, Structural, Debug)]
pub enum Signal {
    /// Usually sent to the whole process group, by Ctrl+C.
    Interrupt,
    /// Usually sent to the supervisor alone.
    Terminate,
    /// A child has ended.
    Child,
    Other,
}

/// What has happened.
#[derive(Clone, Copy, PartialEq, Eq, Structural, Debug)]
pub enum Event {
    /// The reading of the steady clock, in nanoseconds.
    Time(i64),
    /// The socket was opened, under this file descriptor.
    Opened(i32),
    OpenFailed,
    /// The process was started, under this pid.
    Spawned(i32),
    SpawnFailed,
    /// The deadline has passed.
    Timeout,
    Signal(Signal),
    /// The child with this pid has ended.
    Exited(i32),
    /// No further child has ended.
    NoMoreExits,
}

} // verus!
