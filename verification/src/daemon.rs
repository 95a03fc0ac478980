//! Daemons started by init: the pipe on which a daemon tells init that it
//! is ready.

use vstd::prelude::*;
use std::io::PipeWriter;

verus! {

/// The writing end of an anonymous pipe, from the standard library.
#[verifier::external_type_specification]
#[verifier::external_body]
pub struct ExPipeWriter(PipeWriter);

/// Writes the readiness byte 0 to `pipe` (the standard library's
/// `Write::write_all`). Whether the write succeeded is not reported: a
/// parent that went away does not stop the daemon.
#[verifier::external_body]
fn write_ready_byte(pipe: &mut PipeWriter) {
    let _ = std::io::Write::write_all(pipe, &[0u8]);
}

/// A long running background process that handles requests; it holds the
/// pipe to init when init started it.
pub struct Daemon {
    write_pipe: Option<PipeWriter>,
}

impl Daemon {
    /// The pipe to init, if there is one.
    pub closed spec fn notify_pipe(&self) -> Option<PipeWriter> {
        self.write_pipe
    }

    /// A daemon that tells init through `write_pipe`, or no one.
    pub fn from_pipe(write_pipe: Option<PipeWriter>) -> (d: Daemon)
        ensures
            d.notify_pipe() == write_pipe,
    {
        Daemon { write_pipe }
    }

    /// Whether the daemon has a pipe to tell init on.
    pub fn has_notify_pipe(&self) -> (r: bool)
        ensures
            r == self.notify_pipe() is Some,
    {
        self.write_pipe.is_some()
    }

    /// Tells init that the daemon is ready to accept requests: the byte 0
    /// goes down the pipe when there is one.
    pub fn ready(self) {
        let mut d = self;
        match &mut d.write_pipe {
            Some(pipe) => write_ready_byte(pipe),
            None => {},
        }
    }
}

/// A long running background process that handles requests through a
/// scheme; it holds the pipe to init when init started it.
pub struct SchemeDaemon {
    write_pipe: Option<PipeWriter>,
}

impl SchemeDaemon {
    /// The pipe to init, if there is one.
    pub closed spec fn notify_pipe(&self) -> Option<PipeWriter> {
        self.write_pipe
    }

    /// A scheme daemon that tells init through `write_pipe`, or no one.
    pub fn from_pipe(write_pipe: Option<PipeWriter>) -> (d: SchemeDaemon)
        ensures
            d.notify_pipe() == write_pipe,
    {
        SchemeDaemon { write_pipe }
    }

    /// Gives up the pipe on which the scheme's root capability is handed
    /// to init; without one (a daemon started by another daemon) there is
    /// no one to tell.
    pub fn into_pipe(self) -> (r: Option<PipeWriter>)
        ensures
            r == self.notify_pipe(),
    {
        self.write_pipe
    }
}

} // verus!
