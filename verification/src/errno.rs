//! Error numbers returned by the library's operations, with the values of the
//! Redox system call interface.

use vstd::prelude::*;

verus! {

/// An error of a scheme or driver operation, named after its errno.
#[derive(Debug, Copy, Clone, PartialEq, Eq, Structural)]
pub enum Errno {
    /// No such file or directory.
    NoEnt,
    /// I/O error.
    Io,
    /// No such device or address.
    NxIo,
    /// Bad file number.
    BadF,
    /// Try again.
    Again,
    /// Permission denied.
    Acces,
    /// File exists.
    Exist,
    /// Not a directory.
    NotDir,
    /// Invalid argument.
    Inval,
    /// Broken pipe.
    Pipe,
    /// Result not representable.
    Range,
    /// Operation not supported.
    OpNotSupp,
}

impl Errno {
    /// The errno number of the Redox system call interface.
    pub open spec fn spec_code(self) -> i32 {
        match self {
            Errno::NoEnt => 2,
            Errno::Io => 5,
            Errno::NxIo => 6,
            Errno::BadF => 9,
            Errno::Again => 11,
            Errno::Acces => 13,
            Errno::Exist => 17,
            Errno::NotDir => 20,
            Errno::Inval => 22,
            Errno::Pipe => 32,
            Errno::Range => 34,
            Errno::OpNotSupp => 95,
        }
    }

    /// The errno number of the Redox system call interface.
    pub fn code(&self) -> (c: i32)
        ensures
            c == self.spec_code(),
    {
        match self {
            Errno::NoEnt => 2,
            Errno::Io => 5,
            Errno::NxIo => 6,
            Errno::BadF => 9,
            Errno::Again => 11,
            Errno::Acces => 13,
            Errno::Exist => 17,
            Errno::NotDir => 20,
            Errno::Inval => 22,
            Errno::Pipe => 32,
            Errno::Range => 34,
            Errno::OpNotSupp => 95,
        }
    }
}

} // verus!
