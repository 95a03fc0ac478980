//! The control resources of the pseudo-terminal scheme: flow control,
//! flushing, the lock, the terminal's number and the break.
//!
//! A resource refers to its terminal weakly: each operation is handed the
//! terminal's state when it still exists and `None` once it is gone.

use vstd::prelude::*;
use crate::errno::Errno;

verus! {

/// `fcntl` command: read the file status flags.
pub const F_GETFL: usize = 3;
/// `fcntl` command: set the file status flags.
pub const F_SETFL: usize = 4;
/// The access mode bits of the file status flags.
pub const O_ACCMODE: usize = 0x0003_0000;

/// Flow action: suspend output.
pub const TCOOFF: u32 = 0;
/// Flow action: restart output.
pub const TCOON: u32 = 1;
/// Flow action: send the stop character.
pub const TCIOFF: u32 = 2;
/// Flow action: send the start character.
pub const TCION: u32 = 3;

/// Flush action: drop the data received and not read.
pub const TCIFLUSH: u32 = 0;
/// Flush action: drop the data written and not sent.
pub const TCOFLUSH: u32 = 1;
/// Flush action: both.
pub const TCIOFLUSH: u32 = 2;

/// What the control resources read and change of a pseudo-terminal.
pub struct PtyState {
    /// The terminal's number.
    pub id: usize,
    /// Whether the terminal's number may not be read yet.
    pub locked: bool,
    /// Whether output is suspended.
    pub stopped: bool,
    /// Data from the master side that the slave side has not read.
    pub mosi: Vec<u8>,
    /// Data from the slave side that the master side has not read.
    pub miso: Vec<u8>,
}

/// The four bytes of `s` as a little-endian number.
pub open spec fn le_u32(s: Seq<u8>) -> int {
    s[0] + s[1] * 0x100 + s[2] * 0x1_0000 + s[3] * 0x100_0000
}

/// The four bytes of `s` as a big-endian number.
pub open spec fn be_u32(s: Seq<u8>) -> int {
    s[3] + s[2] * 0x100 + s[1] * 0x1_0000 + s[0] * 0x100_0000
}

/// The first four bytes of `b` read in the machine's byte order (the
/// standard library's `u32::from_ne_bytes`): either byte order, as the
/// machine decides.
#[verifier::external_body]
fn ne_u32(b: &[u8]) -> (r: u32)
    requires
        b@.len() >= 4,
    ensures
        r == le_u32(b@) || r == be_u32(b@),
{
    u32::from_ne_bytes([b[0], b[1], b[2], b[3]])
}

/// `v` as four bytes in the machine's byte order (the standard library's
/// `u32::to_ne_bytes`): either byte order, as the machine decides.
#[verifier::external_body]
fn ne_bytes(v: u32) -> (r: [u8; 4])
    ensures
        le_u32(r@) == v || be_u32(r@) == v,
{
    v.to_ne_bytes()
}

/// The flags after `F_SETFL` with `arg`: the access mode stays, the other
/// bits come from `arg`.
pub open spec fn set_fl(flags: usize, arg: usize) -> usize {
    (flags & O_ACCMODE) | (arg & !O_ACCMODE)
}

/// `fcntl` on a control resource with status flags `flags`: `F_GETFL`
/// reads them, `F_SETFL` replaces all but the access mode; any other
/// command is invalid.
pub fn control_fcntl(flags: &mut usize, cmd: usize, arg: usize) -> (r: Result<usize, Errno>)
    ensures
        cmd == F_GETFL ==> r == Ok::<usize, Errno>(*old(flags)) && *final(flags) == *old(flags),
        cmd == F_SETFL ==> r == Ok::<usize, Errno>(0) && *final(flags) == set_fl(*old(flags), arg),
        cmd != F_GETFL && cmd != F_SETFL ==> r == Err::<usize, Errno>(Errno::Inval) && *final(flags) == *old(flags),
{
    if cmd == F_GETFL {
        Ok(*flags)
    } else if cmd == F_SETFL {
        *flags = (*flags & O_ACCMODE) | (arg & !O_ACCMODE);
        Ok(0)
    } else {
        Err(Errno::Inval)
    }
}

/// What the flow action `action` does to the terminal state `old`, giving
/// `new` and the result `r`: `TCOON` restarts and `TCOOFF` suspends the
/// output of the terminal, which must still exist (EPIPE otherwise);
/// `TCION` and `TCIOFF` do nothing on a pseudo-terminal; any other action
/// is invalid. Four bytes are used.
pub open spec fn flow_outcome(old: Option<PtyState>, new: Option<PtyState>, r: Result<usize, Errno>, action: u32) -> bool {
    if action == TCOON || action == TCOOFF {
        match old {
            None => r == Err::<usize, Errno>(Errno::Pipe) && new is None,
            Some(p) => r == Ok::<usize, Errno>(4) && (new matches Some(q) && q.stopped == (action == TCOOFF)
                && q.id == p.id && q.locked == p.locked && q.mosi@ == p.mosi@ && q.miso@ == p.miso@),
        }
    } else if action == TCION || action == TCIOFF {
        r == Ok::<usize, Errno>(4) && new == old
    } else {
        r == Err::<usize, Errno>(Errno::Inval) && new == old
    }
}

/// Flow control of a pseudo-terminal: a write of an action suspends or
/// restarts its output.
pub struct PtFlow {
    pub flags: usize,
}

impl PtFlow {
    /// A flow resource opened with `flags`.
    pub fn new(flags: usize) -> (r: PtFlow)
        ensures
            r.flags == flags,
    {
        PtFlow { flags }
    }

    /// Carries out the flow action `action`: `TCOON` restarts and `TCOOFF`
    /// suspends the output of the terminal, which must still exist;
    /// `TCION` and `TCIOFF` do nothing on a pseudo-terminal. Four bytes
    /// were used.
    pub fn flow(&mut self, pty: &mut Option<PtyState>, action: u32) -> (r: Result<usize, Errno>)
        ensures
            final(self).flags == old(self).flags,
            flow_outcome(*old(pty), *final(pty), r, action),
    {
        if action == TCOON || action == TCOOFF {
            match pty {
                None => Err(Errno::Pipe),
                Some(p) => {
                    p.stopped = action == TCOOFF;
                    Ok(4)
                },
            }
        } else if action == TCION || action == TCIOFF {
            Ok(4)
        } else {
            Err(Errno::Inval)
        }
    }

    /// A write: its first four bytes, in the machine's byte order, are the
    /// flow action; a shorter buffer is invalid.
    pub fn write(&mut self, pty: &mut Option<PtyState>, buf: &[u8]) -> (r: Result<usize, Errno>)
        ensures
            final(self).flags == old(self).flags,
            buf@.len() < 4 ==> r == Err::<usize, Errno>(Errno::Inval) && *final(pty) == *old(pty),
            buf@.len() >= 4 ==> flow_outcome(*old(pty), *final(pty), r, le_u32(buf@) as u32)
                || flow_outcome(*old(pty), *final(pty), r, be_u32(buf@) as u32),
    {
        if buf.len() < 4 {
            return Err(Errno::Inval);
        }
        let action = ne_u32(buf);
        self.flow(pty, action)
    }

    /// Nothing can be read.
    pub fn read(&self) -> (r: Result<usize, Errno>)
        ensures
            r == Err::<usize, Errno>(Errno::BadF),
    {
        Err(Errno::BadF)
    }

    /// `fcntl` on the resource.
    pub fn fcntl(&mut self, cmd: usize, arg: usize) -> (r: Result<usize, Errno>)
        ensures
            cmd == F_GETFL ==> r == Ok::<usize, Errno>(old(self).flags) && final(self).flags == old(self).flags,
            cmd == F_SETFL ==> r == Ok::<usize, Errno>(0) && final(self).flags == set_fl(old(self).flags, arg),
            cmd != F_GETFL && cmd != F_SETFL ==> r == Err::<usize, Errno>(Errno::Inval) && final(self).flags == old(self).flags,
    {
        control_fcntl(&mut self.flags, cmd, arg)
    }
}

/// Flushing of a pseudo-terminal: a write of an action drops pending data.
pub struct PtFlush {
    pub flags: usize,
}

/// The terminal state after dropping the received data (`input`) and the
/// written data (`output`).
pub open spec fn flushed(p: PtyState, q: PtyState, input: bool, output: bool) -> bool {
    &&& q.id == p.id
    &&& q.locked == p.locked
    &&& q.stopped == p.stopped
    &&& q.mosi@ == (if input { Seq::empty() } else { p.mosi@ })
    &&& q.miso@ == (if output { Seq::empty() } else { p.miso@ })
}

/// What the flush action `action` does to the terminal state `old`, giving
/// `new` and the result `r`: `TCIFLUSH` drops what the master wrote and the
/// slave has not read, `TCOFLUSH` what the slave wrote and the master has
/// not read, `TCIOFLUSH` both, on a terminal that must still exist (EPIPE
/// otherwise); any other action is invalid. Four bytes are used.
pub open spec fn flush_outcome(old: Option<PtyState>, new: Option<PtyState>, r: Result<usize, Errno>, action: u32) -> bool {
    if action <= TCIOFLUSH {
        match old {
            None => r == Err::<usize, Errno>(Errno::Pipe) && new is None,
            Some(p) => r == Ok::<usize, Errno>(4) && (new matches Some(q) && flushed(p, q, action != TCOFLUSH, action != TCIFLUSH)),
        }
    } else {
        r == Err::<usize, Errno>(Errno::Inval) && new == old
    }
}

impl PtFlush {
    /// A flush resource opened with `flags`.
    pub fn new(flags: usize) -> (r: PtFlush)
        ensures
            r.flags == flags,
    {
        PtFlush { flags }
    }

    /// Carries out the flush action `action` on the terminal, which must
    /// still exist: `TCIFLUSH` drops what the master wrote and the slave
    /// has not read, `TCOFLUSH` what the slave wrote and the master has not
    /// read, `TCIOFLUSH` both. Four bytes were used.
    pub fn flush(&mut self, pty: &mut Option<PtyState>, action: u32) -> (r: Result<usize, Errno>)
        ensures
            final(self).flags == old(self).flags,
            flush_outcome(*old(pty), *final(pty), r, action),
    {
        if action > TCIOFLUSH {
            return Err(Errno::Inval);
        }
        match pty {
            None => Err(Errno::Pipe),
            Some(p) => {
                if action != TCOFLUSH {
                    p.mosi.clear();
                }
                if action != TCIFLUSH {
                    p.miso.clear();
                }
                Ok(4)
            },
        }
    }

    /// A write: its first four bytes, in the machine's byte order, are the
    /// flush action; a shorter buffer is invalid.
    pub fn write(&mut self, pty: &mut Option<PtyState>, buf: &[u8]) -> (r: Result<usize, Errno>)
        ensures
            final(self).flags == old(self).flags,
            buf@.len() < 4 ==> r == Err::<usize, Errno>(Errno::Inval) && *final(pty) == *old(pty),
            buf@.len() >= 4 ==> flush_outcome(*old(pty), *final(pty), r, le_u32(buf@) as u32)
                || flush_outcome(*old(pty), *final(pty), r, be_u32(buf@) as u32),
    {
        if buf.len() < 4 {
            return Err(Errno::Inval);
        }
        let action = ne_u32(buf);
        self.flush(pty, action)
    }

    /// Nothing can be read.
    pub fn read(&self) -> (r: Result<usize, Errno>)
        ensures
            r == Err::<usize, Errno>(Errno::BadF),
    {
        Err(Errno::BadF)
    }

    /// `fcntl` on the resource.
    pub fn fcntl(&mut self, cmd: usize, arg: usize) -> (r: Result<usize, Errno>)
        ensures
            cmd == F_GETFL ==> r == Ok::<usize, Errno>(old(self).flags) && final(self).flags == old(self).flags,
            cmd == F_SETFL ==> r == Ok::<usize, Errno>(0) && final(self).flags == set_fl(old(self).flags, arg),
            cmd != F_GETFL && cmd != F_SETFL ==> r == Err::<usize, Errno>(Errno::Inval) && final(self).flags == old(self).flags,
    {
        control_fcntl(&mut self.flags, cmd, arg)
    }
}

/// The lock of a pseudo-terminal: while it is set, the terminal's number
/// cannot be read.
pub struct PtyLock {
    pub flags: usize,
}

impl PtyLock {
    /// A lock resource opened with `flags`.
    pub fn new(flags: usize) -> (r: PtyLock)
        ensures
            r.flags == flags,
    {
        PtyLock { flags }
    }

    /// A read of the lock into a buffer of `len` bytes: the bytes to place
    /// at its start, the lock as a number (1 when set) in the machine's
    /// byte order; none once the terminal is gone; a buffer shorter than
    /// four bytes is refused.
    pub fn read(&self, pty: Option<&PtyState>, len: usize) -> (r: Result<Vec<u8>, Errno>)
        ensures
            match pty {
                None => r matches Ok(b) && b@.len() == 0,
                Some(p) => if len < 4 {
                    r == Err::<Vec<u8>, Errno>(Errno::BadF)
                } else {
                    r matches Ok(b) && b@.len() == 4 && ({
                        let v: int = if p.locked { 1 } else { 0 };
                        le_u32(b@) == v || be_u32(b@) == v
                    })
                },
            },
    {
        match pty {
            None => Ok(Vec::new()),
            Some(p) => {
                if len < 4 {
                    return Err(Errno::BadF);
                }
                let v: u32 = if p.locked { 1 } else { 0 };
                let b = ne_bytes(v);
                let mut out: Vec<u8> = Vec::new();
                out.push(b[0]);
                out.push(b[1]);
                out.push(b[2]);
                out.push(b[3]);
                assert(out@ =~= b@);
                Ok(out)
            },
        }
    }

    /// A write sets the lock when its first four bytes are not all zero,
    /// and clears it otherwise; once the terminal is gone nothing is
    /// written; a buffer shorter than four bytes is refused.
    pub fn write(&mut self, pty: &mut Option<PtyState>, buf: &[u8]) -> (r: Result<usize, Errno>)
        ensures
            final(self).flags == old(self).flags,
            match *old(pty) {
                None => r == Ok::<usize, Errno>(0),
                Some(p) => if buf@.len() < 4 {
                    r == Err::<usize, Errno>(Errno::BadF) && *final(pty) == *old(pty)
                } else {
                    r == Ok::<usize, Errno>(4) && (*final(pty) matches Some(q)
                        && q.locked == (buf@[0] != 0 || buf@[1] != 0 || buf@[2] != 0 || buf@[3] != 0)
                        && q.id == p.id && q.stopped == p.stopped && q.mosi@ == p.mosi@ && q.miso@ == p.miso@)
                },
            },
    {
        match pty {
            None => Ok(0),
            Some(p) => {
                if buf.len() < 4 {
                    return Err(Errno::BadF);
                }
                p.locked = buf[0] != 0 || buf[1] != 0 || buf[2] != 0 || buf[3] != 0;
                Ok(4)
            },
        }
    }

    /// `fcntl` on the resource.
    pub fn fcntl(&mut self, cmd: usize, arg: usize) -> (r: Result<usize, Errno>)
        ensures
            cmd == F_GETFL ==> r == Ok::<usize, Errno>(old(self).flags) && final(self).flags == old(self).flags,
            cmd == F_SETFL ==> r == Ok::<usize, Errno>(0) && final(self).flags == set_fl(old(self).flags, arg),
            cmd != F_GETFL && cmd != F_SETFL ==> r == Err::<usize, Errno>(Errno::Inval) && final(self).flags == old(self).flags,
    {
        control_fcntl(&mut self.flags, cmd, arg)
    }
}

/// The number of a pseudo-terminal, for its slave side's name.
pub struct PtsName {
    pub flags: usize,
}

impl PtsName {
    /// A name resource opened with `flags`.
    pub fn new(flags: usize) -> (r: PtsName)
        ensures
            r.flags == flags,
    {
        PtsName { flags }
    }

    /// A read of the terminal's number into a buffer of `len` bytes: the
    /// bytes to place at its start, the number cut to 32 bits in the
    /// machine's byte order. The terminal must still exist and not be
    /// locked, and the buffer must hold four bytes.
    pub fn read(&self, pty: Option<&PtyState>, len: usize) -> (r: Result<Vec<u8>, Errno>)
        ensures
            match pty {
                None => r == Err::<Vec<u8>, Errno>(Errno::Pipe),
                Some(p) => if p.locked {
                    r == Err::<Vec<u8>, Errno>(Errno::Io)
                } else if len < 4 {
                    r == Err::<Vec<u8>, Errno>(Errno::BadF)
                } else {
                    r matches Ok(b) && b@.len() == 4 && (le_u32(b@) == p.id as u32 || be_u32(b@) == p.id as u32)
                },
            },
    {
        match pty {
            None => Err(Errno::Pipe),
            Some(p) => {
                if p.locked {
                    return Err(Errno::Io);
                }
                if len < 4 {
                    return Err(Errno::BadF);
                }
                let b = ne_bytes(p.id as u32);
                let mut out: Vec<u8> = Vec::new();
                out.push(b[0]);
                out.push(b[1]);
                out.push(b[2]);
                out.push(b[3]);
                assert(out@ =~= b@);
                Ok(out)
            },
        }
    }

    /// Nothing can be written.
    pub fn write(&self) -> (r: Result<usize, Errno>)
        ensures
            r == Err::<usize, Errno>(Errno::BadF),
    {
        Err(Errno::BadF)
    }

    /// `fcntl` on the resource.
    pub fn fcntl(&mut self, cmd: usize, arg: usize) -> (r: Result<usize, Errno>)
        ensures
            cmd == F_GETFL ==> r == Ok::<usize, Errno>(old(self).flags) && final(self).flags == old(self).flags,
            cmd == F_SETFL ==> r == Ok::<usize, Errno>(0) && final(self).flags == set_fl(old(self).flags, arg),
            cmd != F_GETFL && cmd != F_SETFL ==> r == Err::<usize, Errno>(Errno::Inval) && final(self).flags == old(self).flags,
    {
        control_fcntl(&mut self.flags, cmd, arg)
    }
}

/// The break of a pseudo-terminal: a write asks for a break, during which
/// the writer waits.
pub struct PtSendbreak {
    pub flags: usize,
}

impl PtSendbreak {
    /// A break resource opened with `flags`.
    pub fn new(flags: usize) -> (r: PtSendbreak)
        ensures
            r.flags == flags,
    {
        PtSendbreak { flags }
    }

    /// A write: its first four bytes are the break's duration; a shorter
    /// buffer is invalid. On success four bytes were used and the caller
    /// waits for the break.
    pub fn write(&self, buf: &[u8]) -> (r: Result<usize, Errno>)
        ensures
            buf@.len() < 4 ==> r == Err::<usize, Errno>(Errno::Inval),
            buf@.len() >= 4 ==> r == Ok::<usize, Errno>(4),
    {
        if buf.len() < 4 {
            Err(Errno::Inval)
        } else {
            Ok(4)
        }
    }

    /// Nothing can be read.
    pub fn read(&self) -> (r: Result<usize, Errno>)
        ensures
            r == Err::<usize, Errno>(Errno::BadF),
    {
        Err(Errno::BadF)
    }

    /// `fcntl` on the resource.
    pub fn fcntl(&mut self, cmd: usize, arg: usize) -> (r: Result<usize, Errno>)
        ensures
            cmd == F_GETFL ==> r == Ok::<usize, Errno>(old(self).flags) && final(self).flags == old(self).flags,
            cmd == F_SETFL ==> r == Ok::<usize, Errno>(0) && final(self).flags == set_fl(old(self).flags, arg),
            cmd != F_GETFL && cmd != F_SETFL ==> r == Err::<usize, Errno>(Errno::Inval) && final(self).flags == old(self).flags,
    {
        control_fcntl(&mut self.flags, cmd, arg)
    }
}

/// Setting the flags keeps the access mode and takes every other bit from
/// the argument, so setting them again with the same argument changes
/// nothing.
pub proof fn lemma_set_fl(flags: usize, arg: usize)
    ensures
        set_fl(flags, arg) & O_ACCMODE == flags & O_ACCMODE,
        set_fl(flags, arg) & !O_ACCMODE == arg & !O_ACCMODE,
        set_fl(set_fl(flags, arg), arg) == set_fl(flags, arg),
{
    assert((((flags & 0x0003_0000usize) | (arg & !0x0003_0000usize)) & 0x0003_0000usize) == flags & 0x0003_0000usize) by (bit_vector);
    assert((((flags & 0x0003_0000usize) | (arg & !0x0003_0000usize)) & !0x0003_0000usize) == arg & !0x0003_0000usize) by (bit_vector);
    assert(((((flags & 0x0003_0000usize) | (arg & !0x0003_0000usize)) & 0x0003_0000usize) | (arg & !0x0003_0000usize))
        == ((flags & 0x0003_0000usize) | (arg & !0x0003_0000usize))) by (bit_vector);
}

} // verus!
