use eos_base::errno::Errno;
use eos_base::pty::{
    control_fcntl, PtFlow, PtFlush, PtSendbreak, PtsName, PtyLock, PtyState, F_GETFL, F_SETFL,
    O_ACCMODE, TCIFLUSH, TCIOFF, TCIOFLUSH, TCION, TCOFLUSH, TCOOFF, TCOON,
};

fn pty() -> PtyState {
    PtyState { id: 3, locked: false, stopped: false, mosi: vec![1, 2], miso: vec![3] }
}

#[test]
fn control_constants_match_the_system() {
    assert_eq!(TCOOFF, libc::TCOOFF as u32);
    assert_eq!(TCOON, libc::TCOON as u32);
    assert_eq!(TCIOFF, libc::TCIOFF as u32);
    assert_eq!(TCION, libc::TCION as u32);
    assert_eq!(TCIFLUSH, libc::TCIFLUSH as u32);
    assert_eq!(TCOFLUSH, libc::TCOFLUSH as u32);
    assert_eq!(TCIOFLUSH, libc::TCIOFLUSH as u32);
    assert_eq!(F_GETFL, syscall::flag::F_GETFL);
    assert_eq!(F_SETFL, syscall::flag::F_SETFL);
    assert_eq!(O_ACCMODE, syscall::flag::O_ACCMODE);
}

#[test]
fn flow_stops_and_restarts_output() {
    let mut f = PtFlow::new(0);
    let mut p = Some(pty());
    assert_eq!(f.write(&mut p, &TCOOFF.to_ne_bytes()), Ok(4));
    assert!(p.as_ref().unwrap().stopped);
    assert_eq!(f.write(&mut p, &TCOON.to_ne_bytes()), Ok(4));
    assert!(!p.as_ref().unwrap().stopped);
    assert_eq!(f.write(&mut p, &TCION.to_ne_bytes()), Ok(4));
    assert_eq!(f.write(&mut p, &9u32.to_ne_bytes()), Err(Errno::Inval));
    assert_eq!(f.write(&mut p, &[1, 0]), Err(Errno::Inval));
    let mut gone: Option<PtyState> = None;
    assert_eq!(f.write(&mut gone, &TCOOFF.to_ne_bytes()), Err(Errno::Pipe));
    assert_eq!(f.write(&mut gone, &TCIOFF.to_ne_bytes()), Ok(4));
    assert_eq!(f.read(), Err(Errno::BadF));
}

#[test]
fn flush_drops_pending_data() {
    let mut f = PtFlush::new(0);
    let mut p = Some(pty());
    assert_eq!(f.flush(&mut p, TCIFLUSH), Ok(4));
    assert!(p.as_ref().unwrap().mosi.is_empty());
    assert_eq!(p.as_ref().unwrap().miso, vec![3]);
    let mut p = Some(pty());
    assert_eq!(f.write(&mut p, &TCOFLUSH.to_ne_bytes()), Ok(4));
    assert_eq!(p.as_ref().unwrap().mosi, vec![1, 2]);
    assert!(p.as_ref().unwrap().miso.is_empty());
    let mut p = Some(pty());
    assert_eq!(f.flush(&mut p, TCIOFLUSH), Ok(4));
    assert!(p.as_ref().unwrap().mosi.is_empty() && p.as_ref().unwrap().miso.is_empty());
    assert_eq!(f.flush(&mut p, 3), Err(Errno::Inval));
    let mut gone: Option<PtyState> = None;
    assert_eq!(f.flush(&mut gone, TCIFLUSH), Err(Errno::Pipe));
}

#[test]
fn lock_reads_and_writes() {
    let mut l = PtyLock::new(0);
    let mut p = Some(pty());
    assert_eq!(l.write(&mut p, &[0, 0, 1, 0]), Ok(4));
    assert!(p.as_ref().unwrap().locked);
    assert_eq!(l.read(p.as_ref(), 8), Ok(1u32.to_ne_bytes().to_vec()));
    assert_eq!(l.write(&mut p, &[0, 0, 0, 0]), Ok(4));
    assert_eq!(l.read(p.as_ref(), 4), Ok(0u32.to_ne_bytes().to_vec()));
    assert_eq!(l.read(p.as_ref(), 3), Err(Errno::BadF));
    assert_eq!(l.write(&mut p, &[1]), Err(Errno::BadF));
    let mut gone: Option<PtyState> = None;
    assert_eq!(l.write(&mut gone, &[1, 1, 1, 1]), Ok(0));
    assert_eq!(l.read(None, 4), Ok(vec![]));
}

#[test]
fn name_reads_the_terminal_number() {
    let n = PtsName::new(0);
    let mut p = pty();
    assert_eq!(n.read(Some(&p), 4), Ok(3u32.to_ne_bytes().to_vec()));
    assert_eq!(n.read(Some(&p), 2), Err(Errno::BadF));
    p.locked = true;
    assert_eq!(n.read(Some(&p), 4), Err(Errno::Io));
    assert_eq!(n.read(None, 4), Err(Errno::Pipe));
    assert_eq!(n.write(), Err(Errno::BadF));
}

#[test]
fn sendbreak_needs_a_duration() {
    let b = PtSendbreak::new(0);
    assert_eq!(b.write(&[0, 0, 0, 0]), Ok(4));
    assert_eq!(b.write(&[0]), Err(Errno::Inval));
    assert_eq!(b.read(), Err(Errno::BadF));
}

#[test]
fn fcntl_keeps_the_access_mode() {
    let mut flags: usize = 0x0002_0000 | 0x10;
    assert_eq!(control_fcntl(&mut flags, F_GETFL, 0), Ok(0x0002_0010));
    assert_eq!(control_fcntl(&mut flags, F_SETFL, 0x0001_0000 | 0x40), Ok(0));
    assert_eq!(flags, 0x0002_0040);
    assert_eq!(control_fcntl(&mut flags, F_SETFL, 0x0001_0000 | 0x40), Ok(0));
    assert_eq!(flags, 0x0002_0040);
    assert_eq!(control_fcntl(&mut flags, 99, 0), Err(Errno::Inval));
    let mut f = PtFlow::new(0x0001_0000);
    assert_eq!(f.fcntl(F_SETFL, 0x0003_0005), Ok(0));
    assert_eq!(f.fcntl(F_GETFL, 0), Ok(0x0001_0005));
    let mut l = PtyLock::new(7);
    assert_eq!(l.fcntl(1, 0), Err(Errno::Inval));
    let mut s = PtsName::new(3);
    assert_eq!(s.fcntl(F_GETFL, 0), Ok(3));
    let mut k = PtSendbreak::new(0);
    assert_eq!(k.fcntl(F_SETFL, 8), Ok(0));
    let mut fl = PtFlush::new(0);
    assert_eq!(fl.fcntl(F_GETFL, 0), Ok(0));
}
