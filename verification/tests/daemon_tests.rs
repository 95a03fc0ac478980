use std::io::Read;

use eos_base::daemon::{Daemon, SchemeDaemon};

#[test]
fn ready_writes_one_zero_byte() {
    let (mut reader, writer) = std::io::pipe().unwrap();
    let d = Daemon::from_pipe(Some(writer));
    assert!(d.has_notify_pipe());
    d.ready();
    let mut buf = Vec::new();
    reader.read_to_end(&mut buf).unwrap();
    assert_eq!(buf, vec![0u8]);
}

#[test]
fn ready_without_a_pipe_does_nothing() {
    let d = Daemon::from_pipe(None);
    assert!(!d.has_notify_pipe());
    d.ready();
    assert!(SchemeDaemon::from_pipe(None).into_pipe().is_none());
}
