//! Tests of the descriptor tracker: event dispatch, error reporting, the
//! live table, and the end-of-stream flush.

use strace_tree::{Eventer, FDInfo, ProcessError, StraceEvent};

fn ev<'a>(syscall: &'a str, args: Vec<&'a str>, result: &'a str) -> StraceEvent<'a> {
    StraceEvent { syscall, args, result }
}

#[test]
fn new_seeds_standard_streams() {
    let e = Eventer::new();
    assert_eq!(e.open_fds.len(), 3);
    assert_eq!(e.open_fds[0].0, 0);
    assert_eq!(e.open_fds[1].0, 1);
    assert_eq!(e.open_fds[2].0, 2);
    assert_eq!(e.open_fds[0].1.name(), "stdin");
    assert_eq!(e.open_fds[1].1.name(), "stdout");
    assert_eq!(e.open_fds[2].1.name(), "stderr");
    assert!(e.closed_fds.is_empty());
    assert!(e.log.is_empty());
}

#[test]
fn openat_registers_file() {
    let mut e = Eventer::new();
    let r = e.process(ev("openat", vec!["AT_FDCWD", "\"/tmp/x\"", "O_RDONLY"], "3"));
    assert_eq!(r, Ok(()));
    assert_eq!(e.open_fds.len(), 4);
    assert_eq!(e.open_fds[3].0, 3);
    assert_eq!(e.open_fds[3].1.name(), "/tmp/x");
    assert_eq!(e.log.last().unwrap(), "OPEN    /tmp/x");
}

#[test]
fn open_registers_file() {
    let mut e = Eventer::new();
    let r = e.process(ev("open", vec!["\"/etc/passwd\"", "O_RDONLY", "0"], "5"));
    assert_eq!(r, Ok(()));
    assert_eq!(e.open_fds.len(), 4);
    assert_eq!(e.open_fds[3].0, 5);
    assert_eq!(e.open_fds[3].1.name(), "/etc/passwd");
}

#[test]
fn failed_open_registers_nothing() {
    let mut e = Eventer::new();
    let r = e.process(ev("openat", vec!["AT_FDCWD", "\"/nope\"", "O_RDONLY"], "-1 ENOENT"));
    assert_eq!(r, Ok(()));
    assert_eq!(e.open_fds.len(), 3);
}

#[test]
fn close_moves_descriptor_to_closed() {
    let mut e = Eventer::new();
    e.process(ev("openat", vec!["AT_FDCWD", "\"/tmp/x\"", "O_RDONLY"], "3")).unwrap();
    let r = e.process(ev("close", vec!["3"], "0"));
    assert_eq!(r, Ok(()));
    assert_eq!(e.open_fds.len(), 3);
    assert_eq!(e.closed_fds.len(), 1);
    assert_eq!(e.closed_fds[0].name(), "/tmp/x");
    assert_eq!(e.log.last().unwrap(), "CLOSE   /tmp/x");
}

#[test]
fn failed_close_keeps_descriptor_open() {
    let mut e = Eventer::new();
    e.process(ev("openat", vec!["AT_FDCWD", "\"/tmp/x\"", "O_RDONLY"], "3")).unwrap();
    let r = e.process(ev("close", vec!["3"], "-1"));
    assert_eq!(r, Ok(()));
    assert_eq!(e.open_fds.len(), 4);
    assert!(e.closed_fds.is_empty());
    // A decorated return value is not an integer: reported, nothing closed.
    let r = e.process(ev("close", vec!["3"], "-1 EBADF (Bad file descriptor)"));
    assert_eq!(r, Err(ProcessError::BadResult));
    assert_eq!(e.open_fds.len(), 4);
}

#[test]
fn close_of_unopened_id_is_consistency_error() {
    let mut e = Eventer::new();
    let open_before = e.open_fds.clone();
    let r = e.process(ev("close", vec!["7"], "0"));
    assert_eq!(r, Err(ProcessError::UseEmptyFD(7)));
    assert_eq!(e.open_fds, open_before);
    assert!(e.closed_fds.is_empty());
}

#[test]
fn reopen_of_live_id_reports_conflict_and_replaces() {
    let mut e = Eventer::new();
    e.process(ev("openat", vec!["AT_FDCWD", "\"/first\"", "O_RDONLY"], "3")).unwrap();
    let r = e.process(ev("openat", vec!["AT_FDCWD", "\"/second\"", "O_WRONLY"], "3"));
    assert_eq!(r, Err(ProcessError::OverwriteFD(3)));
    assert_eq!(e.open_fds.len(), 4);
    assert_eq!(e.open_fds[3].0, 3);
    assert_eq!(e.open_fds[3].1.name(), "/second");
    assert_eq!(e.closed_fds.len(), 1);
    assert_eq!(e.closed_fds[0].name(), "/first");
}

#[test]
fn too_few_arguments_is_shape_error() {
    let mut e = Eventer::new();
    let r = e.process(ev("openat", vec!["AT_FDCWD", "\"/x\""], "3"));
    assert_eq!(r, Err(ProcessError::TooShort(3, 2)));
    let r = e.process(ev("close", vec![], "0"));
    assert_eq!(r, Err(ProcessError::TooShort(1, 0)));
}

#[test]
fn malformed_number_is_bad_result() {
    let mut e = Eventer::new();
    let r = e.process(ev("openat", vec!["AT_FDCWD", "\"/x\"", "O_RDONLY"], "three"));
    assert_eq!(r, Err(ProcessError::BadResult));
    let r = e.process(ev("close", vec!["not-a-number"], "0"));
    assert_eq!(r, Err(ProcessError::BadResult));
}

#[test]
fn read_and_write_log_access() {
    let mut e = Eventer::new();
    e.process(ev("openat", vec!["AT_FDCWD", "\"/tmp/x\"", "O_RDWR"], "3")).unwrap();
    let r = e.process(ev("read", vec!["3", "buf", "128"], "128"));
    assert_eq!(r, Ok(()));
    assert_eq!(e.log.last().unwrap(), "READ    /tmp/x");
    let r = e.process(ev("write", vec!["3", "buf", "64"], "64"));
    assert_eq!(r, Ok(()));
    assert_eq!(e.log.last().unwrap(), "WRITE   /tmp/x");
}

#[test]
fn access_to_unopened_id_is_consistency_error() {
    let mut e = Eventer::new();
    let r = e.process(ev("read", vec!["9"], "12"));
    assert_eq!(r, Err(ProcessError::UseEmptyFD(9)));
    let r = e.process(ev("write", vec!["9"], "12"));
    assert_eq!(r, Err(ProcessError::UseEmptyFD(9)));
}

#[test]
fn pipe_registers_both_ends() {
    let mut e = Eventer::new();
    let r = e.process(ev("pipe", vec!["[3", "4]", "0"], "0"));
    assert_eq!(r, Ok(()));
    assert_eq!(e.open_fds.len(), 5);
    assert_eq!(e.open_fds[3].0, 3);
    assert_eq!(e.open_fds[4].0, 4);
    assert!(matches!(e.open_fds[3].1, FDInfo::Pipe { .. }));
    assert_eq!(e.open_fds[3].1.name(), "(pipe)");
    assert_eq!(e.log.last().unwrap(), "OPEN    (pipe)");
}

#[test]
fn socket_registers_opaque_descriptor() {
    let mut e = Eventer::new();
    let r = e.process(ev("socket", vec!["AF_UNIX", "SOCK_STREAM", "0"], "3"));
    assert_eq!(r, Ok(()));
    assert_eq!(e.open_fds.len(), 4);
    assert!(matches!(e.open_fds[3].1, FDInfo::Socket));
    assert_eq!(e.open_fds[3].1.name(), "(socket)");
}

#[test]
fn unknown_syscall_is_recorded_and_ignored() {
    let mut e = Eventer::new();
    let r = e.process(ev("mmap", vec!["NULL", "4096"], "0x7f00"));
    assert_eq!(r, Ok(()));
    assert_eq!(e.open_fds.len(), 3);
    assert!(e.closed_fds.is_empty());
    assert!(e.syscalls.iter().any(|s| s == "mmap"));
}

#[test]
fn syscall_names_are_recorded_once() {
    let mut e = Eventer::new();
    e.process(ev("mmap", vec!["NULL"], "0")).unwrap();
    e.process(ev("mmap", vec!["NULL"], "0")).unwrap();
    assert_eq!(e.syscalls.iter().filter(|s| s.as_str() == "mmap").count(), 1);
}

#[test]
fn close_all_flushes_every_open_descriptor() {
    let mut e = Eventer::new();
    e.process(ev("openat", vec!["AT_FDCWD", "\"/a\"", "O_RDONLY"], "3")).unwrap();
    e.process(ev("openat", vec!["AT_FDCWD", "\"/b\"", "O_WRONLY"], "4")).unwrap();
    e.process(ev("close", vec!["3"], "0")).unwrap();
    e.close_all_fds();
    assert!(e.open_fds.is_empty());
    // "/a" closed explicitly, then the three streams and "/b" flushed in
    // table order.
    assert_eq!(e.closed_fds.len(), 5);
    assert_eq!(e.closed_fds[0].name(), "/a");
    assert_eq!(e.closed_fds[1].name(), "stdin");
    assert_eq!(e.closed_fds[2].name(), "stdout");
    assert_eq!(e.closed_fds[3].name(), "stderr");
    assert_eq!(e.closed_fds[4].name(), "/b");
}

#[test]
fn reused_id_tracks_latest_description() {
    let mut e = Eventer::new();
    e.process(ev("openat", vec!["AT_FDCWD", "\"/a\"", "O_RDONLY"], "3")).unwrap();
    e.process(ev("close", vec!["3"], "0")).unwrap();
    e.process(ev("openat", vec!["AT_FDCWD", "\"/b\"", "O_RDONLY"], "3")).unwrap();
    assert_eq!(e.open_fds.len(), 4);
    assert_eq!(e.open_fds[3].1.name(), "/b");
    assert_eq!(e.closed_fds.len(), 1);
    assert_eq!(e.closed_fds[0].name(), "/a");
}

#[test]
fn check_len_reports_expected_and_actual() {
    assert_eq!(ProcessError::check_len(3, &["a"]), Err(ProcessError::TooShort(3, 1)));
    assert_eq!(ProcessError::check_len(1, &["a", "b"]), Ok(()));
}

#[test]
fn new_file_trims_quotes() {
    let f = FDInfo::new_file("\"/tmp/log\"", "O_RDONLY");
    assert_eq!(f.name(), "/tmp/log");
    let f = FDInfo::new_file("/no/quotes", "O_RDONLY");
    assert_eq!(f.name(), "/no/quotes");
}
