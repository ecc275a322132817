use process_builder::builder::process;
use process_builder::dispatch::{LineCallback, LineDispatcher};
use process_builder::outcome::{ErrorKind, ExitStatus, StreamingError};
use process_builder::render::ShellStyle;

use std::cell::RefCell;
use std::rc::Rc;

/// Records every line it gets, with the stream it came from, into a log
/// shared by both callbacks; fails on the call whose number (from 1,
/// counting both streams) is `fail_on`.
struct Recorder {
    is_out: bool,
    log: Rc<RefCell<Vec<(bool, String)>>>,
    fail_on: Option<usize>,
}

impl LineCallback<String> for Recorder {
    fn call(&mut self, line: &str) -> Result<(), String> {
        let mut log = self.log.borrow_mut();
        log.push((self.is_out, line.to_string()));
        if Some(log.len()) == self.fail_on {
            return Err(format!("bad line: {}", line));
        }
        Ok(())
    }
}

fn recorders(fail_on: Option<usize>) -> (Recorder, Recorder, Rc<RefCell<Vec<(bool, String)>>>) {
    let log = Rc::new(RefCell::new(Vec::new()));
    (
        Recorder { is_out: true, log: log.clone(), fail_on },
        Recorder { is_out: false, log: log.clone(), fail_on },
        log,
    )
}

fn ok_status() -> ExitStatus {
    ExitStatus { code: Some(0), success: true }
}

#[test]
fn partial_line_waits_for_terminator() {
    let (mut o, mut e, log) = recorders(None);
    let mut d: LineDispatcher<String> = LineDispatcher::new(true);
    let mut pending = b"abc".to_vec();
    d.on_chunk(true, &mut pending, false, &mut o, &mut e);
    assert_eq!(pending, b"abc".to_vec());
    assert!(log.borrow().is_empty());
    pending.extend_from_slice(b"def\ngh");
    d.on_chunk(true, &mut pending, false, &mut o, &mut e);
    assert_eq!(pending, b"gh".to_vec());
    assert_eq!(*log.borrow(), vec![(true, "abcdef".to_string())]);
    d.on_chunk(true, &mut pending, true, &mut o, &mut e);
    assert!(pending.is_empty());
    assert_eq!(*log.borrow(), vec![(true, "abcdef".to_string()), (true, "gh".to_string())]);
    let out = d.finish(&process("p"), ok_status(), ShellStyle::Posix).ok().unwrap();
    assert_eq!(out.stdout, b"abcdef\ngh".to_vec());
    assert!(out.stderr.is_empty());
}

#[test]
fn captured_output_matches_delivered_lines() {
    let (mut o, mut e, log) = recorders(None);
    let mut d: LineDispatcher<String> = LineDispatcher::new(true);
    let mut out_buf = b"one\ntwo\nthr".to_vec();
    let mut err_buf = b"warn 1\n".to_vec();
    d.on_chunk(true, &mut out_buf, false, &mut o, &mut e);
    d.on_chunk(false, &mut err_buf, false, &mut o, &mut e);
    out_buf.extend_from_slice(b"ee\n");
    d.on_chunk(true, &mut out_buf, false, &mut o, &mut e);
    d.on_chunk(true, &mut out_buf, true, &mut o, &mut e);
    d.on_chunk(false, &mut err_buf, true, &mut o, &mut e);
    let out = d.finish(&process("p"), ok_status(), ShellStyle::Posix).ok().unwrap();
    let stdout_lines: Vec<String> =
        log.borrow().iter().filter(|l| l.0).map(|l| l.1.clone()).collect();
    let stderr_lines: Vec<String> =
        log.borrow().iter().filter(|l| !l.0).map(|l| l.1.clone()).collect();
    assert_eq!(stdout_lines, vec!["one", "two", "three"]);
    assert_eq!(stderr_lines, vec!["warn 1"]);
    let mut rejoined = stdout_lines.join("\n");
    rejoined.push('\n');
    assert_eq!(rejoined.as_bytes(), &out.stdout[..]);
    assert_eq!(out.stderr, b"warn 1\n".to_vec());
}

#[test]
fn uncaptured_run_still_delivers_every_line() {
    let (mut o, mut e, log) = recorders(None);
    let mut d: LineDispatcher<String> = LineDispatcher::new(false);
    let mut out_buf = b"a\nb\n".to_vec();
    let mut err_buf = b"x\ny".to_vec();
    d.on_chunk(true, &mut out_buf, false, &mut o, &mut e);
    d.on_chunk(false, &mut err_buf, false, &mut o, &mut e);
    assert!(out_buf.is_empty());
    assert_eq!(err_buf, b"y".to_vec());
    d.on_chunk(false, &mut err_buf, true, &mut o, &mut e);
    d.on_chunk(true, &mut out_buf, true, &mut o, &mut e);
    assert_eq!(
        *log.borrow(),
        vec![
            (true, "a".to_string()),
            (true, "b".to_string()),
            (false, "x".to_string()),
            (false, "y".to_string())
        ]
    );
    let out = d.finish(&process("p"), ok_status(), ShellStyle::Posix).ok().unwrap();
    assert!(out.stdout.is_empty());
    assert!(out.stderr.is_empty());
}

#[test]
fn crlf_is_stripped_and_invalid_bytes_replaced() {
    let (mut o, mut e, log) = recorders(None);
    let mut d: LineDispatcher<String> = LineDispatcher::new(true);
    let mut buf = b"dos\r\nbad\xff!\n\r\n".to_vec();
    d.on_chunk(true, &mut buf, false, &mut o, &mut e);
    assert_eq!(
        *log.borrow(),
        vec![
            (true, "dos".to_string()),
            (true, "bad\u{fffd}!".to_string()),
            (true, "".to_string())
        ]
    );
    let out = d.finish(&process("p"), ok_status(), ShellStyle::Posix).ok().unwrap();
    assert_eq!(out.stdout, b"dos\r\nbad\xff!\n\r\n".to_vec());
}

#[test]
fn no_callback_after_third_call_fails() {
    let (mut o, mut e, log) = recorders(Some(3));
    let mut d: LineDispatcher<String> = LineDispatcher::new(true);
    let mut out_buf = b"1\n2\n3\n4\n5\n".to_vec();
    let mut err_buf = b"e1\ne2\n".to_vec();
    d.on_chunk(true, &mut out_buf, false, &mut o, &mut e);
    assert_eq!(log.borrow().len(), 3);
    assert!(out_buf.is_empty());
    d.on_chunk(false, &mut err_buf, false, &mut o, &mut e);
    out_buf.extend_from_slice(b"6\n");
    d.on_chunk(true, &mut out_buf, true, &mut o, &mut e);
    d.on_chunk(false, &mut err_buf, true, &mut o, &mut e);
    assert_eq!(log.borrow().len(), 3);
    let status = ExitStatus { code: Some(3), success: false };
    match d.finish(&process("p"), status, ShellStyle::Posix) {
        Err(StreamingError::Callback(cause, ctx)) => {
            assert_eq!(cause, "bad line: 3", "the carried error is the first one returned");
            assert_eq!(ctx.kind, ErrorKind::Callback);
            assert_eq!(ctx.desc, "failed to parse process output: `p`");
            assert_eq!(ctx.status, Some(status));
            let out = ctx.output.unwrap();
            assert_eq!(out.status, status);
            assert_eq!(out.stdout, b"1\n2\n3\n4\n5\n6\n".to_vec());
            assert_eq!(out.stderr, b"e1\ne2\n".to_vec());
        }
        _ => panic!("expected a callback failure"),
    }
}

#[test]
fn stderr_failure_stops_stdout_callbacks() {
    let (mut o, mut e, log) = recorders(Some(1));
    let mut d: LineDispatcher<String> = LineDispatcher::new(false);
    let mut err_buf = b"boom\n".to_vec();
    let mut out_buf = b"fine\n".to_vec();
    d.on_chunk(false, &mut err_buf, false, &mut o, &mut e);
    d.on_chunk(true, &mut out_buf, false, &mut o, &mut e);
    assert_eq!(*log.borrow(), vec![(false, "boom".to_string())]);
    assert!(out_buf.is_empty());
    match d.finish(&process("p"), ok_status(), ShellStyle::Posix) {
        Err(StreamingError::Callback(_, ctx)) => {
            assert_eq!(ctx.status, Some(ok_status()));
            assert!(ctx.output.is_none());
        }
        _ => panic!("expected a callback failure"),
    }
}

#[test]
fn large_uncaptured_stream_is_drained() {
    let (mut o, mut e, log) = recorders(None);
    let mut d: LineDispatcher<String> = LineDispatcher::new(false);
    let line = vec![b'x'; 1023];
    let mut pending: Vec<u8> = Vec::new();
    let mut total: usize = 0;
    while total < 10 * 1024 * 1024 {
        pending.extend_from_slice(&line);
        pending.push(b'\n');
        total += 1024;
        if pending.len() >= 64 * 1024 {
            d.on_chunk(true, &mut pending, false, &mut o, &mut e);
            assert!(pending.is_empty());
        }
    }
    d.on_chunk(true, &mut pending, true, &mut o, &mut e);
    let mut nothing: Vec<u8> = Vec::new();
    d.on_chunk(false, &mut nothing, true, &mut o, &mut e);
    assert_eq!(log.borrow().len(), 10 * 1024);
    let out = d.finish(&process("p"), ok_status(), ShellStyle::Posix).ok().unwrap();
    assert!(out.stdout.is_empty());
}

#[test]
fn exit_code_seven_is_non_zero_exit() {
    let (mut o, mut e, _log) = recorders(None);
    let mut d: LineDispatcher<String> = LineDispatcher::new(true);
    let mut buf = b"out\n".to_vec();
    d.on_chunk(true, &mut buf, true, &mut o, &mut e);
    let status = ExitStatus { code: Some(7), success: false };
    let mut b = process("cc");
    b.arg("-c");
    match d.finish(&b, status, ShellStyle::Posix) {
        Err(StreamingError::Process(err)) => {
            assert_eq!(err.kind, ErrorKind::NonZeroExit);
            assert_eq!(err.status.unwrap().code, Some(7));
            assert_eq!(err.desc, "process didn't exit successfully: `cc -c`");
            assert_eq!(err.output.unwrap().stdout, b"out\n".to_vec());
        }
        _ => panic!("expected a non-zero exit"),
    }
}

/// Fails on every call, numbering its errors.
struct AlwaysFail {
    count: usize,
}

impl LineCallback<String> for AlwaysFail {
    fn call(&mut self, _line: &str) -> Result<(), String> {
        self.count += 1;
        Err(format!("error {}", self.count))
    }
}

#[test]
fn first_error_is_carried_and_outranks_exit_status() {
    let mut o = AlwaysFail { count: 0 };
    let mut e = AlwaysFail { count: 0 };
    let mut d: LineDispatcher<String> = LineDispatcher::new(false);
    let mut out_buf = b"a\nb\n".to_vec();
    let mut err_buf = b"c\n".to_vec();
    d.on_chunk(true, &mut out_buf, true, &mut o, &mut e);
    d.on_chunk(false, &mut err_buf, true, &mut o, &mut e);
    assert_eq!(o.count, 1);
    assert_eq!(e.count, 0);
    let status = ExitStatus { code: Some(9), success: false };
    match d.finish(&process("p"), status, ShellStyle::Posix) {
        Err(StreamingError::Callback(cause, ctx)) => {
            assert_eq!(cause, "error 1");
            assert_eq!(ctx.status, Some(status));
            assert!(ctx.output.is_none());
        }
        _ => panic!("expected a callback failure"),
    }
}
