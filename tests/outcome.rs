use process_builder::builder::process;
use process_builder::outcome::{ctrl_handler_error, ErrorKind, ExitStatus, Output};
use process_builder::render::ShellStyle;

#[test]
fn exit_outcome_success_and_failure() {
    let b = process("true");
    assert!(b.exit_outcome(ExitStatus { code: Some(0), success: true }, ShellStyle::Posix).is_ok());
    let st = ExitStatus { code: Some(7), success: false };
    let err = b.exit_outcome(st, ShellStyle::Posix).unwrap_err();
    assert_eq!(err.kind, ErrorKind::NonZeroExit);
    assert_eq!(err.status, Some(st));
    assert!(err.output.is_none());
    assert_eq!(err.desc, "process didn't exit successfully: `true`");
}

#[test]
fn output_outcome_attaches_output() {
    let mut b = process("ls");
    b.arg("my dir");
    let ok = Output { stdout: b"a\n".to_vec(), stderr: vec![], status: ExitStatus { code: Some(0), success: true } };
    let got = b.output_outcome(ok, ShellStyle::Posix).unwrap();
    assert_eq!(got.stdout, b"a\n".to_vec());
    let st = ExitStatus { code: None, success: false };
    let bad = Output { stdout: vec![], stderr: b"no\n".to_vec(), status: st };
    let err = b.output_outcome(bad, ShellStyle::Posix).unwrap_err();
    assert_eq!(err.kind, ErrorKind::NonZeroExit);
    assert_eq!(err.desc, "process didn't exit successfully: `ls 'my dir'`");
    assert_eq!(err.status, Some(st));
    assert_eq!(err.output.unwrap().stderr, b"no\n".to_vec());
}

#[test]
fn execution_and_replace_errors_name_the_command() {
    let mut b = process("missing-tool");
    b.arg("x y");
    let e = b.execution_error(ErrorKind::Spawn, ShellStyle::Posix);
    assert_eq!(e.kind, ErrorKind::Spawn);
    assert_eq!(e.desc, "could not execute process `missing-tool 'x y'`");
    assert!(e.status.is_none() && e.output.is_none());
    let e = b.execution_error(ErrorKind::Multiplex, ShellStyle::Cmd);
    assert_eq!(e.kind, ErrorKind::Multiplex);
    assert_eq!(e.desc, "could not execute process `missing-tool \"x y\"`");
    let e = b.replace_error(ShellStyle::Posix);
    assert_eq!(e.kind, ErrorKind::Replace);
    assert_eq!(e.desc, "could not execute process `missing-tool 'x y'`");
}

#[test]
fn ctrl_handler_error_message() {
    let e = ctrl_handler_error();
    assert_eq!(e.kind, ErrorKind::Replace);
    assert_eq!(e.desc, "Could not set Ctrl-C handler.");
    assert!(e.status.is_none() && e.output.is_none());
}
