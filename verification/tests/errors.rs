use lib::error::TskError;

#[test]
fn cli_error_code_and_text() {
    let e = TskError::cli("--file requires a path argument".to_string());
    assert_eq!(e.exit_code(), 1);
    assert_eq!(
        e.render(),
        "tsk: --file requires a path argument\nRun 'tsk --help' for usage."
    );
}

#[test]
fn syntax_error_code_and_text() {
    let e = TskError::syntax("Taskfile.tsk".to_string(), 12, "expected '{'".to_string());
    assert_eq!(e.exit_code(), 2);
    assert_eq!(e.render(), "tsk: syntax error in Taskfile.tsk:12: expected '{'");
}

#[test]
fn runtime_error_code_and_text() {
    let e = TskError::runtime(
        "build".to_string(),
        7,
        "exited with status 2".to_string(),
        Some("make all".to_string()),
    );
    assert_eq!(e.exit_code(), 3);
    assert_eq!(
        e.render(),
        "tsk: runtime error in task 'build' at line 7: exited with status 2\n  command: make all"
    );
    let e = TskError::runtime("a".to_string(), 0, "circular".to_string(), None);
    assert_eq!(e.render(), "tsk: runtime error in task 'a' at line 0: circular");
}

#[test]
fn abort_error_code_and_text() {
    let e = TskError::Abort {
        task: "test".to_string(),
        line: 15,
        message: "Tests are not supported on Windows".to_string(),
    };
    assert_eq!(e.exit_code(), 1);
    assert_eq!(
        e.render(),
        "tsk: error in task 'test' at line 15: Tests are not supported on Windows"
    );
}

#[test]
fn constructors_keep_their_fields() {
    match TskError::syntax("f".to_string(), 3, "m".to_string()) {
        TskError::Syntax { file, line, message } => {
            assert_eq!((file.as_str(), line, message.as_str()), ("f", 3, "m"));
        }
        other => panic!("wrong variant: {:?}", other),
    }
    match TskError::runtime("t".to_string(), 4, "m".to_string(), Some("c".to_string())) {
        TskError::Runtime { task, line, message, command } => {
            assert_eq!((task.as_str(), line, message.as_str()), ("t", 4, "m"));
            assert_eq!(command, Some("c".to_string()));
        }
        other => panic!("wrong variant: {:?}", other),
    }
    assert!(matches!(TskError::cli("x".to_string()), TskError::Cli(m) if m == "x"));
}
