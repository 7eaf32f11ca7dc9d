use lib::error::TskError;
use lib::executor::{Executor, Note, Reply, Request, Step};
use lib::parser::parse;

fn pairs(v: &[(&str, &str)]) -> Vec<(String, String)> {
    v.iter().map(|(a, b)| (a.to_string(), b.to_string())).collect()
}

fn executor(source: &str, sys: &[(&str, &str)], env: &[(&str, &str)]) -> Executor {
    let tf = match parse(source, "Taskfile.tsk") {
        Ok(tf) => tf,
        Err(e) => panic!("parse error: {}", e.error.render()),
    };
    Executor::new(tf, pairs(sys), pairs(env), "/work".to_string())
}

fn linux() -> Vec<(&'static str, &'static str)> {
    vec![("OS", "linux"), ("ARCH", "x86_64"), ("HOME", "/home/u")]
}

/// Runs `task`, answering each request with `answer`, and records what the
/// runner hands out: notes as `warn:`, `echo:`, `show:`, requests as `cd:`,
/// `set:`, `spawn:`. Returns the record and the end of the run.
fn drive(
    exec: &mut Executor,
    task: &str,
    mut answer: impl FnMut(&Request) -> Reply,
) -> (Vec<String>, Result<(), TskError>) {
    let mut log = Vec::new();
    let mut step: Step = exec.run(task);
    loop {
        for n in &step.notes {
            log.push(match n {
                Note::Warn(m) => format!("warn: {}", m),
                Note::Echo(m) => format!("echo: {}", m),
                Note::Show(m) => format!("show: {}", m),
            });
        }
        let reply = match &step.request {
            Request::Finished(_) => break,
            Request::ChangeDir(d) => {
                log.push(format!("cd: {}", d));
                answer(&step.request)
            }
            Request::SetEnv(k, v) => {
                log.push(format!("set: {}={}", k, v));
                answer(&step.request)
            }
            Request::Spawn(c) => {
                log.push(format!("spawn: {}", c));
                answer(&step.request)
            }
        };
        step = exec.resume(reply);
    }
    match step.request {
        Request::Finished(r) => (log, r),
        _ => unreachable!(),
    }
}

fn succeed(r: &Request) -> Reply {
    match r {
        Request::ChangeDir(d) => Reply::DirChanged(format!("/work/{}", d)),
        Request::SetEnv(..) => Reply::Done,
        _ => Reply::Exited { success: true, code: Some(0) },
    }
}

fn fail_with(code: Option<i32>) -> impl FnMut(&Request) -> Reply {
    move |r: &Request| match r {
        Request::Spawn(_) => Reply::Exited { success: false, code },
        other => succeed(other),
    }
}

fn strings(v: &[&str]) -> Vec<String> {
    v.iter().map(|s| s.to_string()).collect()
}

#[test]
fn dependencies_run_first_and_once() {
    let src = "c {\necho c\n}\na {\n@deps c\necho a\n}\nb {\n@deps c\necho b\n}\nall {\n@deps a b\necho all\n}\n";
    let mut exec = executor(src, &linux(), &[]);
    let (log, r) = drive(&mut exec, "all", succeed);
    assert!(r.is_ok());
    assert_eq!(
        log,
        strings(&[
            "echo: echo c", "spawn: echo c",
            "echo: echo a", "spawn: echo a",
            "echo: echo b", "spawn: echo b",
            "echo: echo all", "spawn: echo all",
        ])
    );
}

#[test]
fn circular_dependency_is_reported() {
    let src = "a {\n@deps b\necho a\n}\nb {\n@deps a\necho b\n}\n";
    let mut exec = executor(src, &linux(), &[]);
    let (log, r) = drive(&mut exec, "a", succeed);
    assert!(log.is_empty());
    match r {
        Err(e) => {
            assert_eq!(e.exit_code(), 3);
            assert_eq!(
                e.render(),
                "tsk: runtime error in task 'a' at line 0: circular dependency detected: a -> b -> a"
            );
        }
        Ok(()) => panic!("no error"),
    }
}

#[test]
fn self_dependency_is_a_cycle() {
    let mut exec = executor("a {\n@deps a\necho a\n}\n", &linux(), &[]);
    let (_, r) = drive(&mut exec, "a", succeed);
    assert!(matches!(r, Err(TskError::Runtime { message, .. })
        if message == "circular dependency detected: a -> a"));
}

#[test]
fn unknown_task_lists_the_available_ones() {
    let mut exec = executor("zed {\necho\n}\nbuild {\necho\n}\n", &linux(), &[]);
    let (_, r) = drive(&mut exec, "nope", succeed);
    assert!(matches!(r, Err(TskError::Cli(m))
        if m == "task 'nope' not found.\nAvailable tasks: build, zed"));
    let mut exec = executor("A = 1\n", &linux(), &[]);
    let (_, r) = drive(&mut exec, "x", succeed);
    assert!(matches!(r, Err(TskError::Cli(m)) if m == "task 'x' not found.\nAvailable tasks: (none)"));
}

#[test]
fn unknown_dependency_stops_the_run() {
    let mut exec = executor("a {\n@deps ghost\necho a\n}\n", &linux(), &[]);
    let (log, r) = drive(&mut exec, "a", succeed);
    assert!(log.is_empty());
    assert!(matches!(r, Err(TskError::Cli(m)) if m.starts_with("task 'ghost' not found.")));
}

#[test]
fn failing_command_stops_the_run() {
    let src = "build {\n  make\n  echo never\n}\n";
    let mut exec = executor(src, &linux(), &[]);
    let (log, r) = drive(&mut exec, "build", fail_with(Some(2)));
    assert_eq!(log, strings(&["echo: make", "spawn: make"]));
    match r {
        Err(e) => {
            assert_eq!(e.exit_code(), 3);
            assert_eq!(
                e.render(),
                "tsk: runtime error in task 'build' at line 2: exited with status 2\n  command: make"
            );
        }
        Ok(()) => panic!("no error"),
    }
}

#[test]
fn ignore_turns_failures_into_warnings() {
    let src = "clean {\n    @ignore\n    rm -f build/main\n    rm -f build/\n}\n";
    let mut exec = executor(src, &linux(), &[]);
    let (log, r) = drive(&mut exec, "clean", fail_with(None));
    assert!(r.is_ok());
    assert_eq!(
        log,
        strings(&[
            "echo: rm -f build/main",
            "spawn: rm -f build/main",
            "warn: task 'clean' line 3: command exited -1 (ignored)",
            "echo: rm -f build/",
            "spawn: rm -f build/",
            "warn: task 'clean' line 4: command exited -1 (ignored)",
        ])
    );
}

#[test]
fn spawn_failure_is_a_runtime_error() {
    let mut exec = executor("t {\nfoo\n}\n", &linux(), &[]);
    let (_, r) = drive(&mut exec, "t", |_r: &Request| Reply::SpawnFailed {
        shell: "/bin/sh".to_string(),
        error: "not found".to_string(),
    });
    assert!(matches!(r, Err(TskError::Runtime { message, command, line, .. })
        if message == "failed to spawn '/bin/sh': not found"
            && command == Some("foo".to_string()) && line == 2));
}

#[test]
fn silent_task_is_not_echoed() {
    let src = "greet {\n    @silent\n    echo \"Hello\"\n}\n";
    let mut exec = executor(src, &linux(), &[]);
    let (log, r) = drive(&mut exec, "greet", succeed);
    assert!(r.is_ok());
    assert_eq!(log, strings(&["spawn: echo \"Hello\""]));
}

#[test]
fn echo_off_for_the_whole_run() {
    let mut exec = executor("t {\necho a\n}\n", &linux(), &[]);
    exec.set_echo(false);
    let (log, _) = drive(&mut exec, "t", succeed);
    assert_eq!(log, strings(&["spawn: echo a"]));
}

#[test]
fn dry_run_shows_and_runs_nothing() {
    let src = "CC = gcc\nbuild {\n  cd src\n  $CC main.c\n  export A=1\n}\n";
    let mut exec = executor(src, &linux(), &[]);
    exec.set_dry_run(true);
    exec.set_echo(false);
    let (log, r) = drive(&mut exec, "build", succeed);
    assert!(r.is_ok());
    assert_eq!(log, strings(&["show: cd src", "show: gcc main.c", "show: export A=1"]));
}

#[test]
fn error_directive_aborts_even_with_ignore() {
    let src = "test {\n    @ignore\n    if $$OS == windows {\n        @error(\"Tests are not supported on $$OS\")\n    }\n    ./test_runner\n}\n";
    let mut exec = executor(src, &[("OS", "windows")], &[]);
    let (log, r) = drive(&mut exec, "test", succeed);
    assert!(log.is_empty());
    match r {
        Err(e) => {
            assert_eq!(e.exit_code(), 1);
            assert_eq!(
                e.render(),
                "tsk: error in task 'test' at line 4: Tests are not supported on windows"
            );
        }
        Ok(()) => panic!("no error"),
    }
    let mut exec = executor(src, &linux(), &[]);
    let (log, r) = drive(&mut exec, "test", succeed);
    assert!(r.is_ok());
    assert_eq!(log, strings(&["echo: ./test_runner", "spawn: ./test_runner"]));
}

#[test]
fn dependency_runs_before_an_error_directive() {
    let src = "build {\necho b\n}\ncheck {\n@deps build\nif $$OS == windows {\n@error(\"no\")\n}\n./run\n}\n";
    let mut exec = executor(src, &[("OS", "windows")], &[]);
    let (log, r) = drive(&mut exec, "check", succeed);
    assert_eq!(log, strings(&["echo: echo b", "spawn: echo b"]));
    assert!(matches!(r, Err(TskError::Abort { task, line, message })
        if task == "check" && line == 7 && message == "no"));
}

#[test]
fn conditional_branches() {
    let src = "deploy {
    if $$OS == linux {
        echo linux
    } else if $$OS == macos {
        echo mac
    } else {
        echo other
    }
}
";
    for (os, expected) in [("linux", "echo linux"), ("macos", "echo mac"), ("freebsd", "echo other")] {
        let mut exec = executor(src, &[("OS", os)], &[]);
        let (log, r) = drive(&mut exec, "deploy", succeed);
        assert!(r.is_ok());
        assert_eq!(log, vec![format!("echo: {}", expected), format!("spawn: {}", expected)]);
    }
}

#[test]
fn truthy_conditions() {
    let src = "t {\nif $FLAG {\necho yes\n} else {\necho no\n}\n}\n";
    for (value, expected) in [("1", "yes"), ("true", "yes"), ("0", "no"), ("false", "no"), ("", "no")] {
        let full = format!("FLAG = {}\n{}", value, src);
        let mut exec = executor(&full, &linux(), &[]);
        let (log, _) = drive(&mut exec, "t", succeed);
        assert_eq!(log[1], format!("spawn: echo {}", expected));
    }
}

#[test]
fn not_equal_condition() {
    let src = "REQUIRED_OS = linux\nvalidate {\nif $$OS != $REQUIRED_OS {\n@error(\"Must be run on $REQUIRED_OS, got $$OS\")\n}\n}\n";
    let mut exec = executor(src, &[("OS", "macos")], &[]);
    let (_, r) = drive(&mut exec, "validate", succeed);
    assert!(matches!(r, Err(TskError::Abort { message, .. })
        if message == "Must be run on linux, got macos"));
    let mut exec = executor(src, &linux(), &[]);
    let (log, r) = drive(&mut exec, "validate", succeed);
    assert!(r.is_ok());
    assert!(log.is_empty());
}

#[test]
fn cd_changes_the_directory_for_later_lines() {
    let src = "t {\ncd build\necho $$CWD\ncd\n}\n";
    let mut exec = executor(src, &linux(), &[("HOME", "/home/u")]);
    let (log, r) = drive(&mut exec, "t", succeed);
    assert!(r.is_ok());
    assert_eq!(
        log,
        strings(&[
            "echo: cd build",
            "cd: build",
            "echo: echo /work/build",
            "spawn: echo /work/build",
            "echo: cd",
            "cd: /home/u",
        ])
    );
}

#[test]
fn cd_without_home_goes_to_dot() {
    let mut exec = executor("t {\n@silent\ncd\n}\n", &linux(), &[]);
    let (log, _) = drive(&mut exec, "t", succeed);
    assert_eq!(log, strings(&["cd: ."]));
}

#[test]
fn cd_failure() {
    let src = "t {\ncd nowhere\necho after\n}\n";
    let failing = |r: &Request| match r {
        Request::ChangeDir(_) => Reply::Failed("No such file or directory".to_string()),
        other => succeed(other),
    };
    let mut exec = executor(src, &linux(), &[]);
    let (_, r) = drive(&mut exec, "t", failing);
    assert!(matches!(r, Err(TskError::Runtime { message, command, line, .. })
        if message == "cd: nowhere: No such file or directory"
            && command == Some("cd nowhere".to_string()) && line == 2));
    let src = "t {\n@ignore\ncd nowhere\necho after\n}\n";
    let mut exec = executor(src, &linux(), &[]);
    let (log, r) = drive(&mut exec, "t", failing);
    assert!(r.is_ok());
    assert_eq!(
        log,
        strings(&[
            "echo: cd nowhere",
            "cd: nowhere",
            "warn: ignored error in 't': cd: nowhere: No such file or directory",
            "echo: echo after",
            "spawn: echo after",
        ])
    );
}

#[test]
fn export_sets_the_environment_for_later_lines() {
    let src = "t {\nexport GREETING = hello there\necho $GREETING\nexport NOEQ\necho done\n}\n";
    let mut exec = executor(src, &linux(), &[]);
    let (log, r) = drive(&mut exec, "t", succeed);
    assert!(r.is_ok());
    assert_eq!(
        log,
        strings(&[
            "echo: export GREETING = hello there",
            "set: GREETING=hello there",
            "echo: echo hello there",
            "spawn: echo hello there",
            "echo: export NOEQ",
            "echo: echo done",
            "spawn: echo done",
        ])
    );
}

#[test]
fn set_is_export_only_on_windows() {
    let src = "t {\n@silent\nset A=1\n}\n";
    let mut exec = executor(src, &[("OS", "windows")], &[]);
    let (log, _) = drive(&mut exec, "t", succeed);
    assert_eq!(log, strings(&["set: A=1"]));
    let mut exec = executor(src, &linux(), &[]);
    let (log, _) = drive(&mut exec, "t", succeed);
    assert_eq!(log, strings(&["spawn: set A=1"]));
}

#[test]
fn variables_expand_in_declaration_order() {
    let src = "CC = gcc\nCFLAGS = -Wall -O2\nFLAGS = $CC $CFLAGS\nt {\n@silent\necho $FLAGS\n}\n";
    let mut exec = executor(src, &linux(), &[]);
    let (log, _) = drive(&mut exec, "t", succeed);
    assert_eq!(log, strings(&["spawn: echo gcc -Wall -O2"]));
}

#[test]
fn values_are_captured_at_declaration() {
    let src = "A = 1\nB = $A\nA = 2\nt {\n@silent\necho $A $B\n}\n";
    let mut exec = executor(src, &linux(), &[]);
    let (log, _) = drive(&mut exec, "t", succeed);
    assert_eq!(log, strings(&["spawn: echo 2 1"]));
}

#[test]
fn forward_reference_warns_when_declared() {
    let src = "B = $A\nA = 1\nt {\n@silent\necho [$B]\n}\n";
    let mut exec = executor(src, &linux(), &[]);
    let (log, _) = drive(&mut exec, "t", succeed);
    assert_eq!(log, strings(&["warn: undefined variable '$A'", "spawn: echo []"]));
}

#[test]
fn undefined_variable_in_command_warns() {
    let mut exec = executor("t {\n@silent\necho $NOPE\n}\n", &linux(), &[]);
    let (log, _) = drive(&mut exec, "t", succeed);
    assert_eq!(log, strings(&["warn: undefined variable '$NOPE'", "spawn: echo"]));
    let mut exec = executor("t {\n@silent\necho $NOPE\n}\n", &linux(), &[("NOPE", "from env")]);
    let (log, _) = drive(&mut exec, "t", succeed);
    assert_eq!(log, strings(&["spawn: echo from env"]));
}

#[test]
fn command_expanding_to_nothing_is_skipped() {
    let mut exec = executor("E =\nt {\n$E\necho x\n}\n", &linux(), &[]);
    let (log, _) = drive(&mut exec, "t", succeed);
    assert_eq!(log, strings(&["echo: echo x", "spawn: echo x"]));
}

#[test]
fn expand_uses_the_runner_variables() {
    let exec = executor("CC = clang\n", &linux(), &[]);
    assert_eq!(exec.expand("$CC on $$OS"), ("clang on linux".to_string(), vec![]));
}

#[test]
fn a_finished_run_can_run_again() {
    let src = "a {\necho a\n}\nb {\n@deps a\necho b\n}\n";
    let mut exec = executor(src, &linux(), &[]);
    let (log, r) = drive(&mut exec, "a", succeed);
    assert!(r.is_ok());
    assert_eq!(log.len(), 2);
    // `a` has finished: it does not run again as a dependency
    let (log, r) = drive(&mut exec, "b", succeed);
    assert!(r.is_ok());
    assert_eq!(log, strings(&["echo: echo b", "spawn: echo b"]));
}

#[test]
fn a_run_that_failed_can_run_again() {
    let src = "a {\necho a\n}\nb {\n@deps a\necho b\nfalse\necho never\n}\nc {\n@deps a b\necho c\n}\n";
    let mut exec = executor(src, &linux(), &[]);
    let fail_false = |r: &Request| match r {
        Request::Spawn(c) if c == "false" => Reply::Exited { success: false, code: Some(1) },
        other => succeed(other),
    };
    let (log, r) = drive(&mut exec, "b", fail_false);
    assert!(r.is_err());
    assert_eq!(log.last().unwrap(), "spawn: false");
    // `a` finished in the failed run; `b` did not and runs again
    let (log, r) = drive(&mut exec, "b", succeed);
    assert!(r.is_ok());
    assert_eq!(
        log,
        strings(&[
            "echo: echo b", "spawn: echo b",
            "echo: false", "spawn: false",
            "echo: echo never", "spawn: echo never",
        ])
    );
}

#[test]
fn a_run_after_an_error_directive() {
    let src = "t {\n@error(stop)\n}\nu {\necho u\n}\n";
    let mut exec = executor(src, &linux(), &[]);
    let (_, r) = drive(&mut exec, "t", succeed);
    assert!(matches!(r, Err(TskError::Abort { .. })));
    let (log, r) = drive(&mut exec, "u", succeed);
    assert!(r.is_ok());
    assert_eq!(log, strings(&["echo: echo u", "spawn: echo u"]));
}
