use lib::error::TskError;
use lib::parser::{parse, Condition, ParseError, Statement, Taskfile};

const FULL_EXAMPLE: &str = "CC     = gcc
CFLAGS = -Wall 
BIN    = main

build {
    @default
    @desc Compile the project
    $CC $CFLAGS main.c -o $BIN
}

test {
    @desc Build and run tests
    @deps build
    if $$OS == windows {
        @error(\"Tests are not supported on Windows\")
    }
    ./test_runner
}

install {
    @desc Install to /usr/local/bin
    @deps build
    cp $BIN /usr/local/bin/$BIN
    echo \"Installed $BIN\"
}

clean {
    @desc Remove build artifacts
    @ignore
    rm -f $BIN
}
";

fn ok(source: &str) -> Taskfile {
    match parse(source, "Taskfile.tsk") {
        Ok(tf) => tf,
        Err(e) => panic!("unexpected error: {}", e.error.render()),
    }
}

fn syntax_error(source: &str) -> (String, usize, String) {
    match parse(source, "Taskfile.tsk") {
        Err(ParseError { error: TskError::Syntax { file, line, message }, .. }) => {
            (file, line, message)
        }
        Err(e) => panic!("unexpected error: {}", e.error.render()),
        Ok(_) => panic!("parsed without error"),
    }
}

fn task_names(tf: &Taskfile) -> Vec<String> {
    tf.tasks.iter().map(|t| t.name.clone()).collect()
}

fn command(s: &Statement) -> (String, usize) {
    match s {
        Statement::Command { raw, line } => (raw.clone(), *line),
        other => panic!("not a command: {:?}", other),
    }
}

#[test]
fn full_example_parses() {
    let tf = ok(FULL_EXAMPLE);
    assert_eq!(tf.source_path, "Taskfile.tsk");
    assert_eq!(
        tf.globals,
        vec![
            ("CC".to_string(), "gcc".to_string(), 1),
            ("CFLAGS".to_string(), "-Wall".to_string(), 2),
            ("BIN".to_string(), "main".to_string(), 3),
        ]
    );
    assert_eq!(tf.global_order, vec!["CC", "CFLAGS", "BIN"]);
    assert_eq!(task_names(&tf), vec!["build", "test", "install", "clean"]);
    assert_eq!(tf.default_task, Some("build".to_string()));
    assert!(tf.warnings.is_empty());

    let build = &tf.tasks[0];
    assert!(build.is_default);
    assert_eq!(build.description, Some("Compile the project".to_string()));
    assert_eq!(build.body.len(), 1);
    assert_eq!(command(&build.body[0]), ("$CC $CFLAGS main.c -o $BIN".to_string(), 8));

    let test = &tf.tasks[1];
    assert!(!test.is_default);
    assert_eq!(test.deps, vec!["build"]);
    assert_eq!(test.body.len(), 2);
    match &test.body[0] {
        Statement::If { condition, then_body, else_ifs, else_body, line } => {
            assert!(matches!(condition, Condition::Eq(l, r) if l == "$$OS" && r == "windows"));
            assert_eq!(*line, 14);
            assert_eq!(then_body.len(), 1);
            assert!(matches!(&then_body[0], Statement::Error { message, line }
                if message == "Tests are not supported on Windows" && *line == 15));
            assert!(else_ifs.is_empty());
            assert!(else_body.is_empty());
        }
        other => panic!("not an if: {:?}", other),
    }
    assert_eq!(command(&test.body[1]), ("./test_runner".to_string(), 17));

    let install = &tf.tasks[2];
    assert_eq!(command(&install.body[1]), ("echo \"Installed $BIN\"".to_string(), 24));

    let clean = &tf.tasks[3];
    assert!(clean.flags.ignore);
    assert!(!clean.flags.silent);
    assert_eq!(clean.description, Some("Remove build artifacts".to_string()));
}

#[test]
fn last_default_wins() {
    let tf = ok("a {\n@default\necho a\n}\nb {\n@default\necho b\n}\nc {\necho c\n}\n");
    assert_eq!(tf.default_task, Some("b".to_string()));
    assert!(tf.tasks[0].is_default);
    assert!(tf.tasks[1].is_default);
    let tf = ok("a {\necho a\n}\n");
    assert_eq!(tf.default_task, None);
}

#[test]
fn brace_on_next_line_is_the_same_task() {
    let same = ok("build {\n    gcc main.c -o main\n}\n");
    let next = ok("build\n{\n    gcc main.c -o main\n}\n");
    assert_eq!(task_names(&same), task_names(&next));
    assert_eq!(command(&same.tasks[0].body[0]).0, command(&next.tasks[0].body[0]).0);
    assert_eq!(command(&next.tasks[0].body[0]).1, 3);
}

#[test]
fn conditional_chain_parses() {
    let tf = ok("deploy {
    if $$OS == linux {
        cp a b
    } else if $$OS == macos {
        cp a b
        xattr -d q b
    } else {
        @error(\"Unsupported OS: $$OS\")
    }
}
");
    match &tf.tasks[0].body[0] {
        Statement::If { condition, then_body, else_ifs, else_body, line } => {
            assert_eq!(*line, 2);
            assert!(matches!(condition, Condition::Eq(l, r) if l == "$$OS" && r == "linux"));
            assert_eq!(then_body.len(), 1);
            assert_eq!(else_ifs.len(), 1);
            assert!(matches!(&else_ifs[0].condition, Condition::Eq(l, r) if l == "$$OS" && r == "macos"));
            assert_eq!(else_ifs[0].body.len(), 2);
            assert_eq!(command(&else_ifs[0].body[1]), ("xattr -d q b".to_string(), 6));
            assert!(matches!(&else_body[0], Statement::Error { message, line }
                if message == "Unsupported OS: $$OS" && *line == 8));
        }
        other => panic!("not an if: {:?}", other),
    }
}

#[test]
fn truthy_and_not_equal_conditions() {
    let tf = ok("t {\nif $RELEASE\n{\necho r\n}\nif $A != b {\necho x\n}\n}\n");
    assert!(matches!(&tf.tasks[0].body[0],
        Statement::If { condition: Condition::Truthy(v), .. } if v == "$RELEASE"));
    assert!(matches!(&tf.tasks[0].body[1],
        Statement::If { condition: Condition::NotEq(l, r), .. } if l == "$A" && r == "b"));
}

#[test]
fn deps_split_on_whitespace() {
    let tf = ok("a {\necho a\n}\nb {\necho b\n}\npackage {\n@deps a   b\ntar x\n}\n");
    assert_eq!(tf.tasks[2].deps, vec!["a", "b"]);
}

#[test]
fn silent_flag_and_bare_word_command() {
    let tf = ok("greet {\n@silent\nclear\necho \"Hello\"\n}\n");
    assert!(tf.tasks[0].flags.silent);
    assert_eq!(command(&tf.tasks[0].body[0]), ("clear".to_string(), 3));
}

#[test]
fn variable_redefinition_warns_and_keeps_both() {
    let tf = ok("A = 1\nA = 2\nt {\necho $A\n}\n");
    assert_eq!(tf.warnings, vec!["variable 'A' redefined at line 2"]);
    assert_eq!(tf.global_order, vec!["A"]);
    assert_eq!(
        tf.globals,
        vec![("A".to_string(), "1".to_string(), 1), ("A".to_string(), "2".to_string(), 2)]
    );
}

#[test]
fn task_redefinition_replaces_and_warns() {
    let tf = ok("a {\necho one\n}\nb {\necho b\n}\na {\necho two\n}\n");
    assert_eq!(tf.warnings, vec!["task 'a' redefined at line 7"]);
    assert_eq!(task_names(&tf), vec!["a", "b"]);
    assert_eq!(command(&tf.tasks[0].body[0]).0, "echo two");
}

#[test]
fn empty_body_warns() {
    let tf = ok("x {\n}\ny {\n@deps x\n}\nz {\n@desc nothing\n}\n");
    assert_eq!(
        tf.warnings,
        vec!["task 'x' has an empty body", "task 'z' has an empty body"]
    );
}

#[test]
fn missing_open_brace_is_a_syntax_error() {
    assert_eq!(
        syntax_error("build\n    gcc\n}\n"),
        ("Taskfile.tsk".to_string(), 2, "expected '{'".to_string())
    );
}

#[test]
fn missing_close_brace_is_a_syntax_error() {
    assert_eq!(
        syntax_error("build {\n    gcc\n"),
        ("Taskfile.tsk".to_string(), 0, "expected '}'".to_string())
    );
}

#[test]
fn command_at_top_level_is_a_syntax_error() {
    assert_eq!(
        syntax_error("\necho hi\n"),
        (
            "Taskfile.tsk".to_string(),
            2,
            "unexpected token at top level: RawValue(\"echo hi\")".to_string()
        )
    );
    let quoted = "say \"hi\" \\ there";
    assert_eq!(
        syntax_error(&format!("{}\n", quoted)).2,
        format!("unexpected token at top level: RawValue({:?})", quoted)
    );
    assert_eq!(
        syntax_error("}\n").2,
        "unexpected token at top level: RBrace".to_string()
    );
}

#[test]
fn assignment_shaped_line_in_a_task_is_a_command() {
    let tf = ok("t {\nFOO=bar ./script\n}\n");
    assert_eq!(tf.tasks[0].body.len(), 1);
    assert_eq!(command(&tf.tasks[0].body[0]), ("FOO=bar ./script".to_string(), 2));
    assert!(tf.globals.is_empty());
    let tf = ok("t {\n  X = 1  # not a variable\n  if $A {\n    Y=2\n  }\n}\nZ = 3\n");
    assert_eq!(command(&tf.tasks[0].body[0]), ("X = 1".to_string(), 2));
    match &tf.tasks[0].body[1] {
        Statement::If { then_body, .. } => {
            assert_eq!(command(&then_body[0]), ("Y=2".to_string(), 4));
        }
        other => panic!("not an if: {:?}", other),
    }
    assert_eq!(tf.globals, vec![("Z".to_string(), "3".to_string(), 7)]);
}

#[test]
fn unexpected_token_in_task_body() {
    assert_eq!(
        syntax_error("t {\n  {\n}\n"),
        ("Taskfile.tsk".to_string(), 2, "unexpected token in task body".to_string())
    );
}

#[test]
fn syntax_error_renders_with_file_and_line() {
    match parse("build\n    gcc\n}\n", "my.tsk") {
        Err(e) => {
            assert_eq!(e.error.exit_code(), 2);
            assert_eq!(e.error.render(), "tsk: syntax error in my.tsk:2: expected '{'");
            assert!(e.warnings.is_empty());
        }
        Ok(_) => panic!("parsed without error"),
    }
}

#[test]
fn warnings_before_a_syntax_error_are_kept() {
    let src = "A = 1\nA = 2\nt {\necho\n}\nt {\necho again\n}\nx {\n}\necho stray\nB = 1\nB = 2\n";
    match parse(src, "Taskfile.tsk") {
        Err(e) => {
            assert_eq!(
                e.warnings,
                vec!["variable 'A' redefined at line 2", "task 't' redefined at line 6"]
            );
            assert!(matches!(e.error, TskError::Syntax { line: 11, .. }));
        }
        Ok(_) => panic!("parsed without error"),
    }
}
