use lib::cli::{echo_commands, parse_args, plan, task_list, CliAction, CliOptions, Plan, TaskList};
use lib::error::TskError;
use lib::parser::parse;

fn args(v: &[&str]) -> Vec<String> {
    v.iter().map(|s| s.to_string()).collect()
}

fn options(v: &[&str]) -> CliOptions {
    match parse_args(&args(v)) {
        Ok(CliAction::Run(o)) => o,
        Ok(CliAction::Help) => panic!("help"),
        Ok(CliAction::Version) => panic!("version"),
        Err(e) => panic!("error: {}", e.render()),
    }
}

fn cli_error(v: &[&str]) -> String {
    match parse_args(&args(v)) {
        Err(TskError::Cli(m)) => m,
        Err(e) => panic!("wrong error: {}", e.render()),
        Ok(_) => panic!("no error"),
    }
}

#[test]
fn no_arguments() {
    let o = options(&["tsk"]);
    assert_eq!(o.file, None);
    assert_eq!(o.task, None);
    assert!(!o.list && !o.dry_run && !o.silent);
}

#[test]
fn flags_and_task() {
    let o = options(&["tsk", "-f", "x.tsk", "-n", "build", "--silent", "-l"]);
    assert_eq!(o.file, Some("x.tsk".to_string()));
    assert_eq!(o.task, Some("build".to_string()));
    assert!(o.list && o.dry_run && o.silent);
    let o = options(&["tsk", "--file", "a", "--file", "b", "--dry-run", "--list"]);
    assert_eq!(o.file, Some("b".to_string()));
    assert!(o.dry_run && o.list && !o.silent);
}

#[test]
fn help_and_version() {
    assert!(matches!(parse_args(&args(&["tsk", "-h"])), Ok(CliAction::Help)));
    assert!(matches!(parse_args(&args(&["tsk", "build", "--help"])), Ok(CliAction::Help)));
    assert!(matches!(parse_args(&args(&["tsk", "-V"])), Ok(CliAction::Version)));
    assert!(matches!(parse_args(&args(&["tsk", "--version", "--bogus"])), Ok(CliAction::Version)));
    // an error before the flag wins
    assert_eq!(cli_error(&["tsk", "--bogus", "--help"]), "unknown flag: --bogus");
}

#[test]
fn file_flag_needs_a_path() {
    assert_eq!(cli_error(&["tsk", "-f"]), "--file requires a path argument");
    assert_eq!(cli_error(&["tsk", "build", "--file"]), "--file requires a path argument");
}

#[test]
fn unknown_flags_and_second_task() {
    assert_eq!(cli_error(&["tsk", "-x"]), "unknown flag: -x");
    assert_eq!(cli_error(&["tsk", "build", "test"]), "unknown flag: test");
    assert_eq!(cli_error(&["tsk", "-"]), "unknown flag: -");
}

#[test]
fn empty_argument_is_a_task_name() {
    let o = options(&["tsk", ""]);
    assert_eq!(o.task, Some(String::new()));
}

#[test]
fn echo_follows_silent_and_dry_run() {
    assert!(echo_commands(&options(&["tsk"])));
    assert!(!echo_commands(&options(&["tsk", "-s"])));
    assert!(!echo_commands(&options(&["tsk", "-n"])));
}

const SOURCE: &str = "zeta {\n@desc Last one\necho z\n}\nalpha {\n@default\n@desc First one\necho a\n}\nmid {\necho m\n}\n";

#[test]
fn plan_choice() {
    let with_default = parse(SOURCE, "T").ok().unwrap();
    let without = parse("a {\necho a\n}\n", "T").ok().unwrap();
    assert!(matches!(plan(&options(&["tsk", "-l", "mid"]), &with_default), Plan::List));
    assert!(matches!(plan(&options(&["tsk", "mid"]), &with_default), Plan::Run(t) if t == "mid"));
    assert!(matches!(plan(&options(&["tsk"]), &with_default), Plan::Run(t) if t == "alpha"));
    assert!(matches!(plan(&options(&["tsk"]), &without), Plan::List));
}

#[test]
fn task_list_in_name_order() {
    let tf = parse(SOURCE, "Taskfile.tsk").ok().unwrap();
    match task_list(&tf, "Taskfile.tsk") {
        TaskList::Lines(lines) => assert_eq!(
            lines,
            vec![
                "Available tasks in 'Taskfile.tsk':".to_string(),
                format!("  {:<20} {}{}", "alpha", "First one", " (default)"),
                "  mid".to_string(),
                format!("  {:<20} {}", "zeta", "Last one"),
            ]
        ),
        TaskList::NoTasks(m) => panic!("no tasks: {}", m),
    }
}

#[test]
fn task_list_long_and_unicode_names() {
    let tf = parse(
        "a_very_long_task_name_indeed {\n@desc d\necho\n}\nünï {\n@desc e\necho\n}\nB {\necho\n}\n",
        "T",
    )
    .ok()
    .unwrap();
    match task_list(&tf, "T") {
        TaskList::Lines(lines) => assert_eq!(
            lines,
            vec![
                "Available tasks in 'T':".to_string(),
                "  B".to_string(),
                "  a_very_long_task_name_indeed d".to_string(),
                format!("  {:<20} e", "ünï"),
            ]
        ),
        TaskList::NoTasks(m) => panic!("no tasks: {}", m),
    }
}

#[test]
fn task_list_without_tasks() {
    let tf = parse("A = 1\n", "Taskfile.tsk").ok().unwrap();
    match task_list(&tf, "Taskfile.tsk") {
        TaskList::NoTasks(m) => assert_eq!(m, "tsk: no tasks defined in 'Taskfile.tsk'"),
        TaskList::Lines(_) => panic!("lines"),
    }
}
