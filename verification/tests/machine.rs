use lib::platform::{shell, system_vars};

fn s(v: &str) -> String {
    v.to_string()
}

#[test]
fn system_vars_take_the_first_value_present() {
    let vars = system_vars(
        s("linux"),
        s("x86_64"),
        Some(s("/home/u")),
        Some(s("C:\\Users\\u")),
        s("/work"),
        Some(s("/bin/zsh")),
        Some(s("u")),
        Some(s("other")),
    );
    assert_eq!(
        vars,
        vec![
            (s("OS"), s("linux")),
            (s("ARCH"), s("x86_64")),
            (s("HOME"), s("/home/u")),
            (s("CWD"), s("/work")),
            (s("SHELL"), s("/bin/zsh")),
            (s("USER"), s("u")),
        ]
    );
}

#[test]
fn system_vars_fall_back() {
    let vars = system_vars(
        s("windows"),
        s("aarch64"),
        None,
        Some(s("C:\\Users\\u")),
        s("C:\\w"),
        None,
        None,
        Some(s("winuser")),
    );
    assert_eq!(vars[2], (s("HOME"), s("C:\\Users\\u")));
    // on Windows commands run with `cmd`, and `$$SHELL` says so
    assert_eq!(vars[4], (s("SHELL"), s("cmd")));
    assert_eq!(vars[4].1, shell(true, None).0);
    assert_eq!(vars[5], (s("USER"), s("winuser")));
    let vars = system_vars(s("linux"), s("x86_64"), None, None, s("/"), None, None, None);
    assert_eq!(vars[2], (s("HOME"), s("")));
    assert_eq!(vars[5], (s("USER"), s("")));
}

#[test]
fn shell_choice() {
    assert_eq!(shell(true, Some(s("/bin/zsh"))), (s("cmd"), s("/C")));
    assert_eq!(shell(false, Some(s("/bin/zsh"))), (s("/bin/zsh"), s("-c")));
    assert_eq!(shell(false, None), (s("/bin/sh"), s("-c")));
}

#[test]
fn shell_variable_names_the_shell_in_use() {
    for (os, windows) in [("linux", false), ("windows", true), ("macos", false)] {
        for var in [None, Some(s("/bin/zsh"))] {
            let vars = system_vars(s(os), s("x"), None, None, s("/"), var.clone(), None, None);
            assert_eq!(vars[4].1, shell(windows, var).0);
        }
    }
}
