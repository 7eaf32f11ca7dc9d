//! The system variables and the shell, chosen from what the machine reports.
use vstd::prelude::*;

use crate::text::{chars_eq, chars_of};
use crate::vars::{bindings_view, lookup};

verus! {

/// The first value present, else the empty string.
pub open spec fn first_present(a: Option<String>, b: Option<String>) -> Seq<char> {
    match a {
        Some(x) => x@,
        None => match b {
            Some(y) => y@,
            None => seq![],
        },
    }
}

/// The value, or `default` when it is absent.
pub open spec fn or_default(a: Option<String>, default: Seq<char>) -> Seq<char> {
    match a {
        Some(x) => x@,
        None => default,
    }
}

/// The shell binary that runs commands: `cmd` on Windows, else the `SHELL`
/// variable, or `/bin/sh` when it is unset.
pub open spec fn shell_binary(windows: bool, shell_var: Option<String>) -> Seq<char> {
    if windows {
        "cmd"@
    } else {
        or_default(shell_var, "/bin/sh"@)
    }
}

/// The system variables `$$OS`, `$$ARCH`, `$$HOME`, `$$CWD`, `$$SHELL` and
/// `$$USER`: `HOME` falls back to `USERPROFILE`, `USER` to `USERNAME`, and an
/// absent value to the empty string; `SHELL` names the shell binary in use
/// (`shell_binary`), Windows being the OS `windows`.
pub open spec fn spec_system_vars(
    os: Seq<char>,
    arch: Seq<char>,
    home: Option<String>,
    user_profile: Option<String>,
    cwd: Seq<char>,
    shell: Option<String>,
    user: Option<String>,
    user_name: Option<String>,
) -> Seq<(Seq<char>, Seq<char>)> {
    seq![
        ("OS"@, os),
        ("ARCH"@, arch),
        ("HOME"@, first_present(home, user_profile)),
        ("CWD"@, cwd),
        ("SHELL"@, shell_binary(os == "windows"@, shell)),
        ("USER"@, first_present(user, user_name)),
    ]
}

fn take_first(a: Option<String>, b: Option<String>) -> (r: String)
    ensures
        r@ == first_present(a, b),
{
    match a {
        Some(x) => x,
        None => match b {
            Some(y) => y,
            None => String::new(),
        },
    }
}

/// The system variables, from the operating system's name, the architecture,
/// the environment variables `HOME`, `USERPROFILE`, `SHELL`, `USER` and
/// `USERNAME` (absent when unset) and the current directory.
pub fn system_vars(
    os: String,
    arch: String,
    home: Option<String>,
    user_profile: Option<String>,
    cwd: String,
    shell: Option<String>,
    user: Option<String>,
    user_name: Option<String>,
) -> (r: Vec<(String, String)>)
    ensures
        bindings_view(r@) == spec_system_vars(
            os@,
            arch@,
            home,
            user_profile,
            cwd@,
            shell,
            user,
            user_name,
        ),
{
    let ghost spec = spec_system_vars(os@, arch@, home, user_profile, cwd@, shell, user, user_name);
    let home_v = take_first(home, user_profile);
    let windows = chars_eq(&chars_of(os.as_str()), &chars_of("windows"));
    let (shell_v, _) = self::shell(windows, shell);
    let user_v = take_first(user, user_name);
    let mut r: Vec<(String, String)> = Vec::new();
    r.push(("OS".to_owned(), os));
    r.push(("ARCH".to_owned(), arch));
    r.push(("HOME".to_owned(), home_v));
    r.push(("CWD".to_owned(), cwd));
    r.push(("SHELL".to_owned(), shell_v));
    r.push(("USER".to_owned(), user_v));
    assert(bindings_view(r@) =~= spec);
    r
}

/// The shell that runs commands, with its flag: `cmd /C` on Windows, else
/// `$SHELL -c`, with `/bin/sh` when `SHELL` is unset.
pub fn shell(windows: bool, shell_var: Option<String>) -> (r: (String, String))
    ensures
        r.0@ == shell_binary(windows, shell_var),
        r.1@ == (if windows {
            "/C"@
        } else {
            "-c"@
        }),
{
    if windows {
        ("cmd".to_owned(), "/C".to_owned())
    } else {
        let sh = match shell_var {
            Some(s) => s,
            None => "/bin/sh".to_owned(),
        };
        (sh, "-c".to_owned())
    }
}

/// `$$SHELL` names the shell that runs the commands: the binary of `shell`,
/// given the same environment, with Windows being the OS `windows`.
pub proof fn law_shell_variable_names_the_shell(
    os: Seq<char>,
    arch: Seq<char>,
    home: Option<String>,
    user_profile: Option<String>,
    cwd: Seq<char>,
    shell_var: Option<String>,
    user: Option<String>,
    user_name: Option<String>,
)
    ensures
        lookup(
            spec_system_vars(os, arch, home, user_profile, cwd, shell_var, user, user_name),
            "SHELL"@,
        ) == Some(shell_binary(os == "windows"@, shell_var)),
{
    reveal_strlit("SHELL");
    reveal_strlit("USER");
    let v = spec_system_vars(os, arch, home, user_profile, cwd, shell_var, user, user_name);
    assert(v.last().0 != "SHELL"@) by {
        assert(v.last().0[1] != "SHELL"@[1]);
    }
    assert(v.len() == 6);
    assert(lookup(v, "SHELL"@) == lookup(v.drop_last(), "SHELL"@));
    assert(v.drop_last().last() == v[4]);
    assert(v[4] == ("SHELL"@, shell_binary(os == "windows"@, shell_var)));
}

} // verus!
