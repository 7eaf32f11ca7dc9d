use lib::vars::{expand_vars, Scope};

fn pairs(v: &[(&str, &str)]) -> Vec<(String, String)> {
    v.iter().map(|(a, b)| (a.to_string(), b.to_string())).collect()
}

fn scope(user: &[(&str, &str)], sys: &[(&str, &str)], env: &[(&str, &str)], cwd: &str) -> Scope {
    Scope { user: pairs(user), sys: pairs(sys), env: pairs(env), cwd: cwd.to_string() }
}

fn expand(input: &str, s: &Scope) -> (String, Vec<String>) {
    expand_vars(input, s)
}

#[test]
fn user_variables_both_forms() {
    let s = scope(&[("CC", "clang"), ("OUT", "build/app")], &[], &[], "/w");
    assert_eq!(expand("$CC -o main main.c", &s), ("clang -o main main.c".to_string(), vec![]));
    assert_eq!(expand("echo \"Built with ${CC}\"", &s).0, "echo \"Built with clang\"");
    assert_eq!(expand("${OUT}/main", &s).0, "build/app/main");
    // the name ends at the first character that is not alphanumeric or `_`
    assert_eq!(expand("$OUT/main", &s).0, "build/app/main");
}

#[test]
fn plain_and_braced_references_agree() {
    let s = scope(&[("A", "1"), ("B_2", "two")], &[], &[("E", "env")], "/w");
    for name in ["A", "B_2", "E", "MISSING"] {
        let plain = expand(&format!("x ${} y", name), &s);
        let braced = expand(&format!("x ${{{}}} y", name), &s);
        assert_eq!(plain.0, braced.0);
        assert_eq!(plain.1.len(), braced.1.len());
    }
}

#[test]
fn later_binding_hides_earlier_one() {
    let s = scope(&[("A", "1"), ("A", "2")], &[], &[], "/w");
    assert_eq!(expand("$A", &s).0, "2");
}

#[test]
fn system_variables() {
    let s = scope(&[], &[("OS", "linux"), ("ARCH", "x86_64")], &[("PATH", "/bin")], "/home/u/p");
    assert_eq!(expand("$$OS-$$ARCH", &s), ("linux-x86_64".to_string(), vec![]));
    assert_eq!(expand("cd $$CWD", &s).0, "cd /home/u/p");
    // a system variable falls back to the environment
    assert_eq!(expand("$$PATH", &s).0, "/bin");
}

#[test]
fn environment_is_the_fallback_of_user_variables() {
    let s = scope(&[("A", "user")], &[], &[("A", "env"), ("B", "envb")], "/w");
    assert_eq!(expand("$A $B ${B}", &s).0, "user envb envb");
}

#[test]
fn undefined_variables_warn_and_expand_to_nothing() {
    let s = scope(&[], &[], &[], "/w");
    assert_eq!(
        expand("echo $NOPE.", &s),
        ("echo .".to_string(), vec!["undefined variable '$NOPE'".to_string()])
    );
    assert_eq!(
        expand("a${NOPE}b", &s),
        ("ab".to_string(), vec!["undefined variable '${NOPE}'".to_string()])
    );
    assert_eq!(
        expand("$$FOO", &s),
        (String::new(), vec!["unknown system variable '$$FOO'".to_string()])
    );
}

#[test]
fn dollar_signs_that_are_no_reference_stay() {
    let s = scope(&[("A", "1")], &[], &[], "/w");
    assert_eq!(expand("cost: 5$", &s), ("cost: 5$".to_string(), vec![]));
    assert_eq!(expand("$ x", &s).0, "$ x");
    assert_eq!(expand("$$ x", &s).0, "$$ x");
    assert_eq!(expand("${A", &s).0, "${A");
    assert_eq!(expand("", &s).0, "");
}

#[test]
fn unicode_variable_names() {
    let s = scope(&[("größe", "10")], &[], &[], "/w");
    assert_eq!(expand("n=$größe!", &s).0, "n=10!");
}
