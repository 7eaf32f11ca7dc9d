use lib::lexer::{lex, strip_inline_comment, TokenKind};

fn kinds(source: &str) -> Vec<TokenKind> {
    lex(source).into_iter().map(|t| t.kind).collect()
}

fn lines(source: &str) -> Vec<usize> {
    lex(source).into_iter().map(|t| t.line).collect()
}

fn ident(s: &str) -> TokenKind {
    TokenKind::Ident(s.to_string())
}

fn raw(s: &str) -> TokenKind {
    TokenKind::RawValue(s.to_string())
}

#[test]
fn empty_source_is_just_eof() {
    assert_eq!(kinds(""), vec![TokenKind::Eof]);
    assert_eq!(kinds("\n\n   \n# only a comment\n"), vec![TokenKind::Eof]);
    assert_eq!(lines(""), vec![0]);
}

#[test]
fn assignment_with_inline_comment() {
    assert_eq!(
        kinds("CC = gcc  # inline comment on a variable\n"),
        vec![ident("CC"), TokenKind::Equals, raw("gcc"), TokenKind::Newline, TokenKind::Eof]
    );
    assert_eq!(lines("\n\nCC = gcc\n"), vec![3, 3, 3, 3, 0]);
}

#[test]
fn assignment_with_empty_value() {
    assert_eq!(
        kinds("EMPTY =\n"),
        vec![ident("EMPTY"), TokenKind::Equals, raw(""), TokenKind::Newline, TokenKind::Eof]
    );
}

#[test]
fn task_block_with_brace_on_same_line() {
    assert_eq!(
        kinds("build {\n    gcc main.c -o main\n}\n"),
        vec![
            ident("build"),
            TokenKind::LBrace,
            TokenKind::Newline,
            raw("gcc main.c -o main"),
            TokenKind::Newline,
            TokenKind::RBrace,
            TokenKind::Newline,
            TokenKind::Eof,
        ]
    );
    assert_eq!(lines("build {\n    gcc main.c -o main\n}\n"), vec![1, 1, 1, 2, 2, 3, 3, 0]);
}

#[test]
fn task_block_with_brace_on_next_line() {
    assert_eq!(
        kinds("build\n{\n    gcc main.c -o main\n}\n"),
        vec![
            ident("build"),
            TokenKind::Newline,
            TokenKind::LBrace,
            TokenKind::Newline,
            raw("gcc main.c -o main"),
            TokenKind::Newline,
            TokenKind::RBrace,
            TokenKind::Newline,
            TokenKind::Eof,
        ]
    );
}

#[test]
fn directives_and_bare_words() {
    assert_eq!(
        kinds("t {\n@deps build test\n@default\nclean\n}"),
        vec![
            ident("t"),
            TokenKind::LBrace,
            TokenKind::Newline,
            ident("@deps"),
            raw("build test"),
            TokenKind::Newline,
            ident("@default"),
            TokenKind::Newline,
            ident("clean"),
            TokenKind::Newline,
            TokenKind::RBrace,
            TokenKind::Newline,
            TokenKind::Eof,
        ]
    );
}

#[test]
fn conditional_chain() {
    let src = "if $$OS == linux {\n} else if $$OS != macos {\n} else {\n}\n";
    assert_eq!(
        kinds(src),
        vec![
            ident("if"),
            raw("$$OS"),
            TokenKind::EqEq,
            raw("linux"),
            TokenKind::LBrace,
            TokenKind::Newline,
            TokenKind::RBrace,
            TokenKind::Newline,
            ident("else"),
            ident("if"),
            raw("$$OS"),
            TokenKind::NotEq,
            raw("macos"),
            TokenKind::LBrace,
            TokenKind::Newline,
            TokenKind::RBrace,
            TokenKind::Newline,
            ident("else"),
            TokenKind::LBrace,
            TokenKind::Newline,
            TokenKind::RBrace,
            TokenKind::Newline,
            TokenKind::Eof,
        ]
    );
}

#[test]
fn conditional_with_braces_on_next_lines() {
    assert_eq!(
        kinds("if $RELEASE\n{\n} else\n{\n}\n"),
        vec![
            ident("if"),
            raw("$RELEASE"),
            TokenKind::Newline,
            TokenKind::LBrace,
            TokenKind::Newline,
            TokenKind::RBrace,
            TokenKind::Newline,
            ident("else"),
            TokenKind::Newline,
            TokenKind::LBrace,
            TokenKind::Newline,
            TokenKind::RBrace,
            TokenKind::Newline,
            TokenKind::Eof,
        ]
    );
}

#[test]
fn unicode_identifiers_use_the_unicode_classes() {
    // `ö` is alphabetic and `²` numeric, outside ASCII
    assert_eq!(
        kinds("größe = 1\n"),
        vec![ident("größe"), TokenKind::Equals, raw("1"), TokenKind::Newline, TokenKind::Eof]
    );
    assert_eq!(
        kinds("x² = 1\n"),
        vec![ident("x²"), TokenKind::Equals, raw("1"), TokenKind::Newline, TokenKind::Eof]
    );
    // a digit cannot start an identifier, so this is a plain value
    assert_eq!(kinds("1x = 2\n"), vec![raw("1x = 2"), TokenKind::Newline, TokenKind::Eof]);
    // neither can a symbol
    assert_eq!(kinds("→ = 2\n"), vec![raw("→ = 2"), TokenKind::Newline, TokenKind::Eof]);
}

#[test]
fn comparison_is_not_an_assignment() {
    assert_eq!(kinds("a == b\n"), vec![raw("a == b"), TokenKind::Newline, TokenKind::Eof]);
    assert_eq!(kinds("a != b\n"), vec![raw("a != b"), TokenKind::Newline, TokenKind::Eof]);
}

#[test]
fn strip_inline_comment_cases() {
    assert_eq!(strip_inline_comment("echo hi # a comment"), "echo hi");
    assert_eq!(strip_inline_comment("echo '#not a comment'"), "echo '#not a comment'");
    assert_eq!(strip_inline_comment("echo \"a#b\" # c"), "echo \"a#b\"");
    assert_eq!(strip_inline_comment("# all comment"), "");
    assert_eq!(strip_inline_comment("no comment here  "), "no comment here  ");
    assert_eq!(strip_inline_comment("ünï # c"), "ünï");
}

#[test]
fn command_with_inline_comment_is_stripped() {
    assert_eq!(
        kinds("t {\n  echo hi # say hi\n}\n")[3],
        raw("echo hi")
    );
}

#[test]
fn error_directive_message_is_unquoted() {
    let k = kinds("t {\n@error(\"Must be run on $OS\")\n}\n");
    assert_eq!(k[3], ident("@error"));
    assert_eq!(k[4], raw("Must be run on $OS"));
    let k = kinds("t {\n@error('single quoted')\n}\n");
    assert_eq!(k[4], raw("single quoted"));
    let k = kinds("t {\n@error(plain words)\n}\n");
    assert_eq!(k[4], raw("plain words"));
}

#[test]
fn assignments_only_at_top_level() {
    assert_eq!(
        kinds("t {\nFOO=bar ./script\n}\nA=1\n"),
        vec![
            ident("t"),
            TokenKind::LBrace,
            TokenKind::Newline,
            raw("FOO=bar ./script"),
            TokenKind::Newline,
            TokenKind::RBrace,
            TokenKind::Newline,
            ident("A"),
            TokenKind::Equals,
            raw("1"),
            TokenKind::Newline,
            TokenKind::Eof,
        ]
    );
    // a stray closing brace does not take the depth below the top level
    assert_eq!(
        kinds("}\nA=1\n"),
        vec![
            TokenKind::RBrace,
            TokenKind::Newline,
            ident("A"),
            TokenKind::Equals,
            raw("1"),
            TokenKind::Newline,
            TokenKind::Eof,
        ]
    );
    // `} else {` closes and opens: still inside the task
    assert_eq!(kinds("t {\nif x {\n} else {\nB=2\n}\n}\n")[12], raw("B=2"));
}
