//! The lexer: turns taskfile source into a flat list of line-oriented tokens.
use vstd::prelude::*;

use crate::text::{
    append, char_is_alphabetic, char_is_alphanumeric, chars_eq, chars_of, ends_with_char,
    find_char, find_char_from, find_pair, find_pair_from, find_ws, find_ws_from, is_whitespace,
    is_ws, lemma_find_char_from, lemma_find_pair_from, lemma_find_ws_from, starts_with,
    starts_with_chars, string_from_chars, subvec, trail_ws_len, trim, trim_chars, trim_end,
    trim_end_chars, alphabetic, alphanumeric, lemma_trail_ws_bound, trail_ws,
};

verus! {

/// Raw token kinds produced by the lexer
#[derive(Debug, Clone, PartialEq)]
pub enum TokenKind {
    /// A bare word / identifier: `build`, `CC`, `if`
    Ident(String),
    Equals,
    LBrace,
    RBrace,
    /// `==`
    EqEq,
    /// `!=`
    NotEq,
    /// A raw string value, assignment RHS or a command line
    RawValue(String),
    /// End of a logical line
    Newline,
    /// End of file
    Eof,
}

#[derive(Debug, Clone)]
pub struct Token {
    pub kind: TokenKind,
    pub line: usize,
}

/// The mathematical model of a token kind: strings become character sequences.
pub enum SpecKind {
    Ident(Seq<char>),
    Equals,
    LBrace,
    RBrace,
    EqEq,
    NotEq,
    RawValue(Seq<char>),
    Newline,
    Eof,
}

pub struct SpecToken {
    pub kind: SpecKind,
    pub line: nat,
}

impl View for TokenKind {
    type V = SpecKind;

    open spec fn view(&self) -> SpecKind {
        match self {
            TokenKind::Ident(s) => SpecKind::Ident(s@),
            TokenKind::Equals => SpecKind::Equals,
            TokenKind::LBrace => SpecKind::LBrace,
            TokenKind::RBrace => SpecKind::RBrace,
            TokenKind::EqEq => SpecKind::EqEq,
            TokenKind::NotEq => SpecKind::NotEq,
            TokenKind::RawValue(s) => SpecKind::RawValue(s@),
            TokenKind::Newline => SpecKind::Newline,
            TokenKind::Eof => SpecKind::Eof,
        }
    }
}

impl View for Token {
    type V = SpecToken;

    open spec fn view(&self) -> SpecToken {
        SpecToken { kind: self.kind@, line: self.line as nat }
    }
}

/// The model of a token list.
pub open spec fn toks_view(v: Seq<Token>) -> Seq<SpecToken> {
    v.map_values(|t: Token| t@)
}

pub open spec fn tk(kind: SpecKind, line: nat) -> SpecToken {
    SpecToken { kind, line }
}

// ---------------------------------------------------------------------------
// Words of the language
// ---------------------------------------------------------------------------

pub open spec fn w_else() -> Seq<char> {
    seq!['e', 'l', 's', 'e']
}

pub open spec fn w_if() -> Seq<char> {
    seq!['i', 'f']
}

pub open spec fn w_error() -> Seq<char> {
    seq!['e', 'r', 'r', 'o', 'r']
}

/// `"} else if "`
pub open spec fn w_close_else_if() -> Seq<char> {
    seq!['}', ' ', 'e', 'l', 's', 'e', ' ', 'i', 'f', ' ']
}

/// `"} else {"`
pub open spec fn w_close_else_open() -> Seq<char> {
    seq!['}', ' ', 'e', 'l', 's', 'e', ' ', '{']
}

/// `"} else"`
pub open spec fn w_close_else() -> Seq<char> {
    seq!['}', ' ', 'e', 'l', 's', 'e']
}

/// `"else if "`
pub open spec fn w_else_if() -> Seq<char> {
    seq!['e', 'l', 's', 'e', ' ', 'i', 'f', ' ']
}

/// `"if "`
pub open spec fn w_if_sp() -> Seq<char> {
    seq!['i', 'f', ' ']
}

pub fn else_word() -> (r: Vec<char>)
    ensures
        r@ == w_else(),
{
    vec!['e', 'l', 's', 'e']
}

pub fn if_word() -> (r: Vec<char>)
    ensures
        r@ == w_if(),
{
    vec!['i', 'f']
}

fn error_word() -> (r: Vec<char>)
    ensures
        r@ == w_error(),
{
    vec!['e', 'r', 'r', 'o', 'r']
}

fn close_else_if_word() -> (r: Vec<char>)
    ensures
        r@ == w_close_else_if(),
{
    vec!['}', ' ', 'e', 'l', 's', 'e', ' ', 'i', 'f', ' ']
}

fn close_else_open_word() -> (r: Vec<char>)
    ensures
        r@ == w_close_else_open(),
{
    vec!['}', ' ', 'e', 'l', 's', 'e', ' ', '{']
}

fn close_else_word() -> (r: Vec<char>)
    ensures
        r@ == w_close_else(),
{
    vec!['}', ' ', 'e', 'l', 's', 'e']
}

fn else_if_word() -> (r: Vec<char>)
    ensures
        r@ == w_else_if(),
{
    vec!['e', 'l', 's', 'e', ' ', 'i', 'f', ' ']
}

fn if_sp_word() -> (r: Vec<char>)
    ensures
        r@ == w_if_sp(),
{
    vec!['i', 'f', ' ']
}

// ---------------------------------------------------------------------------
// Specification of the lexer
// ---------------------------------------------------------------------------

/// Splits `s` at its first whitespace character; the second part keeps it.
pub open spec fn split_first_word(s: Seq<char>) -> (Seq<char>, Seq<char>) {
    match find_ws_from(s, 0) {
        Some(i) => (s.take(i), s.skip(i)),
        None => (s, seq![]),
    }
}

/// An identifier starts with a letter or `_` and continues with letters,
/// digits, `_` and `-`.
pub open spec fn is_ident(s: Seq<char>) -> bool {
    &&& s.len() > 0
    &&& alphabetic(s[0]) || s[0] == '_'
    &&& forall|i: int|
        0 <= i < s.len() ==> alphanumeric(#[trigger] s[i]) || s[i] == '_' || s[i] == '-'
}

/// The position of the `=` of a variable assignment: the first `=` of the
/// line, when it is not part of `==` or `!=` and an identifier stands before it.
pub open spec fn assignment_eq(line: Seq<char>) -> Option<int> {
    match find_char_from(line, '=', 0) {
        None => None,
        Some(i) => if i + 1 < line.len() && line[i + 1] == '=' {
            None
        } else if i > 0 && line[i - 1] == '!' {
            None
        } else if is_ident(trim(line.take(i))) {
            Some(i)
        } else {
            None
        },
    }
}

/// The position of the first `#` outside single and double quotes, scanning
/// from `i` with the given quoting state.
pub open spec fn comment_start(s: Seq<char>, i: int, in_single: bool, in_double: bool) -> Option<
    int,
>
    decreases s.len() - i,
{
    if i < 0 || i >= s.len() {
        None
    } else if s[i] == '\'' && !in_double {
        comment_start(s, i + 1, !in_single, in_double)
    } else if s[i] == '"' && !in_single {
        comment_start(s, i + 1, in_single, !in_double)
    } else if s[i] == '#' && !in_single && !in_double {
        Some(i)
    } else {
        comment_start(s, i + 1, in_single, in_double)
    }
}

/// `s` cut before its first unquoted `#`, and then trimmed at the end; `s`
/// itself when it has none.
pub open spec fn strip_comment(s: Seq<char>) -> Seq<char> {
    match comment_start(s, 0, false, false) {
        Some(i) => trim_end(s.take(i)),
        None => s,
    }
}

/// Where `comment_start` finds a `#`, it is one within the text scanned.
proof fn lemma_comment_start_range(s: Seq<char>, j: int, a: bool, b: bool)
    requires
        0 <= j,
    ensures
        comment_start(s, j, a, b) matches Some(i) ==> j <= i < s.len() && s[i] == '#',
    decreases s.len() - j,
{
    if j < s.len() {
        if s[j] == '\'' && !b {
            lemma_comment_start_range(s, j + 1, !a, b);
        } else if s[j] == '"' && !a {
            lemma_comment_start_range(s, j + 1, a, !b);
        } else if !(s[j] == '#' && !a && !b) {
            lemma_comment_start_range(s, j + 1, a, b);
        }
    }
}

/// A prefix that ends at or before the first unquoted `#` has none.
proof fn lemma_comment_start_prefix(s: Seq<char>, m: int, j: int, a: bool, b: bool)
    requires
        0 <= j,
        0 <= m <= s.len(),
        comment_start(s, j, a, b) matches Some(i) ==> m <= i,
    ensures
        comment_start(s.take(m), j, a, b) is None,
    decreases s.len() - j,
{
    if j < m {
        assert(s.take(m)[j] == s[j]);
        if s[j] == '\'' && !b {
            lemma_comment_start_prefix(s, m, j + 1, !a, b);
        } else if s[j] == '"' && !a {
            lemma_comment_start_prefix(s, m, j + 1, a, !b);
        } else if !(s[j] == '#' && !a && !b) {
            lemma_comment_start_prefix(s, m, j + 1, a, b);
        }
    }
}

/// `strip_comment` (what `strip_inline_comment` computes) keeps a prefix of
/// its input; applied again it changes nothing; and it changes its input
/// exactly when that has a `#` outside quotes.
pub proof fn law_strip_comment(s: Seq<char>)
    ensures
        strip_comment(s).is_prefix_of(s),
        strip_comment(strip_comment(s)) == strip_comment(s),
        (strip_comment(s) == s) <==> comment_start(s, 0, false, false) is None,
{
    lemma_comment_start_range(s, 0, false, false);
    match comment_start(s, 0, false, false) {
        None => {
            assert(s.is_prefix_of(s)) by {
                assert(s.subrange(0, s.len() as int) =~= s);
            }
        },
        Some(i) => {
            let x = s.take(i);
            let r = strip_comment(s);
            lemma_trail_ws_bound(x);
            let k = x.len() - trail_ws(x);
            assert(r == x.take(k));
            assert(r =~= s.take(k));
            assert(r.is_prefix_of(s)) by {
                assert(s.subrange(0, r.len() as int) =~= r);
            }
            lemma_comment_start_prefix(s, k, 0, false, false);
            assert(strip_comment(r) == r);
            assert(r.len() < s.len());
        },
    }
}

/// Tokens of a condition: `lhs == rhs`, `lhs != rhs`, or a single value.
pub open spec fn lex_condition(e: Seq<char>, n: nat) -> Seq<SpecToken> {
    match find_pair_from(e, '=', '=', 0) {
        Some(i) => seq![
            tk(SpecKind::RawValue(trim(e.take(i))), n),
            tk(SpecKind::EqEq, n),
            tk(SpecKind::RawValue(trim(e.skip(i + 2))), n),
        ],
        None => match find_pair_from(e, '!', '=', 0) {
            Some(i) => seq![
                tk(SpecKind::RawValue(trim(e.take(i))), n),
                tk(SpecKind::NotEq, n),
                tk(SpecKind::RawValue(trim(e.skip(i + 2))), n),
            ],
            None => seq![tk(SpecKind::RawValue(e), n)],
        },
    }
}

/// After `@`, the word `error` followed by `(`, whitespace or nothing.
pub open spec fn is_error_directive(rest: Seq<char>) -> bool {
    starts_with(rest, w_error()) && (rest.len() == 5 || rest[5] == '(' || is_ws(rest[5]))
}

/// The message of `@error`: the argument without surrounding parentheses and
/// without one pair of matching single or double quotes.
pub open spec fn error_message(arg: Seq<char>) -> Seq<char> {
    let inner = if arg.len() >= 2 && arg[0] == '(' && arg.last() == ')' {
        trim(arg.subrange(1, arg.len() - 1))
    } else {
        arg
    };
    if inner.len() >= 2 && (inner[0] == '"' || inner[0] == '\'') && inner.last() == inner[0] {
        inner.subrange(1, inner.len() - 1)
    } else {
        inner
    }
}

/// An identifier token, followed by a value token when the value is not empty.
pub open spec fn ident_then_value(name: Seq<char>, v: Seq<char>, n: nat) -> Seq<SpecToken> {
    seq![tk(SpecKind::Ident(name), n)] + if v.len() > 0 {
        seq![tk(SpecKind::RawValue(v), n)]
    } else {
        seq![]
    }
}

/// Tokens of a trimmed line (or line part) that carries no brace. A line of
/// the form `NAME = value` is a variable assignment only at the top level
/// (`top`); inside braces it is a command like any other.
pub open spec fn lex_plain(l: Seq<char>, n: nat, top: bool) -> Seq<SpecToken> {
    if starts_with(l, seq!['@']) {
        let rest = l.skip(1);
        if is_error_directive(rest) {
            ident_then_value(seq!['@'] + w_error(), error_message(trim(rest.skip(5))), n)
        } else {
            let (kw, val) = split_first_word(rest);
            ident_then_value(seq!['@'] + kw, trim(val), n)
        }
    } else if starts_with(l, w_else_if()) {
        seq![tk(SpecKind::Ident(w_else()), n), tk(SpecKind::Ident(w_if()), n)] + lex_condition(
            trim(l.skip(8)),
            n,
        )
    } else if l == w_else() {
        seq![tk(SpecKind::Ident(w_else()), n)]
    } else if starts_with(l, w_if_sp()) || l == w_if() {
        seq![tk(SpecKind::Ident(w_if()), n)] + lex_condition(trim(l.skip(2)), n)
    } else {
        match if top {
            assignment_eq(l)
        } else {
            None
        } {
            Some(p) => seq![
                tk(SpecKind::Ident(trim(l.take(p))), n),
                tk(SpecKind::Equals, n),
                tk(SpecKind::RawValue(trim(strip_comment(trim(l.skip(p + 1))))), n),
            ],
            None => {
                let (first, rest) = split_first_word(l);
                if rest.len() == 0 && is_ident(first) {
                    seq![tk(SpecKind::Ident(first), n)]
                } else {
                    let c = trim(strip_comment(l));
                    if c.len() > 0 {
                        seq![tk(SpecKind::RawValue(c), n)]
                    } else {
                        seq![]
                    }
                }
            },
        }
    }
}

pub open spec fn nl(n: nat) -> SpecToken {
    tk(SpecKind::Newline, n)
}

/// Tokens of one trimmed, non-blank, non-comment line, at the top level or not.
pub open spec fn lex_line_spec(t: Seq<char>, n: nat, top: bool) -> Seq<SpecToken> {
    if t == seq!['{'] {
        seq![tk(SpecKind::LBrace, n), nl(n)]
    } else if t == seq!['}'] {
        seq![tk(SpecKind::RBrace, n), nl(n)]
    } else if starts_with(t, w_close_else_if()) && ends_with_char(t, '{') {
        seq![tk(SpecKind::RBrace, n), nl(n)] + lex_plain(trim(t.subrange(2, t.len() - 1)), n, top)
            + seq![tk(SpecKind::LBrace, n), nl(n)]
    } else if starts_with(t, w_close_else_if()) {
        seq![tk(SpecKind::RBrace, n), nl(n)] + lex_plain(trim(t.skip(2)), n, top) + seq![nl(n)]
    } else if t == w_close_else_open() {
        seq![
            tk(SpecKind::RBrace, n),
            nl(n),
            tk(SpecKind::Ident(w_else()), n),
            tk(SpecKind::LBrace, n),
            nl(n),
        ]
    } else if t == w_close_else() {
        seq![tk(SpecKind::RBrace, n), nl(n), tk(SpecKind::Ident(w_else()), n), nl(n)]
    } else if ends_with_char(t, '{') {
        lex_plain(trim(t.take(t.len() - 1)), n, top) + seq![tk(SpecKind::LBrace, n), nl(n)]
    } else {
        lex_plain(t, n, top) + seq![nl(n)]
    }
}

/// The brace depth after a closing brace: one less, but never below zero.
pub open spec fn closed(d: nat) -> nat {
    if d > 0 {
        (d - 1) as nat
    } else {
        0
    }
}

/// The brace depth after the trimmed line `t`, from depth `d` before it: the
/// braces that the line's tokens open and close, in order.
pub open spec fn depth_after(t: Seq<char>, d: nat) -> nat {
    if t == seq!['{'] {
        d + 1
    } else if t == seq!['}'] {
        closed(d)
    } else if starts_with(t, w_close_else_if()) && ends_with_char(t, '{') {
        closed(d) + 1
    } else if starts_with(t, w_close_else_if()) {
        closed(d)
    } else if t == w_close_else_open() {
        closed(d) + 1
    } else if t == w_close_else() {
        closed(d)
    } else if ends_with_char(t, '{') {
        d + 1
    } else {
        d
    }
}

/// Blank lines and lines whose first non-blank character is `#` give no token.
pub open spec fn is_skipped_line(t: Seq<char>) -> bool {
    t.len() == 0 || t[0] == '#'
}

/// The end of the line that starts at `pos`: its `\n`, or the end of `s`.
pub open spec fn line_end(s: Seq<char>, pos: int) -> int {
    match find_char_from(s, '\n', pos) {
        Some(k) => k,
        None => s.len() as int,
    }
}

/// Tokens of the lines of `s` from position `pos` on, the first of them being
/// line `n`, at brace depth `d`. Lines end at `\n`; a final `\n` does not
/// start another line.
pub open spec fn lex_from(s: Seq<char>, pos: int, n: nat, d: nat) -> Seq<SpecToken>
    decreases s.len() - pos,
{
    if pos < 0 || pos >= s.len() {
        seq![]
    } else {
        proof {
            lemma_find_char_from(s, '\n', pos);
        }
        let k = line_end(s, pos);
        let t = trim(s.subrange(pos, k));
        let toks = if is_skipped_line(t) {
            seq![]
        } else {
            lex_line_spec(t, n, d == 0)
        };
        let d2 = if is_skipped_line(t) {
            d
        } else {
            depth_after(t, d)
        };
        toks + if k < s.len() {
            lex_from(s, k + 1, n + 1, d2)
        } else {
            seq![]
        }
    }
}

/// The token list of a whole source: the tokens of its lines, then `Eof` at line 0.
#[verifier::opaque]
pub open spec fn spec_lex(s: Seq<char>) -> Seq<SpecToken> {
    lex_from(s, 0, 1, 0).push(tk(SpecKind::Eof, 0))
}

/// A lexed source is not empty and ends with `Eof`.
pub proof fn lemma_spec_lex_ends_with_eof(s: Seq<char>)
    ensures
        spec_lex(s).len() > 0,
        spec_lex(s).last().kind is Eof,
{
    reveal(spec_lex);
}

// ---------------------------------------------------------------------------
// Implementation
// ---------------------------------------------------------------------------

fn push_tok(out: &mut Vec<Token>, kind: TokenKind, line: usize)
    ensures
        toks_view(final(out)@) == toks_view(old(out)@).push(tk(kind@, line as nat)),
{
    out.push(Token { kind, line });
    assert(toks_view(out@) =~= toks_view(old(out)@).push(tk(kind@, line as nat)));
}

fn push_ident(out: &mut Vec<Token>, name: &Vec<char>, line: usize)
    ensures
        toks_view(final(out)@) == toks_view(old(out)@).push(tk(SpecKind::Ident(name@), line as nat)),
{
    push_tok(out, TokenKind::Ident(string_from_chars(name)), line);
}

fn push_raw(out: &mut Vec<Token>, value: &Vec<char>, line: usize)
    ensures
        toks_view(final(out)@) == toks_view(old(out)@).push(
            tk(SpecKind::RawValue(value@), line as nat),
        ),
{
    push_tok(out, TokenKind::RawValue(string_from_chars(value)), line);
}

/// Splits `s` at its first whitespace character.
pub fn split_first_word_chars(s: &Vec<char>) -> (r: (Vec<char>, Vec<char>))
    ensures
        (r.0@, r.1@) == split_first_word(s@),
{
    match find_ws(s, 0) {
        Some(i) => {
            proof {
                lemma_find_ws_from(s@, 0);
            }
            (subvec(s, 0, i), subvec(s, i, s.len()))
        },
        None => {
            let e: Vec<char> = Vec::new();
            assert(s@.take(s@.len() as int) =~= s@);
            (subvec(s, 0, s.len()), e)
        },
    }
}

/// Whether `s` is an identifier.
fn is_ident_chars(s: &Vec<char>) -> (r: bool)
    ensures
        r == is_ident(s@),
{
    if s.len() == 0 {
        return false;
    }
    let c0 = s[0];
    if !(char_is_alphabetic(c0) || c0 == '_') {
        return false;
    }
    let mut i: usize = 0;
    while i < s.len()
        invariant
            i <= s@.len(),
            forall|k: int|
                0 <= k < i ==> alphanumeric(#[trigger] s@[k]) || s@[k] == '_' || s@[k]
                    == '-',
        decreases s@.len() - i,
    {
        let c = s[i];
        if !(char_is_alphanumeric(c) || c == '_' || c == '-') {
            return false;
        }
        i += 1;
    }
    true
}

/// Finds the `=` of a top-level variable assignment.
fn find_assignment_eq(line: &Vec<char>) -> (r: Option<usize>)
    ensures
        match r {
            Some(p) => assignment_eq(line@) == Some(p as int) && p < line@.len(),
            None => assignment_eq(line@) is None,
        },
{
    proof {
        lemma_find_char_from(line@, '=', 0);
    }
    match find_char(line, '=', 0) {
        None => None,
        Some(i) => {
            let n = line.len();
            if i + 1 < n && line[i + 1] == '=' {
                return None;
            }
            if i > 0 && line[i - 1] == '!' {
                return None;
            }
            let lhs = trim_chars(&subvec(line, 0, i));
            if is_ident_chars(&lhs) {
                Some(i)
            } else {
                None
            }
        },
    }
}

/// The position of the first unquoted `#` of `s`.
fn comment_start_chars(s: &Vec<char>) -> (r: Option<usize>)
    ensures
        match r {
            Some(k) => comment_start(s@, 0, false, false) == Some(k as int) && k < s@.len(),
            None => comment_start(s@, 0, false, false) is None,
        },
{
    let mut in_single = false;
    let mut in_double = false;
    let mut i: usize = 0;
    while i < s.len()
        invariant
            i <= s@.len(),
            comment_start(s@, 0, false, false) == comment_start(
                s@,
                i as int,
                in_single,
                in_double,
            ),
        decreases s@.len() - i,
    {
        let c = s[i];
        if c == '\'' && !in_double {
            in_single = !in_single;
        } else if c == '"' && !in_single {
            in_double = !in_double;
        } else if c == '#' && !in_single && !in_double {
            return Some(i);
        }
        i += 1;
    }
    None
}

/// `s` without an inline comment.
fn strip_comment_chars(s: &Vec<char>) -> (r: Vec<char>)
    ensures
        r@ == strip_comment(s@),
{
    match comment_start_chars(s) {
        Some(k) => trim_end_chars(&subvec(s, 0, k)),
        None => subvec(s, 0, s.len()),
    }
}

/// Cuts `s` before its first `#` that stands outside single and double
/// quotes, and trims the end of what is left; returns `s` when there is none.
pub fn strip_inline_comment(s: &str) -> (r: &str)
    ensures
        r@ == strip_comment(s@),
{
    let chars = chars_of(s);
    match comment_start_chars(&chars) {
        Some(k) => {
            let head = subvec(&chars, 0, k);
            let t = trail_ws_len(&head);
            let end = k - t;
            s.substring_char(0, end)
        },
        None => s,
    }
}

fn lex_condition_expr(expr: &Vec<char>, line_no: usize, out: &mut Vec<Token>)
    ensures
        toks_view(final(out)@) == toks_view(old(out)@) + lex_condition(expr@, line_no as nat),
{
    let ghost n = line_no as nat;
    let ghost before = toks_view(out@);
    proof {
        lemma_find_pair_from(expr@, '=', '=', 0);
        lemma_find_pair_from(expr@, '!', '=', 0);
    }
    match find_pair(expr, '=', '=') {
        Some(idx) => {
            let elen = expr.len();
            let lhs = trim_chars(&subvec(expr, 0, idx));
            let rhs = trim_chars(&subvec(expr, idx + 2, elen));
            push_raw(out, &lhs, line_no);
            push_tok(out, TokenKind::EqEq, line_no);
            push_raw(out, &rhs, line_no);
            assert(toks_view(out@) =~= before + lex_condition(expr@, n));
        },
        None => match find_pair(expr, '!', '=') {
            Some(idx) => {
                let elen = expr.len();
                let lhs = trim_chars(&subvec(expr, 0, idx));
                let rhs = trim_chars(&subvec(expr, idx + 2, elen));
                push_raw(out, &lhs, line_no);
                push_tok(out, TokenKind::NotEq, line_no);
                push_raw(out, &rhs, line_no);
                assert(toks_view(out@) =~= before + lex_condition(expr@, n));
            },
            None => {
                push_raw(out, expr, line_no);
                assert(toks_view(out@) =~= before + lex_condition(expr@, n));
            },
        },
    }
}

/// The message of an `@error` directive, from its trimmed argument.
fn error_message_chars(arg: &Vec<char>) -> (r: Vec<char>)
    ensures
        r@ == error_message(arg@),
{
    let inner = if arg.len() >= 2 && arg[0] == '(' && arg[arg.len() - 1] == ')' {
        trim_chars(&subvec(arg, 1, arg.len() - 1))
    } else {
        subvec(arg, 0, arg.len())
    };
    assert(arg@.subrange(0, arg@.len() as int) =~= arg@);
    let n = inner.len();
    if n >= 2 && (inner[0] == '"' || inner[0] == '\'') && inner[n - 1] == inner[0] {
        subvec(&inner, 1, n - 1)
    } else {
        inner
    }
}

fn push_ident_then_value(out: &mut Vec<Token>, name: &Vec<char>, v: &Vec<char>, line_no: usize)
    ensures
        toks_view(final(out)@) == toks_view(old(out)@) + ident_then_value(
            name@,
            v@,
            line_no as nat,
        ),
{
    let ghost before = toks_view(out@);
    push_ident(out, name, line_no);
    if v.len() > 0 {
        push_raw(out, v, line_no);
    }
    assert(toks_view(out@) =~= before + ident_then_value(name@, v@, line_no as nat));
}

fn lex_non_brace_line(line: &Vec<char>, line_no: usize, top: bool, out: &mut Vec<Token>)
    ensures
        toks_view(final(out)@) == toks_view(old(out)@) + lex_plain(line@, line_no as nat, top),
{
    let ghost n = line_no as nat;
    let ghost before = toks_view(out@);
    let l = line;
    if l.len() > 0 && l[0] == '@' {
        assert(l@.take(1) =~= seq!['@']);
        let rest = subvec(l, 1, l.len());
        assert(rest@ =~= l@.skip(1));
        let ew = error_word();
        if starts_with_chars(&rest, &ew) && (rest.len() == 5 || rest[5] == '(' || is_whitespace(
            rest[5],
        )) {
            let arg = trim_chars(&subvec(&rest, 5, rest.len()));
            assert(rest@.subrange(5, rest@.len() as int) =~= rest@.skip(5));
            let msg = error_message_chars(&arg);
            let mut name: Vec<char> = Vec::new();
            name.push('@');
            append(&mut name, &ew);
            assert(name@ =~= seq!['@'] + w_error());
            push_ident_then_value(out, &name, &msg, line_no);
            return ;
        }
        let (kw, val) = split_first_word_chars(&rest);
        let mut name: Vec<char> = Vec::new();
        name.push('@');
        append(&mut name, &kw);
        assert(name@ =~= seq!['@'] + kw@);
        let v = trim_chars(&val);
        push_ident_then_value(out, &name, &v, line_no);
        return ;
    }
    assert(!starts_with(l@, seq!['@'])) by {
        if l@.len() > 0 {
            assert(l@.take(1)[0] == l@[0]);
        }
    }
    let eiw = else_if_word();
    if starts_with_chars(l, &eiw) {
        let rest = trim_chars(&subvec(l, 8, l.len()));
        assert(l@.subrange(8, l@.len() as int) =~= l@.skip(8));
        push_ident(out, &else_word(), line_no);
        push_ident(out, &if_word(), line_no);
        lex_condition_expr(&rest, line_no, out);
        assert(toks_view(out@) =~= before + lex_plain(l@, n, top));
        return ;
    }
    let ew = else_word();
    if chars_eq(l, &ew) {
        push_ident(out, &ew, line_no);
        assert(toks_view(out@) =~= before + lex_plain(l@, n, top));
        return ;
    }
    let iw = if_word();
    if starts_with_chars(l, &if_sp_word()) || chars_eq(l, &iw) {
        let rest = trim_chars(&subvec(l, 2, l.len()));
        assert(l@.subrange(2, l@.len() as int) =~= l@.skip(2));
        push_ident(out, &iw, line_no);
        lex_condition_expr(&rest, line_no, out);
        assert(toks_view(out@) =~= before + lex_plain(l@, n, top));
        return ;
    }
    let eq = if top {
        find_assignment_eq(l)
    } else {
        None
    };
    match eq {
        Some(eq_pos) => {
            let name = trim_chars(&subvec(l, 0, eq_pos));
            assert(l@.subrange(0, eq_pos as int) =~= l@.take(eq_pos as int));
            let rhs = trim_chars(&subvec(l, eq_pos + 1, l.len()));
            assert(l@.subrange(eq_pos + 1, l@.len() as int) =~= l@.skip(eq_pos + 1));
            let value = trim_chars(&strip_comment_chars(&rhs));
            push_ident(out, &name, line_no);
            push_tok(out, TokenKind::Equals, line_no);
            push_raw(out, &value, line_no);
            assert(toks_view(out@) =~= before + lex_plain(l@, n, top));
            return ;
        },
        None => {},
    }
    let (first, rest) = split_first_word_chars(l);
    if rest.len() == 0 && is_ident_chars(&first) {
        push_ident(out, &first, line_no);
        assert(toks_view(out@) =~= before + lex_plain(l@, n, top));
        return ;
    }
    let cmd = trim_chars(&strip_comment_chars(l));
    if cmd.len() > 0 {
        push_raw(out, &cmd, line_no);
    }
    assert(toks_view(out@) =~= before + lex_plain(l@, n, top));
}

fn push_brace_newline(out: &mut Vec<Token>, open: bool, line_no: usize)
    ensures
        toks_view(final(out)@) == toks_view(old(out)@) + seq![
            tk(if open { SpecKind::LBrace } else { SpecKind::RBrace }, line_no as nat),
            nl(line_no as nat),
        ],
{
    let ghost before = toks_view(out@);
    if open {
        push_tok(out, TokenKind::LBrace, line_no);
    } else {
        push_tok(out, TokenKind::RBrace, line_no);
    }
    push_tok(out, TokenKind::Newline, line_no);
    assert(toks_view(out@) =~= before + seq![
        tk(if open { SpecKind::LBrace } else { SpecKind::RBrace }, line_no as nat),
        nl(line_no as nat),
    ]);
}

fn lex_line(line: &Vec<char>, line_no: usize, top: bool, out: &mut Vec<Token>)
    ensures
        toks_view(final(out)@) == toks_view(old(out)@) + lex_line_spec(line@, line_no as nat, top),
{
    let ghost n = line_no as nat;
    let ghost before = toks_view(out@);
    let len = line.len();
    if len == 1 && line[0] == '{' {
        assert(line@ =~= seq!['{']);
        push_brace_newline(out, true, line_no);
        return ;
    }
    assert(line@ != seq!['{']) by {
        if line@ == seq!['{'] {
            assert(line@[0] == '{');
        }
    }
    if len == 1 && line[0] == '}' {
        assert(line@ =~= seq!['}']);
        push_brace_newline(out, false, line_no);
        return ;
    }
    assert(line@ != seq!['}']) by {
        if line@ == seq!['}'] {
            assert(line@[0] == '}');
        }
    }
    let ceif = close_else_if_word();
    let starts_else_if = starts_with_chars(line, &ceif);
    let ends_open = len > 0 && line[len - 1] == '{';
    assert(ends_open == ends_with_char(line@, '{'));
    if starts_else_if && ends_open {
        push_brace_newline(out, false, line_no);
        let inner = trim_chars(&subvec(line, 2, len - 1));
        lex_non_brace_line(&inner, line_no, top, out);
        push_brace_newline(out, true, line_no);
        assert(toks_view(out@) =~= before + lex_line_spec(line@, n, top));
        return ;
    }
    if starts_else_if {
        push_brace_newline(out, false, line_no);
        let inner = trim_chars(&subvec(line, 2, len));
        assert(line@.subrange(2, len as int) =~= line@.skip(2));
        lex_non_brace_line(&inner, line_no, top, out);
        push_tok(out, TokenKind::Newline, line_no);
        assert(toks_view(out@) =~= before + lex_line_spec(line@, n, top));
        return ;
    }
    if chars_eq(line, &close_else_open_word()) {
        push_brace_newline(out, false, line_no);
        push_ident(out, &else_word(), line_no);
        push_brace_newline(out, true, line_no);
        assert(toks_view(out@) =~= before + lex_line_spec(line@, n, top));
        return ;
    }
    if chars_eq(line, &close_else_word()) {
        push_brace_newline(out, false, line_no);
        push_ident(out, &else_word(), line_no);
        push_tok(out, TokenKind::Newline, line_no);
        assert(toks_view(out@) =~= before + lex_line_spec(line@, n, top));
        return ;
    }
    if ends_open {
        let prefix = trim_chars(&subvec(line, 0, len - 1));
        assert(line@.subrange(0, len - 1) =~= line@.take(len - 1));
        lex_non_brace_line(&prefix, line_no, top, out);
        push_brace_newline(out, true, line_no);
        assert(toks_view(out@) =~= before + lex_line_spec(line@, n, top));
        return ;
    }
    lex_non_brace_line(line, line_no, top, out);
    push_tok(out, TokenKind::Newline, line_no);
    assert(toks_view(out@) =~= before + lex_line_spec(line@, n, top));
}

/// The brace depth after the trimmed line `t`, from depth `d`.
fn next_depth(t: &Vec<char>, d: usize) -> (r: usize)
    requires
        d < usize::MAX,
    ensures
        r == depth_after(t@, d as nat),
{
    let closed_d: usize = if d > 0 {
        d - 1
    } else {
        0
    };
    let len = t.len();
    if len == 1 && t[0] == '{' {
        assert(t@ =~= seq!['{']);
        return d + 1;
    }
    assert(t@ != seq!['{']) by {
        if t@ == seq!['{'] {
            assert(t@[0] == '{');
        }
    }
    if len == 1 && t[0] == '}' {
        assert(t@ =~= seq!['}']);
        return closed_d;
    }
    assert(t@ != seq!['}']) by {
        if t@ == seq!['}'] {
            assert(t@[0] == '}');
        }
    }
    let starts_else_if = starts_with_chars(t, &close_else_if_word());
    let ends_open = len > 0 && t[len - 1] == '{';
    assert(ends_open == ends_with_char(t@, '{'));
    if starts_else_if && ends_open {
        return closed_d + 1;
    }
    if starts_else_if {
        return closed_d;
    }
    if chars_eq(t, &close_else_open_word()) {
        return closed_d + 1;
    }
    if chars_eq(t, &close_else_word()) {
        return closed_d;
    }
    if ends_open {
        return d + 1;
    }
    d
}

/// Lex the entire source into a flat token list.
pub fn lex(source: &str) -> (r: Vec<Token>)
    requires
        source@.len() < usize::MAX,
    ensures
        toks_view(r@) == spec_lex(source@),
{
    let chars = chars_of(source);
    let mut tokens: Vec<Token> = Vec::new();
    let mut pos: usize = 0;
    let mut line_no: usize = 1;
    let mut depth: usize = 0;
    while pos < chars.len()
        invariant
            chars@ == source@,
            chars@.len() < usize::MAX,
            pos <= chars@.len(),
            1 <= line_no <= pos + 1,
            depth < line_no,
            toks_view(tokens@) + lex_from(chars@, pos as int, line_no as nat, depth as nat)
                == lex_from(chars@, 0, 1, 0),
        decreases chars@.len() - pos,
    {
        let ghost before = toks_view(tokens@);
        proof {
            lemma_find_char_from(chars@, '\n', pos as int);
        }
        let end = match find_char(&chars, '\n', pos) {
            Some(k) => k,
            None => chars.len(),
        };
        let trimmed = trim_chars(&subvec(&chars, pos, end));
        let ghost d0 = depth;
        if !(trimmed.len() == 0 || trimmed[0] == '#') {
            lex_line(&trimmed, line_no, depth == 0, &mut tokens);
            depth = next_depth(&trimmed, depth);
        }
        assert(toks_view(tokens@) + lex_from(chars@, end + 1, line_no as nat + 1, depth as nat)
            == before + lex_from(chars@, pos as int, line_no as nat, d0 as nat));
        pos = if end < chars.len() {
            end + 1
        } else {
            end
        };
        line_no = line_no + 1;
    }
    push_tok(&mut tokens, TokenKind::Eof, 0);
    proof {
        reveal(spec_lex);
    }
    tokens
}

} // verus!
