//! The parser: builds the tasks and variables of a taskfile from its tokens.
use vstd::prelude::*;

use crate::error::{SpecError, TskError};
use crate::lexer::{
    SpecKind, SpecToken, Token, TokenKind, else_word, if_word, lemma_spec_lex_ends_with_eof, lex, spec_lex, toks_view, w_else,
    w_error, w_if,
};
use crate::text::{
    append, chars_eq, chars_of, debug_quoted, decimal, split_words, str_debug, string_from_chars,
    usize_decimal, words,
};

verus! {

#[derive(Debug, Clone)]
pub enum Condition {
    Eq(String, String),
    NotEq(String, String),
    Truthy(String),
}

#[derive(Debug)]
pub struct ElseIf {
    pub condition: Condition,
    pub body: Vec<Statement>,
}

#[derive(Debug)]
pub enum Statement {
    /// A shell command line.
    Command { raw: String, line: usize },
    /// if / else if* / else
    If {
        condition: Condition,
        then_body: Vec<Statement>,
        else_ifs: Vec<ElseIf>,
        else_body: Vec<Statement>,
        line: usize,
    },
    /// `@error(message)`: stops the run with the message.
    Error { message: String, line: usize },
}

pub enum SpecCondition {
    Eq(Seq<char>, Seq<char>),
    NotEq(Seq<char>, Seq<char>),
    Truthy(Seq<char>),
}

pub enum SpecStatement {
    Command { raw: Seq<char>, line: nat },
    If {
        condition: SpecCondition,
        then_body: Seq<SpecStatement>,
        else_ifs: Seq<(SpecCondition, Seq<SpecStatement>)>,
        else_body: Seq<SpecStatement>,
        line: nat,
    },
    Error { message: Seq<char>, line: nat },
}

impl View for Condition {
    type V = SpecCondition;

    open spec fn view(&self) -> SpecCondition {
        match self {
            Condition::Eq(l, r) => SpecCondition::Eq(l@, r@),
            Condition::NotEq(l, r) => SpecCondition::NotEq(l@, r@),
            Condition::Truthy(v) => SpecCondition::Truthy(v@),
        }
    }
}

pub open spec fn stmt_view(s: Statement) -> SpecStatement
    decreases s,
{
    match s {
        Statement::Command { raw, line } => SpecStatement::Command { raw: raw@, line: line as nat },
        Statement::If { condition, then_body, else_ifs, else_body, line } => SpecStatement::If {
            condition: condition@,
            then_body: stmts_view(then_body@),
            else_ifs: else_ifs_view(else_ifs@),
            else_body: stmts_view(else_body@),
            line: line as nat,
        },
        Statement::Error { message, line } => SpecStatement::Error {
            message: message@,
            line: line as nat,
        },
    }
}

pub open spec fn stmts_view(v: Seq<Statement>) -> Seq<SpecStatement>
    decreases v,
{
    if v.len() == 0 {
        seq![]
    } else {
        seq![stmt_view(v[0])] + stmts_view(v.drop_first())
    }
}

pub open spec fn else_ifs_view(v: Seq<ElseIf>) -> Seq<(SpecCondition, Seq<SpecStatement>)>
    decreases v,
{
    if v.len() == 0 {
        seq![]
    } else {
        seq![(v[0].condition@, stmts_view(v[0].body@))] + else_ifs_view(v.drop_first())
    }
}

pub proof fn lemma_stmts_view_push(v: Seq<Statement>, s: Statement)
    ensures
        stmts_view(v.push(s)) == stmts_view(v).push(stmt_view(s)),
    decreases v.len(),
{
    if v.len() == 0 {
        assert(v.push(s).drop_first() =~= seq![]);
        assert(v.push(s)[0] == s);
        assert(stmts_view(v.push(s).drop_first()) =~= seq![]);
        assert(stmts_view(v) =~= seq![]);
        assert(stmts_view(v.push(s)) =~= stmts_view(v).push(stmt_view(s)));
    } else {
        assert(v.push(s).drop_first() =~= v.drop_first().push(s));
        lemma_stmts_view_push(v.drop_first(), s);
        assert(v.push(s)[0] == v[0]);
        assert(stmts_view(v.push(s)) == seq![stmt_view(v[0])] + stmts_view(v.drop_first().push(s)));
        assert(stmts_view(v) == seq![stmt_view(v[0])] + stmts_view(v.drop_first()));
        assert(stmts_view(v.push(s)) =~= stmts_view(v).push(stmt_view(s)));
    }
}

pub proof fn lemma_else_ifs_view_push(v: Seq<ElseIf>, e: ElseIf)
    ensures
        else_ifs_view(v.push(e)) == else_ifs_view(v).push((e.condition@, stmts_view(e.body@))),
    decreases v.len(),
{
    if v.len() == 0 {
        assert(v.push(e).drop_first() =~= seq![]);
        assert(v.push(e)[0] == e);
        assert(else_ifs_view(v.push(e).drop_first()) =~= seq![]);
        assert(else_ifs_view(v) =~= seq![]);
        assert(else_ifs_view(v.push(e)) =~= else_ifs_view(v).push(
            (e.condition@, stmts_view(e.body@)),
        ));
    } else {
        assert(v.push(e).drop_first() =~= v.drop_first().push(e));
        lemma_else_ifs_view_push(v.drop_first(), e);
        assert(v.push(e)[0] == v[0]);
        assert(else_ifs_view(v.push(e)) == seq![(v[0].condition@, stmts_view(v[0].body@))]
            + else_ifs_view(v.drop_first().push(e)));
        assert(else_ifs_view(v) == seq![(v[0].condition@, stmts_view(v[0].body@))]
            + else_ifs_view(v.drop_first()));
        assert(else_ifs_view(v.push(e)) =~= else_ifs_view(v).push(
            (e.condition@, stmts_view(e.body@)),
        ));
    }
}

#[derive(Debug, Clone, Copy, Default)]
pub struct TaskFlags {
    /// `@silent`: don't echo commands
    pub silent: bool,
    /// `@ignore`: continue on command failure
    pub ignore: bool,
}

#[derive(Debug)]
pub struct Task {
    pub name: String,
    pub description: Option<String>,
    pub deps: Vec<String>,
    pub flags: TaskFlags,
    pub body: Vec<Statement>,
    pub is_default: bool,
}

/// A parsed taskfile.
pub struct Taskfile {
    pub source_path: String,
    /// Every variable assignment, in source order: name, raw value, line.
    pub globals: Vec<(String, String, usize)>,
    /// The names of the variables, each once, in the order of first declaration.
    pub global_order: Vec<String>,
    /// The tasks, each name once; a redefinition replaces the earlier task.
    pub tasks: Vec<Task>,
    pub default_task: Option<String>,
    /// The warnings produced while parsing, in order.
    pub warnings: Vec<String>,
}

#[verifier::ext_equal]
pub struct SpecTask {
    pub name: Seq<char>,
    pub description: Option<Seq<char>>,
    pub deps: Seq<Seq<char>>,
    pub silent: bool,
    pub ignore: bool,
    pub body: Seq<SpecStatement>,
    pub is_default: bool,
}

#[verifier::ext_equal]
pub struct SpecTaskfile {
    pub source_path: Seq<char>,
    pub globals: Seq<(Seq<char>, Seq<char>, nat)>,
    pub global_order: Seq<Seq<char>>,
    pub tasks: Seq<SpecTask>,
    pub default_task: Option<Seq<char>>,
    pub warnings: Seq<Seq<char>>,
}

pub open spec fn strings_view(v: Seq<String>) -> Seq<Seq<char>> {
    v.map_values(|s: String| s@)
}

pub open spec fn opt_str_view(o: Option<String>) -> Option<Seq<char>> {
    match o {
        Some(s) => Some(s@),
        None => None,
    }
}

impl View for Task {
    type V = SpecTask;

    open spec fn view(&self) -> SpecTask {
        SpecTask {
            name: self.name@,
            description: opt_str_view(self.description),
            deps: strings_view(self.deps@),
            silent: self.flags.silent,
            ignore: self.flags.ignore,
            body: stmts_view(self.body@),
            is_default: self.is_default,
        }
    }
}

pub open spec fn tasks_view(v: Seq<Task>) -> Seq<SpecTask> {
    v.map_values(|t: Task| t@)
}

pub open spec fn globals_view(v: Seq<(String, String, usize)>) -> Seq<(Seq<char>, Seq<char>, nat)> {
    v.map_values(|g: (String, String, usize)| (g.0@, g.1@, g.2 as nat))
}

impl View for Taskfile {
    type V = SpecTaskfile;

    open spec fn view(&self) -> SpecTaskfile {
        SpecTaskfile {
            source_path: self.source_path@,
            globals: globals_view(self.globals@),
            global_order: strings_view(self.global_order@),
            tasks: tasks_view(self.tasks@),
            default_task: opt_str_view(self.default_task),
            warnings: strings_view(self.warnings@),
        }
    }
}

// ---------------------------------------------------------------------------
// Specification of the parser
// ---------------------------------------------------------------------------

/// A syntax error found at a line of the source.
pub struct SpecSyntax {
    pub line: nat,
    pub message: Seq<char>,
}

pub open spec fn syn(line: nat, message: Seq<char>) -> SpecSyntax {
    SpecSyntax { line, message }
}

/// The result of a parse that went astray from a well-formed token list.
pub open spec fn stray() -> SpecSyntax {
    SpecSyntax { line: 0, message: seq![] }
}

pub open spec fn syntax_error(file: Seq<char>, e: SpecSyntax) -> SpecError {
    SpecError::Syntax { file, line: e.line, message: e.message }
}

/// A token list as the lexer gives it: not empty, and ending with `Eof`.
pub open spec fn wf_toks(toks: Seq<SpecToken>) -> bool {
    toks.len() > 0 && toks.last().kind is Eof
}

/// The position after one token; the last token is never passed.
pub open spec fn adv(toks: Seq<SpecToken>, pos: int) -> int {
    if pos + 1 < toks.len() {
        pos + 1
    } else {
        pos
    }
}

/// The parser's step to the next token never passes the last token (`Eof`):
/// from a position in the token list it moves one on, or stays on the last
/// token. `Parser::advance` moves by `adv` and returns the token it leaves.
pub proof fn law_advance_stays_on_the_tokens(toks: Seq<SpecToken>, pos: int)
    requires
        0 <= pos < toks.len(),
    ensures
        adv(toks, pos) == (if pos + 1 < toks.len() {
            pos + 1
        } else {
            toks.len() - 1
        }),
        0 <= adv(toks, pos) < toks.len(),
{
}

/// The position of the first token at or after `pos` that is not a newline.
pub open spec fn skip_nl(toks: Seq<SpecToken>, pos: int) -> int
    decreases toks.len() - pos,
{
    if 0 <= pos && pos + 1 < toks.len() && toks[pos].kind is Newline {
        skip_nl(toks, pos + 1)
    } else {
        pos
    }
}

pub proof fn lemma_skip_nl(toks: Seq<SpecToken>, pos: int)
    requires
        0 <= pos < toks.len(),
    ensures
        pos <= skip_nl(toks, pos) < toks.len(),
        wf_toks(toks) ==> !(toks[skip_nl(toks, pos)].kind is Newline),
    decreases toks.len() - pos,
{
    if pos + 1 < toks.len() && toks[pos].kind is Newline {
        lemma_skip_nl(toks, pos + 1);
    }
}

/// A token other than `Eof` is not the last one.
pub proof fn lemma_not_last(toks: Seq<SpecToken>, pos: int)
    requires
        wf_toks(toks),
        0 <= pos < toks.len(),
        !(toks[pos].kind is Eof),
    ensures
        pos + 1 < toks.len(),
{
}

pub open spec fn is_word(k: SpecKind, w: Seq<char>) -> bool {
    k matches SpecKind::Ident(x) && x == w
}

pub open spec fn at_error() -> Seq<char> {
    seq!['@'] + w_error()
}

pub open spec fn sp_expect_newline(toks: Seq<SpecToken>, pos: int) -> Result<int, SpecSyntax> {
    match toks[pos].kind {
        SpecKind::Newline | SpecKind::Eof => Ok(adv(toks, pos)),
        _ => Err(syn(toks[pos].line, "expected newline"@)),
    }
}

pub open spec fn sp_expect_lbrace(toks: Seq<SpecToken>, pos: int) -> Result<int, SpecSyntax> {
    let p = skip_nl(toks, pos);
    match toks[p].kind {
        SpecKind::LBrace => Ok(skip_nl(toks, adv(toks, p))),
        _ => Err(syn(toks[p].line, "expected '{'"@)),
    }
}

pub open spec fn sp_expect_rbrace(toks: Seq<SpecToken>, pos: int) -> Result<int, SpecSyntax> {
    let p = skip_nl(toks, pos);
    match toks[p].kind {
        SpecKind::RBrace => Ok(skip_nl(toks, adv(toks, p))),
        _ => Err(syn(toks[p].line, "expected '}'"@)),
    }
}

pub open spec fn sp_expect_raw_value(toks: Seq<SpecToken>, pos: int) -> Result<
    (Seq<char>, int),
    SpecSyntax,
> {
    match toks[pos].kind {
        SpecKind::RawValue(v) => Ok((v, adv(toks, pos))),
        _ => Err(syn(toks[pos].line, "expected value"@)),
    }
}

pub open spec fn sp_parse_condition(toks: Seq<SpecToken>, pos: int, if_line: nat) -> Result<
    (SpecCondition, int),
    SpecSyntax,
> {
    match toks[pos].kind {
        SpecKind::RawValue(lhs) => {
            let p = adv(toks, pos);
            match toks[p].kind {
                SpecKind::EqEq => match sp_expect_raw_value(toks, adv(toks, p)) {
                    Ok((rhs, q)) => Ok((SpecCondition::Eq(lhs, rhs), q)),
                    Err(e) => Err(e),
                },
                SpecKind::NotEq => match sp_expect_raw_value(toks, adv(toks, p)) {
                    Ok((rhs, q)) => Ok((SpecCondition::NotEq(lhs, rhs), q)),
                    Err(e) => Err(e),
                },
                SpecKind::LBrace | SpecKind::Newline => Ok((SpecCondition::Truthy(lhs), p)),
                _ => Err(syn(if_line, "expected '==', '!=', or '{'"@)),
            }
        },
        SpecKind::LBrace => Ok((SpecCondition::Truthy(seq!['1']), pos)),
        _ => Err(syn(if_line, "expected condition after 'if'"@)),
    }
}

/// `@error` at `p`: the statement, and the position after it and its newlines.
pub open spec fn sp_error_stmt(toks: Seq<SpecToken>, p: int) -> (SpecStatement, int) {
    let q = adv(toks, p);
    match toks[q].kind {
        SpecKind::RawValue(m) => (
            SpecStatement::Error { message: m, line: toks[p].line },
            skip_nl(toks, adv(toks, q)),
        ),
        _ => (SpecStatement::Error { message: seq![], line: toks[p].line }, skip_nl(toks, q)),
    }
}

/// A command made of the word or value at `p`, and the position after it.
pub open spec fn sp_command(toks: Seq<SpecToken>, p: int, raw: Seq<char>) -> (SpecStatement, int) {
    (SpecStatement::Command { raw, line: toks[p].line }, skip_nl(toks, adv(toks, p)))
}

/// `if CONDITION { ... } [else if CONDITION { ... }]* [else { ... }]`, from
/// the position after `if`.
pub open spec fn sp_parse_if(toks: Seq<SpecToken>, pos: int, if_line: nat) -> Result<
    (SpecStatement, int),
    SpecSyntax,
>
    decreases toks.len() - pos, 1int,
{
    if !(0 <= pos < toks.len()) {
        Err(stray())
    } else {
        match sp_parse_condition(toks, pos, if_line) {
            Err(e) => Err(e),
            Ok((condition, p1)) => match sp_expect_lbrace(toks, p1) {
                Err(e) => Err(e),
                Ok(p2) => if pos < p2 < toks.len() {
                    match sp_body(toks, p2, seq![]) {
                        Err(e) => Err(e),
                        Ok((then_body, p3)) => match sp_expect_rbrace(toks, p3) {
                            Err(e) => Err(e),
                            Ok(p4) => if pos < p4 < toks.len() {
                                match sp_else_chain(toks, p4, seq![]) {
                                    Err(e) => Err(e),
                                    Ok((else_ifs, else_body, p5)) => Ok(
                                        (
                                            SpecStatement::If {
                                                condition,
                                                then_body,
                                                else_ifs,
                                                else_body,
                                                line: if_line,
                                            },
                                            p5,
                                        ),
                                    ),
                                }
                            } else {
                                Err(stray())
                            },
                        },
                    }
                } else {
                    Err(stray())
                },
            },
        }
    }
}

/// The `else if` and `else` parts after an `if` block; `acc` holds the
/// `else if` parts already parsed.
pub open spec fn sp_else_chain(
    toks: Seq<SpecToken>,
    pos: int,
    acc: Seq<(SpecCondition, Seq<SpecStatement>)>,
) -> Result<(Seq<(SpecCondition, Seq<SpecStatement>)>, Seq<SpecStatement>, int), SpecSyntax>
    decreases toks.len() - pos, 3int,
{
    if !(0 <= pos < toks.len()) {
        Err(stray())
    } else if is_word(toks[pos].kind, w_else()) {
        let else_line = toks[pos].line;
        let q = adv(toks, pos);
        if is_word(toks[q].kind, w_if()) {
            match sp_parse_condition(toks, adv(toks, q), else_line) {
                Err(e) => Err(e),
                Ok((c, p1)) => match sp_expect_lbrace(toks, p1) {
                    Err(e) => Err(e),
                    Ok(p2) => if pos <= p2 < toks.len() {
                        match sp_body(toks, p2, seq![]) {
                            Err(e) => Err(e),
                            Ok((b, p3)) => match sp_expect_rbrace(toks, p3) {
                                Err(e) => Err(e),
                                Ok(p4) => if pos < p4 < toks.len() {
                                    sp_else_chain(toks, p4, acc.push((c, b)))
                                } else {
                                    Err(stray())
                                },
                            },
                        }
                    } else {
                        Err(stray())
                    },
                },
            }
        } else {
            match sp_expect_lbrace(toks, q) {
                Err(e) => Err(e),
                Ok(p2) => if pos <= p2 < toks.len() {
                    match sp_body(toks, p2, seq![]) {
                        Err(e) => Err(e),
                        Ok((b, p3)) => match sp_expect_rbrace(toks, p3) {
                            Err(e) => Err(e),
                            Ok(p4) => Ok((acc, b, p4)),
                        },
                    }
                } else {
                    Err(stray())
                },
            }
        }
    } else {
        Ok((acc, seq![], pos))
    }
}

/// The statements of a block up to its `}` (or the end); `acc` holds the
/// statements already parsed.
pub open spec fn sp_body(toks: Seq<SpecToken>, pos: int, acc: Seq<SpecStatement>) -> Result<
    (Seq<SpecStatement>, int),
    SpecSyntax,
>
    decreases toks.len() - pos, 2int,
{
    if !(0 <= pos < toks.len()) {
        Err(stray())
    } else {
        let p = skip_nl(toks, pos);
        proof {
            lemma_skip_nl(toks, pos);
        }
        match toks[p].kind {
            SpecKind::RBrace | SpecKind::Eof => Ok((acc, p)),
            SpecKind::Ident(kw) => if kw == w_if() {
                match sp_parse_if(toks, adv(toks, p), toks[p].line) {
                    Err(e) => Err(e),
                    Ok((st, r)) => if pos < r < toks.len() {
                        sp_body(toks, r, acc.push(st))
                    } else {
                        Err(stray())
                    },
                }
            } else {
                let (st, r) = if kw == at_error() {
                    sp_error_stmt(toks, p)
                } else {
                    sp_command(toks, p, kw)
                };
                if pos < r < toks.len() {
                    sp_body(toks, r, acc.push(st))
                } else {
                    Err(stray())
                }
            },
            SpecKind::RawValue(cmd) => {
                let (st, r) = sp_command(toks, p, cmd);
                if pos < r < toks.len() {
                    sp_body(toks, r, acc.push(st))
                } else {
                    Err(stray())
                }
            },
            _ => Err(syn(toks[p].line, "unexpected token inside block"@)),
        }
    }
}

pub open spec fn new_task(name: Seq<char>) -> SpecTask {
    SpecTask {
        name,
        description: None,
        deps: seq![],
        silent: false,
        ignore: false,
        body: seq![],
        is_default: false,
    }
}

/// The value that follows a directive at `q`, if any, and the position after it.
pub open spec fn directive_value(toks: Seq<SpecToken>, q: int) -> (Option<Seq<char>>, int) {
    match toks[q].kind {
        SpecKind::RawValue(v) => (Some(v), adv(toks, q)),
        _ => (None, q),
    }
}

/// What a task-body item at `p` (an identifier `kw`, not `if`) makes of the task.
pub open spec fn sp_task_word(toks: Seq<SpecToken>, p: int, kw: Seq<char>, acc: SpecTask) -> (
    SpecTask,
    int,
) {
    let q = adv(toks, p);
    if kw == "@desc"@ {
        let (v, q2) = directive_value(toks, q);
        let d = match v {
            Some(d) => d,
            None => seq![],
        };
        (SpecTask { description: Some(d), ..acc }, skip_nl(toks, q2))
    } else if kw == "@default"@ {
        (SpecTask { is_default: true, ..acc }, skip_nl(toks, q))
    } else if kw == "@deps"@ {
        let (v, q2) = directive_value(toks, q);
        let ds = match v {
            Some(d) => words(d),
            None => seq![],
        };
        (SpecTask { deps: acc.deps + ds, ..acc }, skip_nl(toks, q2))
    } else if kw == "@silent"@ {
        (SpecTask { silent: true, ..acc }, skip_nl(toks, q))
    } else if kw == "@ignore"@ {
        (SpecTask { ignore: true, ..acc }, skip_nl(toks, q))
    } else if kw == at_error() {
        let (st, r) = sp_error_stmt(toks, p);
        (SpecTask { body: acc.body.push(st), ..acc }, r)
    } else {
        let (st, r) = sp_command(toks, p, kw);
        (SpecTask { body: acc.body.push(st), ..acc }, r)
    }
}

/// The body of a task up to its `}`; `acc` is the task as parsed so far.
pub open spec fn sp_task_block(toks: Seq<SpecToken>, pos: int, acc: SpecTask) -> Result<
    (SpecTask, int),
    SpecSyntax,
>
    decreases toks.len() - pos,
{
    if !(0 <= pos < toks.len()) {
        Err(stray())
    } else {
        let p = skip_nl(toks, pos);
        match toks[p].kind {
            SpecKind::RBrace | SpecKind::Eof => Ok((acc, p)),
            SpecKind::Ident(kw) => if kw == w_if() {
                match sp_parse_if(toks, adv(toks, p), toks[p].line) {
                    Err(e) => Err(e),
                    Ok((st, r)) => if pos < r < toks.len() {
                        sp_task_block(toks, r, SpecTask { body: acc.body.push(st), ..acc })
                    } else {
                        Err(stray())
                    },
                }
            } else {
                let (t, r) = sp_task_word(toks, p, kw, acc);
                if pos < r < toks.len() {
                    sp_task_block(toks, r, t)
                } else {
                    Err(stray())
                }
            },
            SpecKind::RawValue(cmd) => {
                let (st, r) = sp_command(toks, p, cmd);
                if pos < r < toks.len() {
                    sp_task_block(toks, r, SpecTask { body: acc.body.push(st), ..acc })
                } else {
                    Err(stray())
                }
            },
            _ => Err(syn(toks[p].line, "unexpected token in task body"@)),
        }
    }
}

proof fn lemma_deps_word()
    ensures
        "@deps"@ != "@desc"@,
        "@deps"@ != "@default"@,
        "@deps"@ != w_if(),
{
    reveal_strlit("@deps");
    reveal_strlit("@desc");
    reveal_strlit("@default");
    assert("@deps"@[3] != "@desc"@[3]);
    assert("@deps"@.len() != "@default"@.len());
    assert("@deps"@.len() != w_if().len());
}

/// The dependencies of a task block add up: parsing a block from a task
/// that already has dependencies gives those dependencies followed by the
/// ones the block declares, and otherwise the same task and position as
/// parsing it from no dependencies. A later `@deps` line never drops what an
/// earlier one declared.
#[verifier::spinoff_prover]
pub proof fn law_deps_accumulate(toks: Seq<SpecToken>, pos: int, acc: SpecTask)
    ensures
        match sp_task_block(toks, pos, SpecTask { deps: seq![], ..acc }) {
            Ok((t, r)) => sp_task_block(toks, pos, acc) == Ok::<(SpecTask, int), SpecSyntax>(
                (SpecTask { deps: acc.deps + t.deps, ..t }, r),
            ),
            Err(e) => sp_task_block(toks, pos, acc) == Err::<(SpecTask, int), SpecSyntax>(e),
        },
    decreases toks.len() - pos,
{
    let b = SpecTask { deps: seq![], ..acc };
    if 0 <= pos < toks.len() {
        let p = skip_nl(toks, pos);
        lemma_skip_nl(toks, pos);
        match toks[p].kind {
            SpecKind::RBrace | SpecKind::Eof => {
                assert(acc == SpecTask { deps: acc.deps + b.deps, ..b }) by {
                    assert(acc.deps + b.deps =~= acc.deps);
                }
            },
            SpecKind::Ident(kw) => {
                if kw == w_if() {
                    match sp_parse_if(toks, adv(toks, p), toks[p].line) {
                        Err(e) => {},
                        Ok((st, r)) => {
                            if pos < r < toks.len() {
                                let a1 = SpecTask { body: acc.body.push(st), ..acc };
                                assert(SpecTask { deps: seq![], ..a1 } == SpecTask {
                                    body: b.body.push(st),
                                    ..b
                                });
                                law_deps_accumulate(toks, r, a1);
                            }
                        },
                    }
                } else {
                    let (ta, r) = sp_task_word(toks, p, kw, acc);
                    let (tb, rb) = sp_task_word(toks, p, kw, b);
                    assert(rb == r);
                    assert(ta == SpecTask { deps: acc.deps + tb.deps, ..tb }) by {
                        if kw == "@deps"@ {
                            lemma_deps_word();
                            let (v, q2) = directive_value(toks, adv(toks, p));
                            let ds = match v {
                                Some(d) => words(d),
                                None => seq![],
                            };
                            assert(seq![] + ds =~= ds);
                            assert(tb.deps =~= ds);
                        } else {
                            assert(acc.deps + tb.deps =~= acc.deps);
                        }
                    }
                    if pos < r < toks.len() {
                        law_deps_accumulate(toks, r, ta);
                        law_deps_accumulate(toks, r, tb);
                        assert(SpecTask { deps: seq![], ..ta } == SpecTask { deps: seq![], ..tb });
                        match sp_task_block(toks, r, SpecTask { deps: seq![], ..tb }) {
                            Ok((t, r2)) => {
                                assert(ta.deps + t.deps =~= acc.deps + (tb.deps + t.deps));
                            },
                            Err(e) => {},
                        }
                    }
                }
            },
            SpecKind::RawValue(cmd) => {
                let (st, r) = sp_command(toks, p, cmd);
                if pos < r < toks.len() {
                    let a1 = SpecTask { body: acc.body.push(st), ..acc };
                    assert(SpecTask { deps: seq![], ..a1 } == SpecTask { body: b.body.push(st), ..b });
                    law_deps_accumulate(toks, r, a1);
                }
            },
            _ => {},
        }
    }
}

/// A `@deps` line adds the whitespace-separated words of its value, in
/// order, to the dependencies declared before it, and the lines after it add
/// theirs behind them.
pub proof fn law_deps_directive_adds_its_words(
    toks: Seq<SpecToken>,
    pos: int,
    acc: SpecTask,
    v: Seq<char>,
)
    requires
        0 <= pos < toks.len(),
        toks[skip_nl(toks, pos)].kind == SpecKind::Ident("@deps"@),
        toks[adv(toks, skip_nl(toks, pos))].kind == SpecKind::RawValue(v),
        sp_task_block(toks, pos, acc) is Ok,
    ensures
        ({
            let r = skip_nl(toks, adv(toks, adv(toks, skip_nl(toks, pos))));
            sp_task_block(toks, pos, acc)->Ok_0.0.deps == acc.deps + words(v) + sp_task_block(
                toks,
                r,
                SpecTask { deps: seq![], ..acc },
            )->Ok_0.0.deps
        }),
{
    let p = skip_nl(toks, pos);
    lemma_skip_nl(toks, pos);
    let r = skip_nl(toks, adv(toks, adv(toks, p)));
    lemma_deps_word();
    let (ta, r1) = sp_task_word(toks, p, "@deps"@, acc);
    assert(r1 == r);
    assert(ta == SpecTask { deps: acc.deps + words(v), ..acc });
    assert(pos < r < toks.len());
    law_deps_accumulate(toks, r, ta);
    assert(SpecTask { deps: seq![], ..ta } == SpecTask { deps: seq![], ..acc });
}

/// A top-level item of a taskfile.
pub enum SpecItem {
    Assign { name: Seq<char>, value: Seq<char>, line: nat },
    TaskDef { task: SpecTask, line: nat },
}

/// How `Debug` writes a token kind.
pub open spec fn kind_debug(k: SpecKind) -> Seq<char> {
    match k {
        SpecKind::Ident(s) => "Ident("@ + str_debug(s) + ")"@,
        SpecKind::Equals => "Equals"@,
        SpecKind::LBrace => "LBrace"@,
        SpecKind::RBrace => "RBrace"@,
        SpecKind::EqEq => "EqEq"@,
        SpecKind::NotEq => "NotEq"@,
        SpecKind::RawValue(s) => "RawValue("@ + str_debug(s) + ")"@,
        SpecKind::Newline => "Newline"@,
        SpecKind::Eof => "Eof"@,
    }
}

/// The value of an assignment whose `=` is followed by the token at `q`.
pub open spec fn assigned_value(toks: Seq<SpecToken>, q: int) -> Result<(Seq<char>, int), SpecSyntax> {
    match toks[q].kind {
        SpecKind::RawValue(v) => Ok((v, adv(toks, q))),
        SpecKind::Newline | SpecKind::Eof => Ok((seq![], q)),
        _ => Err(syn(toks[q].line, "expected value after '='"@)),
    }
}

/// The top-level items from `pos` on, after the items `acc` already parsed.
pub open spec fn sp_items(toks: Seq<SpecToken>, pos: int, acc: Seq<SpecItem>) -> Result<
    Seq<SpecItem>,
    SpecSyntax,
>
    decreases toks.len() - pos,
{
    if !(0 <= pos < toks.len()) {
        Err(stray())
    } else {
        let p = skip_nl(toks, pos);
        match toks[p].kind {
            SpecKind::Eof => Ok(acc),
            SpecKind::Ident(name) => {
                let line = toks[p].line;
                if p + 1 < toks.len() && toks[p + 1].kind is Equals {
                    match assigned_value(toks, adv(toks, adv(toks, p))) {
                        Err(e) => Err(e),
                        Ok((value, q)) => match sp_expect_newline(toks, q) {
                            Err(e) => Err(e),
                            Ok(r) => if pos < r < toks.len() {
                                sp_items(toks, r, acc.push(SpecItem::Assign { name, value, line }))
                            } else {
                                Err(stray())
                            },
                        },
                    }
                } else {
                    match sp_expect_lbrace(toks, adv(toks, p)) {
                        Err(e) => Err(e),
                        Ok(q) => match sp_task_block(toks, q, new_task(name)) {
                            Err(e) => Err(e),
                            Ok((task, q2)) => match sp_expect_rbrace(toks, q2) {
                                Err(e) => Err(e),
                                Ok(r) => if pos < r < toks.len() {
                                    sp_items(toks, r, acc.push(SpecItem::TaskDef { task, line }))
                                } else {
                                    Err(stray())
                                },
                            },
                        },
                    }
                }
            },
            k => Err(syn(toks[p].line, "unexpected token at top level: "@ + kind_debug(k))),
        }
    }
}

/// The items parsed from `pos` on before the parse stops, after the items
/// `acc`: all of them when it succeeds, those before the error when it fails.
pub open spec fn sp_items_done(toks: Seq<SpecToken>, pos: int, acc: Seq<SpecItem>) -> Seq<
    SpecItem,
>
    decreases toks.len() - pos,
{
    if !(0 <= pos < toks.len()) {
        acc
    } else {
        let p = skip_nl(toks, pos);
        match toks[p].kind {
            SpecKind::Ident(name) => {
                let line = toks[p].line;
                if p + 1 < toks.len() && toks[p + 1].kind is Equals {
                    match assigned_value(toks, adv(toks, adv(toks, p))) {
                        Err(_) => acc,
                        Ok((value, q)) => match sp_expect_newline(toks, q) {
                            Err(_) => acc,
                            Ok(r) => if pos < r < toks.len() {
                                sp_items_done(
                                    toks,
                                    r,
                                    acc.push(SpecItem::Assign { name, value, line }),
                                )
                            } else {
                                acc
                            },
                        },
                    }
                } else {
                    match sp_expect_lbrace(toks, adv(toks, p)) {
                        Err(_) => acc,
                        Ok(q) => match sp_task_block(toks, q, new_task(name)) {
                            Err(_) => acc,
                            Ok((task, q2)) => match sp_expect_rbrace(toks, q2) {
                                Err(_) => acc,
                                Ok(r) => if pos < r < toks.len() {
                                    sp_items_done(toks, r, acc.push(SpecItem::TaskDef { task, line }))
                                } else {
                                    acc
                                },
                            },
                        },
                    }
                }
            },
            _ => acc,
        }
    }
}

// ---------------------------------------------------------------------------
// From items to a taskfile
// ---------------------------------------------------------------------------

pub open spec fn empty_taskfile() -> SpecTaskfile {
    SpecTaskfile {
        source_path: seq![],
        globals: seq![],
        global_order: seq![],
        tasks: seq![],
        default_task: None,
        warnings: seq![],
    }
}

pub open spec fn var_redefined_warning(name: Seq<char>, line: nat) -> Seq<char> {
    "variable '"@ + name + "' redefined at line "@ + decimal(line)
}

pub open spec fn task_redefined_warning(name: Seq<char>, line: nat) -> Seq<char> {
    "task '"@ + name + "' redefined at line "@ + decimal(line)
}

pub open spec fn empty_body_warning(name: Seq<char>) -> Seq<char> {
    "task '"@ + name + "' has an empty body"@
}

/// What one top-level item does to the taskfile parsed so far.
pub open spec fn apply_item(tf: SpecTaskfile, item: SpecItem) -> SpecTaskfile {
    match item {
        SpecItem::Assign { name, value, line } => if tf.global_order.contains(name) {
            SpecTaskfile {
                globals: tf.globals.push((name, value, line)),
                warnings: tf.warnings.push(var_redefined_warning(name, line)),
                ..tf
            }
        } else {
            SpecTaskfile {
                globals: tf.globals.push((name, value, line)),
                global_order: tf.global_order.push(name),
                ..tf
            }
        },
        SpecItem::TaskDef { task, line } => {
            let default_task = if task.is_default {
                Some(task.name)
            } else {
                tf.default_task
            };
            match task_index_from(tf.tasks, task.name, 0) {
                Some(i) => SpecTaskfile {
                    tasks: tf.tasks.update(i, task),
                    default_task,
                    warnings: tf.warnings.push(task_redefined_warning(task.name, line)),
                    ..tf
                },
                None => SpecTaskfile { tasks: tf.tasks.push(task), default_task, ..tf },
            }
        },
    }
}

/// The taskfile that a sequence of top-level items builds.
pub open spec fn fold_items(items: Seq<SpecItem>) -> SpecTaskfile
    decreases items.len(),
{
    if items.len() == 0 {
        empty_taskfile()
    } else {
        apply_item(fold_items(items.drop_last()), items.last())
    }
}

/// The warnings for the tasks that have neither a body nor dependencies.
pub open spec fn empty_body_warnings(tasks: Seq<SpecTask>) -> Seq<Seq<char>>
    decreases tasks.len(),
{
    if tasks.len() == 0 {
        seq![]
    } else {
        let w = if tasks.last().body.len() == 0 && tasks.last().deps.len() == 0 {
            seq![empty_body_warning(tasks.last().name)]
        } else {
            seq![]
        };
        empty_body_warnings(tasks.drop_last()) + w
    }
}

/// The warnings given before the syntax error of `source`, if it has one:
/// those of the variables and tasks redefined before the error.
pub open spec fn warnings_before_error(source: Seq<char>) -> Seq<Seq<char>> {
    fold_items(sp_items_done(spec_lex(source), 0, seq![])).warnings
}

/// The taskfile of `source`, read from `file`, or the syntax error found in it.
pub open spec fn spec_parse(source: Seq<char>, file: Seq<char>) -> Result<SpecTaskfile, SpecError> {
    match sp_items(spec_lex(source), 0, seq![]) {
        Ok(items) => {
            let tf = fold_items(items);
            Ok(
                SpecTaskfile {
                    source_path: file,
                    warnings: tf.warnings + empty_body_warnings(tf.tasks),
                    ..tf
                },
            )
        },
        Err(e) => Err(syntax_error(file, e)),
    }
}


// ---------------------------------------------------------------------------
// Implementation
// ---------------------------------------------------------------------------

/// Whether the text of `s` is `w`.
fn same_text(s: &String, w: &Vec<char>) -> (r: bool)
    ensures
        r == (s@ == w@),
{
    chars_eq(&chars_of(s.as_str()), w)
}

fn at_error_word() -> (r: Vec<char>)
    ensures
        r@ == at_error(),
{
    let r = vec!['@', 'e', 'r', 'r', 'o', 'r'];
    assert(r@ =~= at_error());
    r
}

/// The first index at or after `i` of a task named `name`.
pub open spec fn task_index_from(tasks: Seq<SpecTask>, name: Seq<char>, i: int) -> Option<int>
    decreases tasks.len() - i,
{
    if i < 0 || i >= tasks.len() {
        None
    } else if tasks[i].name == name {
        Some(i)
    } else {
        task_index_from(tasks, name, i + 1)
    }
}

struct Parser<'a> {
    tokens: &'a [Token],
    pos: usize,
    file: &'a str,
}

impl<'a> Parser<'a> {
    spec fn toks(&self) -> Seq<SpecToken> {
        toks_view(self.tokens@)
    }

    spec fn wf(&self) -> bool {
        wf_toks(self.toks()) && self.pos < self.tokens@.len()
    }

    spec fn same(&self, other: &Self) -> bool {
        self.tokens@ == other.tokens@ && self.file@ == other.file@
    }

    fn new(tokens: &'a [Token], file: &'a str) -> (p: Self)
        requires
            wf_toks(toks_view(tokens@)),
        ensures
            p.wf(),
            p.pos == 0,
            p.tokens@ == tokens@,
            p.file@ == file@,
    {
        Parser { tokens, pos: 0, file }
    }

    fn peek(&self) -> (t: &'a Token)
        requires
            self.wf(),
        ensures
            t@ == self.toks()[self.pos as int],
    {
        &self.tokens[self.pos]
    }

    /// Moves to the next token, but never past the last one (`Eof`); returns
    /// the token that was current.
    fn advance(&mut self) -> (t: &'a Token)
        requires
            old(self).wf(),
        ensures
            t@ == old(self).toks()[old(self).pos as int],
            final(self).wf(),
            final(self).same(old(self)),
            final(self).pos == adv(old(self).toks(), old(self).pos as int),
    {
        let t = &self.tokens[self.pos];
        if self.pos < self.tokens.len() - 1 {
            self.pos += 1;
        }
        t
    }

    fn skip_newlines(&mut self)
        requires
            old(self).wf(),
        ensures
            final(self).wf(),
            final(self).same(old(self)),
            final(self).pos == skip_nl(old(self).toks(), old(self).pos as int),
            !(final(self).toks()[final(self).pos as int].kind is Newline),
    {
        let ghost start = self.pos as int;
        proof {
            lemma_skip_nl(self.toks(), start);
        }
        loop
            invariant
                self.wf(),
                self.same(old(self)),
                start == old(self).pos,
                skip_nl(self.toks(), self.pos as int) == skip_nl(self.toks(), start),
            decreases self.tokens@.len() - self.pos,
        {
            let is_nl = match self.peek().kind {
                TokenKind::Newline => true,
                _ => false,
            };
            if !is_nl {
                assert(!(self.toks()[self.pos as int].kind is Newline));
                assert(skip_nl(self.toks(), self.pos as int) == self.pos as int);
                return ;
            }
            self.advance();
        }
    }

    fn syntax(&self, line: usize, msg: &str) -> (e: TskError)
        ensures
            e@ == syntax_error(self.file@, syn(line as nat, msg@)),
    {
        TskError::syntax(self.file.to_owned(), line, msg.to_owned())
    }

    fn expect_newline(&mut self) -> (r: Result<(), TskError>)
        requires
            old(self).wf(),
        ensures
            final(self).wf(),
            final(self).same(old(self)),
            final(self).pos >= old(self).pos,
            match r {
                Ok(_) => sp_expect_newline(old(self).toks(), old(self).pos as int) == Ok::<
                    int,
                    SpecSyntax,
                >(final(self).pos as int),
                Err(e) => sp_expect_newline(old(self).toks(), old(self).pos as int) matches Err(
                    se,
                ) && e@ == syntax_error(old(self).file@, se),
            },
    {
        let t = self.peek();
        match t.kind {
            TokenKind::Newline | TokenKind::Eof => {
                self.advance();
                Ok(())
            },
            _ => Err(self.syntax(t.line, "expected newline")),
        }
    }

    /// Skips newlines and expects `{`, then skips the newlines after it.
    /// Returns the line of the brace; on another token, the position is left
    /// at that token.
    fn expect_lbrace(&mut self) -> (r: Result<usize, TskError>)
        requires
            old(self).wf(),
        ensures
            final(self).wf(),
            final(self).same(old(self)),
            final(self).pos >= old(self).pos,
            match r {
                Ok(line) => sp_expect_lbrace(old(self).toks(), old(self).pos as int) == Ok::<
                    int,
                    SpecSyntax,
                >(final(self).pos as int) && final(self).pos > old(self).pos && line
                    == old(self).toks()[skip_nl(old(self).toks(), old(self).pos as int)].line,
                Err(e) => sp_expect_lbrace(old(self).toks(), old(self).pos as int) matches Err(
                    se,
                ) && e@ == syntax_error(old(self).file@, se) && final(self).pos == skip_nl(
                    old(self).toks(),
                    old(self).pos as int,
                ),
            },
    {
        proof {
            lemma_skip_nl(self.toks(), self.pos as int);
        }
        self.skip_newlines();
        let t = self.peek();
        match t.kind {
            TokenKind::LBrace => {
                proof {
                    lemma_skip_nl(old(self).toks(), old(self).pos as int);
                }
                self.advance();
                proof {
                    lemma_skip_nl(self.toks(), self.pos as int);
                }
                self.skip_newlines();
                Ok(t.line)
            },
            _ => Err(self.syntax(t.line, "expected '{'")),
        }
    }

    fn expect_rbrace(&mut self) -> (r: Result<(), TskError>)
        requires
            old(self).wf(),
        ensures
            final(self).wf(),
            final(self).same(old(self)),
            final(self).pos >= old(self).pos,
            match r {
                Ok(_) => sp_expect_rbrace(old(self).toks(), old(self).pos as int) == Ok::<
                    int,
                    SpecSyntax,
                >(final(self).pos as int) && final(self).pos > old(self).pos,
                Err(e) => sp_expect_rbrace(old(self).toks(), old(self).pos as int) matches Err(
                    se,
                ) && e@ == syntax_error(old(self).file@, se) && final(self).pos == skip_nl(
                    old(self).toks(),
                    old(self).pos as int,
                ),
            },
    {
        proof {
            lemma_skip_nl(self.toks(), self.pos as int);
        }
        self.skip_newlines();
        let t = self.peek();
        match t.kind {
            TokenKind::RBrace => {
                proof {
                    lemma_skip_nl(old(self).toks(), old(self).pos as int);
                }
                self.advance();
                proof {
                    lemma_skip_nl(self.toks(), self.pos as int);
                }
                self.skip_newlines();
                Ok(())
            },
            _ => Err(self.syntax(t.line, "expected '}'")),
        }
    }

    fn expect_raw_value(&mut self) -> (r: Result<String, TskError>)
        requires
            old(self).wf(),
        ensures
            final(self).wf(),
            final(self).same(old(self)),
            final(self).pos >= old(self).pos,
            match r {
                Ok(v) => sp_expect_raw_value(old(self).toks(), old(self).pos as int) == Ok::<
                    (Seq<char>, int),
                    SpecSyntax,
                >((v@, final(self).pos as int)),
                Err(e) => sp_expect_raw_value(old(self).toks(), old(self).pos as int) matches Err(
                    se,
                ) && e@ == syntax_error(old(self).file@, se),
            },
    {
        let t = self.peek();
        match &t.kind {
            TokenKind::RawValue(v) => {
                let v = v.clone();
                self.advance();
                Ok(v)
            },
            _ => Err(self.syntax(t.line, "expected value")),
        }
    }

    fn parse_condition(&mut self, if_line: usize) -> (r: Result<Condition, TskError>)
        requires
            old(self).wf(),
        ensures
            final(self).wf(),
            final(self).same(old(self)),
            final(self).pos >= old(self).pos,
            match r {
                Ok(c) => sp_parse_condition(
                    old(self).toks(),
                    old(self).pos as int,
                    if_line as nat,
                ) == Ok::<(SpecCondition, int), SpecSyntax>((c@, final(self).pos as int)),
                Err(e) => sp_parse_condition(
                    old(self).toks(),
                    old(self).pos as int,
                    if_line as nat,
                ) matches Err(se) && e@ == syntax_error(old(self).file@, se),
            },
    {
        let lhs_tok = self.peek();
        let lhs = match &lhs_tok.kind {
            TokenKind::RawValue(v) => {
                let v = v.clone();
                self.advance();
                v
            },
            TokenKind::LBrace => {
                let one = string_from_chars(&vec!['1']);
                assert(one@ =~= seq!['1']);
                return Ok(Condition::Truthy(one));
            },
            _ => {
                return Err(self.syntax(if_line, "expected condition after 'if'"));
            },
        };
        let t = self.peek();
        match t.kind {
            TokenKind::EqEq => {
                self.advance();
                match self.expect_raw_value() {
                    Ok(rhs) => Ok(Condition::Eq(lhs, rhs)),
                    Err(e) => Err(e),
                }
            },
            TokenKind::NotEq => {
                self.advance();
                match self.expect_raw_value() {
                    Ok(rhs) => Ok(Condition::NotEq(lhs, rhs)),
                    Err(e) => Err(e),
                }
            },
            TokenKind::LBrace | TokenKind::Newline => Ok(Condition::Truthy(lhs)),
            _ => Err(self.syntax(if_line, "expected '==', '!=', or '{'")),
        }
    }

    /// `@error` at the current token.
    fn parse_error_directive(&mut self) -> (r: Statement)
        requires
            old(self).wf(),
            !(old(self).toks()[old(self).pos as int].kind is Eof),
        ensures
            final(self).wf(),
            final(self).same(old(self)),
            final(self).pos > old(self).pos,
            (stmt_view(r), final(self).pos as int) == sp_error_stmt(
                old(self).toks(),
                old(self).pos as int,
            ),
    {
        let line = self.peek().line;
        proof {
            lemma_not_last(self.toks(), self.pos as int);
        }
        self.advance();
        let t = self.peek();
        match &t.kind {
            TokenKind::RawValue(m) => {
                let m = m.clone();
                self.advance();
                proof {
                    lemma_skip_nl(self.toks(), self.pos as int);
                }
                self.skip_newlines();
                Statement::Error { message: m, line }
            },
            _ => {
                proof {
                    lemma_skip_nl(self.toks(), self.pos as int);
                }
                self.skip_newlines();
                let e = string_from_chars(&Vec::new());
                assert(e@ =~= seq![]);
                Statement::Error { message: e, line }
            },
        }
    }

    /// A command made of the current token's text.
    fn parse_command(&mut self, raw: String) -> (r: Statement)
        requires
            old(self).wf(),
            !(old(self).toks()[old(self).pos as int].kind is Eof),
        ensures
            final(self).wf(),
            final(self).same(old(self)),
            final(self).pos > old(self).pos,
            (stmt_view(r), final(self).pos as int) == sp_command(
                old(self).toks(),
                old(self).pos as int,
                raw@,
            ),
    {
        let line = self.peek().line;
        proof {
            lemma_not_last(self.toks(), self.pos as int);
        }
        self.advance();
        proof {
            lemma_skip_nl(self.toks(), self.pos as int);
        }
        self.skip_newlines();
        Statement::Command { raw, line }
    }

    fn parse_if(&mut self, if_line: usize) -> (r: Result<Statement, TskError>)
        requires
            old(self).wf(),
        ensures
            final(self).wf(),
            final(self).same(old(self)),
            final(self).pos >= old(self).pos,
            match r {
                Ok(st) => sp_parse_if(old(self).toks(), old(self).pos as int, if_line as nat)
                    == Ok::<(SpecStatement, int), SpecSyntax>((stmt_view(st), final(self).pos as int))
                    && final(self).pos > old(self).pos,
                Err(e) => sp_parse_if(old(self).toks(), old(self).pos as int, if_line as nat) matches Err(
                    se,
                ) && e@ == syntax_error(old(self).file@, se),
            },
        decreases self.tokens@.len() - self.pos, 1int,
    {
        let ghost toks = self.toks();
        let ghost start = self.pos as int;
        let condition = match self.parse_condition(if_line) {
            Ok(c) => c,
            Err(e) => return Err(e),
        };
        match self.expect_lbrace() {
            Ok(_) => {},
            Err(e) => return Err(e),
        }
        let then_body = match self.parse_body_until_rbrace() {
            Ok(b) => b,
            Err(e) => return Err(e),
        };
        match self.expect_rbrace() {
            Ok(_) => {},
            Err(e) => return Err(e),
        }
        match self.parse_else_chain() {
            Ok((else_ifs, else_body)) => Ok(
                Statement::If { condition, then_body, else_ifs, else_body, line: if_line },
            ),
            Err(e) => Err(e),
        }
    }

    /// The `else if` and `else` parts after an `if` block.
    fn parse_else_chain(&mut self) -> (r: Result<(Vec<ElseIf>, Vec<Statement>), TskError>)
        requires
            old(self).wf(),
        ensures
            final(self).wf(),
            final(self).same(old(self)),
            final(self).pos >= old(self).pos,
            match r {
                Ok((ei, eb)) => sp_else_chain(old(self).toks(), old(self).pos as int, seq![])
                    == Ok::<
                    (Seq<(SpecCondition, Seq<SpecStatement>)>, Seq<SpecStatement>, int),
                    SpecSyntax,
                >((else_ifs_view(ei@), stmts_view(eb@), final(self).pos as int)),
                Err(e) => sp_else_chain(old(self).toks(), old(self).pos as int, seq![]) matches Err(
                    se,
                ) && e@ == syntax_error(old(self).file@, se),
            },
        decreases self.tokens@.len() - self.pos, 3int,
    {
        let ghost toks = self.toks();
        let ghost start = self.pos as int;
        let mut else_ifs: Vec<ElseIf> = Vec::new();
        assert(else_ifs_view(else_ifs@) =~= seq![]);
        loop
            invariant
                self.wf(),
                self.same(old(self)),
                toks == self.toks(),
                start == old(self).pos,
                start <= self.pos,
                sp_else_chain(toks, start, seq![]) == sp_else_chain(
                    toks,
                    self.pos as int,
                    else_ifs_view(else_ifs@),
                ),
            decreases self.tokens@.len() - self.pos,
        {
            let t = self.peek();
            let is_else = match &t.kind {
                TokenKind::Ident(k) => same_text(k, &else_word()),
                _ => false,
            };
            if !is_else {
                let empty: Vec<Statement> = Vec::new();
                assert(stmts_view(empty@) =~= seq![]);
                return Ok((else_ifs, empty));
            }
            let else_line = t.line;
            self.advance();
            let t2 = self.peek();
            let is_else_if = match &t2.kind {
                TokenKind::Ident(k) => same_text(k, &if_word()),
                _ => false,
            };
            if is_else_if {
                self.advance();
                let cond = match self.parse_condition(else_line) {
                    Ok(c) => c,
                    Err(e) => return Err(e),
                };
                match self.expect_lbrace() {
                    Ok(_) => {},
                    Err(e) => return Err(e),
                }
                let body = match self.parse_body_until_rbrace() {
                    Ok(b) => b,
                    Err(e) => return Err(e),
                };
                match self.expect_rbrace() {
                    Ok(_) => {},
                    Err(e) => return Err(e),
                }
                let ei = ElseIf { condition: cond, body };
                proof {
                    lemma_else_ifs_view_push(else_ifs@, ei);
                }
                else_ifs.push(ei);
            } else {
                match self.expect_lbrace() {
                    Ok(_) => {},
                    Err(e) => return Err(e),
                }
                let else_body = match self.parse_body_until_rbrace() {
                    Ok(b) => b,
                    Err(e) => return Err(e),
                };
                match self.expect_rbrace() {
                    Ok(_) => {},
                    Err(e) => return Err(e),
                }
                return Ok((else_ifs, else_body));
            }
        }
    }

    /// Applies the directive or command word `kw` (not `if`) at the current token to `task`.
    fn parse_task_word(&mut self, kw: &String, task: &mut Task)
        requires
            old(self).wf(),
            old(self).toks()[old(self).pos as int].kind == SpecKind::Ident(kw@),
        ensures
            final(self).wf(),
            final(self).same(old(self)),
            final(self).pos > old(self).pos,
            final(task).name == old(task).name,
            (final(task)@, final(self).pos as int) == sp_task_word(
                old(self).toks(),
                old(self).pos as int,
                kw@,
                old(task)@,
            ),
    {
        let ghost toks = self.toks();
        let ghost p = self.pos as int;
        proof {
            lemma_not_last(toks, p);
        }
        if same_text(kw, &chars_of("@desc")) {
            self.advance();
            let d = match &self.peek().kind {
                TokenKind::RawValue(v) => {
                    let v = v.clone();
                    self.advance();
                    v
                },
                _ => {
                    let e = string_from_chars(&Vec::new());
                    assert(e@ =~= seq![]);
                    e
                },
            };
            task.description = Some(d);
            proof {
                lemma_skip_nl(self.toks(), self.pos as int);
            }
            self.skip_newlines();
        } else if same_text(kw, &chars_of("@default")) {
            self.advance();
            task.is_default = true;
            proof {
                lemma_skip_nl(self.toks(), self.pos as int);
            }
            self.skip_newlines();
        } else if same_text(kw, &chars_of("@deps")) {
            self.advance();
            let ghost before = strings_view(task.deps@);
            let ghost q = self.pos as int;
            match &self.peek().kind {
                TokenKind::RawValue(v) => {
                    let ws = split_words(&chars_of(v.as_str()));
                    let mut i: usize = 0;
                    while i < ws.len()
                        invariant
                            i <= ws@.len(),
                            ws@.len() == words(v@).len(),
                            forall|k: int| 0 <= k < ws@.len() ==> #[trigger] ws@[k]@ == words(v@)[k],
                            strings_view(task.deps@) == before + words(v@).take(i as int),
                            task.name == old(task).name,
                            task.description == old(task).description,
                            task.flags == old(task).flags,
                            task.body == old(task).body,
                            task.is_default == old(task).is_default,
                        decreases ws@.len() - i,
                    {
                        let dep = string_from_chars(&ws[i]);
                        let ghost prev = task.deps@;
                        assert(dep@ == words(v@)[i as int]);
                        task.deps.push(dep);
                        assert(strings_view(task.deps@) =~= strings_view(prev).push(dep@));
                        assert(words(v@).take(i + 1) =~= words(v@).take(i as int).push(
                            words(v@)[i as int],
                        ));
                        i += 1;
                    }
                    assert(words(v@).take(ws@.len() as int) =~= words(v@));
                    self.advance();
                },
                _ => {
                    assert(strings_view(task.deps@) =~= before + seq![]);
                },
            }
            proof {
                lemma_skip_nl(self.toks(), self.pos as int);
            }
            self.skip_newlines();
        } else if same_text(kw, &chars_of("@silent")) {
            self.advance();
            task.flags.silent = true;
            proof {
                lemma_skip_nl(self.toks(), self.pos as int);
            }
            self.skip_newlines();
        } else if same_text(kw, &chars_of("@ignore")) {
            self.advance();
            task.flags.ignore = true;
            proof {
                lemma_skip_nl(self.toks(), self.pos as int);
            }
            self.skip_newlines();
        } else if same_text(kw, &at_error_word()) {
            let st = self.parse_error_directive();
            proof {
                lemma_stmts_view_push(task.body@, st);
            }
            task.body.push(st);
        } else {
            let st = self.parse_command(kw.clone());
            proof {
                lemma_stmts_view_push(task.body@, st);
            }
            task.body.push(st);
        }
    }

    fn parse_task_block(&mut self, name: &str, _task_line: usize) -> (r: Result<Task, TskError>)
        requires
            old(self).wf(),
        ensures
            final(self).wf(),
            final(self).same(old(self)),
            final(self).pos >= old(self).pos,
            match r {
                Ok(t) => sp_task_block(old(self).toks(), old(self).pos as int, new_task(name@))
                    == Ok::<(SpecTask, int), SpecSyntax>((t@, final(self).pos as int)) && t.name@
                    == name@,
                Err(e) => sp_task_block(old(self).toks(), old(self).pos as int, new_task(name@))
                    matches Err(se) && e@ == syntax_error(old(self).file@, se),
            },
    {
        let ghost toks = self.toks();
        let ghost start = self.pos as int;
        let mut task = Task {
            name: name.to_owned(),
            description: None,
            deps: Vec::new(),
            flags: TaskFlags { silent: false, ignore: false },
            body: Vec::new(),
            is_default: false,
        };
        assert(stmts_view(task.body@) =~= seq![]);
        assert(strings_view(task.deps@) =~= seq![]);
        assert(task@ == new_task(name@));
        loop
            invariant
                self.wf(),
                self.same(old(self)),
                toks == self.toks(),
                start == old(self).pos,
                start <= self.pos,
                task.name@ == name@,
                sp_task_block(toks, start, new_task(name@)) == sp_task_block(
                    toks,
                    self.pos as int,
                    task@,
                ),
            decreases self.tokens@.len() - self.pos,
        {
            let ghost cur = self.pos as int;
            proof {
                lemma_skip_nl(toks, cur);
            }
            self.skip_newlines();
            let t = self.peek();
            match &t.kind {
                TokenKind::RBrace | TokenKind::Eof => {
                    return Ok(task);
                },
                TokenKind::Ident(kw) => {
                    if same_text(kw, &if_word()) {
                        let if_line = t.line;
                        self.advance();
                        let st = match self.parse_if(if_line) {
                            Ok(st) => st,
                            Err(e) => return Err(e),
                        };
                        proof {
                            lemma_stmts_view_push(task.body@, st);
                        }
                        task.body.push(st);
                    } else {
                        self.parse_task_word(kw, &mut task);
                    }
                },
                TokenKind::RawValue(cmd) => {
                    let st = self.parse_command(cmd.clone());
                    proof {
                        lemma_stmts_view_push(task.body@, st);
                    }
                    task.body.push(st);
                },
                _ => {
                    return Err(self.syntax(t.line, "unexpected token in task body"));
                },
            }
        }
    }

    fn parse_body_until_rbrace(&mut self) -> (r: Result<Vec<Statement>, TskError>)
        requires
            old(self).wf(),
        ensures
            final(self).wf(),
            final(self).same(old(self)),
            final(self).pos >= old(self).pos,
            match r {
                Ok(v) => sp_body(old(self).toks(), old(self).pos as int, seq![]) == Ok::<
                    (Seq<SpecStatement>, int),
                    SpecSyntax,
                >((stmts_view(v@), final(self).pos as int)),
                Err(e) => sp_body(old(self).toks(), old(self).pos as int, seq![]) matches Err(se)
                    && e@ == syntax_error(old(self).file@, se),
            },
        decreases self.tokens@.len() - self.pos, 2int,
    {
        let ghost toks = self.toks();
        let ghost start = self.pos as int;
        let mut stmts: Vec<Statement> = Vec::new();
        assert(stmts_view(stmts@) =~= seq![]);
        loop
            invariant
                self.wf(),
                self.same(old(self)),
                toks == self.toks(),
                start == old(self).pos,
                start <= self.pos,
                sp_body(toks, start, seq![]) == sp_body(toks, self.pos as int, stmts_view(stmts@)),
            decreases self.tokens@.len() - self.pos,
        {
            let ghost cur = self.pos as int;
            proof {
                lemma_skip_nl(toks, cur);
            }
            self.skip_newlines();
            let t = self.peek();
            match &t.kind {
                TokenKind::RBrace | TokenKind::Eof => {
                    return Ok(stmts);
                },
                TokenKind::Ident(kw) => {
                    if same_text(kw, &if_word()) {
                        let line = t.line;
                        self.advance();
                        let st = match self.parse_if(line) {
                            Ok(st) => st,
                            Err(e) => return Err(e),
                        };
                        proof {
                            lemma_stmts_view_push(stmts@, st);
                        }
                        stmts.push(st);
                    } else if same_text(kw, &at_error_word()) {
                        let st = self.parse_error_directive();
                        proof {
                            lemma_stmts_view_push(stmts@, st);
                        }
                        stmts.push(st);
                    } else {
                        let st = self.parse_command(kw.clone());
                        proof {
                            lemma_stmts_view_push(stmts@, st);
                        }
                        stmts.push(st);
                    }
                },
                TokenKind::RawValue(cmd) => {
                    let st = self.parse_command(cmd.clone());
                    proof {
                        lemma_stmts_view_push(stmts@, st);
                    }
                    stmts.push(st);
                },
                _ => {
                    return Err(self.syntax(t.line, "unexpected token inside block"));
                },
            }
        }
    }

    fn syntax_owned(&self, line: usize, msg: String) -> (e: TskError)
        ensures
            e@ == syntax_error(self.file@, syn(line as nat, msg@)),
    {
        TskError::syntax(self.file.to_owned(), line, msg)
    }

    fn parse_taskfile(&mut self) -> (r: Result<Taskfile, (TskError, Vec<String>)>)
        requires
            old(self).wf(),
        ensures
            final(self).wf(),
            final(self).same(old(self)),
            match r {
                Ok(tf) => sp_items(old(self).toks(), old(self).pos as int, seq![]) matches Ok(items)
                    && tf@ == (SpecTaskfile { source_path: old(self).file@, ..fold_items(items) }),
                Err((e, w)) => sp_items(old(self).toks(), old(self).pos as int, seq![]) matches Err(
                    se,
                ) && e@ == syntax_error(old(self).file@, se) && strings_view(w@) == fold_items(
                    sp_items_done(old(self).toks(), old(self).pos as int, seq![]),
                ).warnings,
            },
    {
        let ghost toks = self.toks();
        let ghost start = self.pos as int;
        let mut globals: Vec<(String, String, usize)> = Vec::new();
        let mut global_order: Vec<String> = Vec::new();
        let mut tasks: Vec<Task> = Vec::new();
        let mut default_task: Option<String> = None;
        let mut warnings: Vec<String> = Vec::new();
        let ghost mut items: Seq<SpecItem> = seq![];
        assert(state_view(&globals, &global_order, &tasks, &default_task, &warnings)
            =~= fold_items(items));
        loop
            invariant
                self.wf(),
                self.same(old(self)),
                toks == self.toks(),
                start == old(self).pos,
                start <= self.pos,
                sp_items(toks, start, seq![]) == sp_items(toks, self.pos as int, items),
                sp_items_done(toks, start, seq![]) == sp_items_done(toks, self.pos as int, items),
                state_view(&globals, &global_order, &tasks, &default_task, &warnings)
                    == fold_items(items),
            decreases self.tokens@.len() - self.pos,
        {
            let ghost cur = self.pos as int;
            proof {
                lemma_skip_nl(toks, cur);
            }
            self.skip_newlines();
            let t = self.peek();
            match &t.kind {
                TokenKind::Eof => {
                    let tf = Taskfile {
                        source_path: self.file.to_owned(),
                        globals,
                        global_order,
                        tasks,
                        default_task,
                        warnings,
                    };
                    return Ok(tf);
                },
                TokenKind::Ident(kw) => {
                    let name = kw.clone();
                    let var_line = t.line;
                    let is_assignment = self.pos < self.tokens.len() - 1 && match self.tokens[self.pos
                        + 1].kind {
                        TokenKind::Equals => true,
                        _ => false,
                    };
                    if is_assignment {
                        self.advance();
                        self.advance();
                        let vt = self.peek();
                        let value = match &vt.kind {
                            TokenKind::RawValue(v) => {
                                let v = v.clone();
                                self.advance();
                                v
                            },
                            TokenKind::Newline | TokenKind::Eof => {
                                let e = string_from_chars(&Vec::new());
                                assert(e@ =~= seq![]);
                                e
                            },
                            _ => {
                                return Err((self.syntax(vt.line, "expected value after '='"), warnings));
                            },
                        };
                        match self.expect_newline() {
                            Ok(_) => {},
                            Err(e) => return Err((e, warnings)),
                        }
                        let ghost item = SpecItem::Assign {
                            name: name@,
                            value: value@,
                            line: var_line as nat,
                        };
                        let ghost before = state_view(
                            &globals,
                            &global_order,
                            &tasks,
                            &default_task,
                            &warnings,
                        );
                        if contains_name(&global_order, &name) {
                            warnings.push(var_redefined(&name, var_line));
                        } else {
                            global_order.push(name.clone());
                        }
                        globals.push((name, value, var_line));
                        proof {
                            assert(items.push(item).drop_last() =~= items);
                            items = items.push(item);
                        }
                        assert(state_view(&globals, &global_order, &tasks, &default_task, &warnings)
                            =~= apply_item(before, item));
                    } else {
                        self.advance();
                        match self.expect_lbrace() {
                            Ok(_) => {},
                            Err(e) => return Err((e, warnings)),
                        }
                        let task = match self.parse_task_block(name.as_str(), var_line) {
                            Ok(task) => task,
                            Err(e) => return Err((e, warnings)),
                        };
                        match self.expect_rbrace() {
                            Ok(_) => {},
                            Err(e) => return Err((e, warnings)),
                        }
                        let ghost item = SpecItem::TaskDef { task: task@, line: var_line as nat };
                        let ghost before = state_view(
                            &globals,
                            &global_order,
                            &tasks,
                            &default_task,
                            &warnings,
                        );
                        if task.is_default {
                            default_task = Some(name.clone());
                        }
                        let ghost old_tasks = tasks@;
                        let ghost old_warnings = warnings@;
                        let ghost tv = task@;
                        match find_task(&tasks, &name) {
                            Some(i) => {
                                let w = task_redefined(&name, var_line);
                                warnings.push(w);
                                assert(strings_view(warnings@) =~= strings_view(old_warnings).push(
                                    w@,
                                ));
                                tasks.set(i, task);
                                assert(tasks_view(tasks@) =~= tasks_view(old_tasks).update(
                                    i as int,
                                    tv,
                                ));
                            },
                            None => {
                                tasks.push(task);
                                assert(tasks_view(tasks@) =~= tasks_view(old_tasks).push(tv));
                            },
                        }
                        proof {
                            assert(items.push(item).drop_last() =~= items);
                            items = items.push(item);
                        }
                        assert(state_view(&globals, &global_order, &tasks, &default_task, &warnings)
                            =~= apply_item(before, item));
                    }
                },
                _ => {
                    let mut msg = chars_of("unexpected token at top level: ");
                    append(&mut msg, &kind_debug_chars(&t.kind));
                    return Err((self.syntax_owned(t.line, string_from_chars(&msg)), warnings));
                },
            }
        }
    }
}

/// The taskfile that the parsed parts make (its source path left empty).
pub open spec fn state_view(
    globals: &Vec<(String, String, usize)>,
    global_order: &Vec<String>,
    tasks: &Vec<Task>,
    default_task: &Option<String>,
    warnings: &Vec<String>,
) -> SpecTaskfile {
    SpecTaskfile {
        source_path: seq![],
        globals: globals_view(globals@),
        global_order: strings_view(global_order@),
        tasks: tasks_view(tasks@),
        default_task: opt_str_view(*default_task),
        warnings: strings_view(warnings@),
    }
}

/// Whether a variable called `name` is among `names`.
pub fn contains_name(names: &Vec<String>, name: &String) -> (r: bool)
    ensures
        r == strings_view(names@).contains(name@),
{
    let mut i: usize = 0;
    while i < names.len()
        invariant
            i <= names@.len(),
            forall|k: int| 0 <= k < i ==> names@[k]@ != name@,
        decreases names@.len() - i,
    {
        if names[i] == *name {
            assert(strings_view(names@)[i as int] == name@);
            return true;
        }
        i += 1;
    }
    assert forall|k: int| 0 <= k < strings_view(names@).len() implies strings_view(names@)[k]
        != name@ by {
        assert(strings_view(names@)[k] == names@[k]@);
    }
    false
}

/// The index of the task named `name`.
pub fn find_task(tasks: &Vec<Task>, name: &String) -> (r: Option<usize>)
    ensures
        match r {
            Some(i) => task_index_from(tasks_view(tasks@), name@, 0) == Some(i as int) && i
                < tasks@.len(),
            None => task_index_from(tasks_view(tasks@), name@, 0) is None,
        },
{
    let mut i: usize = 0;
    while i < tasks.len()
        invariant
            i <= tasks@.len(),
            task_index_from(tasks_view(tasks@), name@, 0) == task_index_from(
                tasks_view(tasks@),
                name@,
                i as int,
            ),
        decreases tasks@.len() - i,
    {
        if tasks[i].name == *name {
            return Some(i);
        }
        i += 1;
    }
    None
}

fn var_redefined(name: &String, line: usize) -> (r: String)
    ensures
        r@ == var_redefined_warning(name@, line as nat),
{
    let mut m = chars_of("variable '");
    append(&mut m, &chars_of(name.as_str()));
    append(&mut m, &chars_of("' redefined at line "));
    append(&mut m, &usize_decimal(line));
    string_from_chars(&m)
}

fn task_redefined(name: &String, line: usize) -> (r: String)
    ensures
        r@ == task_redefined_warning(name@, line as nat),
{
    let mut m = chars_of("task '");
    append(&mut m, &chars_of(name.as_str()));
    append(&mut m, &chars_of("' redefined at line "));
    append(&mut m, &usize_decimal(line));
    string_from_chars(&m)
}

fn empty_body(name: &String) -> (r: String)
    ensures
        r@ == empty_body_warning(name@),
{
    let mut m = chars_of("task '");
    append(&mut m, &chars_of(name.as_str()));
    append(&mut m, &chars_of("' has an empty body"));
    string_from_chars(&m)
}

/// How `Debug` writes a token kind.
fn kind_debug_chars(k: &TokenKind) -> (r: Vec<char>)
    ensures
        r@ == kind_debug(k@),
{
    match k {
        TokenKind::Ident(s) => {
            let mut m = chars_of("Ident(");
            append(&mut m, &chars_of(debug_quoted(s.as_str()).as_str()));
            append(&mut m, &chars_of(")"));
            m
        },
        TokenKind::Equals => chars_of("Equals"),
        TokenKind::LBrace => chars_of("LBrace"),
        TokenKind::RBrace => chars_of("RBrace"),
        TokenKind::EqEq => chars_of("EqEq"),
        TokenKind::NotEq => chars_of("NotEq"),
        TokenKind::RawValue(s) => {
            let mut m = chars_of("RawValue(");
            append(&mut m, &chars_of(debug_quoted(s.as_str()).as_str()));
            append(&mut m, &chars_of(")"));
            m
        },
        TokenKind::Newline => chars_of("Newline"),
        TokenKind::Eof => chars_of("Eof"),
    }
}

/// A taskfile that does not parse: the syntax error, and the warnings given
/// before it.
pub struct ParseError {
    pub error: TskError,
    pub warnings: Vec<String>,
}

/// The model of a parse result.
pub open spec fn parse_result_view(r: Result<Taskfile, ParseError>) -> Result<SpecTaskfile, SpecError> {
    match r {
        Ok(tf) => Ok(tf@),
        Err(pe) => Err(pe.error@),
    }
}

/// Parses the taskfile `source`, read from `file`. Warnings (redefined
/// variables and tasks, tasks with neither a body nor dependencies) are
/// collected in the result's `warnings`; on a syntax error, the error comes
/// with the warnings given before it.
pub fn parse(source: &str, file: &str) -> (r: Result<Taskfile, ParseError>)
    requires
        source@.len() < usize::MAX,
    ensures
        parse_result_view(r) == spec_parse(source@, file@),
        r matches Ok(tf) ==> taskfile_wf(tf@, file@),
        r matches Err(pe) ==> strings_view(pe.warnings@) == warnings_before_error(source@),
{
    let tokens = lex(source);
    proof {
        lemma_spec_lex_ends_with_eof(source@);
    }
    let mut parser = Parser::new(tokens.as_slice(), file);
    let mut taskfile = match parser.parse_taskfile() {
        Ok(tf) => tf,
        Err((error, warnings)) => return Err(ParseError { error, warnings }),
    };
    let ghost base = taskfile@;
    let mut i: usize = 0;
    while i < taskfile.tasks.len()
        invariant
            i <= taskfile.tasks@.len(),
            taskfile@ == (SpecTaskfile {
                warnings: base.warnings + empty_body_warnings(base.tasks.take(i as int)),
                ..base
            }),
        decreases taskfile.tasks@.len() - i,
    {
        let t = &taskfile.tasks[i];
        let ghost st = taskfile@.tasks[i as int];
        assert(st == t@);
        assert(base.tasks.take(i + 1).drop_last() =~= base.tasks.take(i as int));
        assert(base.tasks.take(i + 1).last() == st);
        if t.body.len() == 0 && t.deps.len() == 0 {
            assert(t.body@ =~= seq![]);
            assert(st.body.len() == 0);
            assert(st.deps.len() == 0);
            assert(empty_body_warnings(base.tasks.take(i + 1)) == empty_body_warnings(
                base.tasks.take(i as int),
            ) + seq![empty_body_warning(st.name)]);
            let ghost old_w = taskfile.warnings@;
            let w = empty_body(&t.name);
            taskfile.warnings.push(w);
            assert(strings_view(taskfile.warnings@) =~= strings_view(old_w).push(w@));
            assert(strings_view(taskfile.warnings@) =~= base.warnings + empty_body_warnings(
                base.tasks.take(i + 1),
            ));
        } else {
            assert(st.body.len() > 0 || st.deps.len() > 0);
            assert(empty_body_warnings(base.tasks.take(i + 1)) =~= empty_body_warnings(
                base.tasks.take(i as int),
            ));
        }
        i += 1;
    }
    assert(base.tasks.take(taskfile.tasks@.len() as int) =~= base.tasks);
    proof {
        law_parsed_taskfile_well_formed(source@, file@);
    }
    Ok(taskfile)
}

// ---------------------------------------------------------------------------
// Properties of a parsed taskfile
// ---------------------------------------------------------------------------

/// The top-level items of `source` (variable assignments and task blocks), in
/// source order, when it parses.
pub open spec fn source_items(source: Seq<char>) -> Seq<SpecItem> {
    sp_items(spec_lex(source), 0, seq![])->Ok_0
}

/// Whether `item` is a task block marked `@default`.
pub open spec fn is_default_block(item: SpecItem) -> bool {
    item matches SpecItem::TaskDef { task, .. } && task.is_default
}

/// Whether `item` is a block of the task called `name`.
pub open spec fn defines_task(item: SpecItem, name: Seq<char>) -> bool {
    item matches SpecItem::TaskDef { task, .. } && task.name == name
}

/// Whether `item` is a block that defines the task `t`.
pub open spec fn block_is(item: SpecItem, t: SpecTask) -> bool {
    item matches SpecItem::TaskDef { task, .. } && task == t
}

/// Whether `item` assigns the variable called `name`.
pub open spec fn assigns(item: SpecItem, name: Seq<char>) -> bool {
    item matches SpecItem::Assign { name: n, .. } && n == name
}

/// A task called `name` at or after index `j` is found from index `i <= j`.
pub proof fn lemma_task_found(tasks: Seq<SpecTask>, name: Seq<char>, i: int, j: int)
    requires
        0 <= i <= j < tasks.len(),
        tasks[j].name == name,
    ensures
        task_index_from(tasks, name, i) is Some,
    decreases j - i,
{
    if tasks[i].name != name {
        lemma_task_found(tasks, name, i + 1, j);
    }
}

/// The index found is that of a task called `name`, at or after `i`.
pub proof fn lemma_task_index_from(tasks: Seq<SpecTask>, name: Seq<char>, i: int)
    requires
        0 <= i,
    ensures
        task_index_from(tasks, name, i) matches Some(k) ==> i <= k < tasks.len() && tasks[k].name
            == name,
    decreases tasks.len() - i,
{
    if i < tasks.len() && tasks[i].name != name {
        lemma_task_index_from(tasks, name, i + 1);
    }
}

proof fn lemma_fold_default(items: Seq<SpecItem>)
    ensures
        fold_items(items).default_task is None <==> forall|i: int|
            0 <= i < items.len() ==> !is_default_block(#[trigger] items[i]),
        fold_items(items).default_task matches Some(n) ==> exists|i: int|
            0 <= i < items.len() && #[trigger] defines_task(items[i], n) && is_default_block(
                items[i],
            ) && forall|j: int| i < j < items.len() ==> !is_default_block(#[trigger] items[j]),
    decreases items.len(),
{
    if items.len() > 0 {
        let rest = items.drop_last();
        lemma_fold_default(rest);
        assert forall|i: int| 0 <= i < rest.len() implies #[trigger] rest[i] == items[i] by {}
        let last = items.last();
        if is_default_block(last) {
            let n = fold_items(items).default_task->Some_0;
            assert(defines_task(items[items.len() - 1], n));
        } else {
            match fold_items(rest).default_task {
                Some(n) => {
                    let i = choose|i: int|
                        0 <= i < rest.len() && #[trigger] defines_task(rest[i], n)
                            && is_default_block(rest[i]) && forall|j: int|
                            i < j < rest.len() ==> !is_default_block(#[trigger] rest[j]);
                    assert(defines_task(items[i], n));
                    assert forall|j: int| i < j < items.len() implies !is_default_block(
                        #[trigger] items[j],
                    ) by {
                        if j < rest.len() {
                            assert(items[j] == rest[j]);
                        }
                    }
                },
                None => {
                    assert forall|i: int| 0 <= i < items.len() implies !is_default_block(
                        #[trigger] items[i],
                    ) by {
                        if i < rest.len() {
                            assert(items[i] == rest[i]);
                        }
                    }
                },
            }
        }
    }
}

/// The `@default` task is the last task block marked `@default`; with no such
/// block there is no default task.
pub proof fn law_last_default_wins(source: Seq<char>, file: Seq<char>)
    requires
        spec_parse(source, file) is Ok,
    ensures
        spec_parse(source, file)->Ok_0.default_task is None <==> forall|i: int|
            0 <= i < source_items(source).len() ==> !is_default_block(
                #[trigger] source_items(source)[i],
            ),
        spec_parse(source, file)->Ok_0.default_task matches Some(n) ==> exists|i: int|
            0 <= i < source_items(source).len() && #[trigger] defines_task(
                source_items(source)[i],
                n,
            ) && is_default_block(source_items(source)[i]) && forall|j: int|
                i < j < source_items(source).len() ==> !is_default_block(
                    #[trigger] source_items(source)[j],
                ),
{
    lemma_fold_default(source_items(source));
}

/// Whether the `i`-th item is a block that defines `t`, and no later block
/// defines a task of the same name.
pub open spec fn last_block_at(items: Seq<SpecItem>, i: int, t: SpecTask) -> bool {
    &&& 0 <= i < items.len()
    &&& block_is(items[i], t)
    &&& forall|j: int| i < j < items.len() ==> !defines_task(#[trigger] items[j], t.name)
}

/// Whether some block defines `t` and no later block defines a task of the
/// same name.
pub open spec fn has_last_block(items: Seq<SpecItem>, t: SpecTask) -> bool {
    exists|i: int| #[trigger] last_block_at(items, i, t)
}

/// The last block is still the last one after an item that defines no task
/// of that name.
proof fn lemma_last_block_push(items: Seq<SpecItem>, i: int, t: SpecTask, item: SpecItem)
    requires
        last_block_at(items, i, t),
        !defines_task(item, t.name),
    ensures
        last_block_at(items.push(item), i, t),
{
    let all = items.push(item);
    assert(all[i] == items[i]);
    assert forall|j: int| i < j < all.len() implies !defines_task(#[trigger] all[j], t.name) by {
        if j < items.len() {
            assert(all[j] == items[j]);
        }
    }
}

proof fn lemma_fold_tasks(items: Seq<SpecItem>)
    ensures
        forall|a: int, b: int|
            0 <= a < b < fold_items(items).tasks.len() ==> #[trigger] fold_items(items).tasks[a].name
                != #[trigger] fold_items(items).tasks[b].name,
        forall|i: int, n: Seq<char>|
            0 <= i < items.len() && #[trigger] defines_task(items[i], n) ==> exists|k: int|
                0 <= k < fold_items(items).tasks.len() && #[trigger] fold_items(items).tasks[k].name
                    == n,
        forall|k: int|
            #![trigger fold_items(items).tasks[k]]
            0 <= k < fold_items(items).tasks.len() ==> has_last_block(
                items,
                fold_items(items).tasks[k],
            ),
    decreases items.len(),
{
    if items.len() > 0 {
        let rest = items.drop_last();
        let last = items.last();
        assert(items == rest.push(last));
        lemma_fold_tasks(rest);
        let before = fold_items(rest).tasks;
        let after = fold_items(items).tasks;
        assert forall|i: int| 0 <= i < rest.len() implies #[trigger] rest[i] == items[i] by {}
        match last {
            SpecItem::Assign { .. } => {
                assert(after == before);
                assert forall|i: int, n: Seq<char>|
                    0 <= i < items.len() && #[trigger] defines_task(items[i], n) implies exists|
                    k: int,
                | 0 <= k < after.len() && #[trigger] after[k].name == n by {
                    assert(i < rest.len());
                    assert(defines_task(rest[i], n));
                }
                assert forall|k: int| #![trigger after[k]] 0 <= k < after.len() implies has_last_block(
                    items,
                    after[k],
                ) by {
                    let i = choose|i: int| #[trigger] last_block_at(rest, i, before[k]);
                    lemma_last_block_push(rest, i, before[k], last);
                    assert(last_block_at(items, i, after[k]));
                }
            },
            SpecItem::TaskDef { task, line } => {
                let nm = task.name;
                lemma_task_index_from(before, nm, 0);
                match task_index_from(before, nm, 0) {
                    Some(x) => {
                        assert(after == before.update(x, task));
                    },
                    None => {
                        assert(after == before.push(task));
                        assert forall|k: int| 0 <= k < before.len() implies before[k].name
                            != nm by {
                            if before[k].name == nm {
                                lemma_task_found(before, nm, 0, k);
                            }
                        }
                    },
                }
                assert forall|a: int, b: int|
                    0 <= a < b < after.len() implies #[trigger] after[a].name
                    != #[trigger] after[b].name by {
                    if b < before.len() {
                        assert(after[a].name == before[a].name);
                        assert(after[b].name == before[b].name);
                    }
                }
                assert forall|i: int, n: Seq<char>|
                    0 <= i < items.len() && #[trigger] defines_task(items[i], n) implies exists|
                    k: int,
                | 0 <= k < after.len() && #[trigger] after[k].name == n by {
                    if i < rest.len() {
                        assert(defines_task(rest[i], n));
                        let k = choose|k: int| 0 <= k < before.len() && #[trigger] before[k].name == n;
                        assert(after[k].name == n);
                    } else {
                        match task_index_from(before, nm, 0) {
                            Some(x) => {
                                assert(after[x].name == n);
                            },
                            None => {
                                assert(after[before.len() as int].name == n);
                            },
                        }
                    }
                }
                assert forall|k: int| #![trigger after[k]] 0 <= k < after.len() implies has_last_block(
                    items,
                    after[k],
                ) by {
                    let new_slot = match task_index_from(before, nm, 0) {
                        Some(x) => k == x,
                        None => k == before.len(),
                    };
                    if new_slot {
                        assert(after[k] == task);
                        assert(last_block_at(items, items.len() - 1, after[k]));
                    } else {
                        assert(k < before.len());
                        assert(after[k] == before[k]);
                        assert(before[k].name != nm) by {
                            if let Some(x) = task_index_from(before, nm, 0) {
                                assert(before[x].name == nm);
                            }
                        }
                        let i = choose|i: int| #[trigger] last_block_at(rest, i, before[k]);
                        lemma_last_block_push(rest, i, before[k], last);
                        assert(last_block_at(items, i, after[k]));
                    }
                }
            },
        }
    }
}

/// Each task name occurs once in a parsed taskfile; every task block's name
/// is there; and the task kept under a name is its last block in the source.
pub proof fn law_task_redefinition_replaces(source: Seq<char>, file: Seq<char>)
    requires
        spec_parse(source, file) is Ok,
    ensures
        forall|a: int, b: int|
            0 <= a < b < spec_parse(source, file)->Ok_0.tasks.len() ==> #[trigger] spec_parse(
                source,
                file,
            )->Ok_0.tasks[a].name != #[trigger] spec_parse(source, file)->Ok_0.tasks[b].name,
        forall|i: int, n: Seq<char>|
            0 <= i < source_items(source).len() && #[trigger] defines_task(
                source_items(source)[i],
                n,
            ) ==> exists|k: int|
                0 <= k < spec_parse(source, file)->Ok_0.tasks.len() && #[trigger] spec_parse(
                    source,
                    file,
                )->Ok_0.tasks[k].name == n,
        forall|k: int|
            #![trigger spec_parse(source, file)->Ok_0.tasks[k]]
            0 <= k < spec_parse(source, file)->Ok_0.tasks.len() ==> has_last_block(
                source_items(source),
                spec_parse(source, file)->Ok_0.tasks[k],
            ),
{
    let items = source_items(source);
    assert(spec_parse(source, file)->Ok_0.tasks == fold_items(items).tasks);
    lemma_fold_tasks(items);
}

proof fn lemma_fold_globals(items: Seq<SpecItem>)
    ensures
        forall|a: int, b: int|
            0 <= a < b < fold_items(items).global_order.len() ==> #[trigger] fold_items(
                items,
            ).global_order[a] != #[trigger] fold_items(items).global_order[b],
        forall|n: Seq<char>|
            #[trigger] fold_items(items).global_order.contains(n) <==> exists|i: int|
                0 <= i < items.len() && #[trigger] assigns(items[i], n),
    decreases items.len(),
{
    if items.len() > 0 {
        let rest = items.drop_last();
        lemma_fold_globals(rest);
        let before = fold_items(rest).global_order;
        let after = fold_items(items).global_order;
        assert forall|i: int| 0 <= i < rest.len() implies #[trigger] rest[i] == items[i] by {}
        let last = items.last();
        assert forall|n: Seq<char>| #[trigger] after.contains(n) <==> exists|i: int|
            0 <= i < items.len() && #[trigger] assigns(items[i], n) by {
            if after.contains(n) {
                if before.contains(n) {
                    let i = choose|i: int| 0 <= i < rest.len() && #[trigger] assigns(rest[i], n);
                    assert(assigns(items[i], n));
                } else {
                    assert(assigns(items[items.len() - 1], n));
                }
            }
            if exists|i: int| 0 <= i < items.len() && #[trigger] assigns(items[i], n) {
                let i = choose|i: int| 0 <= i < items.len() && #[trigger] assigns(items[i], n);
                if i < rest.len() {
                    assert(assigns(rest[i], n));
                    assert(before.contains(n));
                    let k = choose|k: int| 0 <= k < before.len() && before[k] == n;
                    assert(after[k] == n);
                } else if !before.contains(n) {
                    assert(after[after.len() - 1] == n);
                } else {
                    let k = choose|k: int| 0 <= k < before.len() && before[k] == n;
                    assert(after[k] == n);
                }
            }
        }
    }
}

/// The variables of a parsed taskfile are listed once each, in the order of
/// their first assignment: every variable assigned in the source is there, and
/// nothing else.
pub proof fn law_variables_listed_once(source: Seq<char>, file: Seq<char>)
    requires
        spec_parse(source, file) is Ok,
    ensures
        forall|a: int, b: int|
            0 <= a < b < spec_parse(source, file)->Ok_0.global_order.len() ==> #[trigger] spec_parse(
                source,
                file,
            )->Ok_0.global_order[a] != #[trigger] spec_parse(source, file)->Ok_0.global_order[b],
        forall|n: Seq<char>|
            #[trigger] spec_parse(source, file)->Ok_0.global_order.contains(n) <==> exists|i: int|
                0 <= i < source_items(source).len() && #[trigger] assigns(source_items(source)[i], n),
{
    let items = source_items(source);
    assert(spec_parse(source, file)->Ok_0.global_order == fold_items(items).global_order);
    lemma_fold_globals(items);
}

/// Whether some assignment in `globals` is to the variable `name`.
pub open spec fn assigned(globals: Seq<(Seq<char>, Seq<char>, nat)>, name: Seq<char>) -> bool {
    exists|k: int| 0 <= k < globals.len() && #[trigger] globals[k].0 == name
}

/// Whether some item assigns the variable `name`.
pub open spec fn assigned_in(items: Seq<SpecItem>, name: Seq<char>) -> bool {
    exists|i: int| 0 <= i < items.len() && #[trigger] assigns(items[i], name)
}

/// Whether a task of `tasks` is called `name`.
pub open spec fn has_task(tasks: Seq<SpecTask>, name: Seq<char>) -> bool {
    exists|k: int| 0 <= k < tasks.len() && #[trigger] tasks[k].name == name
}

/// What holds of every parsed taskfile: it knows the file it was read from;
/// each task name occurs once; the default task, if any, is one of the tasks;
/// each variable is listed once, and the list holds exactly the variables
/// assigned.
pub open spec fn taskfile_wf(tf: SpecTaskfile, file: Seq<char>) -> bool {
    &&& tf.source_path == file
    &&& forall|a: int, b: int|
        0 <= a < b < tf.tasks.len() ==> #[trigger] tf.tasks[a].name != #[trigger] tf.tasks[b].name
    &&& (tf.default_task matches Some(d) ==> has_task(tf.tasks, d))
    &&& forall|a: int, b: int|
        0 <= a < b < tf.global_order.len() ==> #[trigger] tf.global_order[a]
            != #[trigger] tf.global_order[b]
    &&& forall|n: Seq<char>| #[trigger] tf.global_order.contains(n) <==> assigned(tf.globals, n)
}

proof fn lemma_fold_global_names(items: Seq<SpecItem>)
    ensures
        forall|n: Seq<char>| #[trigger] assigned(fold_items(items).globals, n) <==> assigned_in(items, n),
    decreases items.len(),
{
    if items.len() > 0 {
        let rest = items.drop_last();
        let last = items.last();
        lemma_fold_global_names(rest);
        let before = fold_items(rest).globals;
        let after = fold_items(items).globals;
        assert forall|i: int| 0 <= i < rest.len() implies #[trigger] rest[i] == items[i] by {}
        assert forall|n: Seq<char>| #[trigger] assigned(after, n) <==> assigned_in(items, n) by {
            match last {
                SpecItem::Assign { name, value, line } => {
                    assert(after == before.push((name, value, line)));
                    if assigned(after, n) {
                        let k = choose|k: int| 0 <= k < after.len() && #[trigger] after[k].0 == n;
                        if k < before.len() {
                            assert(before[k].0 == n);
                            assert(assigned(before, n));
                            let i = choose|i: int| 0 <= i < rest.len() && #[trigger] assigns(rest[i], n);
                            assert(assigns(items[i], n));
                        } else {
                            assert(assigns(items[items.len() - 1], n));
                        }
                    }
                    if assigned_in(items, n) {
                        let i = choose|i: int| 0 <= i < items.len() && #[trigger] assigns(items[i], n);
                        if i < rest.len() {
                            assert(assigns(rest[i], n));
                            assert(assigned_in(rest, n));
                            assert(assigned(before, n));
                            let k = choose|k: int| 0 <= k < before.len() && #[trigger] before[k].0 == n;
                            assert(after[k] == before[k]);
                            assert(after[k].0 == n);
                        } else {
                            assert(after[before.len() as int].0 == n);
                        }
                    }
                },
                SpecItem::TaskDef { .. } => {
                    assert(after == before);
                    if assigned_in(items, n) {
                        let i = choose|i: int| 0 <= i < items.len() && #[trigger] assigns(items[i], n);
                        assert(i < rest.len());
                        assert(assigns(rest[i], n));
                        assert(assigned_in(rest, n));
                    }
                    if assigned_in(rest, n) {
                        let i = choose|i: int| 0 <= i < rest.len() && #[trigger] assigns(rest[i], n);
                        assert(assigns(items[i], n));
                    }
                },
            }
        }
    }
}

/// Every taskfile that parses is well formed (`taskfile_wf`).
pub proof fn law_parsed_taskfile_well_formed(source: Seq<char>, file: Seq<char>)
    requires
        spec_parse(source, file) is Ok,
    ensures
        taskfile_wf(spec_parse(source, file)->Ok_0, file),
{
    let items = source_items(source);
    let tf = spec_parse(source, file)->Ok_0;
    let f = fold_items(items);
    assert(tf.tasks == f.tasks && tf.globals == f.globals && tf.global_order == f.global_order
        && tf.default_task == f.default_task && tf.source_path == file);
    lemma_fold_tasks(items);
    lemma_fold_default(items);
    lemma_fold_globals(items);
    lemma_fold_global_names(items);
    if let Some(d) = f.default_task {
        let i = choose|i: int|
            0 <= i < items.len() && #[trigger] defines_task(items[i], d) && is_default_block(
                items[i],
            ) && forall|j: int| i < j < items.len() ==> !is_default_block(#[trigger] items[j]);
        assert(defines_task(items[i], d));
        let k = choose|k: int| 0 <= k < f.tasks.len() && #[trigger] f.tasks[k].name == d;
        assert(has_task(tf.tasks, d));
    }
    assert forall|n: Seq<char>| #[trigger] tf.global_order.contains(n) <==> assigned(tf.globals, n) by {
        assert(f.global_order.contains(n) <==> assigned_in(items, n));
        assert(assigned(f.globals, n) <==> assigned_in(items, n));
    }
}

} // verus!
