//! The task runner: decides, step by step, what running a task takes. The
//! outside work (changing directory, setting the environment, running a shell
//! command) is handed to the caller as a request; the caller answers with a
//! reply, and the runner goes on from there.
use vstd::prelude::*;

use crate::error::{SpecError, TskError};
use crate::lexer::{split_first_word, split_first_word_chars};
use crate::parser::{
    Condition, ElseIf, SpecCondition, SpecStatement, SpecTask, Statement, Taskfile, Task,
    contains_name, else_ifs_view, find_task, globals_view, lemma_task_index_from, stmt_view,
    stmts_view, strings_view, task_index_from, tasks_view,
};
use crate::text::{
    append, chars_eq, chars_of, decimal, find_char, find_char_from, i32_decimal, signed_decimal,
    string_from_chars, subvec, trim, trim_chars, usize_decimal,
};
use crate::vars::{
    Scope, SpecScope, bindings_view, expand, expand_vars, is_name_char, law_reference_expands_to_value,
    lookup, lookup_binding,
};

verus! {

// ---------------------------------------------------------------------------
// What the runner hands out and takes in
// ---------------------------------------------------------------------------

/// Output that needs no answer.
pub enum Note {
    /// A warning (`tsk: warning: ...` on stderr).
    Warn(String),
    /// The echo of a command about to run (stderr).
    Echo(String),
    /// A command listed by a dry run (stdout).
    Show(String),
}

/// Outside work that the runner waits for, or the end of the run.
pub enum Request {
    /// Change the working directory; reply `DirChanged` with the new current
    /// directory, or `Failed` with the error.
    ChangeDir(String),
    /// Set an environment variable; reply `Done`.
    SetEnv(String, String),
    /// Run the command through the shell; reply `Exited` or `SpawnFailed`.
    Spawn(String),
    /// The run is over.
    Finished(Result<(), TskError>),
}

/// The caller's answer to a request.
pub enum Reply {
    Done,
    DirChanged(String),
    Failed(String),
    Exited { success: bool, code: Option<i32> },
    SpawnFailed { shell: String, error: String },
}

/// What the runner produced since the last reply: notes, then a request.
pub struct Step {
    pub notes: Vec<Note>,
    pub request: Request,
}

/// A line of a task's script, as the conditions chose it.
pub enum ScriptLine {
    Command { raw: String, line: usize },
    Abort { message: String, line: usize },
}

pub enum SpecNote {
    Warn(Seq<char>),
    Echo(Seq<char>),
    Show(Seq<char>),
}

pub enum SpecRequest {
    ChangeDir(Seq<char>),
    SetEnv(Seq<char>, Seq<char>),
    Spawn(Seq<char>),
    Finished(Result<(), SpecError>),
}

pub enum SpecReply {
    Done,
    DirChanged(Seq<char>),
    Failed(Seq<char>),
    Exited { success: bool, code: Option<i32> },
    SpawnFailed { shell: Seq<char>, error: Seq<char> },
}

pub enum SpecLine {
    Command { raw: Seq<char>, line: nat },
    Abort { message: Seq<char>, line: nat },
}

impl View for Note {
    type V = SpecNote;

    open spec fn view(&self) -> SpecNote {
        match self {
            Note::Warn(s) => SpecNote::Warn(s@),
            Note::Echo(s) => SpecNote::Echo(s@),
            Note::Show(s) => SpecNote::Show(s@),
        }
    }
}

impl View for Request {
    type V = SpecRequest;

    open spec fn view(&self) -> SpecRequest {
        match self {
            Request::ChangeDir(d) => SpecRequest::ChangeDir(d@),
            Request::SetEnv(k, v) => SpecRequest::SetEnv(k@, v@),
            Request::Spawn(c) => SpecRequest::Spawn(c@),
            Request::Finished(r) => SpecRequest::Finished(
                match r {
                    Ok(_) => Ok(()),
                    Err(e) => Err(e@),
                },
            ),
        }
    }
}

impl View for Reply {
    type V = SpecReply;

    open spec fn view(&self) -> SpecReply {
        match self {
            Reply::Done => SpecReply::Done,
            Reply::DirChanged(d) => SpecReply::DirChanged(d@),
            Reply::Failed(e) => SpecReply::Failed(e@),
            Reply::Exited { success, code } => SpecReply::Exited { success: *success, code: *code },
            Reply::SpawnFailed { shell, error } => SpecReply::SpawnFailed {
                shell: shell@,
                error: error@,
            },
        }
    }
}

impl View for ScriptLine {
    type V = SpecLine;

    open spec fn view(&self) -> SpecLine {
        match self {
            ScriptLine::Command { raw, line } => SpecLine::Command { raw: raw@, line: *line as nat },
            ScriptLine::Abort { message, line } => SpecLine::Abort {
                message: message@,
                line: *line as nat,
            },
        }
    }
}

pub open spec fn notes_view(v: Seq<Note>) -> Seq<SpecNote> {
    v.map_values(|n: Note| n@)
}

pub open spec fn lines_view(v: Seq<ScriptLine>) -> Seq<SpecLine> {
    v.map_values(|l: ScriptLine| l@)
}

/// Each warning as a note.
pub open spec fn warn_notes(w: Seq<Seq<char>>) -> Seq<SpecNote> {
    w.map_values(|s: Seq<char>| SpecNote::Warn(s))
}

// ---------------------------------------------------------------------------
// Conditions and the script of a task
// ---------------------------------------------------------------------------

/// A value is true when it is not empty, `0` or `false`.
pub open spec fn truthy(v: Seq<char>) -> bool {
    v.len() > 0 && v != seq!['0'] && v != seq!['f', 'a', 'l', 's', 'e']
}

/// The value of a condition, and the warnings of its expansions (left
/// operand first).
pub open spec fn eval_condition(cond: SpecCondition, c: SpecScope) -> (bool, Seq<Seq<char>>) {
    match cond {
        SpecCondition::Eq(l, r) => {
            let a = expand(l, c);
            let b = expand(r, c);
            (a.0 == b.0, a.1 + b.1)
        },
        SpecCondition::NotEq(l, r) => {
            let a = expand(l, c);
            let b = expand(r, c);
            (a.0 != b.0, a.1 + b.1)
        },
        SpecCondition::Truthy(v) => {
            let a = expand(v, c);
            (truthy(a.0), a.1)
        },
    }
}

pub open spec fn join_lines(
    a: (Seq<SpecLine>, Seq<Seq<char>>),
    b: (Seq<SpecLine>, Seq<Seq<char>>),
) -> (Seq<SpecLine>, Seq<Seq<char>>) {
    (a.0 + b.0, a.1 + b.1)
}

/// The script lines of a block, with the warnings of the conditions evaluated
/// to choose them: commands and `@error` in order; of an `if`, the first
/// branch whose condition holds, else the `else` block.
pub open spec fn collect_stmts(stmts: Seq<SpecStatement>, c: SpecScope) -> (
    Seq<SpecLine>,
    Seq<Seq<char>>,
)
    decreases stmts, 0int,
{
    if stmts.len() == 0 {
        (seq![], seq![])
    } else {
        join_lines(collect_stmt(stmts[0], c), collect_stmts(stmts.drop_first(), c))
    }
}

/// The number of `else if` branches of an `if` statement.
pub open spec fn else_if_count(s: SpecStatement) -> int {
    match s {
        SpecStatement::If { else_ifs, .. } => else_ifs.len() as int,
        _ => 0,
    }
}

pub open spec fn collect_stmt(s: SpecStatement, c: SpecScope) -> (Seq<SpecLine>, Seq<Seq<char>>)
    decreases s, else_if_count(s) + 1,
{
    match s {
        SpecStatement::Command { raw, line } => (seq![SpecLine::Command { raw, line }], seq![]),
        SpecStatement::Error { message, line } => (
            seq![SpecLine::Abort { message, line }],
            seq![],
        ),
        SpecStatement::If { condition, then_body, .. } => {
            let (b, w) = eval_condition(condition, c);
            if b {
                join_lines((seq![], w), collect_stmts(then_body, c))
            } else {
                join_lines((seq![], w), collect_chain(s, 0, c))
            }
        },
    }
}

/// The `else if` branches of the `if` statement `s` from the `k`-th on, then
/// its `else` block.
pub open spec fn collect_chain(s: SpecStatement, k: int, c: SpecScope) -> (
    Seq<SpecLine>,
    Seq<Seq<char>>,
)
    decreases s, else_if_count(s) - k,
{
    match s {
        SpecStatement::If { else_ifs, else_body, .. } => if 0 <= k < else_ifs.len() {
            let (b, w) = eval_condition(else_ifs[k].0, c);
            if b {
                join_lines((seq![], w), collect_stmts(else_ifs[k].1, c))
            } else {
                join_lines((seq![], w), collect_chain(s, k + 1, c))
            }
        } else {
            collect_stmts(else_body, c)
        },
        _ => (seq![], seq![]),
    }
}

// ---------------------------------------------------------------------------
// The state of a run
// ---------------------------------------------------------------------------

/// Where a started task stands: running its dependencies (the index of the
/// next one), or running its script (the index of the next line).
pub enum SpecPhase {
    Deps(nat),
    Lines(Seq<SpecLine>, nat),
}

/// A started task: its index in the taskfile and its phase.
pub struct SpecFrame {
    pub task: nat,
    pub phase: SpecPhase,
}

/// The outside work a runner waits for, with what it needs to answer the reply.
pub enum SpecPending {
    Nothing,
    Dir { task: Seq<char>, line: nat, cmd: Seq<char>, dir: Seq<char>, ignore: bool },
    Env,
    Run { task: Seq<char>, line: nat, cmd: Seq<char>, ignore: bool },
}

/// The model of a runner.
pub struct SpecExecutor {
    pub tasks: Seq<SpecTask>,
    pub scope: SpecScope,
    pub echo: bool,
    pub dry_run: bool,
    /// The tasks started and not finished, outermost first.
    pub running: Seq<Seq<char>>,
    /// The tasks finished, in order.
    pub completed: Seq<Seq<char>>,
    /// The tasks whose scripts were started, in order; a script abandoned
    /// when a run stopped on an error is left out.
    pub started: Seq<Seq<char>>,
    /// One frame per running task, outermost first.
    pub frames: Seq<SpecFrame>,
    pub pending: SpecPending,
    /// Output not yet handed out.
    pub notes: Seq<SpecNote>,
}

pub open spec fn w_cd() -> Seq<char> {
    seq!['c', 'd']
}

pub open spec fn w_export() -> Seq<char> {
    seq!['e', 'x', 'p', 'o', 'r', 't']
}

pub open spec fn w_set() -> Seq<char> {
    seq!['s', 'e', 't']
}

pub open spec fn w_home() -> Seq<char> {
    seq!['H', 'O', 'M', 'E']
}

pub open spec fn w_os() -> Seq<char> {
    seq!['O', 'S']
}

pub open spec fn w_windows() -> Seq<char> {
    seq!['w', 'i', 'n', 'd', 'o', 'w', 's']
}

/// `names` joined by `sep`.
pub open spec fn join_names(names: Seq<Seq<char>>, sep: Seq<char>) -> Seq<char>
    decreases names.len(),
{
    if names.len() == 0 {
        seq![]
    } else if names.len() == 1 {
        names[0]
    } else {
        join_names(names.drop_last(), sep) + sep + names.last()
    }
}

/// Lexicographic order of character codes (the order of `String`).
pub open spec fn chars_less(a: Seq<char>, b: Seq<char>) -> bool
    decreases a.len(),
{
    if a.len() == 0 {
        b.len() > 0
    } else if b.len() == 0 {
        false
    } else if a[0] != b[0] {
        (a[0] as u32) < (b[0] as u32)
    } else {
        chars_less(a.drop_first(), b.drop_first())
    }
}

/// `x` inserted into `s` before the first element greater than it.
pub open spec fn insert_sorted(s: Seq<Seq<char>>, x: Seq<char>) -> Seq<Seq<char>>
    decreases s.len(),
{
    if s.len() == 0 {
        seq![x]
    } else if chars_less(x, s[0]) {
        seq![x] + s
    } else {
        seq![s[0]] + insert_sorted(s.drop_first(), x)
    }
}

/// `names` in ascending order.
pub open spec fn sort_names(names: Seq<Seq<char>>) -> Seq<Seq<char>>
    decreases names.len(),
{
    if names.len() == 0 {
        seq![]
    } else {
        insert_sorted(sort_names(names.drop_last()), names.last())
    }
}

pub open spec fn task_names(tasks: Seq<SpecTask>) -> Seq<Seq<char>> {
    tasks.map_values(|t: SpecTask| t.name)
}

pub open spec fn circular_message(running: Seq<Seq<char>>, name: Seq<char>) -> Seq<char> {
    "circular dependency detected: "@ + join_names(running, " -> "@) + " -> "@ + name
}

pub open spec fn not_found_message(tasks: Seq<SpecTask>, name: Seq<char>) -> Seq<char> {
    "task '"@ + name + "' not found.\nAvailable tasks: "@ + if tasks.len() == 0 {
        "(none)"@
    } else {
        join_names(sort_names(task_names(tasks)), ", "@)
    }
}

/// Drops the run: no task is running and nothing is awaited.
pub open spec fn stop(s: SpecExecutor) -> SpecExecutor {
    SpecExecutor {
        frames: seq![],
        running: seq![],
        started: s.completed,
        pending: SpecPending::Nothing,
        ..s
    }
}

pub open spec fn add_notes(s: SpecExecutor, n: Seq<SpecNote>) -> SpecExecutor {
    SpecExecutor { notes: s.notes + n, ..s }
}

pub open spec fn set_top(s: SpecExecutor, phase: SpecPhase) -> SpecExecutor {
    SpecExecutor {
        frames: s.frames.update(
            s.frames.len() - 1,
            SpecFrame { task: s.frames.last().task, phase },
        ),
        ..s
    }
}

/// Starting the task `name`: an error for a task already running (a cycle)
/// or unknown; nothing for a task already finished (each task runs at most
/// once); else a new frame.
pub open spec fn spec_start(s: SpecExecutor, name: Seq<char>) -> Result<SpecExecutor, SpecError> {
    if s.running.contains(name) {
        Err(
            SpecError::Runtime {
                task: name,
                line: 0,
                message: circular_message(s.running, name),
                command: None,
            },
        )
    } else if s.completed.contains(name) {
        Ok(s)
    } else {
        match task_index_from(s.tasks, name, 0) {
            None => Err(SpecError::Cli(not_found_message(s.tasks, name))),
            Some(i) => Ok(
                SpecExecutor {
                    running: s.running.push(name),
                    frames: s.frames.push(SpecFrame { task: i as nat, phase: SpecPhase::Deps(0) }),
                    ..s
                },
            ),
        }
    }
}

/// Whether the system says it is Windows (where `set` works as `export`).
pub open spec fn on_windows(s: SpecExecutor) -> bool {
    lookup(s.scope.sys, w_os()) == Some(w_windows())
}

/// Running one line of the script of task `t`.
pub open spec fn spec_line(s: SpecExecutor, l: SpecLine, t: SpecTask) -> (
    SpecExecutor,
    Option<SpecRequest>,
) {
    match l {
        SpecLine::Abort { message, line } => {
            let (m, w) = expand(message, s.scope);
            (
                stop(add_notes(s, warn_notes(w))),
                Some(
                    SpecRequest::Finished(
                        Err(SpecError::Abort { task: t.name, line, message: m }),
                    ),
                ),
            )
        },
        SpecLine::Command { raw, line } => {
            let (x, w) = expand(raw, s.scope);
            let s1 = add_notes(s, warn_notes(w));
            let cmd = trim(x);
            if cmd.len() == 0 {
                (s1, None)
            } else if s.dry_run {
                (add_notes(s1, seq![SpecNote::Show(cmd)]), None)
            } else {
                let s2 = if !t.silent && s.echo {
                    add_notes(s1, seq![SpecNote::Echo(cmd)])
                } else {
                    s1
                };
                let (verb, rest0) = split_first_word(cmd);
                let rest = trim(rest0);
                if verb == w_cd() {
                    let dir = if rest.len() == 0 {
                        match lookup(s.scope.env, w_home()) {
                            Some(h) => h,
                            None => seq!['.'],
                        }
                    } else {
                        rest
                    };
                    (
                        SpecExecutor {
                            pending: SpecPending::Dir { task: t.name, line, cmd, dir, ignore: t.ignore },
                            ..s2
                        },
                        Some(SpecRequest::ChangeDir(dir)),
                    )
                } else if verb == w_export() || (verb == w_set() && on_windows(s)) {
                    match find_char_from(rest, '=', 0) {
                        Some(e) => {
                            let key = trim(rest.take(e));
                            let val = trim(rest.skip(e + 1));
                            (
                                SpecExecutor {
                                    scope: SpecScope { env: s2.scope.env.push((key, val)), ..s2.scope },
                                    pending: SpecPending::Env,
                                    ..s2
                                },
                                Some(SpecRequest::SetEnv(key, val)),
                            )
                        },
                        None => (s2, None),
                    }
                } else {
                    (
                        SpecExecutor {
                            pending: SpecPending::Run { task: t.name, line, cmd, ignore: t.ignore },
                            ..s2
                        },
                        Some(SpecRequest::Spawn(cmd)),
                    )
                }
            }
        },
    }
}

/// One step of a run without outside work: a dependency started or skipped,
/// a script collected, a line run, or a task finished. Some steps end with a
/// request.
pub open spec fn spec_unit(s: SpecExecutor) -> (SpecExecutor, Option<SpecRequest>) {
    if s.frames.len() == 0 {
        (s, Some(SpecRequest::Finished(Ok(()))))
    } else {
        let top = s.frames.last();
        let t = s.tasks[top.task as int];
        match top.phase {
            SpecPhase::Deps(i) => if i < t.deps.len() {
                let s1 = set_top(s, SpecPhase::Deps(i + 1));
                match spec_start(s1, t.deps[i as int]) {
                    Ok(s2) => (s2, None),
                    Err(e) => (stop(s1), Some(SpecRequest::Finished(Err(e)))),
                }
            } else {
                let (lines, w) = collect_stmts(t.body, s.scope);
                let s1 = add_notes(set_top(s, SpecPhase::Lines(lines, 0)), warn_notes(w));
                (SpecExecutor { started: s.started.push(t.name), ..s1 }, None)
            },
            SpecPhase::Lines(lines, j) => if j < lines.len() {
                spec_line(set_top(s, SpecPhase::Lines(lines, j + 1)), lines[j as int], t)
            } else {
                (
                    SpecExecutor {
                        frames: s.frames.drop_last(),
                        running: s.running.drop_last(),
                        completed: s.completed.push(t.name),
                        ..s
                    },
                    None,
                )
            },
        }
    }
}

pub open spec fn exit_ignored_warning(task: Seq<char>, line: nat, code: int) -> Seq<char> {
    "task '"@ + task + "' line "@ + decimal(line) + ": command exited "@ + signed_decimal(code)
        + " (ignored)"@
}

/// Taking the caller's reply to the request awaited.
pub open spec fn spec_reply(s: SpecExecutor, reply: SpecReply) -> (
    SpecExecutor,
    Option<SpecRequest>,
) {
    let s0 = SpecExecutor { pending: SpecPending::Nothing, ..s };
    match s.pending {
        SpecPending::Dir { task, line, cmd, dir, ignore } => match reply {
            SpecReply::DirChanged(cwd) => (
                SpecExecutor { scope: SpecScope { cwd, ..s0.scope }, ..s0 },
                None,
            ),
            SpecReply::Failed(err) => {
                let msg = "cd: "@ + dir + ": "@ + err;
                if ignore {
                    (
                        add_notes(
                            s0,
                            seq![SpecNote::Warn("ignored error in '"@ + task + "': "@ + msg)],
                        ),
                        None,
                    )
                } else {
                    (
                        stop(s0),
                        Some(
                            SpecRequest::Finished(
                                Err(
                                    SpecError::Runtime {
                                        task,
                                        line,
                                        message: msg,
                                        command: Some(cmd),
                                    },
                                ),
                            ),
                        ),
                    )
                }
            },
            _ => (s0, None),
        },
        SpecPending::Run { task, line, cmd, ignore } => match reply {
            SpecReply::Exited { success, code } => if success {
                (s0, None)
            } else {
                let c: int = match code {
                    Some(c) => c as int,
                    None => -1,
                };
                if ignore {
                    (add_notes(s0, seq![SpecNote::Warn(exit_ignored_warning(task, line, c))]), None)
                } else {
                    (
                        stop(s0),
                        Some(
                            SpecRequest::Finished(
                                Err(
                                    SpecError::Runtime {
                                        task,
                                        line,
                                        message: "exited with status "@ + signed_decimal(c),
                                        command: Some(cmd),
                                    },
                                ),
                            ),
                        ),
                    )
                }
            },
            SpecReply::SpawnFailed { shell, error } => (
                stop(s0),
                Some(
                    SpecRequest::Finished(
                        Err(
                            SpecError::Runtime {
                                task,
                                line,
                                message: "failed to spawn '"@ + shell + "': "@ + error,
                                command: Some(cmd),
                            },
                        ),
                    ),
                ),
            ),
            _ => (s0, None),
        },
        _ => (s0, None),
    }
}

/// The state after `n` steps from `s`.
pub open spec fn after_units(s: SpecExecutor, n: nat) -> SpecExecutor
    decreases n,
{
    if n == 0 {
        s
    } else {
        spec_unit(after_units(s, (n - 1) as nat)).0
    }
}

/// The request (if any) that the step after `n` steps makes.
pub open spec fn request_at(s: SpecExecutor, n: nat) -> Option<SpecRequest> {
    spec_unit(after_units(s, n)).1
}

/// Going on from `s` until a step makes a request: `r` is that request and
/// `f` the state it leaves, with its notes not yet handed out.
pub open spec fn drives_to(s: SpecExecutor, f: SpecExecutor, r: SpecRequest) -> bool {
    exists|n: nat|
        {
            &&& forall|m: nat| m < n ==> (#[trigger] request_at(s, m)) is None
            &&& request_at(s, n) == Some(r)
            &&& f == spec_unit(after_units(s, n)).0
        }
}

/// The expanded user variables, from the assignments in source order: each
/// value is expanded with the variables assigned before it.
pub open spec fn expand_globals(
    globals: Seq<(Seq<char>, Seq<char>, nat)>,
    sys: Seq<(Seq<char>, Seq<char>)>,
    env: Seq<(Seq<char>, Seq<char>)>,
    cwd: Seq<char>,
) -> (Seq<(Seq<char>, Seq<char>)>, Seq<Seq<char>>)
    decreases globals.len(),
{
    if globals.len() == 0 {
        (seq![], seq![])
    } else {
        let (user, w) = expand_globals(globals.drop_last(), sys, env, cwd);
        let g = globals.last();
        let (v, w2) = expand(g.1, SpecScope { user, sys, env, cwd });
        (user.push((g.0, v)), w + w2)
    }
}


// ---------------------------------------------------------------------------
// Implementation: building blocks
// ---------------------------------------------------------------------------

/// The model of a list of character vectors.
pub open spec fn vecs_view(v: Seq<Vec<char>>) -> Seq<Seq<char>> {
    v.map_values(|n: Vec<char>| n@)
}

pub proof fn lemma_vecs_view_push(v: Seq<Vec<char>>, x: Vec<char>)
    ensures
        vecs_view(v.push(x)) == vecs_view(v).push(x@),
{
    assert(vecs_view(v.push(x)) =~= vecs_view(v).push(x@));
}

fn word(w: &str) -> (r: Vec<char>)
    ensures
        r@ == w@,
{
    chars_of(w)
}

fn cd_word() -> (r: Vec<char>)
    ensures
        r@ == w_cd(),
{
    vec!['c', 'd']
}

fn export_word() -> (r: Vec<char>)
    ensures
        r@ == w_export(),
{
    vec!['e', 'x', 'p', 'o', 'r', 't']
}

fn set_word() -> (r: Vec<char>)
    ensures
        r@ == w_set(),
{
    vec!['s', 'e', 't']
}

fn home_word() -> (r: Vec<char>)
    ensures
        r@ == w_home(),
{
    vec!['H', 'O', 'M', 'E']
}

fn os_word() -> (r: Vec<char>)
    ensures
        r@ == w_os(),
{
    vec!['O', 'S']
}

fn windows_word() -> (r: Vec<char>)
    ensures
        r@ == w_windows(),
{
    vec!['w', 'i', 'n', 'd', 'o', 'w', 's']
}

/// `names` joined by `sep`.
fn join_names_chars(names: &Vec<Vec<char>>, sep: &Vec<char>) -> (r: Vec<char>)
    ensures
        r@ == join_names(vecs_view(names@), sep@),
{
    let ghost ns = vecs_view(names@);
    let mut out: Vec<char> = Vec::new();
    let mut k: usize = 0;
    while k < names.len()
        invariant
            k <= names@.len(),
            ns == vecs_view(names@),
            out@ == join_names(ns.take(k as int), sep@),
        decreases names@.len() - k,
    {
        assert(ns.take(k + 1).drop_last() =~= ns.take(k as int));
        assert(ns.take(k + 1).last() == names@[k as int]@);
        if k > 0 {
            append(&mut out, sep);
        } else {
            assert(ns.take(1) =~= seq![names@[0]@]);
        }
        append(&mut out, &names[k]);
        k += 1;
    }
    assert(ns.take(names@.len() as int) =~= ns);
    out
}

/// Whether `a` comes before `b` in the order of character codes.
fn chars_less_exec(a: &Vec<char>, b: &Vec<char>) -> (r: bool)
    ensures
        r == chars_less(a@, b@),
{
    let mut i: usize = 0;
    assert(a@.skip(0) =~= a@);
    assert(b@.skip(0) =~= b@);
    while i < a.len() && i < b.len() && a[i] == b[i]
        invariant
            i <= a@.len(),
            i <= b@.len(),
            chars_less(a@, b@) == chars_less(a@.skip(i as int), b@.skip(i as int)),
        decreases a@.len() - i,
    {
        assert(a@.skip(i as int).drop_first() =~= a@.skip(i + 1));
        assert(b@.skip(i as int).drop_first() =~= b@.skip(i + 1));
        i += 1;
    }
    if i == a.len() {
        assert(a@.skip(i as int).len() == 0);
        i < b.len()
    } else if i == b.len() {
        false
    } else {
        assert(a@.skip(i as int)[0] == a@[i as int]);
        assert(b@.skip(i as int)[0] == b@[i as int]);
        (a[i] as u32) < (b[i] as u32)
    }
}

/// The first position `k` with `x` before `s[k]`, or the length of `s`.
pub open spec fn insert_pos(s: Seq<Seq<char>>, x: Seq<char>, k: int) -> int
    decreases s.len() - k,
{
    if k < 0 || k >= s.len() {
        s.len() as int
    } else if chars_less(x, s[k]) {
        k
    } else {
        insert_pos(s, x, k + 1)
    }
}

proof fn lemma_insert_sorted(s: Seq<Seq<char>>, x: Seq<char>, k: int)
    requires
        0 <= k <= s.len(),
        forall|m: int| 0 <= m < k ==> !chars_less(x, #[trigger] s[m]),
    ensures
        insert_sorted(s, x) == s.take(insert_pos(s, x, k)) + seq![x] + s.skip(insert_pos(s, x, k)),
        k <= insert_pos(s, x, k) <= s.len(),
    decreases s.len() - k,
{
    if k < s.len() && !chars_less(x, s[k]) {
        lemma_insert_sorted(s, x, k + 1);
    } else {
        lemma_insert_prefix(s, x, k);
    }
}

proof fn lemma_insert_prefix(s: Seq<Seq<char>>, x: Seq<char>, k: int)
    requires
        0 <= k <= s.len(),
        forall|m: int| 0 <= m < k ==> !chars_less(x, #[trigger] s[m]),
        k < s.len() ==> chars_less(x, s[k]),
    ensures
        insert_sorted(s, x) == s.take(k) + seq![x] + s.skip(k),
    decreases k,
{
    if k == 0 {
        if s.len() == 0 {
            assert(insert_sorted(s, x) =~= s.take(k) + seq![x] + s.skip(k));
        } else {
            assert(insert_sorted(s, x) =~= s.take(k) + seq![x] + s.skip(k));
        }
    } else {
        assert(!chars_less(x, s[0]));
        assert forall|m: int| 0 <= m < k - 1 implies !chars_less(
            x,
            #[trigger] s.drop_first()[m],
        ) by {
            assert(s.drop_first()[m] == s[m + 1]);
        }
        if k < s.len() {
            assert(s.drop_first()[k - 1] == s[k]);
        }
        lemma_insert_prefix(s.drop_first(), x, k - 1);
        assert(insert_sorted(s, x) =~= s.take(k) + seq![x] + s.skip(k));
    }
}

/// `names` in ascending order.
pub(crate) fn sort_names_chars(names: &Vec<Vec<char>>) -> (r: Vec<Vec<char>>)
    ensures
        vecs_view(r@) == sort_names(vecs_view(names@)),
{
    let ghost ns = vecs_view(names@);
    let mut sorted: Vec<Vec<char>> = Vec::new();
    let mut i: usize = 0;
    while i < names.len()
        invariant
            i <= names@.len(),
            ns == vecs_view(names@),
            vecs_view(sorted@) == sort_names(ns.take(i as int)),
        decreases names@.len() - i,
    {
        let ghost sv = vecs_view(sorted@);
        let x = &names[i];
        let mut k: usize = 0;
        while k < sorted.len() && !chars_less_exec(x, &sorted[k])
            invariant
                k <= sorted@.len(),
                sv == vecs_view(sorted@),
                forall|m: int| 0 <= m < k ==> !chars_less(x@, #[trigger] sv[m]),
            decreases sorted@.len() - k,
        {
            k += 1;
        }
        proof {
            lemma_insert_prefix(sv, x@, k as int);
        }
        let mut next: Vec<Vec<char>> = Vec::new();
        let mut m: usize = 0;
        while m < k
            invariant
                m <= k <= sorted@.len(),
                vecs_view(next@) == sv.take(m as int),
                sv == vecs_view(sorted@),
            decreases k - m,
        {
            let item = subvec(&sorted[m], 0, sorted[m].len());
            assert(item@ =~= sv[m as int]);
            let ghost prev = next@;
            next.push(item);
            assert(next@ == prev.push(item));
            proof {
                lemma_vecs_view_push(prev, item);
            }
            m += 1;
            assert(vecs_view(next@) =~= sv.take(m as int));
        }
        let xi = subvec(x, 0, x.len());
        assert(xi@ =~= x@);
        let ghost prev = next@;
        next.push(xi);
        assert(next@ == prev.push(xi));
        proof {
            lemma_vecs_view_push(prev, xi);
        }
        assert(vecs_view(next@) =~= sv.take(k as int) + seq![x@]);
        while m < sorted.len()
            invariant
                k <= m <= sorted@.len(),
                vecs_view(next@) == sv.take(k as int) + seq![x@]
                    + sv.subrange(k as int, m as int),
                sv == vecs_view(sorted@),
            decreases sorted@.len() - m,
        {
            let item = subvec(&sorted[m], 0, sorted[m].len());
            assert(item@ =~= sv[m as int]);
            let ghost prev = next@;
            next.push(item);
            assert(next@ == prev.push(item));
            proof {
                lemma_vecs_view_push(prev, item);
            }
            m += 1;
            assert(vecs_view(next@) =~= sv.take(k as int) + seq![x@]
                + sv.subrange(k as int, m as int));
        }
        assert(sv.subrange(k as int, sv.len() as int) =~= sv.skip(k as int));
        assert(ns.take(i + 1).drop_last() =~= ns.take(i as int));
        assert(ns.take(i + 1).last() == x@);
        sorted = next;
        i += 1;
    }
    assert(ns.take(names@.len() as int) =~= ns);
    sorted
}

/// Sorting keeps every name, as often as it occurs.
pub proof fn lemma_sort_names_permutes(names: Seq<Seq<char>>)
    ensures
        sort_names(names).to_multiset() == names.to_multiset(),
        sort_names(names).len() == names.len(),
    decreases names.len(),
{
    broadcast use vstd::seq_lib::group_to_multiset_ensures;

    if names.len() == 0 {
        assert(names =~= seq![]);
    } else {
        let rest = names.drop_last();
        let x = names.last();
        lemma_sort_names_permutes(rest);
        let s = sort_names(rest);
        lemma_insert_sorted(s, x, 0);
        let p = insert_pos(s, x, 0);
        assert(s.insert(p, x) =~= s.take(p) + seq![x] + s.skip(p));
        vstd::seq_lib::to_multiset_insert(s, p, x);
        assert(rest.push(x) =~= names);
        vstd::seq_lib::to_multiset_build(rest, x);
    }
}

/// Whether `names` is in ascending order.
pub open spec fn names_sorted(names: Seq<Seq<char>>) -> bool {
    forall|i: int, j: int| 0 <= i < j < names.len() ==> !chars_less(#[trigger] names[j], #[trigger] names[i])
}

proof fn lemma_chars_less_trans(a: Seq<char>, b: Seq<char>, c: Seq<char>)
    requires
        chars_less(a, b),
        chars_less(b, c),
    ensures
        chars_less(a, c),
    decreases a.len(),
{
    if a.len() > 0 && b.len() > 0 && c.len() > 0 && a[0] == b[0] && b[0] == c[0] {
        lemma_chars_less_trans(a.drop_first(), b.drop_first(), c.drop_first());
    }
}

proof fn lemma_chars_less_irrefl(a: Seq<char>)
    ensures
        !chars_less(a, a),
    decreases a.len(),
{
    if a.len() > 0 {
        lemma_chars_less_irrefl(a.drop_first());
    }
}

proof fn lemma_insert_sorted_sorted(s: Seq<Seq<char>>, x: Seq<char>)
    requires
        names_sorted(s),
    ensures
        names_sorted(insert_sorted(s, x)),
        insert_sorted(s, x).to_multiset() == s.to_multiset().insert(x),
    decreases s.len(),
{
    broadcast use vstd::seq_lib::group_to_multiset_ensures;

    lemma_insert_sorted(s, x, 0);
    let p = insert_pos(s, x, 0);
    assert(s.insert(p, x) =~= s.take(p) + seq![x] + s.skip(p));
    vstd::seq_lib::to_multiset_insert(s, p, x);
    let r = insert_sorted(s, x);
    if s.len() == 0 {
    } else if chars_less(x, s[0]) {
        assert(r =~= seq![x] + s);
        assert forall|i: int, j: int| 0 <= i < j < r.len() implies !chars_less(
            #[trigger] r[j],
            #[trigger] r[i],
        ) by {
            if i == 0 {
                assert(r[0] == x);
                assert(r[j] == s[j - 1]);
                if j - 1 > 0 {
                    assert(!chars_less(s[j - 1], s[0]));
                }
                lemma_chars_less_irrefl(s[0]);
                if chars_less(s[j - 1], x) {
                    lemma_chars_less_trans(s[j - 1], x, s[0]);
                }
            } else {
                assert(r[i] == s[i - 1] && r[j] == s[j - 1]);
            }
        }
    } else {
        let t = s.drop_first();
        assert(names_sorted(t)) by {
            assert forall|i: int, j: int| 0 <= i < j < t.len() implies !chars_less(
                #[trigger] t[j],
                #[trigger] t[i],
            ) by {
                assert(t[i] == s[i + 1] && t[j] == s[j + 1]);
            }
        }
        lemma_insert_sorted_sorted(t, x);
        let u = insert_sorted(t, x);
        assert(r =~= seq![s[0]] + u);
        assert forall|i: int, j: int| 0 <= i < j < r.len() implies !chars_less(
            #[trigger] r[j],
            #[trigger] r[i],
        ) by {
            if i == 0 {
                assert(r[j] == u[j - 1]);
                assert(u.contains(u[j - 1]));
                assert(u.to_multiset().count(u[j - 1]) > 0);
                if u[j - 1] != x {
                    assert(t.to_multiset().count(u[j - 1]) > 0);
                    let k = choose|k: int| 0 <= k < t.len() && t[k] == u[j - 1];
                    assert(s[k + 1] == t[k]);
                    assert(!chars_less(s[k + 1], s[0]));
                }
            } else {
                assert(r[i] == u[i - 1] && r[j] == u[j - 1]);
            }
        }
    }
}

/// Sorting puts the names in ascending order.
pub proof fn lemma_sort_names_sorted(names: Seq<Seq<char>>)
    ensures
        names_sorted(sort_names(names)),
    decreases names.len(),
{
    if names.len() > 0 {
        lemma_sort_names_sorted(names.drop_last());
        lemma_insert_sorted_sorted(sort_names(names.drop_last()), names.last());
    }
}

/// The tasks are listed (by `--list`, and after an unknown task name) in
/// ascending order of their names, each as often as the taskfile has it.
pub proof fn law_task_names_listed_in_order(tasks: Seq<SpecTask>)
    ensures
        names_sorted(sort_names(task_names(tasks))),
        sort_names(task_names(tasks)).to_multiset() == task_names(tasks).to_multiset(),
{
    lemma_sort_names_sorted(task_names(tasks));
    lemma_sort_names_permutes(task_names(tasks));
}

/// A copy of a script line.
fn copy_line(l: &ScriptLine) -> (r: ScriptLine)
    ensures
        r@ == l@,
{
    match l {
        ScriptLine::Command { raw, line } => ScriptLine::Command { raw: raw.clone(), line: *line },
        ScriptLine::Abort { message, line } => ScriptLine::Abort {
            message: message.clone(),
            line: *line,
        },
    }
}


// ---------------------------------------------------------------------------
// The runner
// ---------------------------------------------------------------------------

enum Phase {
    Deps(usize),
    Lines(Vec<ScriptLine>, usize),
}

struct Frame {
    task: usize,
    phase: Phase,
}

enum Pending {
    Nothing,
    Dir { task: String, line: usize, cmd: String, dir: String, ignore: bool },
    Env,
    Run { task: String, line: usize, cmd: String, ignore: bool },
}

spec fn frame_view(f: Frame) -> SpecFrame {
    SpecFrame {
        task: f.task as nat,
        phase: match f.phase {
            Phase::Deps(i) => SpecPhase::Deps(i as nat),
            Phase::Lines(v, j) => SpecPhase::Lines(lines_view(v@), j as nat),
        },
    }
}

spec fn frames_view(v: Seq<Frame>) -> Seq<SpecFrame> {
    v.map_values(|f: Frame| frame_view(f))
}

spec fn pending_view(p: Pending) -> SpecPending {
    match p {
        Pending::Nothing => SpecPending::Nothing,
        Pending::Dir { task, line, cmd, dir, ignore } => SpecPending::Dir {
            task: task@,
            line: line as nat,
            cmd: cmd@,
            dir: dir@,
            ignore,
        },
        Pending::Env => SpecPending::Env,
        Pending::Run { task, line, cmd, ignore } => SpecPending::Run {
            task: task@,
            line: line as nat,
            cmd: cmd@,
            ignore,
        },
    }
}

/// Runs the tasks of a taskfile.
pub struct Executor {
    taskfile: Taskfile,
    /// User variables (expanded in definition order so later vars can
    /// reference earlier ones), system variables, environment, directory.
    scope: Scope,
    /// Print commands before running them
    echo: bool,
    /// Don't actually run commands
    dry_run: bool,
    /// Track tasks currently executing to prevent cycles
    running: Vec<String>,
    completed: Vec<String>,
    started: Ghost<Seq<Seq<char>>>,
    frames: Vec<Frame>,
    pending: Pending,
    notes: Vec<Note>,
}

impl View for Executor {
    type V = SpecExecutor;

    closed spec fn view(&self) -> SpecExecutor {
        SpecExecutor {
            tasks: self.taskfile@.tasks,
            scope: self.scope@,
            echo: self.echo,
            dry_run: self.dry_run,
            running: strings_view(self.running@),
            completed: strings_view(self.completed@),
            started: self.started@,
            frames: frames_view(self.frames@),
            pending: pending_view(self.pending),
            notes: notes_view(self.notes@),
        }
    }
}

pub open spec fn scope_view_of(
    user: Seq<(Seq<char>, Seq<char>)>,
    sys: Seq<(String, String)>,
    env: Seq<(String, String)>,
    cwd: String,
) -> SpecScope {
    SpecScope { user, sys: bindings_view(sys), env: bindings_view(env), cwd: cwd@ }
}

/// Each warning as a note.
fn push_warnings(notes: &mut Vec<Note>, warnings: Vec<String>)
    ensures
        notes_view(final(notes)@) == notes_view(old(notes)@) + warn_notes(strings_view(warnings@)),
{
    let mut i: usize = 0;
    while i < warnings.len()
        invariant
            i <= warnings@.len(),
            notes_view(notes@) == notes_view(old(notes)@) + warn_notes(
                strings_view(warnings@).take(i as int),
            ),
        decreases warnings@.len() - i,
    {
        let ghost prev = notes@;
        notes.push(Note::Warn(warnings[i].clone()));
        assert(notes_view(notes@) =~= notes_view(prev).push(SpecNote::Warn(warnings@[i as int]@)));
        i += 1;
        assert(warn_notes(strings_view(warnings@).take(i as int)) =~= warn_notes(
            strings_view(warnings@).take(i - 1),
        ).push(SpecNote::Warn(warnings@[i - 1]@)));
    }
    assert(strings_view(warnings@).take(warnings@.len() as int) =~= strings_view(warnings@));
}

fn push_note(notes: &mut Vec<Note>, n: Note)
    ensures
        notes_view(final(notes)@) == notes_view(old(notes)@) + seq![n@],
{
    notes.push(n);
    assert(notes_view(notes@) =~= notes_view(old(notes)@) + seq![n@]);
}

impl Executor {
    /// A runner for `taskfile`, given the system variables, the process
    /// environment and the current directory. The variables are expanded in
    /// declaration order; the warnings this gives are the first notes.
    pub fn new(
        taskfile: Taskfile,
        sys_vars: Vec<(String, String)>,
        env: Vec<(String, String)>,
        cwd: String,
    ) -> (r: Self)
        ensures
            ({
                let g = expand_globals(
                    taskfile@.globals,
                    bindings_view(sys_vars@),
                    bindings_view(env@),
                    cwd@,
                );
                r@ == SpecExecutor {
                    tasks: taskfile@.tasks,
                    scope: scope_view_of(g.0, sys_vars@, env@, cwd),
                    echo: true,
                    dry_run: false,
                    running: seq![],
                    completed: seq![],
                    started: seq![],
                    frames: seq![],
                    pending: SpecPending::Nothing,
                    notes: warn_notes(g.1),
                }
            }),
    {
        let mut scope = Scope { user: Vec::new(), sys: sys_vars, env, cwd };
        let mut notes: Vec<Note> = Vec::new();
        let ghost gv = taskfile@.globals;
        let mut i: usize = 0;
        assert(bindings_view(scope.user@) =~= seq![]);
        assert(notes_view(notes@) =~= seq![]);
        while i < taskfile.globals.len()
            invariant
                i <= taskfile.globals@.len(),
                gv == taskfile@.globals,
                bindings_view(scope.sys@) == bindings_view(sys_vars@),
                bindings_view(scope.env@) == bindings_view(env@),
                scope.cwd@ == cwd@,
                (bindings_view(scope.user@), notes_view(notes@)) == ({
                    let g = expand_globals(
                        gv.take(i as int),
                        bindings_view(sys_vars@),
                        bindings_view(env@),
                        cwd@,
                    );
                    (g.0, warn_notes(g.1))
                }),
            decreases taskfile.globals@.len() - i,
        {
            assert(gv.take(i + 1).drop_last() =~= gv.take(i as int));
            let (v, w) = expand_vars(taskfile.globals[i].1.as_str(), &scope);
            let name = taskfile.globals[i].0.clone();
            let ghost prev = scope.user@;
            scope.user.push((name, v));
            assert(bindings_view(scope.user@) =~= bindings_view(prev).push(
                (taskfile.globals@[i as int].0@, v@),
            ));
            let ghost nv = notes_view(notes@);
            push_warnings(&mut notes, w);
            assert(warn_notes(
                expand_globals(
                    gv.take(i as int),
                    bindings_view(sys_vars@),
                    bindings_view(env@),
                    cwd@,
                ).1 + strings_view(w@),
            ) =~= nv + warn_notes(strings_view(w@)));
            i += 1;
        }
        assert(gv.take(taskfile.globals@.len() as int) =~= gv);
        let started: Ghost<Seq<Seq<char>>> = Ghost(Seq::empty());
        let r = Executor {
            taskfile,
            scope,
            echo: true,
            dry_run: false,
            running: Vec::new(),
            completed: Vec::new(),
            started,
            frames: Vec::new(),
            pending: Pending::Nothing,
            notes,
        };
        assert(strings_view(r.running@) =~= seq![]);
        assert(strings_view(r.completed@) =~= seq![]);
        assert(frames_view(r.frames@) =~= seq![]);
        r
    }

    /// Expands the variables in `input`; the second part is the warnings.
    pub fn expand(&self, input: &str) -> (r: (String, Vec<String>))
        ensures
            (r.0@, strings_view(r.1@)) == expand(input@, self@.scope),
    {
        expand_vars(input, &self.scope)
    }

    fn eval_condition(&self, cond: &Condition) -> (r: (bool, Vec<String>))
        ensures
            (r.0, strings_view(r.1@)) == eval_condition(cond@, self@.scope),
    {
        match cond {
            Condition::Eq(l, r) => {
                let (a, mut wa) = self.expand(l.as_str());
                let (b, wb) = self.expand(r.as_str());
                let same = a == b;
                let ghost w0 = strings_view(wa@);
                append_strings(&mut wa, wb);
                (same, wa)
            },
            Condition::NotEq(l, r) => {
                let (a, mut wa) = self.expand(l.as_str());
                let (b, wb) = self.expand(r.as_str());
                let same = a == b;
                append_strings(&mut wa, wb);
                (!same, wa)
            },
            Condition::Truthy(v) => {
                let (a, wa) = self.expand(v.as_str());
                let t = truthy_chars(&chars_of(a.as_str()));
                (t, wa)
            },
        }
    }
}

fn append_strings(a: &mut Vec<String>, b: Vec<String>)
    ensures
        strings_view(final(a)@) == strings_view(old(a)@) + strings_view(b@),
{
    let mut i: usize = 0;
    while i < b.len()
        invariant
            i <= b@.len(),
            strings_view(a@) == strings_view(old(a)@) + strings_view(b@).take(i as int),
        decreases b@.len() - i,
    {
        let ghost prev = a@;
        a.push(b[i].clone());
        assert(strings_view(a@) =~= strings_view(prev).push(b@[i as int]@));
        i += 1;
        assert(strings_view(b@).take(i as int) =~= strings_view(b@).take(i - 1).push(
            b@[i - 1]@,
        ));
    }
    assert(strings_view(b@).take(b@.len() as int) =~= strings_view(b@));
}

fn truthy_chars(v: &Vec<char>) -> (r: bool)
    ensures
        r == truthy(v@),
{
    let zero: Vec<char> = vec!['0'];
    let fls: Vec<char> = vec!['f', 'a', 'l', 's', 'e'];
    assert(zero@ =~= seq!['0']);
    assert(fls@ =~= seq!['f', 'a', 'l', 's', 'e']);
    v.len() > 0 && !crate::text::chars_eq(v, &zero) && !crate::text::chars_eq(v, &fls)
}


pub proof fn lemma_stmts_view_index(v: Seq<Statement>)
    ensures
        stmts_view(v).len() == v.len(),
        forall|i: int| 0 <= i < v.len() ==> #[trigger] stmts_view(v)[i] == stmt_view(v[i]),
    decreases v.len(),
{
    if v.len() > 0 {
        lemma_stmts_view_index(v.drop_first());
        assert forall|i: int| 0 <= i < v.len() implies #[trigger] stmts_view(v)[i] == stmt_view(
            v[i],
        ) by {
            if i > 0 {
                assert(stmts_view(v)[i] == stmts_view(v.drop_first())[i - 1]);
                assert(v.drop_first()[i - 1] == v[i]);
            }
        }
    }
}

pub proof fn lemma_else_ifs_view_index(v: Seq<ElseIf>)
    ensures
        else_ifs_view(v).len() == v.len(),
        forall|i: int|
            0 <= i < v.len() ==> #[trigger] else_ifs_view(v)[i] == (
                v[i].condition@,
                stmts_view(v[i].body@),
            ),
    decreases v.len(),
{
    if v.len() > 0 {
        lemma_else_ifs_view_index(v.drop_first());
        assert forall|i: int| 0 <= i < v.len() implies #[trigger] else_ifs_view(v)[i] == (
            v[i].condition@,
            stmts_view(v[i].body@),
        ) by {
            if i > 0 {
                assert(else_ifs_view(v)[i] == else_ifs_view(v.drop_first())[i - 1]);
                assert(v.drop_first()[i - 1] == v[i]);
            }
        }
    }
}

fn push_line(out: &mut Vec<ScriptLine>, l: ScriptLine)
    ensures
        lines_view(final(out)@) == lines_view(old(out)@) + seq![l@],
{
    out.push(l);
    assert(lines_view(out@) =~= lines_view(old(out)@) + seq![l@]);
}

impl Executor {
    /// Walks the statements and collects the script lines that the
    /// conditions choose (commands unexpanded: they are expanded when they
    /// run, so that `$$CWD` reflects an earlier `cd`).
    fn collect_statements(
        &self,
        stmts: &Vec<Statement>,
        out: &mut Vec<ScriptLine>,
        warns: &mut Vec<String>,
    )
        ensures
            (lines_view(final(out)@), strings_view(final(warns)@)) == join_lines(
                (lines_view(old(out)@), strings_view(old(warns)@)),
                collect_stmts(stmts_view(stmts@), self@.scope),
            ),
        decreases stmts@,
    {
        let ghost sv = stmts_view(stmts@);
        let ghost c = self@.scope;
        let ghost target = join_lines(
            (lines_view(out@), strings_view(warns@)),
            collect_stmts(sv, c),
        );
        proof {
            lemma_stmts_view_index(stmts@);
            assert(sv.skip(0) =~= sv);
            assert(lines_view(out@) + collect_stmts(sv.skip(0), c).0 =~= target.0);
            assert(strings_view(warns@) + collect_stmts(sv.skip(0), c).1 =~= target.1);
        }
        let mut i: usize = 0;
        while i < stmts.len()
            invariant
                i <= stmts@.len(),
                sv == stmts_view(stmts@),
                sv.len() == stmts@.len(),
                forall|k: int| 0 <= k < stmts@.len() ==> #[trigger] sv[k] == stmt_view(stmts@[k]),
                c == self@.scope,
                lines_view(out@) + collect_stmts(sv.skip(i as int), c).0 == target.0,
                strings_view(warns@) + collect_stmts(sv.skip(i as int), c).1 == target.1,
            decreases stmts@.len() - i,
        {
            let ghost before = (lines_view(out@), strings_view(warns@));
            assert(sv.skip(i as int)[0] == sv[i as int]);
            assert(sv.skip(i as int).drop_first() =~= sv.skip(i + 1));
            let ghost st = stmts@[i as int];
            let ghost rest = collect_stmts(sv.skip(i + 1), c);
            match &stmts[i] {
                Statement::Command { raw, line } => {
                    push_line(out, ScriptLine::Command { raw: raw.clone(), line: *line });
                },
                Statement::Error { message, line } => {
                    push_line(out, ScriptLine::Abort { message: message.clone(), line: *line });
                },
                Statement::If { condition, then_body, else_ifs, else_body, line } => {
                    let ghost s = sv[i as int];
                    let (b, w) = self.eval_condition(condition);
                    append_strings(warns, w);
                    if b {
                        assert(decreases_to!(stmts@ => then_body@)) by {
                            assert(decreases_to!(stmts@ => stmts@[i as int]));
                        }
                        self.collect_statements(then_body, out, warns);
                    } else {
                        let ghost ev = else_ifs_view(else_ifs@);
                        proof {
                            lemma_else_ifs_view_index(else_ifs@);
                        }
                        let mut k: usize = 0;
                        let mut matched = false;
                        let ghost mid = (lines_view(out@), strings_view(warns@));
                        while k < else_ifs.len() && !matched
                            invariant
                                i < stmts@.len(),
                                st == stmts@[i as int],
                                st matches Statement::If { else_ifs: e, else_body: eb, .. } && e
                                    == *else_ifs && eb == *else_body,
                                k <= else_ifs@.len(),
                                ev == else_ifs_view(else_ifs@),
                                ev.len() == else_ifs@.len(),
                                forall|m: int|
                                    0 <= m < else_ifs@.len() ==> #[trigger] ev[m] == (
                                        else_ifs@[m].condition@,
                                        stmts_view(else_ifs@[m].body@),
                                    ),
                                c == self@.scope,
                                s == stmt_view(st),
                                !matched ==> lines_view(out@) + collect_chain(s, k as int, c).0
                                    == mid.0 + collect_chain(s, 0, c).0,
                                !matched ==> strings_view(warns@) + collect_chain(s, k as int, c).1
                                    == mid.1 + collect_chain(s, 0, c).1,
                                matched ==> lines_view(out@) == mid.0 + collect_chain(s, 0, c).0,
                                matched ==> strings_view(warns@) == mid.1 + collect_chain(s, 0, c).1,
                            decreases else_ifs@.len() - k,
                        {
                            let ghost cur = (lines_view(out@), strings_view(warns@));
                            let (b2, w2) = self.eval_condition(&else_ifs[k].condition);
                            append_strings(warns, w2);
                            if b2 {
                                assert(decreases_to!(stmts@ => else_ifs@[k as int].body@)) by {
                                    assert(decreases_to!(stmts@ => stmts@[i as int]));
                                    assert(decreases_to!(stmts@[i as int] => *else_ifs));
                                    assert(decreases_to!(*else_ifs => else_ifs@));
                                    assert(decreases_to!(else_ifs@ => else_ifs@[k as int]));
                                    assert(decreases_to!(else_ifs@[k as int] => else_ifs@[k as int].body));
                                    assert(decreases_to!(else_ifs@[k as int].body => else_ifs@[k as int].body@));
                                }
                                self.collect_statements(&else_ifs[k].body, out, warns);
                                matched = true;
                            }
                            k += 1;
                        }
                        if !matched {
                            assert(decreases_to!(stmts@ => else_body@)) by {
                                assert(decreases_to!(stmts@ => stmts@[i as int]));
                            }
                            self.collect_statements(else_body, out, warns);
                        }
                    }
                },
            }
            assert(collect_stmts(sv.skip(i as int), c) == join_lines(collect_stmt(sv[i as int], c), rest));
            assert(lines_view(out@) == before.0 + collect_stmt(sv[i as int], c).0);
            assert(strings_view(warns@) == before.1 + collect_stmt(sv[i as int], c).1);
            assert(lines_view(out@) + rest.0 =~= before.0 + collect_stmts(sv.skip(i as int), c).0);
            assert(strings_view(warns@) + rest.1 =~= before.1 + collect_stmts(sv.skip(i as int), c).1);
            i += 1;
        }
        assert(sv.skip(i as int) =~= seq![]);
        assert(lines_view(out@) + collect_stmts(sv.skip(i as int), c).0 =~= lines_view(out@));
        assert(strings_view(warns@) + collect_stmts(sv.skip(i as int), c).1 =~= strings_view(
            warns@,
        ));
    }
}


/// The model of an optional request.
pub open spec fn opt_request_view(r: Option<Request>) -> Option<SpecRequest> {
    match r {
        Some(q) => Some(q@),
        None => None,
    }
}

/// Every frame names a task of the taskfile.
pub open spec fn frames_ok(s: SpecExecutor) -> bool {
    &&& s.frames.len() == s.running.len()
    &&& forall|k: int| 0 <= k < s.frames.len() ==> #[trigger] s.frames[k].task < s.tasks.len()
}

fn strings_to_vecs(v: &Vec<String>) -> (r: Vec<Vec<char>>)
    ensures
        vecs_view(r@) == strings_view(v@),
{
    let mut out: Vec<Vec<char>> = Vec::new();
    let mut i: usize = 0;
    while i < v.len()
        invariant
            i <= v@.len(),
            vecs_view(out@) == strings_view(v@).take(i as int),
        decreases v@.len() - i,
    {
        let ghost prev = out@;
        let c = chars_of(v[i].as_str());
        out.push(c);
        proof {
            lemma_vecs_view_push(prev, c);
        }
        i += 1;
        assert(vecs_view(out@) =~= strings_view(v@).take(i as int));
    }
    assert(strings_view(v@).take(v@.len() as int) =~= strings_view(v@));
    out
}

pub(crate) fn task_name_vecs(tasks: &Vec<Task>) -> (r: Vec<Vec<char>>)
    ensures
        vecs_view(r@) == task_names(tasks_view(tasks@)),
{
    let mut out: Vec<Vec<char>> = Vec::new();
    let mut i: usize = 0;
    while i < tasks.len()
        invariant
            i <= tasks@.len(),
            vecs_view(out@) == task_names(tasks_view(tasks@)).take(i as int),
        decreases tasks@.len() - i,
    {
        let ghost prev = out@;
        let c = chars_of(tasks[i].name.as_str());
        out.push(c);
        proof {
            lemma_vecs_view_push(prev, c);
        }
        i += 1;
        assert(vecs_view(out@) =~= task_names(tasks_view(tasks@)).take(i as int));
    }
    assert(task_names(tasks_view(tasks@)).take(tasks@.len() as int) =~= task_names(
        tasks_view(tasks@),
    ));
    out
}

impl Executor {
    fn stop_run(&mut self)
        ensures
            final(self)@ == stop(old(self)@),
    {
        self.frames = Vec::new();
        self.running = Vec::new();
        self.started = Ghost(strings_view(self.completed@));
        self.pending = Pending::Nothing;
        assert(frames_view(self.frames@) =~= seq![]);
        assert(strings_view(self.running@) =~= seq![]);
    }

    /// Starts the task `name` (see `spec_start`).
    fn start(&mut self, name: &String) -> (r: Result<(), TskError>)
        ensures
            match spec_start(old(self)@, name@) {
                Ok(s2) => r is Ok && final(self)@ == s2,
                Err(e) => r matches Err(x) && x@ == e && final(self)@ == old(self)@,
            },
    {
        if contains_name(&self.running, name) {
            let mut m = chars_of("circular dependency detected: ");
            append(&mut m, &join_names_chars(&strings_to_vecs(&self.running), &word(" -> ")));
            append(&mut m, &word(" -> "));
            append(&mut m, &chars_of(name.as_str()));
            return Err(TskError::runtime(name.clone(), 0, string_from_chars(&m), None));
        }
        if contains_name(&self.completed, name) {
            return Ok(());
        }
        match find_task(&self.taskfile.tasks, name) {
            None => {
                let mut m = chars_of("task '");
                append(&mut m, &chars_of(name.as_str()));
                append(&mut m, &word("' not found.\nAvailable tasks: "));
                if self.taskfile.tasks.len() == 0 {
                    append(&mut m, &word("(none)"));
                } else {
                    let sorted = sort_names_chars(&task_name_vecs(&self.taskfile.tasks));
                    append(&mut m, &join_names_chars(&sorted, &word(", ")));
                }
                Err(TskError::cli(string_from_chars(&m)))
            },
            Some(i) => {
                let ghost fv = frames_view(self.frames@);
                let ghost rv = strings_view(self.running@);
                self.running.push(name.clone());
                self.frames.push(Frame { task: i, phase: Phase::Deps(0) });
                assert(frames_view(self.frames@) =~= fv.push(
                    SpecFrame { task: i as nat, phase: SpecPhase::Deps(0) },
                ));
                assert(strings_view(self.running@) =~= rv.push(name@));
                Ok(())
            },
        }
    }

    /// Runs one line of the script of task `ti` (see `spec_line`).
    fn exec_line(&mut self, l: &ScriptLine, ti: usize) -> (r: Option<Request>)
        requires
            ti < old(self)@.tasks.len(),
        ensures
            (final(self)@, opt_request_view(r)) == spec_line(
                old(self)@,
                l@,
                old(self)@.tasks[ti as int],
            ),
    {
        let ghost t = self@.tasks[ti as int];
        assert(t == self.taskfile.tasks@[ti as int]@);
        match l {
            ScriptLine::Abort { message, line } => {
                let (m, w) = self.expand(message.as_str());
                push_warnings(&mut self.notes, w);
                self.stop_run();
                let task = self.taskfile.tasks[ti].name.clone();
                Some(Request::Finished(Err(TskError::Abort { task, line: *line, message: m })))
            },
            ScriptLine::Command { raw, line } => {
                let (x, w) = self.expand(raw.as_str());
                push_warnings(&mut self.notes, w);
                let cmd = trim_chars(&chars_of(x.as_str()));
                if cmd.len() == 0 {
                    return None;
                }
                if self.dry_run {
                    push_note(&mut self.notes, Note::Show(string_from_chars(&cmd)));
                    return None;
                }
                if !self.taskfile.tasks[ti].flags.silent && self.echo {
                    push_note(&mut self.notes, Note::Echo(string_from_chars(&cmd)));
                }
                let (verb, rest0) = split_first_word_chars(&cmd);
                let rest = trim_chars(&rest0);
                let task = self.taskfile.tasks[ti].name.clone();
                let ignore = self.taskfile.tasks[ti].flags.ignore;
                if chars_eq(&verb, &cd_word()) {
                    let dir = if rest.len() == 0 {
                        match lookup_binding(&self.scope.env, &home_word()) {
                            Some(h) => chars_of(h.as_str()),
                            None => {
                                let d = vec!['.'];
                                assert(d@ =~= seq!['.']);
                                d
                            },
                        }
                    } else {
                        rest
                    };
                    self.pending = Pending::Dir {
                        task,
                        line: *line,
                        cmd: string_from_chars(&cmd),
                        dir: string_from_chars(&dir),
                        ignore,
                    };
                    return Some(Request::ChangeDir(string_from_chars(&dir)));
                }
                let windows = match lookup_binding(&self.scope.sys, &os_word()) {
                    Some(os) => chars_eq(&chars_of(os.as_str()), &windows_word()),
                    None => false,
                };
                if chars_eq(&verb, &export_word()) || (chars_eq(&verb, &set_word()) && windows) {
                    let rl = rest.len();
                    match find_char(&rest, '=', 0) {
                        Some(e) => {
                            let key = trim_chars(&subvec(&rest, 0, e));
                            assert(rest@.subrange(0, e as int) =~= rest@.take(e as int));
                            let val = trim_chars(&subvec(&rest, e + 1, rl));
                            assert(rest@.subrange(e + 1, rest@.len() as int) =~= rest@.skip(e + 1));
                            let ghost ev = bindings_view(self.scope.env@);
                            self.scope.env.push((string_from_chars(&key), string_from_chars(&val)));
                            assert(bindings_view(self.scope.env@) =~= ev.push((key@, val@)));
                            self.pending = Pending::Env;
                            return Some(
                                Request::SetEnv(string_from_chars(&key), string_from_chars(&val)),
                            );
                        },
                        None => {
                            return None;
                        },
                    }
                }
                self.pending = Pending::Run {
                    task,
                    line: *line,
                    cmd: string_from_chars(&cmd),
                    ignore,
                };
                Some(Request::Spawn(string_from_chars(&cmd)))
            },
        }
    }

    /// One step of the run (see `spec_unit`).
    fn unit(&mut self) -> (r: Option<Request>)
        requires
            frames_ok(old(self)@),
        ensures
            (final(self)@, opt_request_view(r)) == spec_unit(old(self)@),
    {
        let ghost s = self@;
        let ghost fv = frames_view(self.frames@);
        let top = match self.frames.pop() {
            None => {
                return Some(Request::Finished(Ok(())));
            },
            Some(f) => f,
        };
        assert(frames_view(self.frames@) =~= fv.drop_last());
        assert(frame_view(top) == fv.last());
        let ti = top.task;
        assert(fv.last().task < s.tasks.len());
        let ghost t = s.tasks[ti as int];
        assert(t == self.taskfile.tasks@[ti as int]@);
        match top.phase {
            Phase::Deps(i) => {
                if i < self.taskfile.tasks[ti].deps.len() {
                    let dep = self.taskfile.tasks[ti].deps[i].clone();
                    self.frames.push(Frame { task: ti, phase: Phase::Deps(i + 1) });
                    assert(frames_view(self.frames@) =~= set_top(
                        s,
                        SpecPhase::Deps((i + 1) as nat),
                    ).frames);
                    assert(self@ == set_top(s, SpecPhase::Deps((i + 1) as nat)));
                    match self.start(&dep) {
                        Ok(()) => None,
                        Err(e) => {
                            self.stop_run();
                            Some(Request::Finished(Err(e)))
                        },
                    }
                } else {
                    let mut lines: Vec<ScriptLine> = Vec::new();
                    let mut warns: Vec<String> = Vec::new();
                    assert(lines_view(lines@) =~= seq![]);
                    assert(strings_view(warns@) =~= seq![]);
                    self.collect_statements(&self.taskfile.tasks[ti].body, &mut lines, &mut warns);
                    let ghost lv = lines_view(lines@);
                    assert(lv =~= collect_stmts(t.body, s.scope).0);
                    self.frames.push(Frame { task: ti, phase: Phase::Lines(lines, 0) });
                    assert(frames_view(self.frames@) =~= set_top(
                        s,
                        SpecPhase::Lines(lv, 0),
                    ).frames);
                    push_warnings(&mut self.notes, warns);
                    let ghost name = t.name;
                    self.started = Ghost(self.started@.push(name));
                    None
                }
            },
            Phase::Lines(lines, j) => {
                if j < lines.len() {
                    let l = copy_line(&lines[j]);
                    let ghost lv = lines_view(lines@);
                    assert(l@ == lv[j as int]);
                    self.frames.push(Frame { task: ti, phase: Phase::Lines(lines, j + 1) });
                    assert(frames_view(self.frames@) =~= set_top(
                        s,
                        SpecPhase::Lines(lv, (j + 1) as nat),
                    ).frames);
                    assert(self@ == set_top(s, SpecPhase::Lines(lv, (j + 1) as nat)));
                    self.exec_line(&l, ti)
                } else {
                    let ghost rv = strings_view(self.running@);
                    let ghost cv = strings_view(self.completed@);
                    self.running.pop();
                    assert(strings_view(self.running@) =~= rv.drop_last());
                    let n = self.taskfile.tasks[ti].name.clone();
                    self.completed.push(n);
                    assert(strings_view(self.completed@) =~= cv.push(t.name));
                    None
                }
            },
        }
    }

    /// Takes the reply to the request awaited (see `spec_reply`).
    fn apply_reply(&mut self, reply: Reply) -> (r: Option<Request>)
        ensures
            (final(self)@, opt_request_view(r)) == spec_reply(old(self)@, reply@),
    {
        let mut p = Pending::Nothing;
        core::mem::swap(&mut p, &mut self.pending);
        match p {
            Pending::Dir { task, line, cmd, dir, ignore } => match reply {
                Reply::DirChanged(cwd) => {
                    self.scope.cwd = cwd;
                    None
                },
                Reply::Failed(err) => {
                    let mut m = chars_of("cd: ");
                    append(&mut m, &chars_of(dir.as_str()));
                    append(&mut m, &word(": "));
                    append(&mut m, &chars_of(err.as_str()));
                    if ignore {
                        let mut wm = chars_of("ignored error in '");
                        append(&mut wm, &chars_of(task.as_str()));
                        append(&mut wm, &word("': "));
                        append(&mut wm, &m);
                        push_note(&mut self.notes, Note::Warn(string_from_chars(&wm)));
                        None
                    } else {
                        self.stop_run();
                        Some(
                            Request::Finished(
                                Err(TskError::runtime(task, line, string_from_chars(&m), Some(cmd))),
                            ),
                        )
                    }
                },
                _ => None,
            },
            Pending::Run { task, line, cmd, ignore } => match reply {
                Reply::Exited { success, code } => {
                    if success {
                        None
                    } else {
                        let c: i32 = match code {
                            Some(c) => c,
                            None => -1,
                        };
                        if ignore {
                            let mut wm = chars_of("task '");
                            append(&mut wm, &chars_of(task.as_str()));
                            append(&mut wm, &word("' line "));
                            append(&mut wm, &usize_decimal(line));
                            append(&mut wm, &word(": command exited "));
                            append(&mut wm, &i32_decimal(c));
                            append(&mut wm, &word(" (ignored)"));
                            push_note(&mut self.notes, Note::Warn(string_from_chars(&wm)));
                            None
                        } else {
                            let mut m = chars_of("exited with status ");
                            append(&mut m, &i32_decimal(c));
                            self.stop_run();
                            Some(
                                Request::Finished(
                                    Err(
                                        TskError::runtime(
                                            task,
                                            line,
                                            string_from_chars(&m),
                                            Some(cmd),
                                        ),
                                    ),
                                ),
                            )
                        }
                    }
                },
                Reply::SpawnFailed { shell, error } => {
                    let mut m = chars_of("failed to spawn '");
                    append(&mut m, &chars_of(shell.as_str()));
                    append(&mut m, &word("': "));
                    append(&mut m, &chars_of(error.as_str()));
                    self.stop_run();
                    Some(
                        Request::Finished(
                            Err(TskError::runtime(task, line, string_from_chars(&m), Some(cmd))),
                        ),
                    )
                },
                _ => None,
            },
            _ => None,
        }
    }
}


// ---------------------------------------------------------------------------
// What every run keeps
// ---------------------------------------------------------------------------

/// The dependencies of the task of frame `f`.
pub open spec fn deps_of(s: SpecExecutor, f: SpecFrame) -> Seq<Seq<char>> {
    s.tasks[f.task as int].deps
}

/// How many dependencies of frame `f` have been started: all of them once
/// its script runs.
pub open spec fn deps_begun(s: SpecExecutor, f: SpecFrame) -> int {
    match f.phase {
        SpecPhase::Deps(i) => i as int,
        SpecPhase::Lines(..) => deps_of(s, f).len() as int,
    }
}

/// Dependency `d` of frame `k` has finished, or it is the one being run
/// right now, in the frame above.
pub open spec fn dep_settled(s: SpecExecutor, k: int, d: int) -> bool {
    let f = s.frames[k];
    ||| s.completed.contains(deps_of(s, f)[d])
    ||| f.phase is Deps && d == deps_begun(s, f) - 1 && k + 1 < s.frames.len() && s.running[k + 1]
        == deps_of(s, f)[d]
}

/// The task of the top frame, if its script has started.
pub open spec fn top_started(s: SpecExecutor) -> Seq<Seq<char>> {
    if s.frames.len() > 0 && s.frames.last().phase is Lines {
        seq![s.running.last()]
    } else {
        seq![]
    }
}

pub open spec fn phase_bounded(s: SpecExecutor, f: SpecFrame) -> bool {
    match f.phase {
        SpecPhase::Deps(i) => i <= deps_of(s, f).len(),
        SpecPhase::Lines(ls, j) => j <= ls.len(),
    }
}

/// The invariant of a run in progress.
pub open spec fn inv(s: SpecExecutor) -> bool {
    &&& frames_ok(s)
    &&& forall|k: int|
        0 <= k < s.frames.len() ==> s.tasks[#[trigger] s.frames[k].task as int].name
            == s.running[k]
    &&& forall|k: int| 0 <= k < s.frames.len() - 1 ==> #[trigger] s.frames[k].phase is Deps
    &&& forall|k: int| 0 <= k < s.frames.len() ==> phase_bounded(s, #[trigger] s.frames[k])
    &&& s.running.no_duplicates()
    &&& s.completed.no_duplicates()
    &&& s.running.disjoint(s.completed)
    &&& forall|i: int|
        0 <= i < s.completed.len() ==> task_names(s.tasks).contains(#[trigger] s.completed[i])
    &&& s.started == s.completed + top_started(s)
    &&& forall|k: int, d: int|
        0 <= k < s.frames.len() && 0 <= d < deps_begun(s, s.frames[k]) ==> #[trigger] dep_settled(
            s,
            k,
            d,
        )
}

/// Ready for a run: the invariant holds and nothing is running or awaited.
pub open spec fn ready(s: SpecExecutor) -> bool {
    inv(s) && s.frames.len() == 0 && s.pending is Nothing
}

/// The tasks not yet started (a measure of the work left).
pub open spec fn unstarted(s: SpecExecutor) -> int {
    s.tasks.len() - s.running.len() - s.completed.len()
}

pub open spec fn frame_weight(tasks: Seq<SpecTask>, f: SpecFrame) -> int {
    match f.phase {
        SpecPhase::Deps(i) => tasks[f.task as int].deps.len() - i + 2,
        SpecPhase::Lines(..) => 1,
    }
}

/// The steps left in the frames, not counting script lines.
pub open spec fn frames_weight(tasks: Seq<SpecTask>, fs: Seq<SpecFrame>) -> int
    decreases fs.len(),
{
    if fs.len() == 0 {
        0
    } else {
        frames_weight(tasks, fs.drop_last()) + frame_weight(tasks, fs.last())
    }
}

/// The script lines left in the top frame.
pub open spec fn lines_left(s: SpecExecutor) -> int {
    if s.frames.len() > 0 {
        match s.frames.last().phase {
            SpecPhase::Lines(ls, j) => ls.len() - j,
            _ => 0,
        }
    } else {
        0
    }
}

/// A step that makes no request leaves less work: fewer unstarted tasks, or
/// as many and less frame work, or as much and fewer lines.
pub open spec fn less_work(a: SpecExecutor, b: SpecExecutor) -> bool {
    ||| 0 <= unstarted(a) < unstarted(b)
    ||| unstarted(a) == unstarted(b) && 0 <= frames_weight(a.tasks, a.frames) < frames_weight(
        b.tasks,
        b.frames,
    )
    ||| unstarted(a) == unstarted(b) && frames_weight(a.tasks, a.frames) == frames_weight(b.tasks, b.frames)
        && 0 <= lines_left(a) < lines_left(b)
}

proof fn lemma_frames_weight_nonneg(s: SpecExecutor, fs: Seq<SpecFrame>)
    requires
        forall|k: int| 0 <= k < fs.len() ==> phase_bounded(s, #[trigger] fs[k]),
    ensures
        frames_weight(s.tasks, fs) >= 0,
    decreases fs.len(),
{
    if fs.len() > 0 {
        assert(phase_bounded(s, fs[fs.len() - 1]));
        lemma_frames_weight_nonneg(s, fs.drop_last());
    }
}

/// Running and finished tasks are distinct tasks of the taskfile.
proof fn lemma_unstarted_nonneg(s: SpecExecutor)
    requires
        inv(s),
    ensures
        unstarted(s) >= 0,
{
    let all = s.running + s.completed;
    let names = task_names(s.tasks);
    assert(all.no_duplicates()) by {
        assert forall|i: int, j: int| 0 <= i < j < all.len() implies all[i] != all[j] by {
            if j < s.running.len() {
            } else if i >= s.running.len() {
                assert(all[i] == s.completed[i - s.running.len()]);
                assert(all[j] == s.completed[j - s.running.len()]);
            } else {
                assert(all[j] == s.completed[j - s.running.len()]);
                assert(s.completed.contains(all[j]));
            }
        }
    }
    assert forall|x: Seq<char>| all.to_set().contains(x) implies names.to_set().contains(x) by {
        let i = choose|i: int| 0 <= i < all.len() && all[i] == x;
        if i < s.running.len() {
            let t = s.frames[i].task as int;
            assert(s.tasks[t].name == s.running[i]);
            assert(names[t] == x);
        } else {
            assert(all[i] == s.completed[i - s.running.len()]);
            assert(names.contains(s.completed[i - s.running.len()]));
        }
    }
    all.unique_seq_to_set();
    names.lemma_cardinality_of_set();
    vstd::set_lib::lemma_len_subset(all.to_set(), names.to_set());
}

proof fn lemma_frames_weight_update_last(s: SpecExecutor, fs: Seq<SpecFrame>, f: SpecFrame)
    requires
        fs.len() > 0,
    ensures
        frames_weight(s.tasks, fs.update(fs.len() - 1, f)) == frames_weight(s.tasks, fs)
            - frame_weight(s.tasks, fs.last()) + frame_weight(s.tasks, f),
{
    assert(fs.update(fs.len() - 1, f).drop_last() =~= fs.drop_last());
}

proof fn lemma_frames_weight_push(s: SpecExecutor, fs: Seq<SpecFrame>, f: SpecFrame)
    ensures
        frames_weight(s.tasks, fs.push(f)) == frames_weight(s.tasks, fs) + frame_weight(s.tasks, f),
{
    assert(fs.push(f).drop_last() =~= fs);
}

/// `set_top` changes the phase of the top frame only.
proof fn lemma_set_top(s: SpecExecutor, p: SpecPhase)
    requires
        s.frames.len() > 0,
    ensures
        set_top(s, p).frames.len() == s.frames.len(),
        set_top(s, p).frames.last() == (SpecFrame { task: s.frames.last().task, phase: p }),
        forall|k: int|
            0 <= k < s.frames.len() - 1 ==> #[trigger] set_top(s, p).frames[k] == s.frames[k],
{
}


/// The invariant depends only on the tasks, frames, running, finished and
/// started tasks.
proof fn lemma_inv_same_frames(s: SpecExecutor, s2: SpecExecutor)
    requires
        inv(s),
        s2.tasks == s.tasks,
        s2.frames == s.frames,
        s2.running == s.running,
        s2.completed == s.completed,
        s2.started == s.started,
    ensures
        inv(s2),
{
    assert forall|k: int, d: int|
        0 <= k < s2.frames.len() && 0 <= d < deps_begun(s2, s2.frames[k]) implies #[trigger] dep_settled(
        s2,
        k,
        d,
    ) by {
        assert(dep_settled(s, k, d));
    }
    assert forall|k: int| 0 <= k < s2.frames.len() implies phase_bounded(s2, #[trigger] s2.frames[k]) by {
        assert(phase_bounded(s, s.frames[k]));
    }
    assert(top_started(s2) == top_started(s));
}

/// What a script line leaves of a run: either it ends it with an error, or
/// the frames, running and finished tasks, and started scripts are unchanged.
proof fn lemma_line_keeps_frames(s: SpecExecutor, l: SpecLine, t: SpecTask)
    ensures
        spec_line(s, l, t).1 matches Some(SpecRequest::Finished(Err(_))) || {
            let s2 = spec_line(s, l, t).0;
            &&& s2.frames == s.frames
            &&& s2.running == s.running
            &&& s2.completed == s.completed
            &&& s2.started == s.started
            &&& s2.tasks == s.tasks
            &&& spec_line(s, l, t).1 is None ==> s2.pending == s.pending
        },
{
}

/// A dependency step keeps the invariant, unless it ends the run with an error.
#[verifier::rlimit(40)]
proof fn lemma_unit_dep(s: SpecExecutor)
    requires
        inv(s),
        s.frames.len() > 0,
        s.frames.last().phase matches SpecPhase::Deps(i) && i < deps_of(s, s.frames.last()).len(),
    ensures
        spec_unit(s).1 matches Some(SpecRequest::Finished(Err(_))) || (spec_unit(s).1 is None
            && inv(spec_unit(s).0) && less_work(spec_unit(s).0, s) && spec_unit(s).0.pending
            == s.pending),
{
    let top = s.frames.last();
    let kt = s.frames.len() - 1;
    let t = s.tasks[top.task as int];
    let i = match top.phase {
        SpecPhase::Deps(i) => i,
        _ => 0,
    };
    let dep = t.deps[i as int];
    let s1 = set_top(s, SpecPhase::Deps(i + 1));
    lemma_set_top(s, SpecPhase::Deps(i + 1));
    lemma_frames_weight_update_last(s, s.frames, SpecFrame { task: top.task, phase: SpecPhase::Deps(i + 1) });
    lemma_unstarted_nonneg(s);
    assert(s.frames[kt] == top);
    if s.running.contains(dep) {
    } else if s.completed.contains(dep) {
        assert(spec_unit(s).0 == s1);
        assert forall|k: int, d: int|
            0 <= k < s1.frames.len() && 0 <= d < deps_begun(s1, s1.frames[k]) implies #[trigger] dep_settled(
            s1,
            k,
            d,
        ) by {
            if k < kt {
                assert(s1.frames[k] == s.frames[k]);
                assert(dep_settled(s, k, d));
            } else if d < i {
                assert(dep_settled(s, kt, d));
            }
        }
        assert forall|k: int| 0 <= k < s1.frames.len() implies phase_bounded(s1, #[trigger] s1.frames[k]) by {
            if k < kt {
                assert(phase_bounded(s, s.frames[k]));
            }
        }
        assert(inv(s1));
        lemma_frames_weight_nonneg(s1, s1.frames);
        assert(frames_weight(s1.tasks, s1.frames) == frames_weight(s.tasks, s.frames) - 1);
        assert(less_work(s1, s));
    } else {
        lemma_task_index_from(s.tasks, dep, 0);
        match task_index_from(s.tasks, dep, 0) {
            None => {},
            Some(idx) => {
                let nf = SpecFrame { task: idx as nat, phase: SpecPhase::Deps(0) };
                let s2 = SpecExecutor {
                    running: s1.running.push(dep),
                    frames: s1.frames.push(nf),
                    ..s1
                };
                assert(spec_unit(s).0 == s2);
                lemma_frames_weight_push(s, s1.frames, nf);
                assert(s2.running.no_duplicates()) by {
                    assert forall|a: int, b: int| 0 <= a < b < s2.running.len() implies s2.running[a] != s2.running[b] by {
                        if b == s2.running.len() - 1 {
                            assert(s.running.contains(s.running[a]));
                        }
                    }
                }
                assert(s2.running.disjoint(s2.completed)) by {
                    assert forall|a: int, b: int| 0 <= a < s2.running.len() && 0 <= b < s2.completed.len() implies s2.running[a] != s2.completed[b] by {
                        if a == s2.running.len() - 1 {
                            assert(s.completed.contains(s.completed[b]));
                        }
                    }
                }
                assert forall|k: int| 0 <= k < s2.frames.len() implies s2.tasks[#[trigger] s2.frames[k].task as int].name
                    == s2.running[k] by {
                    if k < kt {
                        assert(s2.frames[k] == s.frames[k]);
                    }
                }
                assert forall|k: int| 0 <= k < s2.frames.len() - 1 implies #[trigger] s2.frames[k].phase is Deps by {
                    if k < kt {
                        assert(s2.frames[k] == s.frames[k]);
                    }
                }
                assert forall|k: int| 0 <= k < s2.frames.len() implies phase_bounded(s2, #[trigger] s2.frames[k]) by {
                    if k < kt {
                        assert(s2.frames[k] == s.frames[k]);
                        assert(phase_bounded(s, s.frames[k]));
                    }
                }
                assert(top_started(s2) =~= seq![]);
                assert(top_started(s) =~= seq![]);
                assert forall|k: int, d: int|
                    0 <= k < s2.frames.len() && 0 <= d < deps_begun(s2, s2.frames[k]) implies #[trigger] dep_settled(
                    s2,
                    k,
                    d,
                ) by {
                    if k < kt {
                        assert(s2.frames[k] == s.frames[k]);
                        assert(dep_settled(s, k, d));
                        if k + 1 < s.frames.len() {
                            assert(s2.running[k + 1] == s.running[k + 1]);
                        }
                    } else if k == kt {
                        if d < i {
                            assert(dep_settled(s, kt, d));
                        }
                    }
                }
                assert(frames_ok(s2)) by {
                    assert forall|k: int| 0 <= k < s2.frames.len() implies #[trigger] s2.frames[k].task
                        < s2.tasks.len() by {
                        if k < kt {
                            assert(s2.frames[k] == s.frames[k]);
                        }
                    }
                }
                assert(inv(s2));
                lemma_unstarted_nonneg(s2);
                assert(unstarted(s2) == unstarted(s) - 1);
                assert(less_work(s2, s));
            },
        }
    }
}

/// Collecting the script of the top task keeps the invariant.
proof fn lemma_unit_collect(s: SpecExecutor)
    requires
        inv(s),
        s.frames.len() > 0,
        s.frames.last().phase matches SpecPhase::Deps(i) && i >= deps_of(s, s.frames.last()).len(),
    ensures
        spec_unit(s).1 is None && inv(spec_unit(s).0) && less_work(spec_unit(s).0, s)
            && spec_unit(s).0.pending == s.pending,
{
    let top = s.frames.last();
    let kt = s.frames.len() - 1;
    let t = s.tasks[top.task as int];
    let (lines, w) = collect_stmts(t.body, s.scope);
    let p = SpecPhase::Lines(lines, 0);
    let s2 = spec_unit(s).0;
    lemma_set_top(s, p);
    lemma_frames_weight_update_last(s, s.frames, SpecFrame { task: top.task, phase: p });
    lemma_unstarted_nonneg(s);
    assert(s.frames[kt] == top);
    assert(phase_bounded(s, top));
    assert(s2.frames == set_top(s, p).frames);
    assert(s2.started == s.started.push(t.name));
    assert(top_started(s) =~= seq![]);
    assert(s.tasks[s.frames[kt].task as int].name == s.running[kt]);
    assert(top_started(s2) =~= seq![t.name]);
    assert(s2.started =~= s2.completed + top_started(s2));
    assert(frames_weight(s2.tasks, s2.frames) == frames_weight(s.tasks, s.frames) - 1);
    assert(unstarted(s2) == unstarted(s));
    assert forall|k: int| 0 <= k < s2.frames.len() implies phase_bounded(s2, #[trigger] s2.frames[k]) by {
        if k < kt {
            assert(phase_bounded(s, s.frames[k]));
        }
    }
    lemma_frames_weight_nonneg(s2, s2.frames);
    assert forall|k: int, d: int|
        0 <= k < s2.frames.len() && 0 <= d < deps_begun(s2, s2.frames[k]) implies #[trigger] dep_settled(
        s2,
        k,
        d,
    ) by {
        if k < kt {
            assert(s2.frames[k] == s.frames[k]);
            assert(dep_settled(s, k, d));
        } else {
            assert(dep_settled(s, kt, d));
        }
    }
    assert forall|k: int| 0 <= k < s2.frames.len() implies phase_bounded(s2, #[trigger] s2.frames[k]) by {
        if k < kt {
            assert(phase_bounded(s, s.frames[k]));
        }
    }
    assert(inv(s2));
}

/// Running a script line keeps the invariant, unless it ends the run with an
/// error.
proof fn lemma_unit_line(s: SpecExecutor)
    requires
        inv(s),
        s.frames.len() > 0,
        s.frames.last().phase matches SpecPhase::Lines(ls, j) && j < ls.len(),
    ensures
        spec_unit(s).1 matches Some(SpecRequest::Finished(Err(_))) || (inv(spec_unit(s).0) && (
        spec_unit(s).1 is None ==> less_work(spec_unit(s).0, s) && spec_unit(s).0.pending
            == s.pending)),
{
    let top = s.frames.last();
    let kt = s.frames.len() - 1;
    let t = s.tasks[top.task as int];
    let (ls, j) = match top.phase {
        SpecPhase::Lines(ls, j) => (ls, j),
        _ => (seq![], 0),
    };
    let p = SpecPhase::Lines(ls, j + 1);
    let s1 = set_top(s, p);
    lemma_set_top(s, p);
    lemma_frames_weight_update_last(s, s.frames, SpecFrame { task: top.task, phase: p });
    lemma_unstarted_nonneg(s);
    lemma_line_keeps_frames(s1, ls[j as int], t);
    assert(s.frames[kt] == top);
    assert forall|k: int, d: int|
        0 <= k < s1.frames.len() && 0 <= d < deps_begun(s1, s1.frames[k]) implies #[trigger] dep_settled(
        s1,
        k,
        d,
    ) by {
        if k < kt {
            assert(s1.frames[k] == s.frames[k]);
            assert(dep_settled(s, k, d));
        } else {
            assert(dep_settled(s, kt, d));
        }
    }
    assert forall|k: int| 0 <= k < s1.frames.len() implies phase_bounded(s1, #[trigger] s1.frames[k]) by {
        if k < kt {
            assert(phase_bounded(s, s.frames[k]));
        }
    }
    assert(top_started(s1) == top_started(s));
    assert(inv(s1));
    let s2 = spec_line(s1, ls[j as int], t).0;
    assert(spec_unit(s) == spec_line(s1, ls[j as int], t));
    if !(spec_unit(s).1 matches Some(SpecRequest::Finished(Err(_)))) {
        lemma_inv_same_frames(s1, s2);
        assert(frames_weight(s2.tasks, s2.frames) == frames_weight(s.tasks, s.frames));
        assert(lines_left(s2) == lines_left(s) - 1);
        assert(unstarted(s2) == unstarted(s));
    }
}

/// Finishing the top task keeps the invariant.
#[verifier::rlimit(40)]
proof fn lemma_unit_finish(s: SpecExecutor)
    requires
        inv(s),
        s.frames.len() > 0,
        s.frames.last().phase matches SpecPhase::Lines(ls, j) && j >= ls.len(),
    ensures
        spec_unit(s).1 is None && inv(spec_unit(s).0) && less_work(spec_unit(s).0, s)
            && spec_unit(s).0.pending == s.pending,
{
    let top = s.frames.last();
    let kt = s.frames.len() - 1;
    let t = s.tasks[top.task as int];
    let s2 = spec_unit(s).0;
    lemma_unstarted_nonneg(s);
    assert(s.frames[kt] == top);
    assert(s.tasks[s.frames[kt].task as int].name == s.running[kt]);
    assert(s.running.last() == t.name);
    assert(frames_weight(s.tasks, s.frames) == frames_weight(s.tasks, s.frames.drop_last()) + 1);
    assert(s2.completed.no_duplicates()) by {
        assert(!s.completed.contains(t.name)) by {
            assert(s.running.contains(t.name)) by {
                assert(s.running[kt] == t.name);
            }
        }
        assert forall|a: int, b: int| 0 <= a < b < s2.completed.len() implies s2.completed[a]
            != s2.completed[b] by {
            if b == s2.completed.len() - 1 {
                assert(s.completed.contains(s.completed[a]));
            }
        }
    }
    assert(s2.running.no_duplicates()) by {
        assert forall|a: int, b: int| 0 <= a < b < s2.running.len() implies s2.running[a]
            != s2.running[b] by {
            assert(s2.running[a] == s.running[a]);
            assert(s2.running[b] == s.running[b]);
        }
    }
    assert(s2.running.disjoint(s2.completed)) by {
        assert forall|a: int, b: int|
            0 <= a < s2.running.len() && 0 <= b < s2.completed.len() implies s2.running[a]
            != s2.completed[b] by {
            assert(s2.running[a] == s.running[a]);
            if b == s2.completed.len() - 1 {
                assert(s.running[a] != s.running[kt]);
            } else {
                assert(s.completed.contains(s.completed[b]));
            }
        }
    }
    assert forall|i: int| 0 <= i < s2.completed.len() implies task_names(s2.tasks).contains(
        #[trigger] s2.completed[i],
    ) by {
        if i == s2.completed.len() - 1 {
            assert(task_names(s.tasks)[top.task as int] == t.name);
        } else {
            assert(s2.completed[i] == s.completed[i]);
        }
    }
    if s2.frames.len() > 0 {
        assert(s2.frames.last() == s.frames[kt - 1]);
        assert(s.frames[kt - 1].phase is Deps);
    }
    assert(top_started(s2) =~= seq![]);
    assert(top_started(s) =~= seq![t.name]);
    assert(s2.started =~= s2.completed + top_started(s2));
    assert forall|k: int, d: int|
        0 <= k < s2.frames.len() && 0 <= d < deps_begun(s2, s2.frames[k]) implies #[trigger] dep_settled(
        s2,
        k,
        d,
    ) by {
        assert(s2.frames[k] == s.frames[k]);
        assert(dep_settled(s, k, d));
        if k + 1 < s.frames.len() && s.running[k + 1] == deps_of(s, s.frames[k])[d] {
            if k + 1 == kt {
                assert(s2.completed.contains(t.name)) by {
                    assert(s2.completed[s2.completed.len() - 1] == t.name);
                }
            } else {
                assert(s2.running[k + 1] == s.running[k + 1]);
            }
        } else {
            let x = deps_of(s, s.frames[k])[d];
            assert(s.completed.contains(x));
            let q = choose|q: int| 0 <= q < s.completed.len() && s.completed[q] == x;
            assert(s2.completed[q] == x);
        }
    }
    assert forall|k: int| 0 <= k < s2.frames.len() implies phase_bounded(s2, #[trigger] s2.frames[k]) by {
        assert(phase_bounded(s, s.frames[k]));
    }
    assert forall|k: int| 0 <= k < s2.frames.len() implies s2.tasks[#[trigger] s2.frames[k].task as int].name
        == s2.running[k] by {
        assert(s.tasks[s.frames[k].task as int].name == s.running[k]);
    }
    assert(frames_ok(s2)) by {
        assert forall|k: int| 0 <= k < s2.frames.len() implies #[trigger] s2.frames[k].task
            < s2.tasks.len() by {
            assert(s.frames[k].task < s.tasks.len());
        }
    }
    assert(inv(s2));
    lemma_unstarted_nonneg(s2);
    assert forall|k: int| 0 <= k < s2.frames.len() implies phase_bounded(s, #[trigger] s2.frames[k]) by {
        assert(phase_bounded(s, s.frames[k]));
    }
    lemma_frames_weight_nonneg(s2, s2.frames);
}

/// Every step keeps the invariant, unless it ends the run with an error; a
/// step without a request leaves less work and awaits what was awaited.
/// A run stopped from a state whose finished tasks are sound is ready for
/// another run.
proof fn lemma_stop_ready(s: SpecExecutor)
    requires
        s.completed.no_duplicates(),
        forall|i: int|
            0 <= i < s.completed.len() ==> task_names(s.tasks).contains(#[trigger] s.completed[i]),
    ensures
        ready(stop(s)),
{
    let t = stop(s);
    assert(top_started(t) =~= seq![]);
    assert(t.started =~= t.completed + top_started(t));
    assert(t.running.disjoint(t.completed));
}

pub proof fn lemma_unit(s: SpecExecutor)
    requires
        inv(s),
    ensures
        spec_unit(s).1 matches Some(SpecRequest::Finished(Err(_))) || inv(spec_unit(s).0),
        spec_unit(s).1 matches Some(SpecRequest::Finished(Err(_))) ==> ready(spec_unit(s).0),
        spec_unit(s).1 is None ==> less_work(spec_unit(s).0, s) && spec_unit(s).0.pending
            == s.pending,
        spec_unit(s).1 == Some(SpecRequest::Finished(Ok(()))) ==> spec_unit(s).0 == s
            && s.frames.len() == 0,
{
    if s.frames.len() > 0 {
        let top = s.frames.last();
        match top.phase {
            SpecPhase::Deps(i) => {
                if i < deps_of(s, top).len() {
                    lemma_unit_dep(s);
                    lemma_stop_ready(set_top(s, SpecPhase::Deps(i + 1)));
                } else {
                    lemma_unit_collect(s);
                }
            },
            SpecPhase::Lines(ls, j) => {
                if j < ls.len() {
                    lemma_unit_line(s);
                    let t = s.tasks[top.task as int];
                    let s1 = set_top(s, SpecPhase::Lines(ls, j + 1));
                    match ls[j as int] {
                        SpecLine::Abort { message, .. } => {
                            lemma_stop_ready(
                                add_notes(s1, warn_notes(expand(message, s1.scope).1)),
                            );
                        },
                        SpecLine::Command { .. } => {},
                    }
                } else {
                    lemma_unit_finish(s);
                }
            },
        }
    }
}

/// Taking a reply keeps the invariant, unless it ends the run with an error.
pub proof fn lemma_reply(s: SpecExecutor, r: SpecReply)
    requires
        inv(s),
    ensures
        spec_reply(s, r).1 matches Some(SpecRequest::Finished(Err(_))) || inv(spec_reply(s, r).0),
        spec_reply(s, r).1 matches Some(SpecRequest::Finished(Err(_))) ==> ready(
            spec_reply(s, r).0,
        ),
        spec_reply(s, r).0.pending is Nothing,
        spec_reply(s, r).1 is None || spec_reply(s, r).1 matches Some(SpecRequest::Finished(Err(_))),
{
    if !(spec_reply(s, r).1 matches Some(SpecRequest::Finished(Err(_)))) {
        lemma_inv_same_frames(s, spec_reply(s, r).0);
    }
    lemma_stop_ready(SpecExecutor { pending: SpecPending::Nothing, ..s });
}


// ---------------------------------------------------------------------------
// Laws of a run
// ---------------------------------------------------------------------------

/// Each task runs at most once per run: no task's script is started twice,
/// however many tasks depend on it.
pub proof fn law_script_runs_at_most_once(s: SpecExecutor)
    requires
        inv(s),
    ensures
        s.started.no_duplicates(),
{
    if s.frames.len() > 0 && s.frames.last().phase is Lines {
        let kt = s.running.len() - 1;
        assert(s.running.contains(s.running[kt]));
        assert forall|a: int, b: int| 0 <= a < b < s.started.len() implies s.started[a]
            != s.started[b] by {
            if b == s.started.len() - 1 {
                assert(s.started[b] == s.running[kt]);
                assert(s.started[a] == s.completed[a]);
            } else {
                assert(s.started[a] == s.completed[a]);
                assert(s.started[b] == s.completed[b]);
            }
        }
    } else {
        assert(s.started =~= s.completed);
    }
}

/// The dependencies of a task have all finished before its script runs.
pub proof fn law_dependencies_finish_first(s: SpecExecutor)
    requires
        inv(s),
        s.frames.len() > 0,
        s.frames.last().phase is Lines,
    ensures
        forall|d: int|
            0 <= d < deps_of(s, s.frames.last()).len() ==> s.completed.contains(
                #[trigger] deps_of(s, s.frames.last())[d],
            ),
{
    let kt = s.frames.len() - 1;
    assert(s.frames[kt] == s.frames.last());
    assert forall|d: int| 0 <= d < deps_of(s, s.frames.last()).len() implies s.completed.contains(
        #[trigger] deps_of(s, s.frames.last())[d],
    ) by {
        assert(dep_settled(s, kt, d));
    }
}

/// A dependency cycle is reported: starting a task that is already running
/// is a runtime error that names the chain of running tasks.
pub proof fn law_cycle_is_reported(s: SpecExecutor, name: Seq<char>)
    requires
        s.running.contains(name),
    ensures
        spec_start(s, name) == Err::<SpecExecutor, SpecError>(
            SpecError::Runtime {
                task: name,
                line: 0,
                message: circular_message(s.running, name),
                command: None,
            },
        ),
{
}

/// `@error` ends the run with exit code 1, with or without `@ignore`.
pub proof fn law_error_directive_aborts(
    s: SpecExecutor,
    message: Seq<char>,
    line: nat,
    t: SpecTask,
)
    ensures
        spec_line(s, SpecLine::Abort { message, line }, t).1 matches Some(
            SpecRequest::Finished(Err(e)),
        ) && crate::error::spec_exit_code(e) == 1,
{
}

/// With `@ignore`, a command that fails is a warning and the run goes on;
/// without it, the run ends with a runtime error (exit code 3).
pub proof fn law_ignore_turns_failure_into_warning(s: SpecExecutor, code: Option<i32>)
    requires
        s.pending is Run,
    ensures
        ({
            let (s2, r) = spec_reply(s, SpecReply::Exited { success: false, code });
            let c: int = match code {
                Some(c) => c as int,
                None => -1,
            };
            if s.pending->Run_ignore {
                r is None && s2 == add_notes(
                    SpecExecutor { pending: SpecPending::Nothing, ..s },
                    seq![
                        SpecNote::Warn(
                            exit_ignored_warning(s.pending->Run_task, s.pending->Run_line, c),
                        ),
                    ],
                )
            } else {
                r matches Some(SpecRequest::Finished(Err(e))) && crate::error::spec_exit_code(e)
                    == 3
            }
        }),
{
}

pub open spec fn no_echo(n: Seq<SpecNote>) -> bool {
    forall|i: int| 0 <= i < n.len() ==> !(#[trigger] n[i] is Echo)
}

/// `@silent` (or a runner whose `echo` is off) echoes no command.
pub proof fn law_silent_task_echoes_nothing(s: SpecExecutor, l: SpecLine, t: SpecTask)
    requires
        t.silent || !s.echo,
        no_echo(s.notes),
    ensures
        no_echo(spec_line(s, l, t).0.notes),
{
    match l {
        SpecLine::Abort { message, line } => {
            let w = expand(message, s.scope).1;
            assert(no_echo(s.notes + warn_notes(w))) by {
                assert forall|i: int| 0 <= i < (s.notes + warn_notes(w)).len() implies !(
                #[trigger] (s.notes + warn_notes(w))[i] is Echo) by {
                    if i >= s.notes.len() {
                        assert((s.notes + warn_notes(w))[i] == warn_notes(w)[i - s.notes.len()]);
                    }
                }
            }
        },
        SpecLine::Command { raw, line } => {
            let w = expand(raw, s.scope).1;
            let n1 = s.notes + warn_notes(w);
            assert(no_echo(n1)) by {
                assert forall|i: int| 0 <= i < n1.len() implies !(#[trigger] n1[i] is Echo) by {
                    if i >= s.notes.len() {
                        assert(n1[i] == warn_notes(w)[i - s.notes.len()]);
                    }
                }
            }
            let cmd = trim(expand(raw, s.scope).0);
            assert(no_echo(n1 + seq![SpecNote::Show(cmd)])) by {
                assert forall|i: int| 0 <= i < (n1 + seq![SpecNote::Show(cmd)]).len() implies !(
                #[trigger] (n1 + seq![SpecNote::Show(cmd)])[i] is Echo) by {
                    if i < n1.len() {
                        assert((n1 + seq![SpecNote::Show(cmd)])[i] == n1[i]);
                    }
                }
            }
        },
    }
}

/// A `cd` that succeeded moves the current directory of the run to the one
/// the caller reports, and nothing else changes: later lines see it as
/// `$$CWD`.
pub proof fn law_cd_moves_cwd(s: SpecExecutor, d: Seq<char>)
    requires
        s.pending is Dir,
    ensures
        spec_reply(s, SpecReply::DirChanged(d)).1 is None,
        spec_reply(s, SpecReply::DirChanged(d)).0 == (SpecExecutor {
            scope: SpecScope { cwd: d, ..s.scope },
            pending: SpecPending::Nothing,
            ..s
        }),
{
}

proof fn lemma_chain_picks(s: SpecStatement, c: SpecScope, j: int, k: int)
    requires
        s is If,
        0 <= j <= k < s->If_else_ifs.len(),
        eval_condition(s->If_else_ifs[k].0, c).0,
        forall|m: int| j <= m < k ==> !(#[trigger] eval_condition(s->If_else_ifs[m].0, c)).0,
    ensures
        collect_chain(s, j, c).0 == collect_stmts(s->If_else_ifs[k].1, c).0,
    decreases k - j,
{
    if j < k {
        assert(!eval_condition(s->If_else_ifs[j].0, c).0);
        lemma_chain_picks(s, c, j + 1, k);
    }
}

proof fn lemma_chain_falls_through(s: SpecStatement, c: SpecScope, j: int)
    requires
        s is If,
        0 <= j <= s->If_else_ifs.len(),
        forall|m: int|
            j <= m < s->If_else_ifs.len() ==> !(#[trigger] eval_condition(
                s->If_else_ifs[m].0,
                c,
            )).0,
    ensures
        collect_chain(s, j, c).0 == collect_stmts(s->If_else_body, c).0,
    decreases s->If_else_ifs.len() - j,
{
    if j < s->If_else_ifs.len() {
        assert(!eval_condition(s->If_else_ifs[j].0, c).0);
        lemma_chain_falls_through(s, c, j + 1);
    }
}

/// An `if` chain runs the body of the first branch whose condition holds:
/// the `if` itself, else the first `else if` in source order, else the
/// `else` block.
pub proof fn law_first_true_branch_runs(s: SpecStatement, c: SpecScope, k: int)
    requires
        s is If,
    ensures
        eval_condition(s->If_condition, c).0 ==> collect_stmt(s, c).0 == collect_stmts(
            s->If_then_body,
            c,
        ).0,
        !eval_condition(s->If_condition, c).0 && 0 <= k < s->If_else_ifs.len() && eval_condition(
            s->If_else_ifs[k].0,
            c,
        ).0 && (forall|m: int|
            0 <= m < k ==> !(#[trigger] eval_condition(s->If_else_ifs[m].0, c)).0)
            ==> collect_stmt(s, c).0 == collect_stmts(s->If_else_ifs[k].1, c).0,
        !eval_condition(s->If_condition, c).0 && (forall|m: int|
            0 <= m < s->If_else_ifs.len() ==> !(#[trigger] eval_condition(
                s->If_else_ifs[m].0,
                c,
            )).0) ==> collect_stmt(s, c).0 == collect_stmts(s->If_else_body, c).0,
{
    let w = eval_condition(s->If_condition, c).1;
    if !eval_condition(s->If_condition, c).0 {
        if 0 <= k < s->If_else_ifs.len() && eval_condition(s->If_else_ifs[k].0, c).0 && (forall|
            m: int,
        | 0 <= m < k ==> !(#[trigger] eval_condition(s->If_else_ifs[m].0, c)).0) {
            lemma_chain_picks(s, c, 0, k);
        }
        if forall|m: int|
            0 <= m < s->If_else_ifs.len() ==> !(#[trigger] eval_condition(
                s->If_else_ifs[m].0,
                c,
            )).0 {
            lemma_chain_falls_through(s, c, 0);
        }
        assert(collect_stmt(s, c).0 == seq![] + collect_chain(s, 0, c).0);
        assert(seq![] + collect_chain(s, 0, c).0 =~= collect_chain(s, 0, c).0);
    } else {
        assert(seq![] + collect_stmts(s->If_then_body, c).0 =~= collect_stmts(s->If_then_body, c).0);
    }
}

/// After `export KEY=VAL` (or `set KEY=VAL` on Windows), the run's
/// environment binds `KEY` to `VAL`, whatever it held before, and keeps it
/// once the caller answers: a later `$KEY`, with no user variable `KEY`,
/// expands to `VAL`.
pub proof fn law_export_is_seen_later(s: SpecExecutor, l: SpecLine, t: SpecTask, rest: Seq<char>)
    ensures
        spec_line(s, l, t).1 matches Some(SpecRequest::SetEnv(k, v)) ==> {
            let s1 = spec_line(s, l, t).0;
            let s2 = spec_reply(s1, SpecReply::Done).0;
            &&& lookup(s1.scope.env, k) == Some(v)
            &&& s1.scope.user == s.scope.user
            &&& s1.scope.sys == s.scope.sys
            &&& s2.scope == s1.scope
            &&& (k.len() > 0 && (forall|i: int| 0 <= i < k.len() ==> is_name_char(#[trigger] k[i]))
                && (rest.len() > 0 ==> !is_name_char(rest[0])) && lookup(s.scope.user, k) is None)
                ==> expand(seq!['$'] + k + rest, s2.scope).0 == v + expand(rest, s2.scope).0
        },
{
    if let Some(SpecRequest::SetEnv(k, v)) = spec_line(s, l, t).1 {
        let s1 = spec_line(s, l, t).0;
        let s2 = spec_reply(s1, SpecReply::Done).0;
        assert(lookup(s1.scope.env, k) == Some(v));
        assert(s2.scope == s1.scope);
        if k.len() > 0 && (forall|i: int| 0 <= i < k.len() ==> is_name_char(#[trigger] k[i])) && (
        rest.len() > 0 ==> !is_name_char(rest[0])) && lookup(s.scope.user, k) is None {
            law_reference_expands_to_value(k, rest, s2.scope);
        }
    }
}

/// A dry run lists the commands and runs none of them.
pub proof fn law_dry_run_runs_nothing(s: SpecExecutor, raw: Seq<char>, line: nat, t: SpecTask)
    requires
        s.dry_run,
    ensures
        spec_line(s, SpecLine::Command { raw, line }, t).1 is None,
{
}

/// Each variable is expanded with the variables assigned before it, and a
/// later assignment of a name takes effect from there on: the value of the
/// last assigned variable is its own expansion in the scope of the earlier
/// ones.
pub proof fn law_variables_expand_in_order(
    globals: Seq<(Seq<char>, Seq<char>, nat)>,
    name: Seq<char>,
    raw: Seq<char>,
    line: nat,
    sys: Seq<(Seq<char>, Seq<char>)>,
    env: Seq<(Seq<char>, Seq<char>)>,
    cwd: Seq<char>,
)
    ensures
        ({
            let earlier = expand_globals(globals, sys, env, cwd).0;
            lookup(expand_globals(globals.push((name, raw, line)), sys, env, cwd).0, name) == Some(
                expand(raw, SpecScope { user: earlier, sys, env, cwd }).0,
            )
        }),
{
    assert(globals.push((name, raw, line)).drop_last() =~= globals);
}


/// `s` with its notes handed out.
pub open spec fn drained(s: SpecExecutor) -> SpecExecutor {
    SpecExecutor { notes: seq![], ..s }
}

/// The step a runner hands out from `s` on: the notes gathered up to the
/// first request, that request, and the state it leaves (`fin`).
pub open spec fn steps_to(s: SpecExecutor, fin: SpecExecutor, notes: Seq<SpecNote>, r: SpecRequest) -> bool {
    exists|f: SpecExecutor| drives_to(s, f, r) && notes == f.notes && fin == drained(f)
}

/// A step's notes.
pub open spec fn step_notes(st: Step) -> Seq<SpecNote> {
    notes_view(st.notes@)
}

impl Executor {
    /// The invariant of a run in progress holds.
    pub closed spec fn live(&self) -> bool {
        inv(self@)
    }

    /// Goes on until a step makes a request.
    fn drive(&mut self) -> (r: Request)
        requires
            inv(old(self)@),
            old(self)@.pending is Nothing,
        ensures
            drives_to(old(self)@, final(self)@, r@),
            r@ matches SpecRequest::Finished(Err(_)) || inv(final(self)@),
            r@ is Finished ==> ready(final(self)@),
    {
        let ghost s0 = self@;
        let ghost mut n: nat = 0;
        loop
            invariant
                s0 == old(self)@,
                inv(self@),
                self@.pending is Nothing,
                self@ == after_units(s0, n),
                forall|m: nat| m < n ==> (#[trigger] request_at(s0, m)) is None,
            decreases unstarted(self@), frames_weight(self@.tasks, self@.frames), lines_left(self@),
        {
            let ghost before = self@;
            proof {
                lemma_unit(before);
                lemma_unstarted_nonneg(before);
            }
            match self.unit() {
                Some(r) => {
                    assert(request_at(s0, n) == Some(r@));
                    assert(self@ == spec_unit(after_units(s0, n)).0);
                    assert(drives_to(s0, self@, r@));
                    return r;
                },
                None => {
                    proof {
                        assert(request_at(s0, n) is None);
                        n = n + 1;
                    }
                },
            }
        }
    }

    fn take_notes(&mut self) -> (r: Vec<Note>)
        ensures
            notes_view(r@) == old(self)@.notes,
            final(self)@ == drained(old(self)@),
    {
        let mut notes: Vec<Note> = Vec::new();
        core::mem::swap(&mut notes, &mut self.notes);
        assert(notes_view(self.notes@) =~= seq![]);
        notes
    }

    /// Turns the echo of commands on or off (`--silent` turns it off).
    pub fn set_echo(&mut self, echo: bool)
        ensures
            final(self)@ == (SpecExecutor { echo, ..old(self)@ }),
            ready(old(self)@) ==> ready(final(self)@),
            old(self).live() ==> final(self).live(),
    {
        self.echo = echo;
        proof {
            if inv(old(self)@) {
                lemma_inv_same_frames(old(self)@, self@);
            }
        }
    }

    /// Turns dry running on or off: a dry run lists the commands and runs
    /// none of them.
    pub fn set_dry_run(&mut self, dry_run: bool)
        ensures
            final(self)@ == (SpecExecutor { dry_run, ..old(self)@ }),
            ready(old(self)@) ==> ready(final(self)@),
            old(self).live() ==> final(self).live(),
    {
        self.dry_run = dry_run;
        proof {
            if inv(old(self)@) {
                lemma_inv_same_frames(old(self)@, self@);
            }
        }
    }

    /// Starts running the task `task_name`: its dependencies first, each task
    /// at most once. Returns the output so far and the first request.
    pub fn run(&mut self, task_name: &str) -> (step: Step)
        requires
            ready(old(self)@),
        ensures
            match spec_start(old(self)@, task_name@) {
                Err(e) => step.request@ == SpecRequest::Finished(Err(e)) && step_notes(step)
                    == old(self)@.notes && final(self)@ == drained(old(self)@),
                Ok(s1) => steps_to(s1, final(self)@, step_notes(step), step.request@),
            },
            step.request@ matches SpecRequest::Finished(Err(_)) || inv(final(self)@),
            step.request@ is Finished ==> ready(final(self)@),
    {
        let ghost s0 = self@;
        let name = task_name.to_owned();
        match self.start(&name) {
            Err(e) => {
                let notes = self.take_notes();
                Step { notes, request: Request::Finished(Err(e)) }
            },
            Ok(()) => {
                proof {
                    lemma_start_ready(s0, task_name@);
                }
                let ghost s1 = self@;
                let request = self.drive();
                let ghost f = self@;
                let notes = self.take_notes();
                proof {
                    if !(request@ matches SpecRequest::Finished(Err(_))) {
                        lemma_inv_same_frames(f, self@);
                    }
                }
                Step { notes, request }
            },
        }
    }

    /// Takes the caller's reply to the last request and goes on. Returns the
    /// output since and the next request.
    pub fn resume(&mut self, reply: Reply) -> (step: Step)
        requires
            old(self).live(),
        ensures
            ({
                let (s1, r1) = spec_reply(old(self)@, reply@);
                match r1 {
                    Some(q) => step.request@ == q && step_notes(step) == s1.notes && final(self)@
                        == drained(s1),
                    None => steps_to(s1, final(self)@, step_notes(step), step.request@),
                }
            }),
            step.request@ matches SpecRequest::Finished(Err(_)) || final(self).live(),
            step.request@ is Finished ==> ready(final(self)@),
    {
        let ghost s0 = self@;
        proof {
            lemma_reply(s0, reply@);
        }
        match self.apply_reply(reply) {
            Some(q) => {
                let notes = self.take_notes();
                Step { notes, request: q }
            },
            None => {
                let request = self.drive();
                let ghost f = self@;
                let notes = self.take_notes();
                proof {
                    if !(request@ matches SpecRequest::Finished(Err(_))) {
                        lemma_inv_same_frames(f, self@);
                    }
                }
                Step { notes, request }
            },
        }
    }
}

/// Starting a task from a ready runner keeps the invariant.
proof fn lemma_start_ready(s: SpecExecutor, name: Seq<char>)
    requires
        ready(s),
        spec_start(s, name) is Ok,
    ensures
        inv(spec_start(s, name)->Ok_0),
        spec_start(s, name)->Ok_0.pending is Nothing,
{
    let s2 = spec_start(s, name)->Ok_0;
    if !s.completed.contains(name) {
        lemma_task_index_from(s.tasks, name, 0);
        let idx = task_index_from(s.tasks, name, 0)->Some_0;
        assert(s2.frames =~= seq![SpecFrame { task: idx as nat, phase: SpecPhase::Deps(0) }]);
        assert(s2.running =~= seq![name]);
        assert(s2.running.disjoint(s2.completed)) by {
            assert forall|a: int, b: int|
                0 <= a < s2.running.len() && 0 <= b < s2.completed.len() implies s2.running[a]
                != s2.completed[b] by {
                assert(s.completed.contains(s.completed[b]));
            }
        }
        assert(top_started(s2) =~= seq![]);
        assert(top_started(s) =~= seq![]);
        assert(inv(s2));
    }
}

} // verus!
