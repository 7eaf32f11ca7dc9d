//! The errors of tsk, their exit codes and the text they are reported with.
use vstd::prelude::*;

use crate::text::{append, chars_of, decimal, string_from_chars, usize_decimal};

verus! {

/// All error kinds tsk can produce, with distinct exit codes
#[derive(Debug)]
pub enum TskError {
    /// Bad CLI invocation (exit 1)
    Cli(String),
    /// Syntax / parse error (exit 2)
    Syntax { file: String, line: usize, message: String },
    /// Runtime error during task execution (exit 3)
    Runtime { task: String, line: usize, message: String, command: Option<String> },
    /// An `@error` directive was reached (exit 1)
    Abort { task: String, line: usize, message: String },
}

/// The model of an error: strings become character sequences.
pub enum SpecError {
    Cli(Seq<char>),
    Syntax { file: Seq<char>, line: nat, message: Seq<char> },
    Runtime { task: Seq<char>, line: nat, message: Seq<char>, command: Option<Seq<char>> },
    Abort { task: Seq<char>, line: nat, message: Seq<char> },
}

pub open spec fn opt_view(o: Option<String>) -> Option<Seq<char>> {
    match o {
        Some(s) => Some(s@),
        None => None,
    }
}

impl View for TskError {
    type V = SpecError;

    open spec fn view(&self) -> SpecError {
        match self {
            TskError::Cli(m) => SpecError::Cli(m@),
            TskError::Syntax { file, line, message } => SpecError::Syntax {
                file: file@,
                line: *line as nat,
                message: message@,
            },
            TskError::Runtime { task, line, message, command } => SpecError::Runtime {
                task: task@,
                line: *line as nat,
                message: message@,
                command: opt_view(*command),
            },
            TskError::Abort { task, line, message } => SpecError::Abort {
                task: task@,
                line: *line as nat,
                message: message@,
            },
        }
    }
}

/// The exit code of an error: 1 for the command line and `@error`, 2 for a
/// syntax error, 3 for a failure while running a task.
pub open spec fn spec_exit_code(e: SpecError) -> i32 {
    match e {
        SpecError::Cli(_) => 1,
        SpecError::Syntax { .. } => 2,
        SpecError::Runtime { .. } => 3,
        SpecError::Abort { .. } => 1,
    }
}

/// The text with which an error is reported.
pub open spec fn spec_render(e: SpecError) -> Seq<char> {
    "tsk: "@ + match e {
        SpecError::Cli(m) => m + "\nRun 'tsk --help' for usage."@,
        SpecError::Syntax { file, line, message } => "syntax error in "@ + file + ":"@ + decimal(
            line,
        ) + ": "@ + message,
        SpecError::Runtime { task, line, message, command } => "runtime error in task '"@ + task
            + "' at line "@ + decimal(line) + ": "@ + message + match command {
            Some(c) => "\n  command: "@ + c,
            None => seq![],
        },
        SpecError::Abort { task, line, message } => "error in task '"@ + task + "' at line "@
            + decimal(line) + ": "@ + message,
    }
}

impl TskError {
    pub fn cli(msg: String) -> (r: Self)
        ensures
            r@ == SpecError::Cli(msg@),
    {
        TskError::Cli(msg)
    }

    pub fn syntax(file: String, line: usize, msg: String) -> (r: Self)
        ensures
            r@ == (SpecError::Syntax { file: file@, line: line as nat, message: msg@ }),
    {
        TskError::Syntax { file, line, message: msg }
    }

    pub fn runtime(task: String, line: usize, msg: String, cmd: Option<String>) -> (r: Self)
        ensures
            r@ == (SpecError::Runtime {
                task: task@,
                line: line as nat,
                message: msg@,
                command: opt_view(cmd),
            }),
    {
        TskError::Runtime { task, line, message: msg, command: cmd }
    }

    pub fn exit_code(&self) -> (r: i32)
        ensures
            r == spec_exit_code(self@),
    {
        match self {
            TskError::Cli(_) => 1,
            TskError::Syntax { .. } => 2,
            TskError::Runtime { .. } => 3,
            TskError::Abort { .. } => 1,
        }
    }

    /// The text with which the error is reported (what `Display` would write).
    pub fn render(&self) -> (r: String)
        ensures
            r@ == spec_render(self@),
    {
        let mut out: Vec<char> = chars_of("tsk: ");
        match self {
            TskError::Cli(m) => {
                append(&mut out, &chars_of(m.as_str()));
                append(&mut out, &chars_of("\nRun 'tsk --help' for usage."));
            },
            TskError::Syntax { file, line, message } => {
                append(&mut out, &chars_of("syntax error in "));
                append(&mut out, &chars_of(file.as_str()));
                append(&mut out, &chars_of(":"));
                append(&mut out, &usize_decimal(*line));
                append(&mut out, &chars_of(": "));
                append(&mut out, &chars_of(message.as_str()));
            },
            TskError::Runtime { task, line, message, command } => {
                append(&mut out, &chars_of("runtime error in task '"));
                append(&mut out, &chars_of(task.as_str()));
                append(&mut out, &chars_of("' at line "));
                append(&mut out, &usize_decimal(*line));
                append(&mut out, &chars_of(": "));
                append(&mut out, &chars_of(message.as_str()));
                match command {
                    Some(c) => {
                        append(&mut out, &chars_of("\n  command: "));
                        append(&mut out, &chars_of(c.as_str()));
                    },
                    None => {},
                }
            },
            TskError::Abort { task, line, message } => {
                append(&mut out, &chars_of("error in task '"));
                append(&mut out, &chars_of(task.as_str()));
                append(&mut out, &chars_of("' at line "));
                append(&mut out, &usize_decimal(*line));
                append(&mut out, &chars_of(": "));
                append(&mut out, &chars_of(message.as_str()));
            },
        }
        assert(out@ =~= spec_render(self@));
        string_from_chars(&out)
    }
}

} // verus!
