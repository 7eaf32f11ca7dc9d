//! The command line: reading the arguments, choosing what to run, and the
//! task list.
use vstd::prelude::*;

use crate::error::{SpecError, TskError};
use crate::executor::{
    lemma_sort_names_permutes, sort_names, sort_names_chars, task_name_vecs, task_names, vecs_view,
};
use crate::parser::{
    SpecTask, Taskfile, find_task, lemma_task_found, strings_view, task_index_from, tasks_view,
};
use crate::text::{append, chars_eq, chars_of, string_from_chars, subvec};

verus! {

/// The options of a run.
pub struct CliOptions {
    /// `-f`, `--file <path>`: the taskfile to use instead of searching
    pub file: Option<String>,
    /// The task named on the command line
    pub task: Option<String>,
    /// `-l`, `--list`: list the tasks
    pub list: bool,
    /// `-n`, `--dry-run`: print commands without running them
    pub dry_run: bool,
    /// `-s`, `--silent`: suppress command echo
    pub silent: bool,
}

/// What the command line asks for.
pub enum CliAction {
    Help,
    Version,
    Run(CliOptions),
}

pub struct SpecOptions {
    pub file: Option<Seq<char>>,
    pub task: Option<Seq<char>>,
    pub list: bool,
    pub dry_run: bool,
    pub silent: bool,
}

pub enum SpecAction {
    Help,
    Version,
    Run(SpecOptions),
}

pub open spec fn opt_view(o: Option<String>) -> Option<Seq<char>> {
    match o {
        Some(s) => Some(s@),
        None => None,
    }
}

impl View for CliOptions {
    type V = SpecOptions;

    open spec fn view(&self) -> SpecOptions {
        SpecOptions {
            file: opt_view(self.file),
            task: opt_view(self.task),
            list: self.list,
            dry_run: self.dry_run,
            silent: self.silent,
        }
    }
}

impl View for CliAction {
    type V = SpecAction;

    open spec fn view(&self) -> SpecAction {
        match self {
            CliAction::Help => SpecAction::Help,
            CliAction::Version => SpecAction::Version,
            CliAction::Run(o) => SpecAction::Run(o@),
        }
    }
}

pub open spec fn no_options() -> SpecOptions {
    SpecOptions { file: None, task: None, list: false, dry_run: false, silent: false }
}

/// Reading the arguments from index `i` on, with the options read so far.
/// The first argument (the program) is not read.
pub open spec fn spec_args(args: Seq<Seq<char>>, i: int, o: SpecOptions) -> Result<
    SpecAction,
    SpecError,
>
    decreases args.len() - i,
{
    if i < 0 || i >= args.len() {
        Ok(SpecAction::Run(o))
    } else {
        let a = args[i];
        if a == "--file"@ || a == "-f"@ {
            if i + 1 < args.len() {
                spec_args(args, i + 2, SpecOptions { file: Some(args[i + 1]), ..o })
            } else {
                Err(SpecError::Cli("--file requires a path argument"@))
            }
        } else if a == "--list"@ || a == "-l"@ {
            spec_args(args, i + 1, SpecOptions { list: true, ..o })
        } else if a == "--dry-run"@ || a == "-n"@ {
            spec_args(args, i + 1, SpecOptions { dry_run: true, ..o })
        } else if a == "--silent"@ || a == "-s"@ {
            spec_args(args, i + 1, SpecOptions { silent: true, ..o })
        } else if a == "--help"@ || a == "-h"@ {
            Ok(SpecAction::Help)
        } else if a == "--version"@ || a == "-V"@ {
            Ok(SpecAction::Version)
        } else if !(a.len() > 0 && a[0] == '-') && o.task is None {
            spec_args(args, i + 1, SpecOptions { task: Some(a), ..o })
        } else {
            Err(SpecError::Cli("unknown flag: "@ + a))
        }
    }
}

pub open spec fn action_result_view(r: Result<CliAction, TskError>) -> Result<SpecAction, SpecError> {
    match r {
        Ok(a) => Ok(a@),
        Err(e) => Err(e@),
    }
}

fn is_arg(a: &String, long: &str, short: &str) -> (r: bool)
    ensures
        r == (a@ == long@ || a@ == short@),
{
    let c = chars_of(a.as_str());
    chars_eq(&c, &chars_of(long)) || chars_eq(&c, &chars_of(short))
}

/// Reads the command line `args` (the program first).
pub fn parse_args(args: &Vec<String>) -> (r: Result<CliAction, TskError>)
    ensures
        action_result_view(r) == spec_args(strings_view(args@), 1, no_options()),
{
    let ghost av = strings_view(args@);
    let mut o = CliOptions { file: None, task: None, list: false, dry_run: false, silent: false };
    let mut i: usize = 1;
    while i < args.len()
        invariant
            av == strings_view(args@),
            spec_args(av, 1, no_options()) == spec_args(av, i as int, o@),
        decreases args@.len() - i,
    {
        let a = &args[i];
        assert(a@ == av[i as int]);
        if is_arg(a, "--file", "-f") {
            if i + 1 < args.len() {
                assert(args@[i + 1]@ == av[i + 1]);
                o.file = Some(args[i + 1].clone());
                i += 2;
            } else {
                return Err(TskError::cli("--file requires a path argument".to_owned()));
            }
        } else if is_arg(a, "--list", "-l") {
            o.list = true;
            i += 1;
        } else if is_arg(a, "--dry-run", "-n") {
            o.dry_run = true;
            i += 1;
        } else if is_arg(a, "--silent", "-s") {
            o.silent = true;
            i += 1;
        } else if is_arg(a, "--help", "-h") {
            return Ok(CliAction::Help);
        } else if is_arg(a, "--version", "-V") {
            return Ok(CliAction::Version);
        } else {
            let c = chars_of(a.as_str());
            if !(c.len() > 0 && c[0] == '-') && o.task.is_none() {
                o.task = Some(a.clone());
                i += 1;
            } else {
                let mut m = chars_of("unknown flag: ");
                append(&mut m, &c);
                return Err(TskError::cli(string_from_chars(&m)));
            }
        }
    }
    Ok(CliAction::Run(o))
}

/// What to do once the taskfile is read.
pub enum Plan {
    /// Print the task list.
    List,
    /// The task to run.
    Run(String),
}

pub enum SpecPlan {
    List,
    Run(Seq<char>),
}

impl View for Plan {
    type V = SpecPlan;

    open spec fn view(&self) -> SpecPlan {
        match self {
            Plan::List => SpecPlan::List,
            Plan::Run(t) => SpecPlan::Run(t@),
        }
    }
}

/// `--list` lists the tasks; else the task named runs, else the `@default`
/// task, else the task list is printed.
pub open spec fn spec_plan(o: SpecOptions, default_task: Option<Seq<char>>) -> SpecPlan {
    if o.list {
        SpecPlan::List
    } else {
        match o.task {
            Some(t) => SpecPlan::Run(t),
            None => match default_task {
                Some(d) => SpecPlan::Run(d),
                None => SpecPlan::List,
            },
        }
    }
}

/// Chooses what to do with the options and the taskfile.
pub fn plan(options: &CliOptions, taskfile: &Taskfile) -> (r: Plan)
    ensures
        r@ == spec_plan(options@, taskfile@.default_task),
{
    if options.list {
        return Plan::List;
    }
    match &options.task {
        Some(t) => Plan::Run(t.clone()),
        None => match &taskfile.default_task {
            Some(d) => Plan::Run(d.clone()),
            None => Plan::List,
        },
    }
}

/// Whether commands are echoed: not with `--silent`, nor in a dry run.
pub open spec fn spec_echo(o: SpecOptions) -> bool {
    !o.silent && !o.dry_run
}

pub fn echo_commands(options: &CliOptions) -> (r: bool)
    ensures
        r == spec_echo(options@),
{
    !options.silent && !options.dry_run
}

// ---------------------------------------------------------------------------
// The task list
// ---------------------------------------------------------------------------

/// The task list: on stderr when there is no task, else lines on stdout.
pub enum TaskList {
    NoTasks(String),
    Lines(Vec<String>),
}

pub enum SpecTaskList {
    NoTasks(Seq<char>),
    Lines(Seq<Seq<char>>),
}

impl View for TaskList {
    type V = SpecTaskList;

    open spec fn view(&self) -> SpecTaskList {
        match self {
            TaskList::NoTasks(m) => SpecTaskList::NoTasks(m@),
            TaskList::Lines(v) => SpecTaskList::Lines(strings_view(v@)),
        }
    }
}

/// `s` padded with spaces to `width` characters (`{:<width}`).
pub open spec fn pad(s: Seq<char>, width: nat) -> Seq<char> {
    if s.len() >= width {
        s
    } else {
        s + Seq::new((width - s.len()) as nat, |i: int| ' ')
    }
}

/// The line of the task named `name`: its name (padded) and description, or
/// its name alone; ` (default)` after the default task.
pub open spec fn task_line(tasks: Seq<SpecTask>, default_task: Option<Seq<char>>, name: Seq<char>) -> Seq<
    char,
> {
    let marker = if default_task == Some(name) {
        " (default)"@
    } else {
        seq![]
    };
    let t = tasks[task_index_from(tasks, name, 0)->Some_0];
    match t.description {
        Some(d) => "  "@ + pad(name, 20) + " "@ + d + marker,
        None => "  "@ + name + marker,
    }
}

/// The task list of the taskfile read from `path`: the tasks in name order.
pub open spec fn spec_task_list(tasks: Seq<SpecTask>, default_task: Option<Seq<char>>, path: Seq<char>) -> SpecTaskList {
    if tasks.len() == 0 {
        SpecTaskList::NoTasks("tsk: no tasks defined in '"@ + path + "'"@)
    } else {
        let names = sort_names(task_names(tasks));
        SpecTaskList::Lines(
            seq!["Available tasks in '"@ + path + "':"@] + Seq::new(
                names.len(),
                |i: int| task_line(tasks, default_task, names[i]),
            ),
        )
    }
}

/// `s` padded with spaces to `width` characters.
fn pad_chars(s: &Vec<char>, width: usize) -> (r: Vec<char>)
    ensures
        r@ == pad(s@, width as nat),
{
    let mut r = subvec(s, 0, s.len());
    assert(r@ =~= s@);
    if s.len() < width {
        let mut k: usize = s.len();
        while k < width
            invariant
                s@.len() <= k <= width,
                r@ == s@ + Seq::new((k - s@.len()) as nat, |i: int| ' '),
            decreases width - k,
        {
            r.push(' ');
            k += 1;
            assert(r@ =~= s@ + Seq::new((k - s@.len()) as nat, |i: int| ' '));
        }
    }
    r
}

/// The line of the task called `name` in the task list.
fn task_line_exec(taskfile: &Taskfile, name: &Vec<char>) -> (r: String)
    requires
        task_index_from(taskfile@.tasks, name@, 0) is Some,
    ensures
        r@ == task_line(taskfile@.tasks, taskfile@.default_task, name@),
{
    let n = string_from_chars(name);
    let k = match find_task(&taskfile.tasks, &n) {
        Some(k) => k,
        None => {
            proof {
                assert(false);
            }
            return n;
        },
    };
    let t = &taskfile.tasks[k];
    assert(t@ == taskfile@.tasks[k as int]);
    let mut marker: Vec<char> = Vec::new();
    match &taskfile.default_task {
        Some(d) => {
            if chars_eq(&chars_of(d.as_str()), name) {
                marker = chars_of(" (default)");
            }
        },
        None => {},
    }
    let mut line = chars_of("  ");
    match &t.description {
        Some(d) => {
            append(&mut line, &pad_chars(name, 20));
            append(&mut line, &chars_of(" "));
            append(&mut line, &chars_of(d.as_str()));
        },
        None => {
            append(&mut line, name);
        },
    }
    append(&mut line, &marker);
    proof {
        if marker@.len() == 0 {
            assert(marker@ =~= seq![]);
        }
    }
    string_from_chars(&line)
}

/// The task list of `taskfile`, read from `path`: a message when it has no
/// task, else a header and one line per task, in name order.
pub fn task_list(taskfile: &Taskfile, path: &str) -> (r: TaskList)
    ensures
        r@ == spec_task_list(taskfile@.tasks, taskfile@.default_task, path@),
{
    if taskfile.tasks.len() == 0 {
        let mut m = chars_of("tsk: no tasks defined in '");
        append(&mut m, &chars_of(path));
        append(&mut m, &chars_of("'"));
        return TaskList::NoTasks(string_from_chars(&m));
    }
    let ghost tasks = taskfile@.tasks;
    let names = sort_names_chars(&task_name_vecs(&taskfile.tasks));
    let ghost sorted = sort_names(task_names(tasks));
    assert(vecs_view(names@) == sorted);
    proof {
        lemma_sort_names_permutes(task_names(tasks));
    }
    let mut header = chars_of("Available tasks in '");
    append(&mut header, &chars_of(path));
    append(&mut header, &chars_of("':"));
    let mut lines: Vec<String> = Vec::new();
    lines.push(string_from_chars(&header));
    let mut i: usize = 0;
    while i < names.len()
        invariant
            i <= names@.len(),
            vecs_view(names@) == sorted,
            sorted == sort_names(task_names(tasks)),
            tasks == taskfile@.tasks,
            sorted.to_multiset() == task_names(tasks).to_multiset(),
            strings_view(lines@) == seq!["Available tasks in '"@ + path@ + "':"@] + Seq::new(
                i as nat,
                |m: int| task_line(tasks, taskfile@.default_task, sorted[m]),
            ),
        decreases names@.len() - i,
    {
        assert(sorted[i as int] == names@[i as int]@);
        proof {
            broadcast use vstd::seq_lib::group_to_multiset_ensures;

            let nm = sorted[i as int];
            assert(sorted.contains(nm));
            assert(sorted.to_multiset().count(nm) > 0);
            assert(task_names(tasks).to_multiset().count(nm) > 0);
            assert(task_names(tasks).contains(nm));
            let j = choose|j: int| 0 <= j < task_names(tasks).len() && task_names(tasks)[j] == nm;
            lemma_task_found(tasks, nm, 0, j);
        }
        let line = task_line_exec(taskfile, &names[i]);
        let ghost lv = line@;
        let ghost prev = lines@;
        lines.push(line);
        assert(strings_view(lines@) =~= strings_view(prev).push(lv));
        i += 1;
        assert(strings_view(lines@) =~= seq!["Available tasks in '"@ + path@ + "':"@] + Seq::new(
            i as nat,
            |m: int| task_line(tasks, taskfile@.default_task, sorted[m]),
        ));
    }
    TaskList::Lines(lines)
}

/// In the task list, the line of the default task is the line the task has
/// when there is no default, followed by ` (default)`, with or without a
/// description; every other line is the same whichever task is the default.
pub proof fn law_default_task_marked(tasks: Seq<SpecTask>, d: Option<Seq<char>>, path: Seq<char>)
    requires
        tasks.len() > 0,
    ensures
        ({
            let names = sort_names(task_names(tasks));
            &&& spec_task_list(tasks, d, path) is Lines
            &&& spec_task_list(tasks, None, path) is Lines
            &&& spec_task_list(tasks, d, path)->Lines_0.len() == names.len() + 1
            &&& spec_task_list(tasks, None, path)->Lines_0.len() == names.len() + 1
            &&& spec_task_list(tasks, d, path)->Lines_0[0] == spec_task_list(
                tasks,
                None,
                path,
            )->Lines_0[0]
            &&& forall|i: int|
                0 <= i < names.len() ==> #[trigger] spec_task_list(tasks, d, path)->Lines_0[i + 1]
                    == if d == Some(names[i]) {
                    spec_task_list(tasks, None, path)->Lines_0[i + 1] + " (default)"@
                } else {
                    spec_task_list(tasks, None, path)->Lines_0[i + 1]
                }
        }),
{
    let names = sort_names(task_names(tasks));
    let ls = spec_task_list(tasks, d, path)->Lines_0;
    let ls0 = spec_task_list(tasks, None, path)->Lines_0;
    assert forall|i: int| 0 <= i < names.len() implies #[trigger] ls[i + 1] == if d == Some(
        names[i],
    ) {
        ls0[i + 1] + " (default)"@
    } else {
        ls0[i + 1]
    } by {
        assert(ls[i + 1] == task_line(tasks, d, names[i]));
        assert(ls0[i + 1] == task_line(tasks, None, names[i]));
        let t = tasks[task_index_from(tasks, names[i], 0)->Some_0];
        match t.description {
            Some(desc) => {
                let base = "  "@ + pad(names[i], 20) + " "@ + desc;
                assert(task_line(tasks, None, names[i]) =~= base + seq![]);
                assert(base + seq![] =~= base);
            },
            None => {
                let base = "  "@ + names[i];
                assert(task_line(tasks, None, names[i]) =~= base + seq![]);
                assert(base + seq![] =~= base);
            },
        }
    }
}

} // verus!
