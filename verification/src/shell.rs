//! The dispatcher: what the shell does for a command. The shell decides
//! here; its caller acts on the decision and, where the decision depends on
//! the file system or on a program, reports back what it found.

use crate::command::{
    redirect_view, Command, CommandType, CommandTypeView, CommandView, FileDiscriptor, Redirect,
    RedirectType, RedirectView,
};
use crate::text::{
    chars_of, join, joined, parse_i32, signed_value, spells, spells_i32, split, split_on, texts,
};
use vstd::prelude::*;
use vstd::string::StringExecFns;

verus! {

/// The names of the commands that the shell runs itself.
pub const BUILTINS: [&'static str; 5] = ["exit", "echo", "type", "pwd", "cd"];

/// Whether `name` names a command that the shell runs itself.
pub open spec fn is_builtin(name: Seq<char>) -> bool {
    exists|i: int| 0 <= i < 5 && #[trigger] BUILTINS[i]@ == name
}

/// Decides whether `name` names a command that the shell runs itself.
pub fn is_builtin_name(name: &str) -> (builtin: bool)
    ensures
        builtin == is_builtin(name@),
{
    let chars = chars_of(name);
    let mut i: usize = 0;
    while i < 5
        invariant
            i <= 5,
            chars@ == name@,
            forall|j: int| 0 <= j < i ==> #[trigger] BUILTINS[j]@ != name@,
        decreases 5 - i,
    {
        if spells(&chars, BUILTINS[i]) {
            return true;
        }
        i += 1;
    }
    false
}

/// What an `Output` holds.
pub struct OutputView {
    pub stream: FileDiscriptor,
    pub text: Seq<char>,
}

/// A text to write to one of the shell's two streams.
#[derive(Debug, Clone, PartialEq, Eq)]
pub struct Output {
    pub stream: FileDiscriptor,
    pub text: String,
}

impl View for Output {
    type V = OutputView;

    open spec fn view(&self) -> OutputView {
        OutputView { stream: self.stream, text: self.text@ }
    }
}

/// What a `Sink` holds.
pub enum SinkView {
    Terminal,
    File { path: Seq<char>, append: bool },
}

/// Where one of the shell's two streams leads while a command runs.
#[derive(Debug, Clone, PartialEq, Eq)]
pub enum Sink {
    /// To the terminal, as when the shell started.
    Terminal,
    /// To the file `path`, which is made if it is missing; what is written
    /// comes after what the file holds if `append` is set, and in its place
    /// if not. If the file cannot be opened, `Shell::redirect_failed` says
    /// what to write.
    File { path: String, append: bool },
}

impl View for Sink {
    type V = SinkView;

    open spec fn view(&self) -> SinkView {
        match self {
            Sink::Terminal => SinkView::Terminal,
            Sink::File { path, append } => SinkView::File { path: path@, append: *append },
        }
    }
}

/// Where `stream` leads under `redirect`: to the redirection's file if the
/// redirection is of this stream, to the terminal if there is none or it is
/// of the other stream.
pub open spec fn sink_of(redirect: Option<RedirectView>, stream: FileDiscriptor) -> SinkView {
    match redirect {
        Some(r) => if r.file_descriptor == stream {
            SinkView::File { path: r.file, append: r.redirect_type == RedirectType::Append }
        } else {
            SinkView::Terminal
        },
        None => SinkView::Terminal,
    }
}

/// What an `Action` holds.
pub enum ActionView {
    Nothing,
    Exit(i32),
    Write(OutputView),
    Locate { name: Seq<char>, candidates: Seq<Seq<char>> },
    WorkingDirectory,
    ChangeDirectory { home: bool, argument: Seq<char> },
    Run { name: Seq<char>, arguments: Seq<Seq<char>>, directories: Seq<Seq<char>> },
}

/// What the shell has decided to do for a command.
#[derive(Debug, Clone, PartialEq, Eq)]
pub enum Action {
    /// There is nothing to do.
    Nothing,
    /// End the process with this status.
    Exit(i32),
    /// Write a text.
    Write(Output),
    /// Find the first of `candidates` that is a path to something, and write
    /// what `Shell::located` makes of it.
    Locate { name: String, candidates: Vec<String> },
    /// Ask for the working directory, and write what
    /// `Shell::working_directory` makes of the answer.
    WorkingDirectory,
    /// Make the home directory the working directory if `home` is set, the
    /// directory `argument` if not; if that fails, write what
    /// `Shell::directory_missing` says of `argument`.
    ChangeDirectory { home: bool, argument: String },
    /// Look in `directories`, in this order, for the program `name`. Run the
    /// first that is found with `arguments`, and hand on what it wrote; if
    /// it cannot be started, write what `Shell::spawn_failed` says of
    /// `name`. If none is found, write what `Shell::command_missing` says of
    /// `name`.
    Run { name: String, arguments: Vec<String>, directories: Vec<String> },
}

impl View for Action {
    type V = ActionView;

    open spec fn view(&self) -> ActionView {
        match self {
            Action::Nothing => ActionView::Nothing,
            Action::Exit(status) => ActionView::Exit(*status),
            Action::Write(output) => ActionView::Write(output@),
            Action::Locate { name, candidates } => ActionView::Locate {
                name: name@,
                candidates: texts(candidates@),
            },
            Action::WorkingDirectory => ActionView::WorkingDirectory,
            Action::ChangeDirectory { home, argument } => ActionView::ChangeDirectory {
                home: *home,
                argument: argument@,
            },
            Action::Run { name, arguments, directories } => ActionView::Run {
                name: name@,
                arguments: texts(arguments@),
                directories: texts(directories@),
            },
        }
    }
}

/// `message` as a line on `stream`.
pub open spec fn line_on(stream: FileDiscriptor, message: Seq<char>) -> OutputView {
    OutputView { stream, text: message + "\n"@ }
}

/// For each of `directories`, the path of `name` in it.
pub open spec fn paths_in(directories: Seq<Seq<char>>, name: Seq<char>) -> Seq<Seq<char>> {
    Seq::new(directories.len(), |i: int| directories[i] + "/"@ + name)
}

/// What the shell with the search path `path` does for `command`.
///
/// `exit` ends the process with the status that its arguments, joined by
/// spaces, spell, and complains where they spell none. `echo` writes its
/// arguments. `type` says of a builtin's name that it is one, and has any
/// other name looked up in the directories of the search path. `pwd` asks for
/// the working directory. `cd` changes it, to the home directory for `~`.
/// Any other name is a program to find in the directories of the search
/// path and to run. The empty command does nothing.
pub open spec fn decision(path: Seq<char>, command: CommandView) -> ActionView {
    let argument = joined(command.arguments, " "@);
    match command.name {
        CommandTypeView::Exit => if spells_i32(argument) {
            ActionView::Exit(signed_value(argument) as i32)
        } else {
            ActionView::Write(line_on(FileDiscriptor::Stderr, "command expects an integer"@))
        },
        CommandTypeView::Echo => ActionView::Write(line_on(FileDiscriptor::Stdout, argument)),
        CommandTypeView::Type => if is_builtin(argument) {
            ActionView::Write(line_on(FileDiscriptor::Stdout, argument + " is a shell builtin"@))
        } else {
            ActionView::Locate {
                name: argument,
                candidates: paths_in(split_on(path, ':'), argument),
            }
        },
        CommandTypeView::Pwd => ActionView::WorkingDirectory,
        CommandTypeView::Cd => ActionView::ChangeDirectory { home: argument == "~"@, argument },
        CommandTypeView::External(name) => ActionView::Run {
            name,
            arguments: command.arguments,
            directories: split_on(path, ':'),
        },
        CommandTypeView::Nothing => ActionView::Nothing,
    }
}

/// Only `exit` with a status ends the process: no other command does, and
/// none that fails.
pub proof fn lemma_only_exit_ends(path: Seq<char>, command: CommandView)
    ensures
        decision(path, command) is Exit <==> command.name is Exit && spells_i32(
            joined(command.arguments, " "@),
        ),
{
}

/// Writes `message` and a line break on `stream`.
fn line(stream: FileDiscriptor, message: String) -> (output: Output)
    ensures
        output@ == line_on(stream, message@),
{
    let mut text = message;
    text.append("\n");
    Output { stream, text }
}

/// A copy of `strings`.
fn copy_of(strings: &Vec<String>) -> (copy: Vec<String>)
    ensures
        texts(copy@) == texts(strings@),
{
    let mut copy: Vec<String> = Vec::new();
    let mut i: usize = 0;
    while i < strings.len()
        invariant
            i <= strings.len(),
            texts(copy@) == texts(strings@).take(i as int),
        decreases strings.len() - i,
    {
        let ghost before = texts(copy@);
        copy.push(strings[i].clone());
        assert(texts(copy@) == before.push(strings@[i as int]@));
        assert(texts(strings@).take(i + 1) == before.push(strings@[i as int]@));
        i += 1;
    }
    assert(texts(strings@).take(i as int) == texts(strings@));
    copy
}

/// The shell's state: the search path for programs.
#[derive(Debug)]
pub struct Shell {
    path: String,
}

impl View for Shell {
    type V = Seq<char>;

    closed spec fn view(&self) -> Seq<char> {
        self.path@
    }
}

impl Shell {
    /// A shell that looks for programs in the directories that `path` lists,
    /// with `:` between two of them.
    pub fn new(path: String) -> (shell: Shell)
        ensures
            shell@ == path@,
    {
        Shell { path }
    }

    /// Where `stream` leads while a command with `redirect` runs.
    pub fn sink(redirect: &Option<Redirect>, stream: FileDiscriptor) -> (sink: Sink)
        ensures
            sink@ == sink_of(redirect_view(*redirect), stream),
    {
        match redirect {
            Some(r) => {
                if *r.file_descriptor() == stream {
                    let append = *r.redirect_type() == RedirectType::Append;
                    Sink::File { path: r.file().clone(), append }
                } else {
                    Sink::Terminal
                }
            },
            None => Sink::Terminal,
        }
    }

    /// Decides what to do for `command`.
    pub fn execute(&mut self, command: Command) -> (action: Action)
        ensures
            action@ == decision(old(self)@, command@),
            final(self)@ == old(self)@,
    {
        let argument = join(command.arguments(), " ");
        match command.name() {
            CommandType::Exit => match parse_i32(argument.as_str()) {
                Some(status) => Action::Exit(status),
                None => Action::Write(
                    line(FileDiscriptor::Stderr, String::from_str("command expects an integer")),
                ),
            },
            CommandType::Echo => Action::Write(line(FileDiscriptor::Stdout, argument)),
            CommandType::Type => {
                if is_builtin_name(argument.as_str()) {
                    let mut message = argument;
                    message.append(" is a shell builtin");
                    Action::Write(line(FileDiscriptor::Stdout, message))
                } else {
                    let directories = split(self.path.as_str(), ':');
                    let mut candidates: Vec<String> = Vec::new();
                    let mut i: usize = 0;
                    while i < directories.len()
                        invariant
                            i <= directories.len(),
                            texts(candidates@) == paths_in(texts(directories@), argument@).take(
                                i as int,
                            ),
                        decreases directories.len() - i,
                    {
                        let ghost before = texts(candidates@);
                        let ghost all = paths_in(texts(directories@), argument@);
                        let mut candidate = directories[i].clone();
                        candidate.append("/");
                        candidate.append(argument.as_str());
                        candidates.push(candidate);
                        assert(texts(candidates@) == before.push(candidate@));
                        assert(all.take(i + 1) == before.push(all[i as int]));
                        i += 1;
                    }
                    assert(paths_in(texts(directories@), argument@).take(i as int) == paths_in(
                        texts(directories@),
                        argument@,
                    ));
                    Action::Locate { name: argument, candidates }
                }
            },
            CommandType::Pwd => Action::WorkingDirectory,
            CommandType::Cd => {
                let home = spells(&chars_of(argument.as_str()), "~");
                Action::ChangeDirectory { home, argument }
            },
            CommandType::External(name) => Action::Run {
                name: name.clone(),
                arguments: copy_of(command.arguments()),
                directories: split(self.path.as_str(), ':'),
            },
            CommandType::Nothing => Action::Nothing,
        }
    }

    /// What `type` writes for `name` once its candidates were looked up:
    /// `found` is the first of them that is a path to something, if there is
    /// one.
    pub fn located(name: &str, found: Option<&str>) -> (output: Output)
        ensures
            output@ == (match found {
                Some(path) => line_on(FileDiscriptor::Stdout, name@ + " is "@ + path@),
                None => line_on(FileDiscriptor::Stderr, name@ + ": not found"@),
            }),
    {
        let mut message = String::from_str(name);
        match found {
            Some(path) => {
                message.append(" is ");
                message.append(path);
                line(FileDiscriptor::Stdout, message)
            },
            None => {
                message.append(": not found");
                line(FileDiscriptor::Stderr, message)
            },
        }
    }

    /// What `pwd` writes: the working directory `current`, or a complaint
    /// where it could not be had.
    pub fn working_directory(current: Option<&str>) -> (output: Output)
        ensures
            output@ == (match current {
                Some(directory) => line_on(FileDiscriptor::Stdout, directory@),
                None => line_on(
                    FileDiscriptor::Stderr,
                    "could not retreive working directory"@,
                ),
            }),
    {
        match current {
            Some(directory) => line(FileDiscriptor::Stdout, String::from_str(directory)),
            None => line(
                FileDiscriptor::Stderr,
                String::from_str("could not retreive working directory"),
            ),
        }
    }

    /// What `cd` writes when the working directory could not be changed.
    pub fn directory_missing(argument: &str) -> (output: Output)
        ensures
            output@ == line_on(
                FileDiscriptor::Stderr,
                "cd: "@ + argument@ + ": No such file or directory"@,
            ),
    {
        let mut message = String::from_str("cd: ");
        message.append(argument);
        message.append(": No such file or directory");
        line(FileDiscriptor::Stderr, message)
    }

    /// What the shell writes when the file `path`, the target of a
    /// redirection, cannot be opened. The command is then not run, and the
    /// shell goes on with the next line.
    pub fn redirect_failed(path: &str) -> (output: Output)
        ensures
            output@ == line_on(FileDiscriptor::Stderr, path@ + ": Unable to open file"@),
    {
        let mut message = String::from_str(path);
        message.append(": Unable to open file");
        line(FileDiscriptor::Stderr, message)
    }

    /// What the shell writes when the program `name` was found and could
    /// not be started. The shell goes on with the next line.
    pub fn spawn_failed(name: &str) -> (output: Output)
        ensures
            output@ == line_on(FileDiscriptor::Stderr, name@ + ": Unable to run command"@),
    {
        let mut message = String::from_str(name);
        message.append(": Unable to run command");
        line(FileDiscriptor::Stderr, message)
    }

    /// What the shell writes when no directory of the search path holds the
    /// program `name`.
    pub fn command_missing(name: &str) -> (output: Output)
        ensures
            output@ == line_on(FileDiscriptor::Stderr, name@ + ": command not found"@),
    {
        let mut message = String::from_str(name);
        message.append(": command not found");
        line(FileDiscriptor::Stderr, message)
    }
}

} // verus!
