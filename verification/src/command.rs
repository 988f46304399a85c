//! The command line: its parts, and the tokenizer that splits a line into a
//! command name, its arguments and an optional redirection.

use crate::text::{
    chars_of, is_whitespace, is_whitespace_char, spells, string_of, texts, trim_start,
    trimmed_start,
};
use std::str::FromStr;
use vstd::prelude::*;

verus! {

/// Why a piece of a command line could not be read.
#[derive(Debug, Clone, Copy, PartialEq, Eq, Structural)]
pub enum ParserCommandError {
    EmptyInput,
    ParseRedirectFailed,
}

impl ParserCommandError {
    /// The text shown to the user for this error.
    pub open spec fn message_text(self) -> Seq<char> {
        match self {
            ParserCommandError::EmptyInput => "Input was empty"@,
            ParserCommandError::ParseRedirectFailed => "Parsing redirct failed"@,
        }
    }

    pub fn message(&self) -> (text: String)
        ensures
            text@ == self.message_text(),
    {
        match self {
            ParserCommandError::EmptyInput => "Input was empty".to_owned(),
            ParserCommandError::ParseRedirectFailed => "Parsing redirct failed".to_owned(),
        }
    }
}

/// The stream that a redirection reroutes.
#[derive(Debug, Clone, Copy, PartialEq, Eq, Structural)]
pub enum FileDiscriptor {
    Stdout,
    Stderr,
}

/// Whether a redirection adds to its target file or replaces what it holds.
#[derive(Debug, Clone, Copy, PartialEq, Eq, Structural)]
pub enum RedirectType {
    Append,
    Truncate,
}

/// The stream and the mode that a redirection operator stands for, if `operator`
/// is one: `>` and `1>` replace the standard output's target, `>>` and `1>>`
/// add to it, `2>` and `2>>` do the same for the standard error.
pub open spec fn redirect_operator(operator: Seq<char>) -> Option<(FileDiscriptor, RedirectType)> {
    if operator == "2>"@ {
        Some((FileDiscriptor::Stderr, RedirectType::Truncate))
    } else if operator == "2>>"@ {
        Some((FileDiscriptor::Stderr, RedirectType::Append))
    } else if operator == "1>"@ || operator == ">"@ {
        Some((FileDiscriptor::Stdout, RedirectType::Truncate))
    } else if operator == "1>>"@ || operator == ">>"@ {
        Some((FileDiscriptor::Stdout, RedirectType::Append))
    } else {
        None
    }
}

/// What a `Redirect` holds.
pub struct RedirectView {
    pub file_descriptor: FileDiscriptor,
    pub redirect_type: RedirectType,
    pub file: Seq<char>,
}

/// A redirection of one stream to a file.
#[derive(Debug, Clone, PartialEq, Eq)]
pub struct Redirect {
    file_descriptor: FileDiscriptor,
    redirect_type: RedirectType,
    file: String,
}

impl View for Redirect {
    type V = RedirectView;

    closed spec fn view(&self) -> RedirectView {
        RedirectView {
            file_descriptor: self.file_descriptor,
            redirect_type: self.redirect_type,
            file: self.file@,
        }
    }
}

impl Redirect {
    pub fn file_descriptor(&self) -> (descriptor: &FileDiscriptor)
        ensures
            *descriptor == self@.file_descriptor,
    {
        &self.file_descriptor
    }

    pub fn redirect_type(&self) -> (mode: &RedirectType)
        ensures
            *mode == self@.redirect_type,
    {
        &self.redirect_type
    }

    pub fn file(&self) -> (file: &String)
        ensures
            file@ == self@.file,
    {
        &self.file
    }

    pub fn set_file(&mut self, file: String)
        ensures
            final(self)@ == (RedirectView { file: file@, ..old(self)@ }),
    {
        self.file = file
    }
}

impl FromStr for Redirect {
    type Err = ParserCommandError;

    /// Reads a redirection operator. The redirection that comes back has an
    /// empty target; any other text is refused.
    fn from_str(s: &str) -> (parsed: Result<Redirect, ParserCommandError>)
        ensures
            match redirect_operator(s@) {
                Some((descriptor, mode)) => parsed matches Ok(redirect) && redirect@ == (
                RedirectView {
                    file_descriptor: descriptor,
                    redirect_type: mode,
                    file: Seq::<char>::empty(),
                }),
                None => parsed == Err::<Redirect, _>(ParserCommandError::ParseRedirectFailed),
            },
    {
        let operator = chars_of(s);
        if spells(&operator, "2>") {
            Ok(
                Redirect {
                    file_descriptor: FileDiscriptor::Stderr,
                    redirect_type: RedirectType::Truncate,
                    file: String::new(),
                },
            )
        } else if spells(&operator, "2>>") {
            Ok(
                Redirect {
                    file_descriptor: FileDiscriptor::Stderr,
                    redirect_type: RedirectType::Append,
                    file: String::new(),
                },
            )
        } else if spells(&operator, "1>") || spells(&operator, ">") {
            Ok(
                Redirect {
                    file_descriptor: FileDiscriptor::Stdout,
                    redirect_type: RedirectType::Truncate,
                    file: String::new(),
                },
            )
        } else if spells(&operator, "1>>") || spells(&operator, ">>") {
            Ok(
                Redirect {
                    file_descriptor: FileDiscriptor::Stdout,
                    redirect_type: RedirectType::Append,
                    file: String::new(),
                },
            )
        } else {
            Err(ParserCommandError::ParseRedirectFailed)
        }
    }
}

/// What a `CommandType` holds.
pub enum CommandTypeView {
    Exit,
    Echo,
    Type,
    Pwd,
    Cd,
    External(Seq<char>),
    Nothing,
}

/// The kind of a command: one of the builtins, a program to look up and run,
/// or nothing at all.
#[derive(Debug, Clone, PartialEq, Eq)]
pub enum CommandType {
    Exit,
    Echo,
    Type,
    Pwd,
    Cd,
    External(String),
    Nothing,
}

impl View for CommandType {
    type V = CommandTypeView;

    open spec fn view(&self) -> CommandTypeView {
        match self {
            CommandType::Exit => CommandTypeView::Exit,
            CommandType::Echo => CommandTypeView::Echo,
            CommandType::Type => CommandTypeView::Type,
            CommandType::Pwd => CommandTypeView::Pwd,
            CommandType::Cd => CommandTypeView::Cd,
            CommandType::External(name) => CommandTypeView::External(name@),
            CommandType::Nothing => CommandTypeView::Nothing,
        }
    }
}

/// The kind of command that `name` asks for: a builtin where it is a
/// builtin's name, an outside program of that name otherwise.
pub open spec fn command_type_of(name: Seq<char>) -> CommandTypeView {
    if name == "exit"@ {
        CommandTypeView::Exit
    } else if name == "echo"@ {
        CommandTypeView::Echo
    } else if name == "type"@ {
        CommandTypeView::Type
    } else if name == "pwd"@ {
        CommandTypeView::Pwd
    } else if name == "cd"@ {
        CommandTypeView::Cd
    } else {
        CommandTypeView::External(name)
    }
}

impl FromStr for CommandType {
    type Err = ParserCommandError;

    /// Reads a command name. Every name is accepted.
    fn from_str(s: &str) -> (parsed: Result<CommandType, ParserCommandError>)
        ensures
            parsed matches Ok(kind) && kind@ == command_type_of(s@),
    {
        let name = chars_of(s);
        Ok(
            if spells(&name, "exit") {
                CommandType::Exit
            } else if spells(&name, "echo") {
                CommandType::Echo
            } else if spells(&name, "type") {
                CommandType::Type
            } else if spells(&name, "pwd") {
                CommandType::Pwd
            } else if spells(&name, "cd") {
                CommandType::Cd
            } else {
                CommandType::External(s.to_owned())
            },
        )
    }
}

/// The tokenizer's state between two characters of a line.
pub struct LexState {
    /// The fields that are complete.
    pub fields: Seq<Seq<char>>,
    /// The field that is being read.
    pub fragment: Seq<char>,
    pub inside_single_quote: bool,
    pub inside_double_quote: bool,
}

impl LexState {
    /// The state before the first character.
    pub open spec fn start() -> LexState {
        LexState {
            fields: Seq::empty(),
            fragment: Seq::empty(),
            inside_single_quote: false,
            inside_double_quote: false,
        }
    }

    /// The state after `c` has joined the field that is being read.
    pub open spec fn append(self, c: char) -> LexState {
        LexState { fragment: self.fragment.push(c), ..self }
    }

    /// The state after the field that is being read has ended. An empty field
    /// is not kept.
    pub open spec fn end_field(self) -> LexState {
        if self.fragment.len() > 0 {
            LexState { fields: self.fields.push(self.fragment), fragment: Seq::empty(), ..self }
        } else {
            self
        }
    }

    /// The fields once the line has ended: a field that is being read counts,
    /// whether or not a quote is still open.
    pub open spec fn finish(self) -> Seq<Seq<char>> {
        self.end_field().fields
    }
}

/// Whether a backslash inside double quotes gives up its own place to `c`.
pub open spec fn escapable_in_double_quotes(c: char) -> bool {
    c == '\\' || c == '$' || c == '"'
}

/// One step of the tokenizer at position `at` of `line`: the position and the
/// state after it. The rules, the first that applies:
/// a `'` outside double quotes opens or closes single quotes;
/// a `"` outside single quotes opens or closes double quotes;
/// a backslash outside quotes is dropped and the character after it, if there
/// is one, joins the field as it stands;
/// a backslash inside double quotes is dropped before `\`, `$` and `"`, which
/// then joins the field, and joins the field itself before anything else;
/// a space outside quotes ends the field;
/// any other character joins the field.
pub open spec fn lex_step(line: Seq<char>, at: int, state: LexState) -> (int, LexState) {
    let c = line[at];
    if c == '\'' && !state.inside_double_quote {
        (at + 1, LexState { inside_single_quote: !state.inside_single_quote, ..state })
    } else if c == '"' && !state.inside_single_quote {
        (at + 1, LexState { inside_double_quote: !state.inside_double_quote, ..state })
    } else if c == '\\' && !state.inside_single_quote && !state.inside_double_quote {
        if at + 1 < line.len() {
            (at + 2, state.append(line[at + 1]))
        } else {
            (at + 1, state)
        }
    } else if c == '\\' && state.inside_double_quote {
        if at + 1 < line.len() && escapable_in_double_quotes(line[at + 1]) {
            (at + 2, state.append(line[at + 1]))
        } else {
            (at + 1, state.append(c))
        }
    } else if c == ' ' && !state.inside_single_quote && !state.inside_double_quote {
        (at + 1, state.end_field())
    } else {
        (at + 1, state.append(c))
    }
}

/// The fields that the tokenizer makes of `line` from position `at` on, when
/// it is in `state` there.
pub open spec fn lex(line: Seq<char>, at: int, state: LexState) -> Seq<Seq<char>>
    decreases line.len() - at,
{
    if 0 <= at < line.len() {
        let (next, after) = lex_step(line, at, state);
        lex(line, next, after)
    } else {
        state.finish()
    }
}

/// Whether the character at position `at` of `line`, which the tokenizer
/// meets in `state`, is plain white space: white space that stands outside
/// quotes and is not escaped.
pub open spec fn is_plain_white_space(line: Seq<char>, at: int, state: LexState) -> bool {
    is_whitespace(line[at]) && !state.inside_single_quote && !state.inside_double_quote
}

/// How much of `line` counts when the tokenizer is at position `at` in
/// `state` and `kept` characters count so far: the line up to the last step
/// of the tokenizer that does not read plain white space.
pub open spec fn kept_length(line: Seq<char>, at: int, state: LexState, kept: int) -> int
    decreases line.len() - at,
{
    if 0 <= at < line.len() {
        let (next, after) = lex_step(line, at, state);
        kept_length(
            line,
            next,
            after,
            if is_plain_white_space(line, at, state) {
                kept
            } else {
                next
            },
        )
    } else {
        kept
    }
}

/// The part of `line` that the tokenizer reads: `line` without the white
/// space at its start and without the plain white space at its end. White
/// space at the end that is escaped or stands inside quotes stays.
pub open spec fn tokenized_part(line: Seq<char>) -> Seq<char> {
    let rest = trimmed_start(line);
    rest.take(kept_length(rest, 0, LexState::start(), 0))
}

/// The fields of `line`: those that the tokenizer, which starts outside
/// quotes, makes of the part of the line that it reads.
pub open spec fn fields_of(line: Seq<char>) -> Seq<Seq<char>> {
    lex(tokenized_part(line), 0, LexState::start())
}

/// What counts of a line is a part of the line.
pub proof fn lemma_kept_length_in_line(line: Seq<char>, at: int, state: LexState, kept: int)
    requires
        0 <= kept <= at <= line.len(),
    ensures
        kept <= kept_length(line, at, state, kept) <= line.len(),
    decreases line.len() - at,
{
    if at < line.len() {
        let (next, after) = lex_step(line, at, state);
        let kept_after = if is_plain_white_space(line, at, state) {
            kept
        } else {
            next
        };
        lemma_kept_length_in_line(line, next, after, kept_after);
    }
}

/// The part of a line that the tokenizer reads starts the line as it is
/// without the white space at its start.
pub proof fn lemma_tokenized_part_starts_line(line: Seq<char>)
    ensures
        tokenized_part(line).is_prefix_of(trimmed_start(line)),
{
    let rest = trimmed_start(line);
    lemma_kept_length_in_line(rest, 0, LexState::start(), 0);
    let kept = kept_length(rest, 0, LexState::start(), 0);
    assert(rest.take(kept) == rest.subrange(0, rest.take(kept).len() as int));
}

/// A line whose last character is no white space counts to its end.
pub proof fn lemma_kept_length_of_closed_line(
    line: Seq<char>,
    at: int,
    state: LexState,
    kept: int,
)
    requires
        line.len() > 0,
        !is_whitespace(line.last()),
        0 <= at <= line.len(),
        at == line.len() ==> kept == line.len(),
    ensures
        kept_length(line, at, state, kept) == line.len(),
    decreases line.len() - at,
{
    if at < line.len() {
        let (next, after) = lex_step(line, at, state);
        let kept_after = if is_plain_white_space(line, at, state) {
            kept
        } else {
            next
        };
        lemma_kept_length_of_closed_line(line, next, after, kept_after);
    }
}

/// Whether none of `fields` is empty.
pub open spec fn none_empty(fields: Seq<Seq<char>>) -> bool {
    forall|i: int| 0 <= i < fields.len() ==> (#[trigger] fields[i]).len() > 0
}

/// The tokenizer keeps no empty field: from a state whose fields are not
/// empty it ends with fields that are not empty.
proof fn lemma_lex_keeps_no_empty_field(line: Seq<char>, at: int, state: LexState)
    requires
        none_empty(state.fields),
    ensures
        none_empty(lex(line, at, state)),
    decreases line.len() - at,
{
    assert(none_empty(state.end_field().fields));
    if 0 <= at < line.len() {
        let (next, after) = lex_step(line, at, state);
        assert(after.fields == state.fields || after.fields == state.end_field().fields);
        lemma_lex_keeps_no_empty_field(line, next, after);
        assert(lex(line, at, state) == lex(line, next, after));
    } else {
        assert(lex(line, at, state) == state.finish());
    }
}

/// No field of a line is empty.
pub proof fn lemma_fields_are_not_empty(line: Seq<char>)
    ensures
        none_empty(fields_of(line)),
{
    lemma_lex_keeps_no_empty_field(tokenized_part(line), 0, LexState::start());
}

/// A line of white space alone has no fields.
pub proof fn lemma_blank_line_has_no_fields(line: Seq<char>)
    requires
        forall|i: int| 0 <= i < line.len() ==> is_whitespace(#[trigger] line[i]),
    ensures
        fields_of(line).len() == 0,
    decreases line.len(),
{
    if line.len() > 0 {
        let rest = line.drop_first();
        assert forall|i: int| 0 <= i < rest.len() implies is_whitespace(#[trigger] rest[i]) by {
            assert(rest[i] == line[i + 1]);
        }
        lemma_blank_line_has_no_fields(rest);
        assert(trimmed_start(line) == trimmed_start(rest));
    } else {
        assert(tokenized_part(line) == Seq::<char>::empty());
    }
}

/// Takes the plain white space off the end of `line`.
fn without_plain_end(line: &Vec<char>) -> (kept: Vec<char>)
    ensures
        kept@ == line@.take(kept_length(line@, 0, LexState::start(), 0)),
{
    let mut inside_single_quote = false;
    let mut inside_double_quote = false;
    let mut end: usize = 0;
    let mut at: usize = 0;
    let ghost mut state = LexState::start();
    while at < line.len()
        invariant
            end <= at <= line.len(),
            state.inside_single_quote == inside_single_quote,
            state.inside_double_quote == inside_double_quote,
            kept_length(line@, at as int, state, end as int) == kept_length(
                line@,
                0,
                LexState::start(),
                0,
            ),
        decreases line.len() - at,
    {
        let c = line[at];
        let quoted = inside_single_quote || inside_double_quote;
        let plain = !quoted && is_whitespace_char(c);
        proof {
            state = lex_step(line@, at as int, state).1;
        }
        if c == '\'' && !inside_double_quote {
            inside_single_quote = !inside_single_quote;
            at += 1;
        } else if c == '"' && !inside_single_quote {
            inside_double_quote = !inside_double_quote;
            at += 1;
        } else if c == '\\' && !quoted {
            if at + 1 < line.len() {
                at += 2;
            } else {
                at += 1;
            }
        } else if c == '\\' && inside_double_quote {
            let next_escapable = at + 1 < line.len() && (line[at + 1] == '\\' || line[at + 1]
                == '$' || line[at + 1] == '"');
            if next_escapable {
                at += 2;
            } else {
                at += 1;
            }
        } else {
            at += 1;
        }
        if !plain {
            end = at;
        }
    }
    let mut kept: Vec<char> = Vec::new();
    let mut i: usize = 0;
    while i < end
        invariant
            i <= end <= line.len(),
            kept@ == line@.take(i as int),
        decreases end - i,
    {
        kept.push(line[i]);
        assert(line@.take(i + 1) == line@.take(i as int).push(line@[i as int]));
        i += 1;
    }
    kept
}

/// Splits `line` into its fields.
pub fn split_fields(line: &str) -> (fields: Vec<String>)
    ensures
        texts(fields@) == fields_of(line@),
{
    let whole = chars_of(line);
    let rest = trim_start(&whole);
    let chars = without_plain_end(&rest);
    let mut fields: Vec<String> = Vec::new();
    let mut fragment: Vec<char> = Vec::new();
    let mut inside_single_quote = false;
    let mut inside_double_quote = false;
    let mut at: usize = 0;
    assert(texts(fields@) == Seq::<Seq<char>>::empty());
    while at < chars.len()
        invariant
            at <= chars.len(),
            lex(
                chars@,
                at as int,
                LexState {
                    fields: texts(fields@),
                    fragment: fragment@,
                    inside_single_quote,
                    inside_double_quote,
                },
            ) == lex(chars@, 0, LexState::start()),
        decreases chars.len() - at,
    {
        let c = chars[at];
        if c == '\'' && !inside_double_quote {
            inside_single_quote = !inside_single_quote;
            at += 1;
        } else if c == '"' && !inside_single_quote {
            inside_double_quote = !inside_double_quote;
            at += 1;
        } else if c == '\\' && !inside_single_quote && !inside_double_quote {
            if at + 1 < chars.len() {
                fragment.push(chars[at + 1]);
                at += 2;
            } else {
                at += 1;
            }
        } else if c == '\\' && inside_double_quote {
            let next_escapable = at + 1 < chars.len() && (chars[at + 1] == '\\' || chars[at + 1]
                == '$' || chars[at + 1] == '"');
            if next_escapable {
                fragment.push(chars[at + 1]);
                at += 2;
            } else {
                fragment.push(c);
                at += 1;
            }
        } else if c == ' ' && !inside_single_quote && !inside_double_quote {
            if fragment.len() > 0 {
                let ghost before = texts(fields@);
                fields.push(string_of(&fragment));
                assert(texts(fields@) == before.push(fragment@));
                fragment = Vec::new();
            }
            at += 1;
        } else {
            fragment.push(c);
            at += 1;
        }
    }
    if fragment.len() > 0 {
        let ghost before = texts(fields@);
        fields.push(string_of(&fragment));
        assert(texts(fields@) == before.push(fragment@));
    }
    fields
}

/// The redirection that ends `arguments`, if there is one: an operator in
/// the last place but one, and after it the target file. An operator in any
/// other place is an ordinary argument.
pub open spec fn trailing_redirect(arguments: Seq<Seq<char>>) -> Option<RedirectView> {
    if arguments.len() < 2 {
        None
    } else {
        match redirect_operator(arguments[arguments.len() - 2]) {
            Some((descriptor, mode)) => Some(
                RedirectView {
                    file_descriptor: descriptor,
                    redirect_type: mode,
                    file: arguments.last(),
                },
            ),
            None => None,
        }
    }
}

/// `arguments` without the redirection that ends it, if there is one.
pub open spec fn without_redirect(arguments: Seq<Seq<char>>) -> Seq<Seq<char>> {
    if trailing_redirect(arguments) is Some {
        arguments.take(arguments.len() - 2)
    } else {
        arguments
    }
}

/// What a `Command` holds.
pub struct CommandView {
    pub name: CommandTypeView,
    pub arguments: Seq<Seq<char>>,
    pub redirect: Option<RedirectView>,
}

/// The command that `line` spells. A line without fields is the empty
/// command. Otherwise the first field names the command, and the fields
/// after it are its arguments, but for a redirection that ends them.
pub open spec fn parse_line(line: Seq<char>) -> CommandView {
    let fields = fields_of(line);
    if fields.len() == 0 {
        CommandView { name: CommandTypeView::Nothing, arguments: Seq::empty(), redirect: None }
    } else {
        CommandView {
            name: command_type_of(fields[0]),
            arguments: without_redirect(fields.skip(1)),
            redirect: trailing_redirect(fields.skip(1)),
        }
    }
}

/// The view of an optional redirection.
pub open spec fn redirect_view(redirect: Option<Redirect>) -> Option<RedirectView> {
    match redirect {
        Some(r) => Some(r@),
        None => None,
    }
}

/// A command line taken apart.
#[derive(Debug, Clone, PartialEq, Eq)]
pub struct Command {
    name: CommandType,
    arguments: Vec<String>,
    redirect: Option<Redirect>,
}

impl View for Command {
    type V = CommandView;

    closed spec fn view(&self) -> CommandView {
        CommandView {
            name: self.name@,
            arguments: texts(self.arguments@),
            redirect: redirect_view(self.redirect),
        }
    }
}

impl Command {
    pub fn name(&self) -> (name: &CommandType)
        ensures
            name@ == self@.name,
    {
        &self.name
    }

    pub fn arguments(&self) -> (arguments: &Vec<String>)
        ensures
            texts(arguments@) == self@.arguments,
    {
        &self.arguments
    }

    pub fn redirect(&self) -> (redirect: &Option<Redirect>)
        ensures
            redirect_view(*redirect) == self@.redirect,
    {
        &self.redirect
    }
}

/// A line of input that waits to be taken apart.
#[derive(Debug, Clone)]
pub struct CommandParser {
    input: String,
}

impl View for CommandParser {
    type V = Seq<char>;

    closed spec fn view(&self) -> Seq<char> {
        self.input@
    }
}

impl CommandParser {
    pub fn new(input: String) -> (parser: CommandParser)
        ensures
            parser@ == input@,
    {
        CommandParser { input }
    }

    /// Takes the line apart. No line is refused: an open quote ends with the
    /// line, and a backslash that ends the line is dropped outside quotes and
    /// kept inside double quotes.
    pub fn parse_command(&mut self) -> (command: Command)
        ensures
            command@ == parse_line(old(self)@),
            final(self)@ == old(self)@,
    {
        let mut fields = split_fields(self.input.as_str());
        if fields.len() == 0 {
            assert(texts(Seq::<String>::empty()) == Seq::<Seq<char>>::empty());
            return Command { name: CommandType::Nothing, arguments: Vec::new(), redirect: None };
        }
        let ghost all = texts(fields@);
        let first = fields.remove(0);
        assert(texts(fields@) == all.skip(1));
        let name = CommandType::from_str(first.as_str()).unwrap();
        let mut arguments = fields;
        let redirect = self.try_parse_redirect(&mut arguments);
        Command { name, arguments, redirect }
    }

    /// Takes the redirection that ends `arguments`, if there is one, out of
    /// them.
    fn try_parse_redirect(&mut self, arguments: &mut Vec<String>) -> (redirect: Option<Redirect>)
        ensures
            redirect_view(redirect) == trailing_redirect(texts(old(arguments)@)),
            texts(final(arguments)@) == without_redirect(texts(old(arguments)@)),
            final(self)@ == old(self)@,
    {
        if arguments.len() < 2 {
            return None;
        }
        let ghost before = texts(arguments@);
        match Redirect::from_str(arguments[arguments.len() - 2].as_str()) {
            Ok(mut redirect) => {
                let redirect_file = arguments.pop().unwrap();
                redirect.set_file(redirect_file);
                arguments.pop();
                assert(texts(arguments@) == before.take(before.len() - 2));
                Some(redirect)
            },
            Err(_) => None,
        }
    }
}

} // verus!
