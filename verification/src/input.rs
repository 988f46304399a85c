//! The line editor: what each key press does to the line that is being
//! typed, and what it writes to the terminal.

use crate::order::{
    lemma_precedes_antisymmetric, lemma_precedes_total, precedes, sort, sorted,
};
use crate::terminal::{
    clear_after_cursor, clear_after_cursor_text, clear_current_line, clear_current_line_text,
    cursor_left, cursor_left_text,
};
use crate::text::{chars_of, join, joined, string_of, texts};
use crate::trie::{completions, lists_exactly, Trie};
use vstd::prelude::*;
use vstd::string::StringExecFns;

verus! {

/// The column of the cursor, counted from 1, when nothing has been typed
/// after the prompt.
pub const PROMPT_COLUMN: u16 = 3;

/// A key press.
#[derive(Debug, Clone, Copy, PartialEq, Eq)]
pub enum Key {
    /// The backspace key, with the column that the cursor was in, counted
    /// from 1.
    Backspace { column: u16 },
    /// A character: a printable one, a tab or a line break.
    Char(char),
    /// A character typed with the control key held.
    Ctrl(char),
    /// Any other key.
    Other,
}

/// What the reader of keys does after a key press.
#[derive(Debug, Clone, PartialEq, Eq)]
pub enum Step {
    /// Read the next key.
    Continue,
    /// Hand the finished line on.
    Submit(String),
    /// Put the terminal back as it was and end the process with success.
    Exit,
}

/// What a `Step` holds.
pub enum StepView {
    Continue,
    Submit(Seq<char>),
    Exit,
}

impl View for Step {
    type V = StepView;

    open spec fn view(&self) -> StepView {
        match self {
            Step::Continue => StepView::Continue,
            Step::Submit(line) => StepView::Submit(line@),
            Step::Exit => StepView::Exit,
        }
    }
}

/// The answer to a key press: what to write to the terminal, and what to do
/// then.
#[derive(Debug, Clone, PartialEq, Eq)]
pub struct Response {
    pub output: String,
    pub step: Step,
}

/// What a `Response` holds.
pub struct ResponseView {
    pub output: Seq<char>,
    pub step: StepView,
}

impl View for Response {
    type V = ResponseView;

    open spec fn view(&self) -> ResponseView {
        ResponseView { output: self.output@, step: self.step@ }
    }
}

/// What a `LineEditor` holds.
pub struct EditorView {
    /// The line as typed so far.
    pub input: Seq<char>,
    /// Whether the last key was a tab that met several completions and rang
    /// the bell for them.
    pub bell_rung: bool,
}

/// The line that is being typed.
#[derive(Debug)]
pub struct LineEditor {
    input: Vec<char>,
    bell_rung: bool,
}

impl View for LineEditor {
    type V = EditorView;

    closed spec fn view(&self) -> EditorView {
        EditorView { input: self.input@, bell_rung: self.bell_rung }
    }
}

/// What is written before a line is read: the cursor goes to the left edge,
/// the line is cleared, and the prompt follows.
pub open spec fn prompt_text() -> Seq<char> {
    cursor_left_text(1000) + clear_current_line_text() + "$ "@
}

/// The answer that writes `output` and reads on.
pub open spec fn reads_on(output: Seq<char>) -> ResponseView {
    ResponseView { output, step: StepView::Continue }
}

/// How far the cursor goes left before a line of `length` characters is
/// drawn again after the prompt: over the line and the prompt, or as far as
/// a move can go.
pub open spec fn redraw_columns(length: nat) -> u16 {
    if length + 2 <= u16::MAX {
        (length + 2) as u16
    } else {
        u16::MAX
    }
}

/// The editor and the answer after a tab, with `matches` the completions of
/// the line in dictionary order.
/// No completion: the bell rings. One: it replaces the line, with a space
/// after it, and the line is drawn again. Several: a first tab rings the
/// bell and leaves them waiting; a second tab right after it lists them on
/// a line of their own and draws the line again. Nothing waits after no
/// completion, after one, or after the list.
pub open spec fn after_tab(editor: EditorView, matches: Seq<Seq<char>>) -> (
    EditorView,
    ResponseView,
) {
    if matches.len() == 0 {
        (EditorView { bell_rung: false, ..editor }, reads_on("\x07"@))
    } else if matches.len() == 1 {
        (
            EditorView { input: matches[0].push(' '), bell_rung: false },
            reads_on(
                clear_current_line_text() + cursor_left_text(redraw_columns(editor.input.len()))
                    + "$ "@ + matches[0] + " "@,
            ),
        )
    } else if editor.bell_rung {
        (
            EditorView { bell_rung: false, ..editor },
            reads_on("\r\n"@ + joined(matches, "  "@) + "\r\n$ "@ + editor.input),
        )
    } else {
        (EditorView { bell_rung: true, ..editor }, reads_on("\x07"@))
    }
}

/// Whether `key` asks for a completion: it is a tab, and the line is not
/// empty.
pub open spec fn asks_completion(editor: EditorView, key: Key) -> bool {
    key == Key::Char('\t') && editor.input.len() > 0
}

/// The editor and the answer after a key that asks for no completion.
/// The interrupt key, control and `c`, ends the process. Backspace at the
/// prompt does nothing; elsewhere it takes the last character off the line,
/// if there is one, and clears the terminal from the column before the
/// cursor on. A tab on an empty line does nothing. A line break ends the
/// line. Any other character joins the line and is echoed. Other keys do
/// nothing. After any of these keys no completions wait to be listed: a
/// list is for the second of two tabs in a row.
pub open spec fn after_key(editor: EditorView, key: Key) -> (EditorView, ResponseView) {
    let line = editor.input;
    let (input, response) = match key {
        Key::Ctrl(c) => if c == 'c' {
            (line, ResponseView { output: Seq::empty(), step: StepView::Exit })
        } else {
            (line, reads_on(Seq::empty()))
        },
        Key::Backspace { column } => if column == PROMPT_COLUMN {
            (line, reads_on(Seq::empty()))
        } else {
            (
                if line.len() > 0 {
                    line.drop_last()
                } else {
                    line
                },
                reads_on(cursor_left_text(1) + clear_after_cursor_text()),
            )
        },
        Key::Char(c) => if c == '\t' {
            (line, reads_on(Seq::empty()))
        } else if c == '\n' {
            (line, ResponseView { output: "\r\n"@, step: StepView::Submit(line) })
        } else {
            (line.push(c), reads_on(seq![c]))
        },
        Key::Other => (line, reads_on(Seq::empty())),
    };
    (EditorView { input, bell_rung: false }, response)
}

/// Whether `matches` holds each word of `words` once, in dictionary order.
pub open spec fn is_sorted_listing(matches: Seq<Seq<char>>, words: Set<Seq<char>>) -> bool {
    &&& sorted(matches)
    &&& matches.no_duplicates()
    &&& forall|word: Seq<char>| matches.contains(word) <==> words.contains(word)
}

/// A list in dictionary order of the words that another list holds, as
/// many times each, holds each word once if the other does.
proof fn lemma_sorted_listing(found: Seq<String>, ordered: Seq<String>, words: Set<Seq<char>>)
    requires
        lists_exactly(found, words),
        sorted(texts(ordered)),
        texts(ordered).to_multiset() == texts(found).to_multiset(),
    ensures
        is_sorted_listing(texts(ordered), words),
{
    broadcast use vstd::seq_lib::to_multiset_contains;

    let before = texts(found);
    let after = texts(ordered);
    assert(before.no_duplicates()) by {
        assert forall|i: int, j: int|
            0 <= i < before.len() && 0 <= j < before.len() && i != j implies before[i]
            != before[j] by {
            if i < j {
                assert(found[i]@ != found[j]@);
            } else {
                assert(found[j]@ != found[i]@);
            }
        }
    }
    before.lemma_multiset_has_no_duplicates();
    after.lemma_multiset_has_no_duplicates_conv();
    assert forall|word: Seq<char>| after.contains(word) <==> words.contains(word) by {
        assert(after.contains(word) <==> after.to_multiset().count(word) > 0);
        assert(before.contains(word) <==> before.to_multiset().count(word) > 0);
        if before.contains(word) {
            let i = choose|i: int| 0 <= i < before.len() && before[i] == word;
            assert(words.contains(found[i]@));
        }
        if words.contains(word) {
            let i = choose|i: int| 0 <= i < found.len() && #[trigger] found[i]@ == word;
            assert(before[i] == word);
        }
    }
}

/// A set of words has one list at most that holds each of them once, in
/// dictionary order.
pub proof fn lemma_sorted_listing_unique(
    a: Seq<Seq<char>>,
    b: Seq<Seq<char>>,
    words: Set<Seq<char>>,
)
    requires
        is_sorted_listing(a, words),
        is_sorted_listing(b, words),
    ensures
        a == b,
    decreases a.len(),
{
    if a.len() == 0 {
        if b.len() > 0 {
            assert(b.contains(b[0]));
            assert(a.contains(b[0]));
        }
        assert(a == b);
    } else {
        assert(a.contains(a[0]));
        assert(b.contains(a[0]));
        assert(b.contains(b[0]));
        assert(a.contains(b[0]));
        let i = choose|i: int| 0 <= i < a.len() && a[i] == b[0];
        let j = choose|j: int| 0 <= j < b.len() && b[j] == a[0];
        lemma_precedes_total(a[0], a[0]);
        lemma_precedes_total(b[0], b[0]);
        assert(precedes(a[0], a[i]));
        assert(precedes(b[0], b[j]));
        lemma_precedes_antisymmetric(a[0], b[0]);
        let first = a[0];
        let rest = words.remove(first);
        lemma_rest_of_sorted_listing(a, words);
        lemma_rest_of_sorted_listing(b, words);
        lemma_sorted_listing_unique(a.drop_first(), b.drop_first(), rest);
        assert(a == seq![first] + a.drop_first());
        assert(b == seq![first] + b.drop_first());
    }
}

/// Without its first word, a list that holds each word of a set once, in
/// dictionary order, does so for the set without that word.
proof fn lemma_rest_of_sorted_listing(a: Seq<Seq<char>>, words: Set<Seq<char>>)
    requires
        is_sorted_listing(a, words),
        a.len() > 0,
    ensures
        is_sorted_listing(a.drop_first(), words.remove(a[0])),
{
    let rest = a.drop_first();
    assert forall|i: int, j: int| 0 <= i < j < rest.len() implies precedes(rest[i], rest[j]) by {
        assert(precedes(a[i + 1], a[j + 1]));
    }
    assert forall|word: Seq<char>| rest.contains(word) <==> words.remove(a[0]).contains(word) by {
        if rest.contains(word) {
            let i = choose|i: int| 0 <= i < rest.len() && rest[i] == word;
            assert(a[i + 1] == word);
            assert(a.contains(word));
        }
        if words.remove(a[0]).contains(word) {
            assert(a.contains(word));
            let i = choose|i: int| 0 <= i < a.len() && a[i] == word;
            assert(rest[i - 1] == word);
        }
    }
}

/// The text that is written before a line is read.
pub fn prompt() -> (text: String)
    ensures
        text@ == prompt_text(),
{
    let mut text = cursor_left(1000);
    text.append(clear_current_line().as_str());
    text.append("$ ");
    text
}

impl LineEditor {
    /// An empty line, with no completions waiting to be listed.
    pub fn new() -> (editor: LineEditor)
        ensures
            editor@ == (EditorView { input: Seq::empty(), bell_rung: false }),
    {
        LineEditor { input: Vec::new(), bell_rung: false }
    }

    /// The line as typed so far.
    pub fn input(&self) -> (line: String)
        ensures
            line@ == self@.input,
    {
        string_of(&self.input)
    }

    /// Answers `key`: changes the line as the key asks, and says what to
    /// write and what to do next. A tab on a line that is not empty looks the
    /// line up in `trie` and completes it from what it finds there.
    pub fn handle_key(&mut self, key: Key, trie: &Trie) -> (response: Response)
        ensures
            asks_completion(old(self)@, key) ==> exists|matches: Seq<Seq<char>>|
                is_sorted_listing(matches, completions(trie@, old(self)@.input)) && (
                    final(self)@,
                    response@,
                ) == #[trigger] after_tab(old(self)@, matches),
            !asks_completion(old(self)@, key) ==> (final(self)@, response@) == after_key(
                old(self)@,
                key,
            ),
    {
        let response = match key {
            Key::Ctrl(c) => {
                if c == 'c' {
                    Response { output: String::new(), step: Step::Exit }
                } else {
                    Response { output: String::new(), step: Step::Continue }
                }
            },
            Key::Backspace { column } => {
                if column == PROMPT_COLUMN {
                    Response { output: String::new(), step: Step::Continue }
                } else {
                    self.input.pop();
                    let mut output = cursor_left(1);
                    output.append(clear_after_cursor().as_str());
                    Response { output, step: Step::Continue }
                }
            },
            Key::Char(c) => {
                if c == '\t' {
                    if self.input.len() == 0 {
                        Response { output: String::new(), step: Step::Continue }
                    } else {
                        let prefix = string_of(&self.input);
                        let mut suggestions = trie.search(prefix.as_str());
                        let ghost found = suggestions@;
                        sort(&mut suggestions);
                        proof {
                            lemma_sorted_listing(
                                found,
                                suggestions@,
                                completions(trie@, self@.input),
                            );
                        }
                        return self.complete(&suggestions);
                    }
                } else if c == '\n' {
                    Response {
                        output: String::from_str("\r\n"),
                        step: Step::Submit(string_of(&self.input)),
                    }
                } else {
                    self.input.push(c);
                    let mut output = String::new();
                    output.push(c);
                    Response { output, step: Step::Continue }
                }
            },
            Key::Other => Response { output: String::new(), step: Step::Continue },
        };
        self.bell_rung = false;
        response
    }

    /// Answers a tab on a line whose completions, in dictionary order, are
    /// `matches`.
    pub fn complete(&mut self, matches: &Vec<String>) -> (response: Response)
        ensures
            (final(self)@, response@) == after_tab(old(self)@, texts(matches@)),
    {
        if matches.len() == 0 {
            self.bell_rung = false;
            Response { output: String::from_str("\x07"), step: Step::Continue }
        } else if matches.len() == 1 {
            let length = self.input.len();
            let columns: u16 = if length <= 0xFFFD {
                (length + 2) as u16
            } else {
                u16::MAX
            };
            let mut output = clear_current_line();
            output.append(cursor_left(columns).as_str());
            output.append("$ ");
            output.append(matches[0].as_str());
            output.append(" ");
            let mut input = chars_of(matches[0].as_str());
            input.push(' ');
            self.input = input;
            self.bell_rung = false;
            Response { output, step: Step::Continue }
        } else if self.bell_rung {
            self.bell_rung = false;
            let mut output = String::from_str("\r\n");
            output.append(join(matches, "  ").as_str());
            output.append("\r\n$ ");
            output.append(string_of(&self.input).as_str());
            Response { output, step: Step::Continue }
        } else {
            self.bell_rung = true;
            Response { output: String::from_str("\x07"), step: Step::Continue }
        }
    }
}

} // verus!
