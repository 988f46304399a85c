//! Quoting: the way back from a list of arguments to a line that the
//! tokenizer reads as that list.

use crate::command::{
    fields_of, lemma_fields_are_not_empty, lemma_kept_length_of_closed_line, lex, lex_step,
    none_empty, tokenized_part, LexState,
};
use crate::text::{chars_of, is_whitespace, string_of, texts, trimmed_start};
use vstd::prelude::*;

verus! {

/// How `c` is written inside single quotes: a single quote closes the
/// quotes, stands escaped by a backslash, and opens them again; any other
/// character stands for itself.
pub open spec fn quoted_char(c: char) -> Seq<char> {
    if c == '\'' {
        seq!['\'', '\\', '\'', '\'']
    } else {
        seq![c]
    }
}

/// The characters of `argument`, each written as single quotes take it.
pub open spec fn quoted_body(argument: Seq<char>) -> Seq<char>
    decreases argument.len(),
{
    if argument.len() == 0 {
        Seq::empty()
    } else {
        quoted_char(argument.first()) + quoted_body(argument.drop_first())
    }
}

/// `argument` between single quotes.
pub open spec fn quoted(argument: Seq<char>) -> Seq<char> {
    seq!['\''] + quoted_body(argument) + seq!['\'']
}

/// The line that holds each of `arguments` between single quotes, with one
/// space between two of them.
pub open spec fn quoted_line(arguments: Seq<Seq<char>>) -> Seq<char>
    decreases arguments.len(),
{
    if arguments.len() == 0 {
        Seq::empty()
    } else if arguments.len() == 1 {
        quoted(arguments.first())
    } else {
        quoted(arguments.first()) + seq![' '] + quoted_line(arguments.drop_first())
    }
}

/// Writes `argument` between single quotes at the end of `line`.
fn push_quoted(line: &mut Vec<char>, argument: &str)
    ensures
        final(line)@ == old(line)@ + quoted(argument@),
{
    let chars = chars_of(argument);
    line.push('\'');
    let mut i: usize = 0;
    assert(quoted_body(chars@.take(0)) == Seq::<char>::empty());
    while i < chars.len()
        invariant
            i <= chars.len(),
            line@ == old(line)@ + seq!['\''] + quoted_body(chars@.take(i as int)),
        decreases chars.len() - i,
    {
        proof {
            lemma_quoted_body_push(chars@.take(i as int), chars@[i as int]);
            assert(chars@.take(i + 1) == chars@.take(i as int).push(chars@[i as int]));
        }
        let c = chars[i];
        if c == '\'' {
            line.push('\'');
            line.push('\\');
            line.push('\'');
            line.push('\'');
        } else {
            line.push(c);
        }
        i += 1;
    }
    assert(chars@.take(i as int) == argument@);
    line.push('\'');
}

/// Quotes each of `arguments` and joins them into one line.
pub fn quote_arguments(arguments: &Vec<String>) -> (line: String)
    ensures
        line@ == quoted_line(texts(arguments@)),
{
    let mut line: Vec<char> = Vec::new();
    let n = arguments.len();
    let mut i: usize = n;
    let ghost all = texts(arguments@);
    assert(all.skip(n as int) == Seq::<Seq<char>>::empty());
    while i > 0
        invariant
            i <= n,
            n == arguments.len(),
            all == texts(arguments@),
            line@ == quoted_line(all.skip(i as int)),
        decreases i,
    {
        i -= 1;
        let mut longer: Vec<char> = Vec::new();
        push_quoted(&mut longer, arguments[i].as_str());
        if i + 1 < n {
            longer.push(' ');
        }
        let ghost head = longer@;
        let mut j: usize = 0;
        while j < line.len()
            invariant
                j <= line.len(),
                longer@ == head + line@.take(j as int),
            decreases line.len() - j,
        {
            longer.push(line[j]);
            j += 1;
        }
        proof {
            let rest = all.skip(i as int);
            assert(rest.first() == arguments[i as int]@);
            assert(rest.drop_first() == all.skip(i + 1));
            assert(line@.take(line.len() as int) == line@);
            if i + 1 == n {
                assert(rest.len() == 1);
                assert(line@ == Seq::<char>::empty());
                assert(longer@ == quoted(rest.first()));
            } else {
                assert(rest.len() > 1);
                assert(longer@ == quoted(rest.first()) + seq![' '] + quoted_line(
                    rest.drop_first(),
                ));
            }
        }
        line = longer;
    }
    assert(all.skip(0) == all);
    string_of(&line)
}

/// The quoted form of a text with one more character is the quoted form of
/// the text, then that of the character.
proof fn lemma_quoted_body_push(argument: Seq<char>, c: char)
    ensures
        quoted_body(argument.push(c)) == quoted_body(argument) + quoted_char(c),
    decreases argument.len(),
{
    let longer = argument.push(c);
    if argument.len() == 0 {
        assert(longer.drop_first() == Seq::<char>::empty());
        assert(quoted_body(longer.drop_first()) == Seq::<char>::empty());
        assert(quoted_body(longer) == quoted_char(c) + Seq::<char>::empty());
    } else {
        assert(longer.drop_first() == argument.drop_first().push(c));
        lemma_quoted_body_push(argument.drop_first(), c);
        assert(longer.first() == argument.first());
    }
}

/// Inside single quotes the tokenizer reads the quoted form of `argument` as
/// `argument`, and is inside single quotes again after it.
proof fn lemma_lex_quoted_body(line: Seq<char>, at: int, state: LexState, argument: Seq<char>)
    requires
        0 <= at,
        at + quoted_body(argument).len() <= line.len(),
        line.subrange(at, at + quoted_body(argument).len()) == quoted_body(argument),
        state.inside_single_quote,
        !state.inside_double_quote,
    ensures
        lex(line, at, state) == lex(
            line,
            at + quoted_body(argument).len(),
            LexState { fragment: state.fragment + argument, ..state },
        ),
    decreases argument.len(),
{
    let body = quoted_body(argument);
    if argument.len() == 0 {
        assert(state.fragment + argument == state.fragment);
    } else {
        let c = argument.first();
        let rest = argument.drop_first();
        let head = quoted_char(c);
        assert(body == head + quoted_body(rest));
        assert forall|i: int| 0 <= i < body.len() implies line[at + i] == body[i] by {
            assert(line.subrange(at, at + body.len())[i] == line[at + i]);
        }
        let next = at + head.len();
        assert(line.subrange(next, next + quoted_body(rest).len()) == quoted_body(rest)) by {
            assert forall|i: int| 0 <= i < quoted_body(rest).len() implies line[next + i]
                == quoted_body(rest)[i] by {
                assert(body[next - at + i] == quoted_body(rest)[i]);
            }
        }
        let after = state.append(c);
        assert(lex(line, at, state) == lex(line, next, after)) by {
            assert(line[at] == body[0]);
            if c == '\'' {
                let closed = LexState { inside_single_quote: false, ..state };
                assert(line[at + 1] == body[1]);
                assert(line[at + 2] == body[2]);
                assert(line[at + 3] == body[3]);
                assert(lex_step(line, at, state) == (at + 1, closed));
                assert(lex(line, at, state) == lex(line, at + 1, closed));
                let escaped = closed.append('\'');
                assert(lex_step(line, at + 1, closed) == (at + 3, escaped));
                assert(lex(line, at + 1, closed) == lex(line, at + 3, escaped));
                assert(lex_step(line, at + 3, escaped) == (at + 4, after));
                assert(lex(line, at + 3, escaped) == lex(line, at + 4, after));
            } else {
                assert(lex_step(line, at, state) == (at + 1, after));
            }
        }
        lemma_lex_quoted_body(line, next, after, rest);
        assert(after.fragment + rest == state.fragment + argument);
    }
}

/// Outside quotes the tokenizer reads a quoted argument as that argument,
/// and is outside quotes again after it.
proof fn lemma_lex_quoted(line: Seq<char>, at: int, state: LexState, argument: Seq<char>)
    requires
        0 <= at,
        at + quoted(argument).len() <= line.len(),
        line.subrange(at, at + quoted(argument).len()) == quoted(argument),
        !state.inside_single_quote,
        !state.inside_double_quote,
    ensures
        lex(line, at, state) == lex(
            line,
            at + quoted(argument).len(),
            LexState { fragment: state.fragment + argument, ..state },
        ),
{
    let whole = quoted(argument);
    let body = quoted_body(argument);
    assert forall|i: int| 0 <= i < whole.len() implies line[at + i] == whole[i] by {
        assert(line.subrange(at, at + whole.len())[i] == line[at + i]);
    }
    let opened = LexState { inside_single_quote: true, ..state };
    assert(line[at] == whole[0]);
    assert(lex_step(line, at, state) == (at + 1, opened));
    assert(lex(line, at, state) == lex(line, at + 1, opened));
    assert(line.subrange(at + 1, at + 1 + body.len()) == body) by {
        assert forall|i: int| 0 <= i < body.len() implies line[at + 1 + i] == body[i] by {
            assert(whole[1 + i] == body[i]);
        }
    }
    lemma_lex_quoted_body(line, at + 1, opened, argument);
    let filled = LexState { fragment: state.fragment + argument, ..opened };
    let last = at + 1 + body.len();
    assert(line[last] == whole[last - at]);
    assert(lex_step(line, last, filled) == (
        last + 1,
        LexState { fragment: state.fragment + argument, ..state },
    ));
}

/// From a state outside quotes and between two fields, the tokenizer reads
/// a line that ends in the quoted form of `arguments` as those arguments.
proof fn lemma_lex_quoted_line(
    line: Seq<char>,
    at: int,
    fields: Seq<Seq<char>>,
    arguments: Seq<Seq<char>>,
)
    requires
        0 <= at <= line.len(),
        line.skip(at) == quoted_line(arguments),
        none_empty(arguments),
    ensures
        lex(
            line,
            at,
            LexState {
                fields,
                fragment: Seq::empty(),
                inside_single_quote: false,
                inside_double_quote: false,
            },
        ) == fields + arguments,
    decreases arguments.len(),
{
    let state = LexState {
        fields,
        fragment: Seq::empty(),
        inside_single_quote: false,
        inside_double_quote: false,
    };
    if arguments.len() == 0 {
        assert(line.skip(at).len() == 0);
        assert(fields + arguments == fields);
    } else {
        let first = arguments.first();
        let rest = arguments.drop_first();
        let tail = quoted_line(arguments);
        let end = at + quoted(first).len();
        assert(tail.len() == line.len() - at);
        assert(tail == if arguments.len() == 1 {
            quoted(first)
        } else {
            quoted(first) + seq![' '] + quoted_line(rest)
        });
        assert(end <= line.len());
        assert forall|i: int| 0 <= i < tail.len() implies line[at + i] == tail[i] by {
            assert(line.skip(at)[i] == line[at + i]);
        }
        assert(line.subrange(at, end) == quoted(first)) by {
            assert forall|i: int| 0 <= i < quoted(first).len() implies line[at + i] == quoted(
                first,
            )[i] by {
                assert(tail[i] == quoted(first)[i]);
            }
        }
        lemma_lex_quoted(line, at, state, first);
        assert(Seq::<char>::empty() + first == first);
        let filled = LexState { fragment: first, ..state };
        if arguments.len() == 1 {
            assert(end == line.len());
            assert(fields.push(first) == fields + arguments);
        } else {
            assert(line[end] == tail[end - at]);
            let ended = LexState { fields: fields.push(first), ..state };
            assert(lex_step(line, end, filled) == (end + 1, ended));
            assert(lex(line, end, filled) == lex(line, end + 1, ended));
            assert(line.skip(end + 1) == quoted_line(rest)) by {
                assert forall|i: int| 0 <= i < quoted_line(rest).len() implies line.skip(end + 1)[i]
                    == quoted_line(rest)[i] by {
                    assert(tail[end - at + 1 + i] == quoted_line(rest)[i]);
                }
            }
            assert(none_empty(rest)) by {
                assert forall|i: int| 0 <= i < rest.len() implies (#[trigger] rest[i]).len()
                    > 0 by {
                    assert(rest[i] == arguments[i + 1]);
                }
            }
            lemma_lex_quoted_line(line, end + 1, fields.push(first), rest);
            assert(fields.push(first) + rest == fields + arguments);
        }
    }
}

/// A quoted line that holds an argument begins and ends with a single quote.
proof fn lemma_quoted_line_ends(arguments: Seq<Seq<char>>)
    requires
        arguments.len() > 0,
    ensures
        quoted_line(arguments).len() >= 2,
        quoted_line(arguments).first() == '\'',
        quoted_line(arguments).last() == '\'',
    decreases arguments.len(),
{
    if arguments.len() > 1 {
        lemma_quoted_line_ends(arguments.drop_first());
    }
}

/// Tokenizing the quoted form of a list of arguments gives the list back, as
/// long as no argument is empty.
pub proof fn lemma_quoting_round_trip(arguments: Seq<Seq<char>>)
    requires
        none_empty(arguments),
    ensures
        fields_of(quoted_line(arguments)) == arguments,
{
    let line = quoted_line(arguments);
    if arguments.len() > 0 {
        lemma_quoted_line_ends(arguments);
        assert(!is_whitespace('\''));
        assert(trimmed_start(line) == line);
        lemma_kept_length_of_closed_line(line, 0, LexState::start(), 0);
        assert(line.take(line.len() as int) == line);
    }
    assert(tokenized_part(line) == line);
    assert(line.skip(0) == line);
    lemma_lex_quoted_line(line, 0, Seq::empty(), arguments);
    assert(Seq::<Seq<char>>::empty() + arguments == arguments);
}

/// A list with an empty argument does not come back from its quoted form:
/// the tokenizer keeps no empty field.
pub proof fn lemma_quoting_loses_empty_arguments(arguments: Seq<Seq<char>>)
    requires
        !none_empty(arguments),
    ensures
        fields_of(quoted_line(arguments)) != arguments,
{
    lemma_fields_are_not_empty(quoted_line(arguments));
}

} // verus!
