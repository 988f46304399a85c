use minishell::command::{
    split_fields, Command, CommandParser, CommandType, FileDiscriptor, ParserCommandError,
    Redirect, RedirectType,
};
use minishell::quote::quote_arguments;
use std::str::FromStr;

fn parse(line: &str) -> Command {
    CommandParser::new(line.to_string()).parse_command()
}

fn args(command: &Command) -> Vec<&str> {
    command.arguments().iter().map(|s| s.as_str()).collect()
}

fn redirect_of(command: &Command) -> Option<(FileDiscriptor, RedirectType, String)> {
    command
        .redirect()
        .as_ref()
        .map(|r| (*r.file_descriptor(), *r.redirect_type(), r.file().clone()))
}

fn strings(words: &[&str]) -> Vec<String> {
    words.iter().map(|s| s.to_string()).collect()
}

#[test]
fn single_quotes_keep_spaces() {
    let command = parse("echo 'hello   world'");
    assert_eq!(*command.name(), CommandType::Echo);
    assert_eq!(args(&command), vec!["hello   world"]);
    assert_eq!(redirect_of(&command), None);
}

#[test]
fn double_quotes_take_escaped_quotes() {
    let command = parse("echo \"it's \\\"quoted\\\"\"");
    assert_eq!(*command.name(), CommandType::Echo);
    assert_eq!(args(&command), vec!["it's \"quoted\""]);
}

#[test]
fn trailing_redirect_is_taken_out() {
    let command = parse("echo hello > out.txt");
    assert_eq!(*command.name(), CommandType::Echo);
    assert_eq!(args(&command), vec!["hello"]);
    assert_eq!(
        redirect_of(&command),
        Some((FileDiscriptor::Stdout, RedirectType::Truncate, "out.txt".to_string()))
    );
}

#[test]
fn only_the_last_operator_redirects() {
    let command = parse("ls a > b > c");
    assert_eq!(*command.name(), CommandType::External("ls".to_string()));
    assert_eq!(args(&command), vec!["a", ">", "b"]);
    assert_eq!(
        redirect_of(&command),
        Some((FileDiscriptor::Stdout, RedirectType::Truncate, "c".to_string()))
    );
}

#[test]
fn every_operator_is_read() {
    let cases = [
        (">", FileDiscriptor::Stdout, RedirectType::Truncate),
        ("1>", FileDiscriptor::Stdout, RedirectType::Truncate),
        (">>", FileDiscriptor::Stdout, RedirectType::Append),
        ("1>>", FileDiscriptor::Stdout, RedirectType::Append),
        ("2>", FileDiscriptor::Stderr, RedirectType::Truncate),
        ("2>>", FileDiscriptor::Stderr, RedirectType::Append),
    ];
    for (operator, descriptor, mode) in cases {
        let command = parse(&format!("cat file {} log", operator));
        assert_eq!(args(&command), vec!["file"]);
        assert_eq!(redirect_of(&command), Some((descriptor, mode, "log".to_string())));
        let parsed = Redirect::from_str(operator).unwrap();
        assert_eq!(*parsed.file_descriptor(), descriptor);
        assert_eq!(*parsed.redirect_type(), mode);
        assert_eq!(parsed.file(), "");
    }
}

#[test]
fn operators_and_names_parse_from_strings() {
    let redirect: Redirect = "1>>".parse().unwrap();
    assert_eq!(*redirect.file_descriptor(), FileDiscriptor::Stdout);
    assert_eq!(*redirect.redirect_type(), RedirectType::Append);
    assert_eq!("|".parse::<Redirect>(), Err(ParserCommandError::ParseRedirectFailed));
    assert_eq!("pwd".parse::<CommandType>(), Ok(CommandType::Pwd));
    assert_eq!("make".parse::<CommandType>(), Ok(CommandType::External("make".to_string())));
}

#[test]
fn other_texts_are_no_operators() {
    for text in ["", ">>>", "3>", " >", "> ", "2", "<", "1>>>", "&>", "2>1"] {
        assert_eq!(Redirect::from_str(text), Err(ParserCommandError::ParseRedirectFailed));
    }
}

#[test]
fn operator_needs_a_target() {
    let command = parse("echo >");
    assert_eq!(args(&command), vec![">"]);
    assert_eq!(redirect_of(&command), None);

    let command = parse("echo > file");
    assert_eq!(args(&command), Vec::<&str>::new());
    assert_eq!(
        redirect_of(&command),
        Some((FileDiscriptor::Stdout, RedirectType::Truncate, "file".to_string()))
    );

    let command = parse("> file");
    assert_eq!(*command.name(), CommandType::External(">".to_string()));
    assert_eq!(args(&command), vec!["file"]);
    assert_eq!(redirect_of(&command), None);
}

#[test]
fn operator_elsewhere_is_an_argument() {
    let command = parse("echo > a b");
    assert_eq!(args(&command), vec![">", "a", "b"]);
    assert_eq!(redirect_of(&command), None);

    let command = parse("echo a b 2>");
    assert_eq!(args(&command), vec!["a", "b", "2>"]);
    assert_eq!(redirect_of(&command), None);
}

#[test]
fn quoted_operator_still_redirects() {
    let command = parse("echo hi '>>' log");
    assert_eq!(args(&command), vec!["hi"]);
    assert_eq!(
        redirect_of(&command),
        Some((FileDiscriptor::Stdout, RedirectType::Append, "log".to_string()))
    );
}

#[test]
fn empty_lines_are_the_empty_command() {
    for line in ["", " ", "     ", "\t", " \t\n ", "\u{a0}\u{3000}", "''", "\"\"", " '' \"\" "] {
        let command = parse(line);
        assert_eq!(*command.name(), CommandType::Nothing, "{:?}", line);
        assert_eq!(args(&command), Vec::<&str>::new());
        assert_eq!(redirect_of(&command), None);
    }
}

#[test]
fn command_names_are_classified() {
    assert_eq!(*parse("exit 0").name(), CommandType::Exit);
    assert_eq!(*parse("echo").name(), CommandType::Echo);
    assert_eq!(*parse("type ls").name(), CommandType::Type);
    assert_eq!(*parse("pwd").name(), CommandType::Pwd);
    assert_eq!(*parse("cd /").name(), CommandType::Cd);
    assert_eq!(*parse("ls -l").name(), CommandType::External("ls".to_string()));
    assert_eq!(*parse("Echo").name(), CommandType::External("Echo".to_string()));
    assert_eq!(*parse("'ec'ho hi").name(), CommandType::Echo);
    assert_eq!(CommandType::from_str("cd"), Ok(CommandType::Cd));
    assert_eq!(CommandType::from_str(""), Ok(CommandType::External(String::new())));
    assert_eq!(CommandType::from_str("cd "), Ok(CommandType::External("cd ".to_string())));
}

#[test]
fn backslash_outside_quotes_takes_the_next_character() {
    assert_eq!(split_fields("echo a\\ b"), strings(&["echo", "a b"]));
    assert_eq!(split_fields("echo \\'x\\'"), strings(&["echo", "'x'"]));
    assert_eq!(split_fields("echo \\\\"), strings(&["echo", "\\"]));
    assert_eq!(split_fields("echo \\n"), strings(&["echo", "n"]));
    assert_eq!(split_fields("a\\\"b"), strings(&["a\"b"]));
    assert_eq!(split_fields("\\ "), strings(&[" "]));
    assert_eq!(split_fields("x \\  y"), strings(&["x", " ", "y"]));
}

#[test]
fn escaped_space_at_the_end_of_the_line_stays() {
    let command = parse("echo a\\ ");
    assert_eq!(*command.name(), CommandType::Echo);
    assert_eq!(args(&command), vec!["a "]);
    assert_eq!(split_fields("echo a\\  "), strings(&["echo", "a "]));
    assert_eq!(split_fields("echo a\\ \t\n"), strings(&["echo", "a "]));
    assert_eq!(split_fields("echo a\\\t"), strings(&["echo", "a\t"]));
    assert_eq!(split_fields("echo a\\\u{a0}"), strings(&["echo", "a\u{a0}"]));
    assert_eq!(split_fields("echo \\ \\ "), strings(&["echo", "  "]));
    assert_eq!(split_fields("  \\ a"), strings(&[" a"]));
}

#[test]
fn quoted_space_at_the_end_of_the_line_stays() {
    assert_eq!(split_fields("echo 'a "), strings(&["echo", "a "]));
    assert_eq!(split_fields("echo \"a  "), strings(&["echo", "a  "]));
    assert_eq!(split_fields("echo 'a\t\n"), strings(&["echo", "a\t\n"]));
    assert_eq!(split_fields("echo 'a ' "), strings(&["echo", "a "]));
    assert_eq!(split_fields("echo 'a '\t"), strings(&["echo", "a "]));
    assert_eq!(split_fields("echo ' "), strings(&["echo", " "]));
    assert_eq!(split_fields("' "), strings(&[" "]));
    assert_eq!(split_fields("echo \"a\\ "), strings(&["echo", "a\\ "]));
}

#[test]
fn plain_white_space_at_the_ends_is_taken_off() {
    assert_eq!(split_fields("echo a \t"), strings(&["echo", "a"]));
    assert_eq!(split_fields("echo a\t"), strings(&["echo", "a"]));
    assert_eq!(split_fields("echo a\t \n "), strings(&["echo", "a"]));
    assert_eq!(split_fields("\t echo a"), strings(&["echo", "a"]));
    assert_eq!(split_fields("echo a \t b \t"), strings(&["echo", "a", "\t", "b"]));
    assert_eq!(split_fields("echo 'a' \u{3000}"), strings(&["echo", "a"]));
    assert_eq!(split_fields("echo a\\\\ "), strings(&["echo", "a\\"]));
}

#[test]
fn backslash_inside_double_quotes() {
    assert_eq!(split_fields("\"a\\\\b\""), strings(&["a\\b"]));
    assert_eq!(split_fields("\"a\\$b\""), strings(&["a$b"]));
    assert_eq!(split_fields("\"a\\\"b\""), strings(&["a\"b"]));
    assert_eq!(split_fields("\"a\\nb\""), strings(&["a\\nb"]));
    assert_eq!(split_fields("\"a\\ b\""), strings(&["a\\ b"]));
    assert_eq!(split_fields("\"a\\'b\""), strings(&["a\\'b"]));
}

#[test]
fn backslash_inside_single_quotes_stands_for_itself() {
    assert_eq!(split_fields("'a\\nb'"), strings(&["a\\nb"]));
    assert_eq!(split_fields("'a\\'"), strings(&["a\\"]));
    assert_eq!(split_fields("'a\\\\b'"), strings(&["a\\\\b"]));
    assert_eq!(split_fields("'\"x\"'"), strings(&["\"x\""]));
}

#[test]
fn open_quotes_end_with_the_line() {
    assert_eq!(split_fields("echo 'abc"), strings(&["echo", "abc"]));
    assert_eq!(split_fields("echo \"abc def"), strings(&["echo", "abc def"]));
    assert_eq!(split_fields("echo 'a b' 'c d"), strings(&["echo", "a b", "c d"]));
    assert_eq!(split_fields("echo '"), strings(&["echo"]));
}

#[test]
fn backslash_at_the_end_of_the_line() {
    assert_eq!(split_fields("echo abc\\"), strings(&["echo", "abc"]));
    assert_eq!(split_fields("echo \\"), strings(&["echo"]));
    assert_eq!(split_fields("echo \"abc\\"), strings(&["echo", "abc\\"]));
    assert_eq!(split_fields("\\"), Vec::<String>::new());
}

#[test]
fn quotes_join_into_one_field() {
    assert_eq!(split_fields("echo 'a'\"b\"c"), strings(&["echo", "abc"]));
    assert_eq!(split_fields("echo '' a"), strings(&["echo", "a"]));
    assert_eq!(split_fields("echo a''b"), strings(&["echo", "ab"]));
    assert_eq!(split_fields("echo \"it's\""), strings(&["echo", "it's"]));
    assert_eq!(split_fields("echo 'say \"hi\"'"), strings(&["echo", "say \"hi\""]));
}

#[test]
fn spaces_separate_and_other_white_space_does_not() {
    assert_eq!(split_fields("echo   a    b"), strings(&["echo", "a", "b"]));
    assert_eq!(split_fields("echo a\tb"), strings(&["echo", "a\tb"]));
    assert_eq!(split_fields("echo a\nb"), strings(&["echo", "a\nb"]));
    assert_eq!(split_fields("  echo hi  "), strings(&["echo", "hi"]));
    assert_eq!(split_fields("\t\necho hi\r\n"), strings(&["echo", "hi"]));
    assert_eq!(split_fields("\u{a0}echo hi\u{3000}"), strings(&["echo", "hi"]));
    assert_eq!(split_fields("\u{200b}echo"), strings(&["\u{200b}echo"]));
}

#[test]
fn parser_leaves_its_line_alone() {
    let mut parser = CommandParser::new("echo a b".to_string());
    let first = parser.parse_command();
    let second = parser.parse_command();
    assert_eq!(first, second);
    assert_eq!(args(&first), vec!["a", "b"]);
}

#[test]
fn getters_and_setter() {
    let mut redirect = Redirect::from_str("2>>").unwrap();
    assert_eq!(*redirect.file_descriptor(), FileDiscriptor::Stderr);
    assert_eq!(*redirect.redirect_type(), RedirectType::Append);
    assert_eq!(redirect.file(), "");
    redirect.set_file("errors.log".to_string());
    assert_eq!(redirect.file(), "errors.log");
    assert_eq!(*redirect.file_descriptor(), FileDiscriptor::Stderr);
    assert_eq!(*redirect.redirect_type(), RedirectType::Append);
}

#[test]
fn error_messages() {
    assert_eq!(ParserCommandError::EmptyInput.message(), "Input was empty");
    assert_eq!(ParserCommandError::ParseRedirectFailed.message(), "Parsing redirct failed");
}

#[test]
fn quoting_wraps_in_single_quotes() {
    assert_eq!(quote_arguments(&strings(&[])), "");
    assert_eq!(quote_arguments(&strings(&["echo"])), "'echo'");
    assert_eq!(quote_arguments(&strings(&["echo", "a b"])), "'echo' 'a b'");
    assert_eq!(quote_arguments(&strings(&["it's"])), "'it'\\''s'");
    assert_eq!(quote_arguments(&strings(&["'"])), "''\\'''");
    assert_eq!(quote_arguments(&strings(&["", "x"])), "'' 'x'");
}

#[test]
fn quoted_arguments_come_back() {
    let lists: Vec<Vec<String>> = vec![
        strings(&[]),
        strings(&["echo"]),
        strings(&["echo", "hello   world"]),
        strings(&["echo", "it's", "\"quoted\"", "a\\b", "$HOME", "'", "''", "\\'"]),
        strings(&["x", " ", "  leading", "trailing  ", "\t", "a\nb"]),
        strings(&["日本語", "héllo wörld", "\u{a0}", "\\", "\\\\", "\"", "a'b'c"]),
        strings(&["grep", "-e", "'$x'", "file name.txt"]),
    ];
    for list in lists {
        let line = quote_arguments(&list);
        assert_eq!(split_fields(&line), list, "{:?}", line);
    }
}

#[test]
fn quoted_arguments_parse_as_command_and_arguments() {
    let list = strings(&["printf", "it's %s", "a > b", "x"]);
    let command = parse(&quote_arguments(&list));
    assert_eq!(*command.name(), CommandType::External("printf".to_string()));
    assert_eq!(args(&command), vec!["it's %s", "a > b", "x"]);
    assert_eq!(redirect_of(&command), None);
}

#[test]
fn empty_argument_is_lost_by_quoting() {
    let list = strings(&["echo", "", "x"]);
    assert_eq!(split_fields(&quote_arguments(&list)), strings(&["echo", "x"]));
}
