use minishell::command::{CommandParser, FileDiscriptor};
use minishell::shell::{is_builtin_name, Action, Output, Shell, Sink, BUILTINS};

fn strings(words: &[&str]) -> Vec<String> {
    words.iter().map(|s| s.to_string()).collect()
}

fn run(path: &str, line: &str) -> Action {
    let command = CommandParser::new(line.to_string()).parse_command();
    Shell::new(path.to_string()).execute(command)
}

fn out(text: &str) -> Output {
    Output { stream: FileDiscriptor::Stdout, text: text.to_string() }
}

fn err(text: &str) -> Output {
    Output { stream: FileDiscriptor::Stderr, text: text.to_string() }
}

#[test]
fn builtins_are_the_five() {
    assert_eq!(BUILTINS, ["exit", "echo", "type", "pwd", "cd"]);
    for name in BUILTINS {
        assert!(is_builtin_name(name));
    }
    for name in ["", "ls", "Exit", "cd ", "typ", "exit0", "echo echo"] {
        assert!(!is_builtin_name(name));
    }
}

#[test]
fn type_of_a_builtin() {
    assert_eq!(run("/bin", "type cd"), Action::Write(out("cd is a shell builtin\n")));
    assert_eq!(run("", "type exit"), Action::Write(out("exit is a shell builtin\n")));
}

#[test]
fn type_of_an_unknown_name() {
    let action = run("/bin:/usr/bin", "type nonexistent_xyz");
    assert_eq!(
        action,
        Action::Locate {
            name: "nonexistent_xyz".to_string(),
            candidates: strings(&["/bin/nonexistent_xyz", "/usr/bin/nonexistent_xyz"]),
        }
    );
    assert_eq!(Shell::located("nonexistent_xyz", None), err("nonexistent_xyz: not found\n"));
}

#[test]
fn type_of_a_program() {
    let action = run("/usr/local/bin:/bin", "type ls");
    assert_eq!(
        action,
        Action::Locate {
            name: "ls".to_string(),
            candidates: strings(&["/usr/local/bin/ls", "/bin/ls"]),
        }
    );
    assert_eq!(Shell::located("ls", Some("/bin/ls")), out("ls is /bin/ls\n"));
}

#[test]
fn type_joins_its_arguments() {
    assert_eq!(
        run("/bin", "type a b"),
        Action::Locate { name: "a b".to_string(), candidates: strings(&["/bin/a b"]) }
    );
    assert_eq!(
        run("", "type"),
        Action::Locate { name: String::new(), candidates: strings(&["/"]) }
    );
    assert_eq!(
        run(":/bin:", "type x"),
        Action::Locate { name: "x".to_string(), candidates: strings(&["/x", "/bin/x", "/x"]) }
    );
}

#[test]
fn cd_never_ends_the_process() {
    let action = run("/bin", "cd /nonexistent");
    assert_eq!(
        action,
        Action::ChangeDirectory { home: false, argument: "/nonexistent".to_string() }
    );
    assert_eq!(
        Shell::directory_missing("/nonexistent"),
        err("cd: /nonexistent: No such file or directory\n")
    );
}

#[test]
fn cd_home() {
    assert_eq!(
        run("/bin", "cd ~"),
        Action::ChangeDirectory { home: true, argument: "~".to_string() }
    );
    assert_eq!(
        run("/bin", "cd ~/x"),
        Action::ChangeDirectory { home: false, argument: "~/x".to_string() }
    );
    assert_eq!(run("/bin", "cd"), Action::ChangeDirectory { home: false, argument: String::new() });
    assert_eq!(
        run("/bin", "cd a b"),
        Action::ChangeDirectory { home: false, argument: "a b".to_string() }
    );
    assert_eq!(Shell::directory_missing("~"), err("cd: ~: No such file or directory\n"));
}

#[test]
fn exit_with_a_status() {
    assert_eq!(run("", "exit 0"), Action::Exit(0));
    assert_eq!(run("", "exit 42"), Action::Exit(42));
    assert_eq!(run("", "exit -1"), Action::Exit(-1));
    assert_eq!(run("", "exit +7"), Action::Exit(7));
    assert_eq!(run("", "exit 2147483647"), Action::Exit(i32::MAX));
    assert_eq!(run("", "exit -2147483648"), Action::Exit(i32::MIN));
}

#[test]
fn exit_without_a_status_goes_on() {
    let complaint = Action::Write(err("command expects an integer\n"));
    assert_eq!(run("", "exit"), complaint);
    assert_eq!(run("", "exit abc"), complaint);
    assert_eq!(run("", "exit 1 2"), complaint);
    assert_eq!(run("", "exit 2147483648"), complaint);
    assert_eq!(run("", "exit 1.5"), complaint);
    assert_eq!(run("", "exit -"), complaint);
}

#[test]
fn echo_writes_its_arguments() {
    assert_eq!(run("", "echo hello world"), Action::Write(out("hello world\n")));
    assert_eq!(run("", "echo"), Action::Write(out("\n")));
    assert_eq!(run("", "echo 'a   b'   c"), Action::Write(out("a   b c\n")));
    assert_eq!(run("", "echo hello > out.txt"), Action::Write(out("hello\n")));
}

#[test]
fn pwd_asks_for_the_directory() {
    assert_eq!(run("", "pwd"), Action::WorkingDirectory);
    assert_eq!(run("", "pwd ignored"), Action::WorkingDirectory);
    assert_eq!(Shell::working_directory(Some("/home/user")), out("/home/user\n"));
    assert_eq!(
        Shell::working_directory(None),
        err("could not retreive working directory\n")
    );
}

#[test]
fn other_names_are_programs() {
    assert_eq!(
        run("/usr/bin:/bin", "ls -l 'my dir'"),
        Action::Run {
            name: "ls".to_string(),
            arguments: strings(&["-l", "my dir"]),
            directories: strings(&["/usr/bin", "/bin"]),
        }
    );
    assert_eq!(
        run("", "nonexistent_xyz"),
        Action::Run {
            name: "nonexistent_xyz".to_string(),
            arguments: Vec::new(),
            directories: strings(&[""]),
        }
    );
    assert_eq!(
        run("/bin", "cat a > b"),
        Action::Run {
            name: "cat".to_string(),
            arguments: strings(&["a"]),
            directories: strings(&["/bin"]),
        }
    );
    assert_eq!(
        Shell::command_missing("nonexistent_xyz"),
        err("nonexistent_xyz: command not found\n")
    );
}

#[test]
fn empty_line_does_nothing() {
    assert_eq!(run("/bin", ""), Action::Nothing);
    assert_eq!(run("/bin", "   "), Action::Nothing);
}

#[test]
fn shell_keeps_its_path() {
    let mut shell = Shell::new("/a:/b".to_string());
    let first = shell.execute(CommandParser::new("x".to_string()).parse_command());
    let second = shell.execute(CommandParser::new("x".to_string()).parse_command());
    assert_eq!(first, second);
}

#[test]
fn streams_follow_the_redirection() {
    let command = CommandParser::new("echo hi > out.txt".to_string()).parse_command();
    assert_eq!(
        Shell::sink(command.redirect(), FileDiscriptor::Stdout),
        Sink::File { path: "out.txt".to_string(), append: false }
    );
    assert_eq!(Shell::sink(command.redirect(), FileDiscriptor::Stderr), Sink::Terminal);

    let command = CommandParser::new("make 2>> errors.log".to_string()).parse_command();
    assert_eq!(Shell::sink(command.redirect(), FileDiscriptor::Stdout), Sink::Terminal);
    assert_eq!(
        Shell::sink(command.redirect(), FileDiscriptor::Stderr),
        Sink::File { path: "errors.log".to_string(), append: true }
    );

    let command = CommandParser::new("ls 1>> list".to_string()).parse_command();
    assert_eq!(
        Shell::sink(command.redirect(), FileDiscriptor::Stdout),
        Sink::File { path: "list".to_string(), append: true }
    );

    let command = CommandParser::new("ls 2> list".to_string()).parse_command();
    assert_eq!(
        Shell::sink(command.redirect(), FileDiscriptor::Stderr),
        Sink::File { path: "list".to_string(), append: false }
    );

    let command = CommandParser::new("ls".to_string()).parse_command();
    assert_eq!(Shell::sink(command.redirect(), FileDiscriptor::Stdout), Sink::Terminal);
    assert_eq!(Shell::sink(command.redirect(), FileDiscriptor::Stderr), Sink::Terminal);
}

#[test]
fn failures_are_written_and_the_shell_goes_on() {
    assert_eq!(
        Shell::redirect_failed("/nonexistent_dir/f"),
        err("/nonexistent_dir/f: Unable to open file\n")
    );
    assert_eq!(Shell::redirect_failed(""), err(": Unable to open file\n"));
    assert_eq!(Shell::spawn_failed("broken"), err("broken: Unable to run command\n"));

    let action = run("/bin", "echo hi > /nonexistent_dir/f");
    assert_eq!(action, Action::Write(out("hi\n")));
    let command = CommandParser::new("echo hi > /nonexistent_dir/f".to_string()).parse_command();
    assert_eq!(
        Shell::sink(command.redirect(), FileDiscriptor::Stdout),
        Sink::File { path: "/nonexistent_dir/f".to_string(), append: false }
    );
}
