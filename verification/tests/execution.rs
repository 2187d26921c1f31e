use minishell::command::{builtin_names, Command, CommandType, ExecEntry, ExecutableIndex, Outcome};
use minishell::operators::{line_supported, Operators, OutputType, RedirectType};
use minishell::parser::WordParser;
use minishell::state::State;

fn empty_index() -> ExecutableIndex {
    ExecutableIndex::new(Vec::new())
}

fn index_of(entries: &[(&str, &str)]) -> ExecutableIndex {
    let mut v = Vec::new();
    for (name, path) in entries {
        v.push(ExecEntry { name: name.to_string(), path: path.to_string() });
    }
    ExecutableIndex::new(v)
}

fn run_line(line: &str, state: &mut State, home: &str, index: &ExecutableIndex) -> Vec<
    minishell::operators::FileWrite,
> {
    let words = WordParser::split(line);
    assert!(line_supported(&words, home), "line {:?} should be supported", line);
    let mut ops = Operators::create_queue(words, state, home, index);
    let mut writes = Vec::new();
    for op in ops.iter_mut() {
        if let Some(w) = op.exec(state, index, &Outcome::Ready) {
            writes.push(w);
        }
    }
    writes
}

#[test]
fn redirection_truncate_and_append() {
    let home = "/home/u";
    let index = empty_index();
    let mut state = State::new("/".to_string());
    let writes = run_line("echo hi > out.txt", &mut state, home, &index);
    assert_eq!(writes.len(), 1);
    assert_eq!(writes[0].path, "out.txt");
    assert!(!writes[0].append);
    assert_eq!(writes[0].content, "hi\n");
    assert_eq!(state.flush_stdout(), "");
    assert_eq!(state.flush_stderr(), "");

    let writes = run_line("echo hi >> out.txt", &mut state, home, &index);
    assert_eq!(writes.len(), 1);
    assert_eq!(writes[0].path, "out.txt");
    assert!(writes[0].append);
    assert_eq!(writes[0].content, "hi\n");
}

#[test]
fn redirection_of_the_error_stream() {
    let home = "/home/u";
    let index = empty_index();
    let mut state = State::new("/".to_string());
    let writes = run_line("foobarbaz 2> err.txt", &mut state, home, &index);
    assert_eq!(writes.len(), 1);
    assert_eq!(writes[0].path, "err.txt");
    assert_eq!(writes[0].content, "foobarbaz: command not found\n");
    assert_eq!(state.flush_stderr(), "");
    assert_eq!(state.flush_stdout(), "");
}

#[test]
fn redirected_command_forwards_the_other_stream() {
    let home = "/home/u";
    let index = empty_index();
    let mut state = State::new("/".to_string());
    let writes = run_line("foobarbaz > out.txt", &mut state, home, &index);
    assert_eq!(writes.len(), 1);
    assert_eq!(writes[0].content, "");
    assert_eq!(state.flush_stderr(), "foobarbaz: command not found\n");
}

#[test]
fn input_redirection_fails_visibly() {
    let home = "/home/u";
    let index = empty_index();
    let mut state = State::new("/".to_string());
    let writes = run_line("cat < in.txt", &mut state, home, &index);
    assert_eq!(writes.len(), 0);
    assert_eq!(state.flush_stderr(), "in.txt: input redirection is not supported\n");
    assert_eq!(state.flush_stdout(), "");
}

#[test]
fn plain_command_forwards_both_streams() {
    let home = "/home/u";
    let index = empty_index();
    let mut state = State::new("/".to_string());
    let writes = run_line("echo hello world", &mut state, home, &index);
    assert_eq!(writes.len(), 0);
    assert_eq!(state.flush_stdout(), "hello world\n");
    assert_eq!(state.flush_stderr(), "");
}

#[test]
fn two_segments_execute_in_order() {
    let home = "/home/u";
    let index = empty_index();
    let mut state = State::new("/".to_string());
    let writes = run_line("echo a > f1 echo b", &mut state, home, &index);
    assert_eq!(writes.len(), 1);
    assert_eq!(writes[0].path, "f1");
    assert_eq!(writes[0].content, "a\n");
    assert_eq!(state.flush_stdout(), "b\n");
}

#[test]
fn empty_line_runs_nothing() {
    let home = "/home/u";
    let index = empty_index();
    let mut state = State::new("/".to_string());
    let writes = run_line("", &mut state, home, &index);
    assert_eq!(writes.len(), 0);
    assert_eq!(state.flush_stdout(), "");
    assert_eq!(state.flush_stderr(), "");
}

#[test]
fn unsupported_lines_are_refused() {
    let home = "/home/u";
    // an operator with no command before it
    assert!(!line_supported(&WordParser::split("> x"), home));
    // an operator with no path after it
    assert!(!line_supported(&WordParser::split("echo >"), home));
    // a stream number the interpreter does not have
    assert!(!line_supported(&WordParser::split("echo hi 3> x"), home));
    // a non-numeric exit argument
    assert!(!line_supported(&WordParser::split("exit x"), home));
    // a cd that resolves to an empty path with an empty home
    assert!(!line_supported(&WordParser::split("cd"), ""));
    // ordinary lines pass
    assert!(line_supported(&WordParser::split("echo hi 2> x"), home));
    assert!(line_supported(&WordParser::split("exit 3"), home));
}

#[test]
fn from_str_reads_operators() {
    assert_eq!(RedirectType::from_str(">"), Ok(RedirectType::Output(OutputType::StdOut)));
    assert_eq!(RedirectType::from_str(">>"), Ok(RedirectType::Append(OutputType::StdOut)));
    assert_eq!(RedirectType::from_str("1>"), Ok(RedirectType::Output(OutputType::StdOut)));
    assert_eq!(RedirectType::from_str("2>"), Ok(RedirectType::Output(OutputType::StdErr)));
    assert_eq!(RedirectType::from_str("2>>"), Ok(RedirectType::Append(OutputType::StdErr)));
    assert_eq!(RedirectType::from_str("<"), Ok(RedirectType::Input));
    assert!(RedirectType::from_str("abc").is_err());
    assert!(RedirectType::from_str("").is_err());
    assert!(RedirectType::from_str("12").is_err());
    // a digit prefix too large for a stream count falls back to stdout
    assert_eq!(
        RedirectType::from_str("99999999999>"),
        Ok(RedirectType::Output(OutputType::StdOut))
    );
}

#[test]
fn cd_replaces_the_working_directory_only_on_success() {
    let index = empty_index();
    let mut state = State::new("/a/b".to_string());
    let mut cmd = Command::new(CommandType::Cd("/a".to_string()));
    cmd.exec(&mut state, &index, &Outcome::PathExists(true));
    assert_eq!(state.pwd(), "/a");
    assert!(cmd.output().is_none());
    assert!(cmd.error().is_none());

    let mut state = State::new("/a/b".to_string());
    let mut cmd = Command::new(CommandType::Cd("/nonexistent".to_string()));
    cmd.exec(&mut state, &index, &Outcome::PathExists(false));
    assert_eq!(state.pwd(), "/a/b");
    assert_eq!(
        cmd.error().expect("an error line"),
        "cd: /nonexistent: No such file or directory\n"
    );

    let mut state = State::new("/a/b".to_string());
    let mut cmd = Command::new(CommandType::Cd("/denied".to_string()));
    cmd.exec(&mut state, &index, &Outcome::PathCheckFailed("permission denied".to_string()));
    assert_eq!(state.pwd(), "/a/b");
    assert_eq!(cmd.error().expect("an error line"), "permission denied\n");
}

#[test]
fn type_prefers_builtins() {
    // the name is a builtin and also on the search path: the builtin wins
    let index = index_of(&[("echo", "/bin/echo")]);
    let mut state = State::new("/".to_string());
    let mut cmd = Command::new(CommandType::Type("echo".to_string()));
    cmd.exec(&mut state, &index, &Outcome::Ready);
    assert_eq!(cmd.output().expect("an output line"), "echo is a shell builtin\n");
    assert!(cmd.error().is_none());
}

#[test]
fn type_reports_externals_and_misses() {
    let index = index_of(&[("ls", "/bin/ls")]);
    let mut state = State::new("/".to_string());
    let mut cmd = Command::new(CommandType::Type("ls".to_string()));
    cmd.exec(&mut state, &index, &Outcome::Ready);
    assert_eq!(cmd.output().expect("an output line"), "ls is /bin/ls\n");

    let mut cmd = Command::new(CommandType::Type("zzz".to_string()));
    cmd.exec(&mut state, &index, &Outcome::Ready);
    assert!(cmd.output().is_none());
    assert_eq!(cmd.error().expect("an error line"), "zzz: not found\n");
}

#[test]
fn type_trims_only_for_the_membership_check() {
    let index = empty_index();
    let mut state = State::new("/".to_string());
    let mut cmd = Command::new(CommandType::Type(" echo".to_string()));
    cmd.exec(&mut state, &index, &Outcome::Ready);
    assert_eq!(cmd.output().expect("an output line"), " echo is a shell builtin\n");
}

#[test]
fn unknown_command_one_error_line() {
    let index = empty_index();
    let mut state = State::new("/a/b".to_string());
    let mut cmd = Command::new(CommandType::Unknown("foobarbaz".to_string()));
    cmd.exec(&mut state, &index, &Outcome::Ready);
    assert!(cmd.output().is_none());
    let error = cmd.error().expect("an error line").clone();
    assert_eq!(error, "foobarbaz: command not found\n");
    assert_eq!(error.matches('\n').count(), 1);
    assert_eq!(state.pwd(), "/a/b");
}

#[test]
fn unknown_command_trims_trailing_whitespace() {
    let index = empty_index();
    let mut state = State::new("/".to_string());
    let mut cmd = Command::new(CommandType::Unknown("qqq  ".to_string()));
    cmd.exec(&mut state, &index, &Outcome::Ready);
    assert_eq!(cmd.error().expect("an error line"), "qqq: command not found\n");
}

#[test]
fn external_command_captures_both_streams() {
    let index = empty_index();
    let mut state = State::new("/".to_string());
    let mut cmd = Command::new(CommandType::External {
        command: "prog".to_string(),
        args: vec!["x".to_string()],
    });
    cmd.exec(
        &mut state,
        &index,
        &Outcome::Captured { stdout: "out text".to_string(), stderr: "err text".to_string() },
    );
    assert_eq!(cmd.output().expect("captured output"), "out text");
    assert_eq!(cmd.error().expect("captured error"), "err text");
}

#[test]
fn spawn_failure_is_a_recoverable_error() {
    let index = empty_index();
    let mut state = State::new("/".to_string());
    let mut cmd = Command::new(CommandType::External { command: "prog".to_string(), args: vec![] });
    cmd.exec(&mut state, &index, &Outcome::SpawnFailed("prog: no such file".to_string()));
    assert!(cmd.output().is_none());
    assert_eq!(cmd.error().expect("an error line"), "prog: no such file\n");
    assert_eq!(state.pwd(), "/");
}

#[test]
fn echo_appends_newline() {
    let index = empty_index();
    let mut state = State::new("/".to_string());
    let mut cmd = Command::new(CommandType::Echo("hi".to_string()));
    cmd.exec(&mut state, &index, &Outcome::Ready);
    assert_eq!(cmd.output().expect("an output line"), "hi\n");
}

#[test]
fn session_buffers_accumulate_and_flush() {
    let mut state = State::new("/".to_string());
    state.write_stdout("a");
    state.write_stdout("b");
    state.write_stderr("x");
    assert_eq!(state.flush_stdout(), "ab");
    assert_eq!(state.flush_stdout(), "");
    assert_eq!(state.flush_stderr(), "x");
    assert_eq!(state.flush_stderr(), "");
    state.set_pwd("/tmp");
    assert_eq!(state.pwd(), "/tmp");
}

#[test]
fn builtin_name_set() {
    assert_eq!(builtin_names(), vec![
        "exit".to_string(),
        "echo".to_string(),
        "type".to_string(),
        "pwd".to_string(),
        "cd".to_string()
    ]);
}
