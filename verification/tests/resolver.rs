use minishell::command::{CommandType, ExecEntry, ExecutableIndex};
use minishell::state::State;
use minishell::text::parse_i32;

fn empty_index() -> ExecutableIndex {
    ExecutableIndex::new(Vec::new())
}

fn index_of(entries: &[(&str, &str)]) -> ExecutableIndex {
    let mut v = Vec::new();
    for (name, path) in entries {
        v.push(ExecEntry { name: name.to_string(), path: path.to_string() });
    }
    ExecutableIndex::new(v)
}

fn words(ws: &[&str]) -> Vec<String> {
    ws.iter().map(|w| w.to_string()).collect()
}

#[test]
fn parse_echo_joins_arguments() {
    let state = State::new("/".to_string());
    let cmd = CommandType::parse(words(&["echo", "a", "b"]), &state, "/home/u", &empty_index());
    match cmd {
        CommandType::Echo(t) => assert_eq!(t, "a b"),
        _ => panic!("expected an echo command"),
    }
}

#[test]
fn parse_exit_defaults_to_zero() {
    let state = State::new("/".to_string());
    let cmd = CommandType::parse(words(&["exit"]), &state, "/home/u", &empty_index());
    match cmd {
        CommandType::Exit(code) => assert_eq!(code, 0),
        _ => panic!("expected an exit command"),
    }
    let cmd = CommandType::parse(words(&["exit", "42"]), &state, "/home/u", &empty_index());
    match cmd {
        CommandType::Exit(code) => assert_eq!(code, 42),
        _ => panic!("expected an exit command"),
    }
}

#[test]
fn parse_type_defaults_to_itself() {
    let state = State::new("/".to_string());
    let cmd = CommandType::parse(words(&["type"]), &state, "/home/u", &empty_index());
    match cmd {
        CommandType::Type(t) => assert_eq!(t, "type"),
        _ => panic!("expected a type command"),
    }
    let cmd = CommandType::parse(words(&["type", "echo"]), &state, "/home/u", &empty_index());
    match cmd {
        CommandType::Type(t) => assert_eq!(t, "echo"),
        _ => panic!("expected a type command"),
    }
}

#[test]
fn parse_pwd_reads_the_session() {
    let state = State::new("/a/b".to_string());
    let cmd = CommandType::parse(words(&["pwd"]), &state, "/home/u", &empty_index());
    match cmd {
        CommandType::Pwd(p) => assert_eq!(p, "/a/b"),
        _ => panic!("expected a pwd command"),
    }
}

#[test]
fn cd_normalization() {
    let state = State::new("/a/b".to_string());
    let home = "/home/u";
    let cases: &[(&[&str], &str)] = &[
        (&["cd", ".."], "/a"),
        (&["cd", "../.."], "/"),
        (&["cd", "../../.."], "/"),
        (&["cd", "."], "/a/b"),
        (&["cd", "/x/./y"], "/x/y"),
        (&["cd", "c"], "/a/b/c"),
        (&["cd", "c/../d"], "/a/b/d"),
        (&["cd", "/"], "/"),
        (&["cd", "~"], "/home/u"),
        (&["cd", "~/x"], "/home/u/x"),
        // after a tilde the second character is skipped with it
        (&["cd", "~xy"], "/home/u/y"),
        (&["cd"], "/home/u"),
        // several arguments join into one path
        (&["cd", "x", "y"], "/a/b/x y"),
    ];
    for (input, expected) in cases {
        let cmd = CommandType::parse(words(input), &state, home, &empty_index());
        match cmd {
            CommandType::Cd(p) => assert_eq!(&p, expected, "input {:?}", input),
            _ => panic!("expected a cd command"),
        }
    }
}

#[test]
fn parse_external_keeps_arguments() {
    let state = State::new("/".to_string());
    let index = index_of(&[("ls", "/bin/ls")]);
    let cmd = CommandType::parse(words(&["ls", "-l", "x"]), &state, "/home/u", &index);
    match cmd {
        CommandType::External { command, args } => {
            assert_eq!(command, "ls");
            assert_eq!(args, vec!["-l".to_string(), "x".to_string()]);
        }
        _ => panic!("expected an external command"),
    }
}

#[test]
fn parse_unknown_keeps_name() {
    let state = State::new("/".to_string());
    let cmd = CommandType::parse(words(&["foobarbaz"]), &state, "/home/u", &empty_index());
    match cmd {
        CommandType::Unknown(name) => assert_eq!(name, "foobarbaz"),
        _ => panic!("expected an unknown command"),
    }
}

#[test]
fn find_ext_command_first_match_wins() {
    let index = index_of(&[("x", "/a/x"), ("y", "/a/y"), ("x", "/b/x")]);
    let found = CommandType::find_ext_command("x", &index).expect("x should be found");
    assert_eq!(found.path, "/a/x");
    assert!(CommandType::find_ext_command("z", &index).is_none());
}

#[test]
fn parse_i32_accepts_signed_decimals() {
    assert_eq!(parse_i32("42"), Some(42));
    assert_eq!(parse_i32("+7"), Some(7));
    assert_eq!(parse_i32("-13"), Some(-13));
    assert_eq!(parse_i32("0"), Some(0));
    assert_eq!(parse_i32("007"), Some(7));
    assert_eq!(parse_i32("2147483647"), Some(i32::MAX));
    assert_eq!(parse_i32("-2147483648"), Some(i32::MIN));
}

#[test]
fn parse_i32_rejects_malformed_and_out_of_range() {
    assert_eq!(parse_i32(""), None);
    assert_eq!(parse_i32("+"), None);
    assert_eq!(parse_i32("-"), None);
    assert_eq!(parse_i32("1x"), None);
    assert_eq!(parse_i32("x1"), None);
    assert_eq!(parse_i32("2147483648"), None);
    assert_eq!(parse_i32("-2147483649"), None);
    assert_eq!(parse_i32("99999999999999999999"), None);
}
