use minishell::args::ArgType;
use minishell::parser::WordParser;

#[test]
fn tokenizer_round_trip() {
    let words = WordParser::split("echo 'hello  world'");
    assert_eq!(words, vec!["echo".to_string(), "hello  world".to_string()]);
}

#[test]
fn escape_collapsing() {
    let words = WordParser::split("echo \"it\\\"s\"");
    assert_eq!(words, vec!["echo".to_string(), "it\"s".to_string()]);
}

#[test]
fn fragment_concatenation() {
    let words = WordParser::split("echo a'b'c");
    assert_eq!(words, vec!["echo".to_string(), "abc".to_string()]);
}

#[test]
fn requote_round_trip_concrete() {
    let words = vec!["hello  world".to_string(), "a b".to_string(), String::new()];
    let line = WordParser::quote_join(&words);
    assert_eq!(line, "'hello  world' 'a b' ''");
    assert_eq!(WordParser::split(&line), words);
}

#[test]
fn requote_round_trip_empty() {
    let words: Vec<String> = Vec::new();
    let line = WordParser::quote_join(&words);
    assert_eq!(line, "");
    assert_eq!(WordParser::split(&line), words);
}

#[test]
fn empty_input_gives_no_words() {
    assert_eq!(WordParser::split(""), Vec::<String>::new());
    assert_eq!(WordParser::split("   "), Vec::<String>::new());
}

#[test]
fn unterminated_single_quote_drops_fragment() {
    assert_eq!(WordParser::split("echo 'abc"), vec!["echo".to_string()]);
    assert_eq!(WordParser::split("'abc"), Vec::<String>::new());
}

#[test]
fn unterminated_quote_keeps_committed_fragments() {
    assert_eq!(WordParser::split("a'bc"), vec!["a".to_string()]);
}

#[test]
fn trailing_backslash_is_dropped() {
    assert_eq!(WordParser::split("ab\\"), vec!["ab".to_string()]);
}

#[test]
fn backslash_escapes_space() {
    assert_eq!(WordParser::split("a\\ b"), vec!["a b".to_string()]);
}

#[test]
fn backslash_escapes_quote_and_backslash() {
    assert_eq!(WordParser::split("a\\'b"), vec!["a'b".to_string()]);
    assert_eq!(WordParser::split("a\\\\b"), vec!["a\\b".to_string()]);
}

#[test]
fn double_quote_escapes_dollar_backslash_quote() {
    assert_eq!(WordParser::split("\"a\\$b\""), vec!["a$b".to_string()]);
    assert_eq!(WordParser::split("\"a\\\\b\""), vec!["a\\b".to_string()]);
}

#[test]
fn double_quote_keeps_other_backslashes() {
    assert_eq!(WordParser::split("\"a\\xb\""), vec!["a\\xb".to_string()]);
}

#[test]
fn double_quote_preserves_spaces() {
    assert_eq!(
        WordParser::split("\"a  b\" c"),
        vec!["a  b".to_string(), "c".to_string()]
    );
}

#[test]
fn empty_quotes_make_empty_word() {
    assert_eq!(WordParser::split("''"), vec![String::new()]);
    assert_eq!(WordParser::split("a '' b"), vec![
        "a".to_string(),
        String::new(),
        "b".to_string()
    ]);
}

#[test]
fn parse_args_matches_split() {
    for line in [
        "echo 'hello  world'",
        "echo a'b'c",
        "a\\ b \"x\\\"y\"",
        "",
        "  spaced   out  ",
    ] {
        assert_eq!(ArgType::parse_args(line), WordParser::split(line));
    }
}
