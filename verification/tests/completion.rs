use minishell::autocomplete::TrieNode;

#[test]
fn completes_a_unique_prefix() {
    let mut trie = TrieNode::default();
    trie.insert("echo");
    trie.insert("exit");
    let completed = trie.get_completed_word("ec").expect("a completion");
    assert_eq!(completed, vec!["echo".to_string()]);
}

#[test]
fn completes_all_branches() {
    let mut trie = TrieNode::default();
    trie.insert("echo");
    trie.insert("exit");
    let completed = trie.get_completed_word("e").expect("completions");
    assert_eq!(completed.len(), 2);
    assert!(completed.contains(&"echo".to_string()));
    assert!(completed.contains(&"exit".to_string()));
}

#[test]
fn a_stored_word_ends_its_branch() {
    // a shorter stored word hides the longer ones behind it
    let mut trie = TrieNode::default();
    trie.insert("echo");
    trie.insert("echoes");
    let completed = trie.get_completed_word("ec").expect("a completion");
    assert_eq!(completed, vec!["echo".to_string()]);
}

#[test]
fn unknown_prefix_gives_nothing() {
    let mut trie = TrieNode::default();
    trie.insert("echo");
    assert!(trie.get_completed_word("zz").is_none());
    assert!(trie.get_completed_word("echoes").is_none());
}

#[test]
fn empty_trie_completes_nothing() {
    let trie = TrieNode::default();
    assert!(trie.get_completed_word("a").is_none());
    assert!(trie.get_completed_word("").is_none());
}

#[test]
fn a_word_completes_to_itself() {
    let mut trie = TrieNode::default();
    trie.insert("pwd");
    let completed = trie.get_completed_word("pwd").expect("a completion");
    assert_eq!(completed, vec!["pwd".to_string()]);
}

#[test]
fn inserting_twice_changes_nothing() {
    let mut trie = TrieNode::default();
    trie.insert("cd");
    trie.insert("cd");
    let completed = trie.get_completed_word("c").expect("a completion");
    assert_eq!(completed, vec!["cd".to_string()]);
}
