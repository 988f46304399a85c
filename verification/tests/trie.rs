use minishell::trie::{build_trie, longest_common_prefix, Trie};

fn strings(words: &[&str]) -> Vec<String> {
    words.iter().map(|s| s.to_string()).collect()
}

fn sorted(mut words: Vec<String>) -> Vec<String> {
    words.sort();
    words
}

#[test]
fn test_trie() {
    let mut t = Trie::new();
    t.insert("amazon");
    t.insert("amazon prime");
    t.insert("amazing");
    t.insert("amazing spider man");
    t.insert("amazed");
    t.insert("apple");

    let check: Vec<String> = ["amazon", "amazon prime", "amazing", "amazing spider man", "amazed"]
        .iter()
        .map(|s| s.to_string())
        .collect();
    assert_eq!(sorted(t.search("amaz")), sorted(check))
}

#[test]
fn search_finds_words_by_prefix() {
    let mut t = Trie::new();
    t.insert("cd");
    t.insert("cat");
    t.insert("echo");
    assert_eq!(sorted(t.search("")), strings(&["cat", "cd", "echo"]));
    assert_eq!(t.search("ca"), strings(&["cat"]));
    assert_eq!(t.search("zz"), Vec::<String>::new());
}

#[test]
fn search_includes_the_prefix_itself() {
    let mut t = Trie::new();
    t.insert("cat");
    t.insert("catalog");
    assert_eq!(sorted(t.search("cat")), strings(&["cat", "catalog"]));
    assert_eq!(t.search("cata"), strings(&["catalog"]));
    assert_eq!(t.search("cats"), Vec::<String>::new());
}

#[test]
fn inserting_twice_keeps_one() {
    let mut t = Trie::new();
    t.insert("echo");
    t.insert("echo");
    assert_eq!(t.search("e"), strings(&["echo"]));
    assert_eq!(t.search(""), strings(&["echo"]));
}

#[test]
fn empty_trie_finds_nothing() {
    let t = Trie::new();
    assert_eq!(t.search(""), Vec::<String>::new());
    assert_eq!(t.search("a"), Vec::<String>::new());
    let d = Trie::default();
    assert_eq!(d.search(""), Vec::<String>::new());
}

#[test]
fn search_handles_wide_characters() {
    let mut t = Trie::new();
    t.insert("héllo");
    t.insert("hé");
    t.insert("日本語");
    assert_eq!(sorted(t.search("hé")), strings(&["hé", "héllo"]));
    assert_eq!(t.search("日"), strings(&["日本語"]));
    assert_eq!(t.search("h\u{e8}"), Vec::<String>::new());
}

#[test]
fn build_trie_holds_programs_and_builtins() {
    let t = build_trie(&strings(&["ls", "cat", "ls", "echo"]));
    assert_eq!(
        sorted(t.search("")),
        strings(&["cat", "cd", "echo", "exit", "ls", "pwd", "type"])
    );
    assert_eq!(sorted(t.search("e")), strings(&["echo", "exit"]));
    let bare = build_trie(&Vec::new());
    assert_eq!(sorted(bare.search("")), strings(&["cd", "echo", "exit", "pwd", "type"]));
}

#[test]
fn longest_common_prefix_of_words() {
    assert_eq!(longest_common_prefix(&strings(&[])), "");
    assert_eq!(longest_common_prefix(&strings(&["echo"])), "echo");
    assert_eq!(longest_common_prefix(&strings(&["amazon", "amazing", "amazed"])), "amaz");
    assert_eq!(longest_common_prefix(&strings(&["cat", "dog"])), "");
    assert_eq!(longest_common_prefix(&strings(&["cat", "catalog", "cat"])), "cat");
    assert_eq!(longest_common_prefix(&strings(&["catalog", "cat"])), "cat");
    assert_eq!(longest_common_prefix(&strings(&["", "cat"])), "");
}
