use minishell::order::{comes_first, sort};

fn strings(words: &[&str]) -> Vec<String> {
    words.iter().map(|s| s.to_string()).collect()
}

#[test]
fn dictionary_order() {
    assert!(comes_first("", ""));
    assert!(comes_first("", "a"));
    assert!(!comes_first("a", ""));
    assert!(comes_first("a", "a"));
    assert!(comes_first("a", "b"));
    assert!(!comes_first("b", "a"));
    assert!(comes_first("cat", "catalog"));
    assert!(!comes_first("catalog", "cat"));
    assert!(comes_first("Zebra", "apple"));
    assert!(comes_first("abc", "abd"));
    assert!(!comes_first("abd", "abc"));
}

#[test]
fn dictionary_order_is_the_order_of_strings() {
    let words = [
        "", "a", "A", "ab", "abc", "b", "ba", "é", "e", "z", "日本", "日", "\u{ffff}",
        "\u{10000}", "\u{e000}", "\u{d7ff}", " ", "~", "a b", "a\tb",
    ];
    for a in words {
        for b in words {
            assert_eq!(comes_first(a, b), a <= b, "{:?} {:?}", a, b);
        }
    }
}

#[test]
fn sort_orders_words() {
    let mut words = strings(&["pwd", "echo", "cd", "exit", "type"]);
    sort(&mut words);
    assert_eq!(words, strings(&["cd", "echo", "exit", "pwd", "type"]));

    let mut none: Vec<String> = Vec::new();
    sort(&mut none);
    assert_eq!(none, Vec::<String>::new());

    let mut one = strings(&["x"]);
    sort(&mut one);
    assert_eq!(one, strings(&["x"]));
}

#[test]
fn sort_keeps_repeated_words() {
    let mut words = strings(&["b", "a", "b", "", "a", "b"]);
    sort(&mut words);
    assert_eq!(words, strings(&["", "a", "a", "b", "b", "b"]));
}

#[test]
fn sort_is_the_sort_of_strings() {
    let lists = [
        strings(&["b", "a", "c"]),
        strings(&["cat", "catalog", "ca", "dog", "Cat", "do"]),
        strings(&["é", "e", "f", "日本", "日", "\u{10000}", "\u{ffff}", "z"]),
        strings(&["3", "20", "100", "", " "]),
        strings(&["z", "y", "x", "w", "v", "u"]),
    ];
    for list in lists {
        let mut ours = list.clone();
        sort(&mut ours);
        let mut theirs = list.clone();
        theirs.sort();
        assert_eq!(ours, theirs);
    }
}
