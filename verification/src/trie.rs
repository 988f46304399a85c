//! A prefix tree of words, for completion: every word that was inserted can
//! be found again from any of its prefixes.

use crate::shell::{is_builtin, BUILTINS};
use crate::text::{chars_of, lemma_char_codes, starts_with, string_of, texts};
use std::collections::HashMap;
use vstd::prelude::*;
use vstd::std_specs::hash::*;
use vstd::std_specs::iter::IteratorSpec;

verus! {

/// A node of the tree. The children are keyed by the code of the character
/// that leads to them.
#[derive(Debug)]
struct TrieNode {
    end_of_word: bool,
    children: HashMap<u32, TrieNode>,
}

/// Whether the path that `word` spells from `node` ends in a node that marks
/// the end of a word.
spec fn holds(node: TrieNode, word: Seq<char>) -> bool
    decreases word.len(),
{
    if word.len() == 0 {
        node.end_of_word
    } else {
        let key = word.first() as u32;
        node.children@.contains_key(key) && holds(node.children@[key], word.drop_first())
    }
}

/// Whether `word` starts with `prefix` and the rest of it is held below
/// `node`.
spec fn holds_below(node: TrieNode, prefix: Seq<char>, word: Seq<char>) -> bool {
    prefix.is_prefix_of(word) && holds(node, word.skip(prefix.len() as int))
}

/// The words of `words` that start with `prefix`.
pub open spec fn completions(words: Set<Seq<char>>, prefix: Seq<char>) -> Set<Seq<char>> {
    Set::new(|word: Seq<char>| words.contains(word) && prefix.is_prefix_of(word))
}

/// Whether `found` lists each word of `words` once, and nothing else.
pub open spec fn lists_exactly(found: Seq<String>, words: Set<Seq<char>>) -> bool {
    &&& forall|i: int| 0 <= i < found.len() ==> words.contains(#[trigger] found[i]@)
    &&& forall|word: Seq<char>|
        words.contains(word) ==> exists|i: int| 0 <= i < found.len() && #[trigger] found[i]@ == word
    &&& forall|i: int, j: int| 0 <= i < j < found.len() ==> found[i]@ != found[j]@
}

/// A set of words. Its view is the set of the words that were inserted.
#[derive(Debug)]
pub struct Trie {
    root: TrieNode,
}

impl View for Trie {
    type V = Set<Seq<char>>;

    closed spec fn view(&self) -> Set<Seq<char>> {
        Set::new(|word: Seq<char>| holds(self.root, word))
    }
}

/// Marks the end of `word`, from its character `at` on, below `node`; the
/// nodes on the way are made where they are missing.
fn insert_at(node: &mut TrieNode, word: &Vec<char>, at: usize)
    requires
        at <= word.len(),
    ensures
        forall|w: Seq<char>| #[trigger]
            holds(*final(node), w) <==> (holds(*old(node), w) || w == word@.skip(at as int)),
    decreases word.len() - at,
{
    broadcast use group_hash_axioms;

    let ghost before = *node;
    let ghost rest = word@.skip(at as int);
    if at == word.len() {
        node.end_of_word = true;
        assert forall|w: Seq<char>| #[trigger]
            holds(*node, w) <==> (holds(before, w) || w == rest) by {
            if w.len() == 0 {
                assert(w == rest);
            }
        }
    } else {
        let key: u32 = word[at] as u32;
        let mut child = match node.children.remove(&key) {
            Some(found) => found,
            None => TrieNode { end_of_word: false, children: HashMap::new() },
        };
        let ghost child_before = child;
        insert_at(&mut child, word, at + 1);
        node.children.insert(key, child);
        assert(rest.drop_first() == word@.skip(at + 1));
        assert forall|w: Seq<char>| #[trigger]
            holds(*node, w) <==> (holds(before, w) || w == rest) by {
            if w.len() > 0 {
                if w.first() as u32 == key {
                    assert(rest.first() == word@[at as int]);
                    lemma_char_codes(w.first(), rest.first());
                    assert(holds(*node, w) == holds(child, w.drop_first()));
                    if before.children@.contains_key(key) {
                        assert(holds(before, w) == holds(child_before, w.drop_first()));
                    } else {
                        assert(!holds(before, w));
                        assert(!holds(child_before, w.drop_first()));
                    }
                    if w.drop_first() == rest.drop_first() {
                        assert(w == seq![w.first()] + w.drop_first());
                        assert(rest == seq![rest.first()] + rest.drop_first());
                    }
                } else {
                    assert(node.children@.contains_key(w.first() as u32)
                        == before.children@.contains_key(w.first() as u32));
                }
            }
        }
    }
}

/// Whether `after` is `before` and then, each once and in some order, the
/// words that are held below `node` after `prefix`.
spec fn extended_by_words_below(
    before: Seq<String>,
    after: Seq<String>,
    node: TrieNode,
    prefix: Seq<char>,
) -> bool {
    &&& after.len() >= before.len()
    &&& after.take(before.len() as int) == before
    &&& forall|i: int|
        before.len() <= i < after.len() ==> holds_below(node, prefix, #[trigger] after[i]@)
    &&& forall|word: Seq<char>|
        holds_below(node, prefix, word) ==> exists|i: int|
            before.len() <= i < after.len() && #[trigger] after[i]@ == word
    &&& forall|i: int, j: int| before.len() <= i < j < after.len() ==> after[i]@ != after[j]@
}

/// Whether one of the first `count` entries of `entries` has the key `key`.
spec fn visited(entries: Seq<(&u32, &TrieNode)>, count: int, key: u32) -> bool {
    exists|j: int| 0 <= j < count && j < entries.len() && *(#[trigger] entries[j]).0 == key
}

/// Whether `word` is held below `node` after `prefix` and is either `prefix`
/// itself or goes on through a child that was visited.
spec fn reached(
    node: TrieNode,
    prefix: Seq<char>,
    entries: Seq<(&u32, &TrieNode)>,
    count: int,
    word: Seq<char>,
) -> bool {
    holds_below(node, prefix, word) && (word.len() == prefix.len() || visited(
        entries,
        count,
        word[prefix.len() as int] as u32,
    ))
}

/// An entry that is visited stays visited, and the entries' keys differ
/// from one another.
proof fn lemma_visited_next(
    entries: Seq<(&u32, &TrieNode)>,
    children: Map<u32, TrieNode>,
    at: int,
)
    requires
        0 <= at < entries.len(),
        entries.no_duplicates(),
        forall|j: int|
            0 <= j < entries.len() ==> children[*(#[trigger] entries[j]).0] == *entries[j].1,
    ensures
        !visited(entries, at, *entries[at].0),
        forall|key: u32|
            visited(entries, at + 1, key) <==> (visited(entries, at, key) || key == *entries[at].0),
{
    if visited(entries, at, *entries[at].0) {
        let j = choose|j: int|
            0 <= j < at && j < entries.len() && *(#[trigger] entries[j]).0 == *entries[at].0;
        assert(*entries[j].1 == *entries[at].1);
        assert(entries[j] == entries[at]);
    }
    assert forall|key: u32|
        visited(entries, at + 1, key) <==> (visited(entries, at, key) || key == *entries[at].0) by {
        if visited(entries, at, key) {
            let j = choose|j: int|
                0 <= j < at && j < entries.len() && *(#[trigger] entries[j]).0 == key;
            assert(0 <= j < at + 1 && *entries[j].0 == key);
        }
        if key == *entries[at].0 {
            assert(*entries[at].0 == key);
        }
    }
}

/// The words below a child, after the prefix with the child's character, are
/// the words below its parent, after the prefix, that go on with that
/// character.
proof fn lemma_holds_below_child(node: TrieNode, prefix: Seq<char>, c: char, word: Seq<char>)
    requires
        node.children@.contains_key(c as u32),
    ensures
        holds_below(node.children@[c as u32], prefix.push(c), word) <==> (holds_below(
            node,
            prefix,
            word,
        ) && word.len() > prefix.len() && word[prefix.len() as int] as u32 == c as u32),
{
    let depth = prefix.len() as int;
    let longer = prefix.push(c);
    let child = node.children@[c as u32];
    if word.len() > depth {
        let tail = word.skip(depth);
        assert(tail.first() == word[depth]);
        assert(tail.drop_first() == word.skip(depth + 1));
        lemma_char_codes(word[depth], c);
        if longer.is_prefix_of(word) {
            assert(word.subrange(0, depth + 1)[depth] == c);
            assert(prefix == word.subrange(0, depth)) by {
                assert forall|i: int| 0 <= i < depth implies prefix[i] == word[i] by {
                    assert(longer[i] == word.subrange(0, depth + 1)[i]);
                }
            }
        }
        if prefix.is_prefix_of(word) && word[depth] == c {
            assert(longer == word.subrange(0, depth + 1)) by {
                assert forall|i: int| 0 <= i < depth implies longer[i] == word[i] by {
                    assert(prefix[i] == word.subrange(0, depth)[i]);
                }
            }
        }
    }
}

impl Trie {
    /// An empty set.
    pub fn new() -> (trie: Trie)
        ensures
            trie@ == Set::<Seq<char>>::empty(),
    {
        let trie = Trie { root: TrieNode { end_of_word: false, children: HashMap::new() } };
        assert forall|word: Seq<char>| !holds(trie.root, word) by {}
        trie
    }

    /// Adds `word` to the set. A word that is there already changes nothing.
    pub fn insert(&mut self, word: &str)
        ensures
            final(self)@ == old(self)@.insert(word@),
    {
        let chars = chars_of(word);
        assert(chars@.skip(0) == word@);
        insert_at(&mut self.root, &chars, 0);
    }

    /// The words of the set that start with `prefix`, each once, in no
    /// particular order. A word is a prefix of itself.
    pub fn search(&self, prefix: &str) -> (suggestions: Vec<String>)
        ensures
            lists_exactly(suggestions@, completions(self@, prefix@)),
    {
        broadcast use group_hash_axioms;

        let chars = chars_of(prefix);
        let mut node = &self.root;
        let mut suggestions: Vec<String> = Vec::new();
        let mut at: usize = 0;
        assert forall|rest: Seq<char>| #[trigger]
            holds(self.root, chars@.take(0) + rest) == holds(*node, rest) by {
            assert(chars@.take(0) + rest == rest);
        }
        while at < chars.len()
            invariant
                at <= chars.len(),
                chars@ == prefix@,
                suggestions@.len() == 0,
                forall|rest: Seq<char>| #[trigger]
                    holds(self.root, chars@.take(at as int) + rest) == holds(*node, rest),
            decreases chars.len() - at,
        {
            let key: u32 = chars[at] as u32;
            let ghost upper = *node;
            match node.children.get(&key) {
                Some(child) => {
                    node = child;
                },
                None => {
                    assert forall|word: Seq<char>| !completions(self@, prefix@).contains(word) by {
                        if prefix@.is_prefix_of(word) {
                            let rest = word.skip(at as int);
                            assert(chars@.take(at as int) + rest == word);
                            assert(rest.first() == chars@[at as int]);
                            assert(!holds(upper, rest));
                        }
                    }
                    return suggestions;
                },
            }
            proof {
                assert forall|rest: Seq<char>| #[trigger]
                    holds(self.root, chars@.take(at + 1) + rest) == holds(*node, rest) by {
                    let longer = seq![chars@[at as int]] + rest;
                    assert(chars@.take(at + 1) + rest == chars@.take(at as int) + longer);
                    assert(longer.drop_first() == rest);
                    assert(holds(upper, longer) == holds(*node, rest));
                }
            }
            at += 1;
        }
        let start = string_of(&chars);
        self.get_suggestions(node, &start, &mut suggestions);
        proof {
            assert(chars@.take(at as int) == prefix@);
            assert forall|word: Seq<char>|
                holds_below(*node, prefix@, word) <==> completions(self@, prefix@).contains(
                    word,
                ) by {
                if prefix@.is_prefix_of(word) {
                    let rest = word.skip(prefix@.len() as int);
                    assert(prefix@ + rest == word);
                    assert(holds(self.root, prefix@ + rest) == holds(*node, rest));
                }
            }
            assert forall|word: Seq<char>|
                completions(self@, prefix@).contains(word) implies exists|i: int|
                0 <= i < suggestions@.len() && #[trigger] suggestions@[i]@ == word by {
                assert(holds_below(*node, prefix@, word));
            }
        }
        suggestions
    }

    /// Adds to `suggestions` every word that is held below `node`, each with
    /// `prefix` before it. A key that is no character's code leads to no
    /// word, and the child under it is passed over.
    fn get_suggestions(&self, node: &TrieNode, prefix: &String, suggestions: &mut Vec<String>)
        ensures
            extended_by_words_below(old(suggestions)@, final(suggestions)@, *node, prefix@),
        decreases *node,
    {
        broadcast use group_hash_axioms;

        let ghost start = suggestions@.len() as int;
        let ghost kept = suggestions@;
        let ghost depth = prefix@.len() as int;
        if node.end_of_word {
            suggestions.push(prefix.clone());
        }
        proof {
            assert(prefix@.skip(depth) == Seq::<char>::empty());
            assert forall|word: Seq<char>|
                holds_below(*node, prefix@, word) && word.len() == depth implies word
                == prefix@ by {
                assert(word.subrange(0, depth) == word);
            }
            if node.end_of_word {
                assert(suggestions@[start]@ == prefix@);
            }
        }
        for entry in it: node.children.iter()
            invariant
                depth == prefix@.len(),
                start == kept.len(),
                suggestions@.len() >= start,
                suggestions@.take(start) == kept,
                it.seq() == spec_hash_map_iter(&node.children).remaining(),
                it.seq().no_duplicates(),
                forall|i: int|
                    start <= i < suggestions@.len() ==> reached(
                        *node,
                        prefix@,
                        it.seq(),
                        it.index(),
                        #[trigger] suggestions@[i]@,
                    ),
                forall|word: Seq<char>|
                    reached(*node, prefix@, it.seq(), it.index(), word) ==> exists|i: int|
                        start <= i < suggestions@.len() && #[trigger] suggestions@[i]@ == word,
                forall|i: int, j: int|
                    start <= i < j < suggestions@.len() ==> suggestions@[i]@ != suggestions@[j]@,
        {
            let (key, child) = entry;
            let ghost entries = it.seq();
            let ghost at = it.index();
            let ghost next = it.index() + 1;
            let ghost earlier = suggestions@;
            proof {
                assert(entries[at] == entry);
                assert(node.children@.contains_key(*key) && node.children@[*key] == *child);
                assert forall|j: int| 0 <= j < entries.len() implies node.children@[*(
                #[trigger] entries[j]).0] == *entries[j].1 by {
                    assert(node.children@.contains_key(*entries[j].0));
                }
                lemma_visited_next(entries, node.children@, at);
            }
            match char::from_u32(*key) {
                Some(c) => {
                    let mut longer = prefix.clone();
                    longer.push(c);
                    proof {
                        assert(node.children@.dom().finite());
                        assert(decreases_to!(node.children => node.children@));
                        assert(decreases_to!(node.children@ => node.children@[*key]));
                    }
                    self.get_suggestions(child, &longer, suggestions);
                    proof {
                        assert forall|i: int| 0 <= i < earlier.len() implies suggestions@[i]
                            == earlier[i] by {
                            assert(suggestions@.take(earlier.len() as int)[i] == suggestions@[i]);
                        }
                        assert(suggestions@.take(start) == kept);
                        assert forall|word: Seq<char>|
                            holds_below(*child, longer@, word) <==> (holds_below(
                                *node,
                                prefix@,
                                word,
                            ) && word.len() > depth && word[depth] as u32 == *key) by {
                            lemma_holds_below_child(*node, prefix@, c, word);
                        }
                        assert forall|i: int| start <= i < suggestions@.len() implies reached(
                            *node,
                            prefix@,
                            entries,
                            next,
                            #[trigger] suggestions@[i]@,
                        ) by {
                            if i < earlier.len() {
                                assert(reached(*node, prefix@, entries, at, earlier[i]@));
                            } else {
                                assert(holds_below(*child, longer@, suggestions@[i]@));
                            }
                        }
                        assert forall|word: Seq<char>|
                            reached(*node, prefix@, entries, next, word) implies exists|i: int|
                            start <= i < suggestions@.len() && #[trigger] suggestions@[i]@
                                == word by {
                            if reached(*node, prefix@, entries, at, word) {
                                let i = choose|i: int|
                                    start <= i < earlier.len() && #[trigger] earlier[i]@ == word;
                                assert(suggestions@[i]@ == word);
                            } else {
                                assert(holds_below(*child, longer@, word));
                            }
                        }
                        assert forall|i: int, j: int|
                            start <= i < j < suggestions@.len() implies suggestions@[i]@
                            != suggestions@[j]@ by {
                            if i < earlier.len() && j >= earlier.len() {
                                assert(reached(*node, prefix@, entries, at, earlier[i]@));
                                assert(holds_below(*child, longer@, suggestions@[j]@));
                                if suggestions@[i]@ == suggestions@[j]@ {
                                    assert(visited(entries, at, *key));
                                }
                            } else if j < earlier.len() {
                                assert(earlier[i]@ != earlier[j]@);
                            }
                        }
                    }
                },
                None => {
                    proof {
                        assert forall|word: Seq<char>|
                            reached(*node, prefix@, entries, next, word) implies reached(
                            *node,
                            prefix@,
                            entries,
                            at,
                            word,
                        ) by {
                            if word.len() > depth {
                                lemma_char_codes(word[depth], word[depth]);
                            }
                        }
                    }
                },
            }
        }
        proof {
            let entries = spec_hash_map_iter(&node.children).remaining();
            assert forall|word: Seq<char>| holds_below(*node, prefix@, word) implies reached(
                *node,
                prefix@,
                entries,
                entries.len() as int,
                word,
            ) by {
                if word.len() > depth {
                    let key = word[depth] as u32;
                    assert(word.skip(depth).first() == word[depth]);
                    assert(node.children@.contains_key(key));
                    let pair = (&key, &node.children@[key]);
                    assert(entries.contains(pair));
                    let j = choose|j: int| 0 <= j < entries.len() && entries[j] == pair;
                    assert(*entries[j].0 == key);
                }
            }
        }
    }
}

/// Inserting a word a second time changes nothing: the set after it is the
/// set after the first time, and so is what a search finds in it.
pub proof fn lemma_insert_twice(words: Set<Seq<char>>, word: Seq<char>, prefix: Seq<char>)
    ensures
        words.insert(word).insert(word) == words.insert(word),
        completions(words.insert(word).insert(word), prefix) == completions(
            words.insert(word),
            prefix,
        ),
{
    assert(words.insert(word).insert(word) == words.insert(word));
}

impl Default for Trie {
    fn default() -> (trie: Trie)
        ensures
            trie@ == Set::<Seq<char>>::empty(),
    {
        Trie::new()
    }
}

/// The words of a completion index over the programs `names`: those names,
/// and the names of the builtins.
pub open spec fn index_words(names: Seq<Seq<char>>) -> Set<Seq<char>> {
    Set::new(|word: Seq<char>| names.contains(word) || is_builtin(word))
}

/// The completion index over the programs `executables` and the builtins. A
/// name that comes twice is held once.
pub fn build_trie(executables: &Vec<String>) -> (trie: Trie)
    ensures
        trie@ == index_words(texts(executables@)),
{
    let mut trie = Trie::new();
    let ghost names = texts(executables@);
    let mut i: usize = 0;
    while i < executables.len()
        invariant
            i <= executables.len(),
            names == texts(executables@),
            trie@ == Set::new(|word: Seq<char>| names.take(i as int).contains(word)),
        decreases executables.len() - i,
    {
        trie.insert(executables[i].as_str());
        proof {
            let shorter = names.take(i as int);
            let longer = names.take(i + 1);
            assert(longer == shorter.push(names[i as int]));
            assert forall|word: Seq<char>|
                longer.contains(word) <==> (shorter.contains(word) || word == names[i as int]) by {
                if shorter.contains(word) {
                    let j = choose|j: int| 0 <= j < shorter.len() && shorter[j] == word;
                    assert(longer[j] == word);
                }
                if word == names[i as int] {
                    assert(longer[i as int] == word);
                }
            }
        }
        i += 1;
    }
    assert(names.take(i as int) == names);
    let mut j: usize = 0;
    while j < 5
        invariant
            j <= 5,
            trie@ == Set::new(
                |word: Seq<char>|
                    names.contains(word) || exists|k: int|
                        0 <= k < j && #[trigger] BUILTINS[k]@ == word,
            ),
        decreases 5 - j,
    {
        trie.insert(BUILTINS[j]);
        j += 1;
    }
    trie
}

/// Whether each of `words` starts with `prefix`.
pub open spec fn is_common_prefix(prefix: Seq<char>, words: Seq<Seq<char>>) -> bool {
    forall|i: int| 0 <= i < words.len() ==> prefix.is_prefix_of(#[trigger] words[i])
}

/// Whether `prefix` is the longest text that each of `words` starts with.
pub open spec fn is_longest_common_prefix(prefix: Seq<char>, words: Seq<Seq<char>>) -> bool {
    &&& is_common_prefix(prefix, words)
    &&& forall|other: Seq<char>| #[trigger]
        is_common_prefix(other, words) ==> other.len() <= prefix.len()
}

/// Of two texts that one word starts with, the shorter starts the longer.
proof fn lemma_prefixes_nest(shorter: Seq<char>, longer: Seq<char>, word: Seq<char>)
    requires
        shorter.is_prefix_of(word),
        longer.is_prefix_of(word),
        shorter.len() <= longer.len(),
    ensures
        shorter.is_prefix_of(longer),
{
    assert(shorter == longer.subrange(0, shorter.len() as int)) by {
        assert forall|i: int| 0 <= i < shorter.len() implies shorter[i] == longer[i] by {
            assert(word.subrange(0, shorter.len() as int)[i] == word[i]);
            assert(word.subrange(0, longer.len() as int)[i] == word[i]);
        }
    }
}

/// The longest text that each of `suggestions` starts with; the empty text
/// where there are none.
pub fn longest_common_prefix(suggestions: &Vec<String>) -> (prefix: String)
    ensures
        suggestions.len() == 0 ==> prefix@.len() == 0,
        suggestions.len() > 0 ==> is_longest_common_prefix(prefix@, texts(suggestions@)),
{
    if suggestions.len() == 0 {
        return String::new();
    }
    let ghost words = texts(suggestions@);
    let mut prefix = chars_of(suggestions[0].as_str());
    let mut i: usize = 1;
    proof {
        assert(prefix@.subrange(0, prefix@.len() as int) == prefix@);
        assert(is_common_prefix(prefix@, words.take(1)));
        assert forall|other: Seq<char>| #[trigger]
            is_common_prefix(other, words.take(1)) implies other.len() <= prefix@.len() by {
            assert(other.is_prefix_of(words.take(1)[0]));
        }
    }
    while i < suggestions.len()
        invariant
            1 <= i <= suggestions.len(),
            words == texts(suggestions@),
            is_longest_common_prefix(prefix@, words.take(i as int)),
        decreases suggestions.len() - i,
    {
        let word = chars_of(suggestions[i].as_str());
        let ghost longest = prefix@;
        while !starts_with(&word, &prefix)
            invariant
                prefix@.is_prefix_of(longest),
                forall|other: Seq<char>|
                    other.is_prefix_of(longest) && other.is_prefix_of(word@) ==> other.len()
                        <= prefix@.len(),
            decreases prefix@.len(),
        {
            proof {
                assert(prefix@.len() > 0) by {
                    if prefix@.len() == 0 {
                        assert(word@.subrange(0, 0) == prefix@);
                    }
                }
                assert forall|other: Seq<char>|
                    other.is_prefix_of(longest) && other.is_prefix_of(word@) implies other.len()
                    < prefix@.len() by {
                    if other.len() == prefix@.len() {
                        lemma_prefixes_nest(other, prefix@, longest);
                        assert(other == prefix@);
                    }
                }
                lemma_prefixes_nest(prefix@.drop_last(), prefix@, prefix@);
                lemma_prefixes_nest(prefix@.drop_last(), longest, longest);
            }
            prefix.pop();
        }
        proof {
            let shorter = words.take(i as int);
            let longer = words.take(i + 1);
            assert(longer[i as int] == word@);
            assert forall|k: int| 0 <= k < longer.len() implies prefix@.is_prefix_of(
                #[trigger] longer[k],
            ) by {
                if k < i {
                    assert(longest.is_prefix_of(shorter[k]));
                    lemma_prefixes_nest(prefix@, longest, longest);
                    assert(prefix@ == shorter[k].subrange(0, prefix@.len() as int)) by {
                        assert(longest == shorter[k].subrange(0, longest.len() as int));
                        assert(prefix@ == longest.subrange(0, prefix@.len() as int));
                    }
                }
            }
            assert forall|other: Seq<char>| #[trigger]
                is_common_prefix(other, longer) implies other.len() <= prefix@.len() by {
                assert(is_common_prefix(other, shorter)) by {
                    assert forall|k: int| 0 <= k < shorter.len() implies other.is_prefix_of(
                        #[trigger] shorter[k],
                    ) by {
                        assert(longer[k] == shorter[k]);
                    }
                }
                assert(other.is_prefix_of(longer[0]));
                assert(longest.is_prefix_of(shorter[0]));
                lemma_prefixes_nest(other, longest, shorter[0]);
                assert(other.is_prefix_of(longer[i as int]));
            }
        }
        i += 1;
    }
    assert(words.take(i as int) == words);
    string_of(&prefix)
}

} // verus!
