//! Dictionary order on texts, and sorting by it.

use crate::text::{chars_of, lemma_char_codes, texts};
use vstd::prelude::*;
use vstd::seq_lib::{to_multiset_build, to_multiset_insert};

verus! {

/// Whether `a` is `b` or comes before it in dictionary order: the texts are
/// held against each other character by character, a character with a lower
/// code comes first, and a text comes before those it starts.
pub open spec fn precedes(a: Seq<char>, b: Seq<char>) -> bool
    decreases a.len(),
{
    if a.len() == 0 {
        true
    } else if b.len() == 0 {
        false
    } else if a.first() == b.first() {
        precedes(a.drop_first(), b.drop_first())
    } else {
        (a.first() as u32) < (b.first() as u32)
    }
}

/// Whether `words` is in dictionary order.
pub open spec fn sorted(words: Seq<Seq<char>>) -> bool {
    forall|i: int, j: int| 0 <= i < j < words.len() ==> precedes(words[i], words[j])
}

/// Of two texts one precedes the other.
pub proof fn lemma_precedes_total(a: Seq<char>, b: Seq<char>)
    ensures
        precedes(a, b) || precedes(b, a),
    decreases a.len(),
{
    if a.len() > 0 && b.len() > 0 {
        lemma_char_codes(a.first(), b.first());
        if a.first() == b.first() {
            lemma_precedes_total(a.drop_first(), b.drop_first());
        }
    }
}

/// What precedes a text precedes what the text precedes.
pub proof fn lemma_precedes_transitive(a: Seq<char>, b: Seq<char>, c: Seq<char>)
    requires
        precedes(a, b),
        precedes(b, c),
    ensures
        precedes(a, c),
    decreases a.len(),
{
    if a.len() > 0 {
        lemma_char_codes(a.first(), b.first());
        lemma_char_codes(b.first(), c.first());
        lemma_char_codes(a.first(), c.first());
        if a.first() == b.first() && b.first() == c.first() {
            lemma_precedes_transitive(a.drop_first(), b.drop_first(), c.drop_first());
        }
    }
}

/// Two texts that precede each other are the same.
pub proof fn lemma_precedes_antisymmetric(a: Seq<char>, b: Seq<char>)
    requires
        precedes(a, b),
        precedes(b, a),
    ensures
        a == b,
    decreases a.len(),
{
    if a.len() > 0 {
        lemma_char_codes(a.first(), b.first());
        lemma_precedes_antisymmetric(a.drop_first(), b.drop_first());
        assert(a == seq![a.first()] + a.drop_first());
        assert(b == seq![b.first()] + b.drop_first());
    } else {
        assert(a == b);
    }
}

/// Decides whether `a` is `b` or comes before it in dictionary order.
pub fn comes_first(a: &str, b: &str) -> (first: bool)
    ensures
        first == precedes(a@, b@),
{
    let left = chars_of(a);
    let right = chars_of(b);
    let mut i: usize = 0;
    assert(left@.skip(0) == left@);
    assert(right@.skip(0) == right@);
    while i < left.len() && i < right.len()
        invariant
            i <= left.len(),
            i <= right.len(),
            left@ == a@,
            right@ == b@,
            precedes(left@, right@) == precedes(left@.skip(i as int), right@.skip(i as int)),
        decreases left.len() - i,
    {
        proof {
            assert(left@.skip(i as int).first() == left@[i as int]);
            assert(right@.skip(i as int).first() == right@[i as int]);
            assert(left@.skip(i as int).drop_first() == left@.skip(i + 1));
            assert(right@.skip(i as int).drop_first() == right@.skip(i + 1));
        }
        if left[i] != right[i] {
            return (left[i] as u32) < (right[i] as u32);
        }
        i += 1;
    }
    i == left.len()
}

/// Puts `words` in dictionary order. Words that are the same stay as many as
/// they were.
pub fn sort(words: &mut Vec<String>)
    ensures
        sorted(texts(final(words)@)),
        texts(final(words)@).to_multiset() == texts(old(words)@).to_multiset(),
{
    let mut ordered: Vec<String> = Vec::new();
    let ghost all = texts(words@);
    let mut i: usize = 0;
    assert(all.take(0) == texts(ordered@));
    while i < words.len()
        invariant
            i <= words.len(),
            all == texts(words@),
            sorted(texts(ordered@)),
            texts(ordered@).to_multiset() == all.take(i as int).to_multiset(),
        decreases words.len() - i,
    {
        let word = words[i].clone();
        let ghost before = texts(ordered@);
        let mut at: usize = 0;
        while at < ordered.len() && comes_first(ordered[at].as_str(), word.as_str())
            invariant
                at <= ordered.len(),
                before == texts(ordered@),
                forall|k: int| 0 <= k < at ==> precedes(#[trigger] before[k], word@),
            decreases ordered.len() - at,
        {
            at += 1;
        }
        assert(at < ordered.len() ==> !precedes(before[at as int], word@));
        ordered.insert(at, word);
        proof {
            let after = texts(ordered@);
            assert(after == before.insert(at as int, word@));
            to_multiset_insert(before, at as int, word@);
            assert(all.take(i + 1) == all.take(i as int).push(word@));
            to_multiset_build(all.take(i as int), word@);
            assert forall|j: int, k: int| 0 <= j < k < after.len() implies precedes(
                after[j],
                after[k],
            ) by {
                if j == at {
                    lemma_precedes_total(before[at as int], word@);
                    if k - 1 > at {
                        assert(precedes(before[at as int], before[k - 1]));
                        lemma_precedes_transitive(word@, before[at as int], before[k - 1]);
                    }
                } else if k == at {
                } else {
                    let from = if j < at { j } else { j - 1 };
                    let to = if k < at { k } else { k - 1 };
                    assert(precedes(before[from], before[to]));
                }
            }
        }
        i += 1;
    }
    assert(all.take(i as int) == all);
    *words = ordered;
}

} // verus!
