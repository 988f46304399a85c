//! Texts as sequences of characters: conversions between strings and
//! character vectors, comparing, trimming, joining, splitting, and reading
//! decimal numbers.

use vstd::prelude::*;

verus! {

/// `String::push` appends one character at the end of the string and leaves
/// the characters before it as they were.
pub assume_specification[ String::push ](s: &mut String, c: char)
    ensures
        final(s)@ == old(s)@.push(c),
;

/// Whether `code` is a Unicode scalar value: a code point that is no
/// surrogate.
pub open spec fn is_scalar_value(code: u32) -> bool {
    code <= 0xD7FF || 0xE000 <= code <= 0x10FFFF
}

/// `char::from_u32` gives the character with the code `code` where `code` is
/// a Unicode scalar value, and nothing for any other number.
pub assume_specification[ char::from_u32 ](code: u32) -> (c: Option<char>)
    ensures
        c == (if is_scalar_value(code) {
            Some(code as char)
        } else {
            None::<char>
        }),
;

/// A character's code is a scalar value, the character with that code is the
/// character itself, and two characters with one code are the same.
pub proof fn lemma_char_codes(a: char, b: char)
    ensures
        is_scalar_value(a as u32),
        (a as u32) as char == a,
        a as u32 == b as u32 ==> a == b,
{
}

/// The characters of `s`, in order.
pub fn chars_of(s: &str) -> (chars: Vec<char>)
    ensures
        chars@ == s@,
{
    let mut chars: Vec<char> = Vec::new();
    for c in it: s.chars()
        invariant
            chars@ == it.seq().take(it.index()),
    {
        chars.push(c);
    }
    chars
}

/// The string made of `chars`, in order.
pub fn string_of(chars: &Vec<char>) -> (s: String)
    ensures
        s@ == chars@,
{
    let mut s = String::new();
    let mut i: usize = 0;
    while i < chars.len()
        invariant
            i <= chars.len(),
            s@ == chars@.take(i as int),
        decreases chars.len() - i,
    {
        s.push(chars[i]);
        i += 1;
    }
    s
}

/// The text of each string of `strings`, in order.
pub open spec fn texts(strings: Seq<String>) -> Seq<Seq<char>> {
    Seq::new(strings.len(), |i: int| strings[i]@)
}

/// Decides whether `chars` spells `text`.
pub fn spells(chars: &Vec<char>, text: &str) -> (b: bool)
    ensures
        b == (chars@ == text@),
{
    let other = chars_of(text);
    if chars.len() != other.len() {
        return false;
    }
    let mut i: usize = 0;
    while i < chars.len()
        invariant
            i <= chars.len(),
            chars.len() == other.len(),
            other@ == text@,
            chars@.take(i as int) == other@.take(i as int),
        decreases chars.len() - i,
    {
        if chars[i] != other[i] {
            return false;
        }
        assert(chars@.take(i + 1) == chars@.take(i as int).push(chars@[i as int]));
        assert(other@.take(i + 1) == other@.take(i as int).push(other@[i as int]));
        i += 1;
    }
    assert(chars@ == chars@.take(i as int));
    assert(other@ == other@.take(i as int));
    true
}

/// Decides whether `chars` starts with `prefix`.
pub fn starts_with(chars: &Vec<char>, prefix: &Vec<char>) -> (b: bool)
    ensures
        b == prefix@.is_prefix_of(chars@),
{
    if prefix.len() > chars.len() {
        return false;
    }
    let mut i: usize = 0;
    while i < prefix.len()
        invariant
            i <= prefix.len() <= chars.len(),
            chars@.take(i as int) == prefix@.take(i as int),
        decreases prefix.len() - i,
    {
        if chars[i] != prefix[i] {
            assert(chars@.subrange(0, prefix.len() as int)[i as int] != prefix@[i as int]);
            return false;
        }
        assert(chars@.take(i + 1) == chars@.take(i as int).push(chars@[i as int]));
        assert(prefix@.take(i + 1) == prefix@.take(i as int).push(prefix@[i as int]));
        i += 1;
    }
    assert(prefix@ == prefix@.take(i as int));
    true
}

/// Whether `c` is white space as Unicode defines it (`White_Space`).
pub open spec fn is_whitespace(c: char) -> bool {
    let code = c as u32;
    ||| 0x09 <= code <= 0x0D
    ||| code == 0x20
    ||| code == 0x85
    ||| code == 0xA0
    ||| code == 0x1680
    ||| 0x2000 <= code <= 0x200A
    ||| code == 0x2028
    ||| code == 0x2029
    ||| code == 0x202F
    ||| code == 0x205F
    ||| code == 0x3000
}

/// `s` without its leading white space.
pub open spec fn trimmed_start(s: Seq<char>) -> Seq<char>
    decreases s.len(),
{
    if s.len() > 0 && is_whitespace(s.first()) {
        trimmed_start(s.drop_first())
    } else {
        s
    }
}

/// Decides whether `c` is white space.
pub fn is_whitespace_char(c: char) -> (b: bool)
    ensures
        b == is_whitespace(c),
{
    let code: u32 = c as u32;
    (0x09 <= code && code <= 0x0D) || code == 0x20 || code == 0x85 || code == 0xA0 || code
        == 0x1680 || (0x2000 <= code && code <= 0x200A) || code == 0x2028 || code == 0x2029
        || code == 0x202F || code == 0x205F || code == 0x3000
}

/// Removes the white space at the start of `chars`.
pub fn trim_start(chars: &Vec<char>) -> (kept: Vec<char>)
    ensures
        kept@ == trimmed_start(chars@),
{
    let mut start: usize = 0;
    assert(chars@.skip(0) == chars@);
    while start < chars.len() && is_whitespace_char(chars[start])
        invariant
            start <= chars.len(),
            trimmed_start(chars@) == trimmed_start(chars@.skip(start as int)),
        decreases chars.len() - start,
    {
        assert(chars@.skip(start as int).drop_first() == chars@.skip(start + 1));
        start += 1;
    }
    assert(trimmed_start(chars@) == chars@.skip(start as int));
    let mut kept: Vec<char> = Vec::new();
    let mut i: usize = start;
    while i < chars.len()
        invariant
            start <= i <= chars.len(),
            kept@ == chars@.subrange(start as int, i as int),
        decreases chars.len() - i,
    {
        kept.push(chars[i]);
        i += 1;
    }
    assert(chars@.subrange(start as int, chars.len() as int) == chars@.skip(start as int));
    kept
}

/// `pieces` in one text, with `separator` between two of them.
pub open spec fn joined(pieces: Seq<Seq<char>>, separator: Seq<char>) -> Seq<char>
    decreases pieces.len(),
{
    if pieces.len() == 0 {
        Seq::empty()
    } else if pieces.len() == 1 {
        pieces.last()
    } else {
        joined(pieces.drop_last(), separator) + separator + pieces.last()
    }
}

/// Joins `pieces` into one string, with `separator` between two of them.
pub fn join(pieces: &Vec<String>, separator: &str) -> (whole: String)
    ensures
        whole@ == joined(texts(pieces@), separator@),
{
    let mut whole = String::new();
    let ghost all = texts(pieces@);
    let mut i: usize = 0;
    assert(all.take(0) == Seq::<Seq<char>>::empty());
    while i < pieces.len()
        invariant
            i <= pieces.len(),
            all == texts(pieces@),
            whole@ == joined(all.take(i as int), separator@),
        decreases pieces.len() - i,
    {
        if i > 0 {
            whole.append(separator);
        }
        whole.append(pieces[i].as_str());
        proof {
            let longer = all.take(i + 1);
            assert(longer.last() == pieces@[i as int]@);
            assert(longer.drop_last() == all.take(i as int));
            if i == 0 {
                assert(whole@ == longer.last());
            }
        }
        i += 1;
    }
    assert(all.take(i as int) == all);
    whole
}

/// The pieces of `text` between the characters `separator`: one more piece
/// than there are separators, so the empty text is one empty piece.
pub open spec fn split_on(text: Seq<char>, separator: char) -> Seq<Seq<char>>
    decreases text.len(),
{
    if text.len() == 0 {
        seq![Seq::empty()]
    } else {
        let before = split_on(text.drop_last(), separator);
        if text.last() == separator {
            before.push(Seq::empty())
        } else {
            before.drop_last().push(before.last().push(text.last()))
        }
    }
}

/// Splits `text` at each character `separator`.
pub fn split(text: &str, separator: char) -> (pieces: Vec<String>)
    ensures
        texts(pieces@) == split_on(text@, separator),
{
    let chars = chars_of(text);
    let mut pieces: Vec<String> = Vec::new();
    let mut piece: Vec<char> = Vec::new();
    let mut i: usize = 0;
    assert(chars@.take(0) == Seq::<char>::empty());
    assert(texts(pieces@).push(piece@) == seq![Seq::<char>::empty()]);
    while i < chars.len()
        invariant
            i <= chars.len(),
            texts(pieces@).push(piece@) == split_on(chars@.take(i as int), separator),
        decreases chars.len() - i,
    {
        let ghost before = texts(pieces@);
        let ghost current = piece@;
        let ghost longer = chars@.take(i + 1);
        proof {
            assert(longer.drop_last() == chars@.take(i as int));
            assert(longer.last() == chars@[i as int]);
            assert(before.push(current).drop_last() == before);
        }
        if chars[i] == separator {
            pieces.push(string_of(&piece));
            piece = Vec::new();
            assert(texts(pieces@) == before.push(current));
        } else {
            piece.push(chars[i]);
        }
        i += 1;
    }
    assert(chars@.take(i as int) == text@);
    let ghost before = texts(pieces@);
    pieces.push(string_of(&piece));
    assert(texts(pieces@) == before.push(piece@));
    pieces
}

/// Whether `c` is one of the digits `0` to `9`.
pub open spec fn is_digit(c: char) -> bool {
    0x30 <= c as u32 <= 0x39
}

/// The number that the decimal digits `digits` spell; 0 for no digits.
pub open spec fn digits_value(digits: Seq<char>) -> int
    decreases digits.len(),
{
    if digits.len() == 0 {
        0
    } else {
        10 * digits_value(digits.drop_last()) + (digits.last() as u32 - 0x30)
    }
}

/// The digits of a decimal number: `text` without its sign.
pub open spec fn unsigned_part(text: Seq<char>) -> Seq<char> {
    if text.len() > 0 && (text[0] == '-' || text[0] == '+') {
        text.skip(1)
    } else {
        text
    }
}

/// The number that `text` spells, with its sign.
pub open spec fn signed_value(text: Seq<char>) -> int {
    if text.len() > 0 && text[0] == '-' {
        -digits_value(unsigned_part(text))
    } else {
        digits_value(unsigned_part(text))
    }
}

/// Whether `text` spells a 32-bit integer in decimal: an optional `+` or
/// `-`, then one digit or more and nothing else, and a value in range.
pub open spec fn spells_i32(text: Seq<char>) -> bool {
    &&& unsigned_part(text).len() > 0
    &&& forall|i: int|
        0 <= i < unsigned_part(text).len() ==> is_digit(#[trigger] unsigned_part(text)[i])
    &&& i32::MIN <= signed_value(text) <= i32::MAX
}

/// Reads `text` as a 32-bit integer in decimal.
pub fn parse_i32(text: &str) -> (parsed: Option<i32>)
    ensures
        spells_i32(text@) ==> parsed == Some(signed_value(text@) as i32),
        !spells_i32(text@) ==> parsed is None,
{
    let chars = chars_of(text);
    let n = chars.len();
    let negative = n > 0 && chars[0] == '-';
    let start: usize = if n > 0 && (chars[0] == '-' || chars[0] == '+') {
        1
    } else {
        0
    };
    let ghost digits = unsigned_part(text@);
    assert(digits == chars@.skip(start as int));
    if start == n {
        return None;
    }
    let mut magnitude: i64 = 0;
    let mut too_large = false;
    let mut i: usize = start;
    assert(digits.take(0) == Seq::<char>::empty());
    while i < n
        invariant
            start <= i <= n,
            n == chars.len(),
            digits == chars@.skip(start as int),
            digits == unsigned_part(text@),
            forall|j: int| 0 <= j < i - start ==> is_digit(#[trigger] digits[j]),
            0 <= magnitude <= 0x8000_0000,
            !too_large ==> magnitude == digits_value(digits.take(i - start)),
            too_large ==> digits_value(digits.take(i - start)) > 0x8000_0000,
        decreases n - i,
    {
        let c = chars[i];
        let code: u32 = c as u32;
        if code < 0x30 || code > 0x39 {
            assert(!is_digit(digits[i - start]));
            return None;
        }
        proof {
            let longer = digits.take(i - start + 1);
            assert(longer.drop_last() == digits.take(i - start));
            assert(longer.last() == c);
        }
        if !too_large {
            let next: i64 = magnitude * 10 + (code - 0x30) as i64;
            if next > 0x8000_0000 {
                too_large = true;
            } else {
                magnitude = next;
            }
        }
        i += 1;
    }
    assert(digits.take(i - start) == digits);
    if too_large {
        None
    } else if negative {
        Some((-magnitude) as i32)
    } else if magnitude <= 0x7FFF_FFFF {
        Some(magnitude as i32)
    } else {
        None
    }
}

} // verus!
