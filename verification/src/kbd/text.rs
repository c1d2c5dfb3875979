//! Text helpers for the configuration grammar: comparing words and
//! splitting a line at a separator.

use vstd::prelude::*;
use vstd::string::*;

verus! {

/// The lower-case form of an ASCII capital; any other character as it is.
pub open spec fn lower_char(c: char) -> char {
    if 'A' <= c && c <= 'Z' {
        ((c as u8 + 32) as u8) as char
    } else {
        c
    }
}

/// A word with its ASCII capitals in lower case.
pub open spec fn lower(word: Seq<char>) -> Seq<char> {
    Seq::new(word.len(), |i: int| lower_char(word[i]))
}

/// The lower-case form of an ASCII capital; any other character as it is.
pub fn to_lower_char(c: char) -> (res: char)
    ensures
        res == lower_char(c),
{
    if 'A' <= c && c <= 'Z' {
        ((c as u8) + 32) as char
    } else {
        c
    }
}

/// Whether two texts are the same, character by character.
pub fn same_text(a: &str, b: &str) -> (res: bool)
    ensures
        res == (a@ == b@),
{
    let n = a.unicode_len();
    if n != b.unicode_len() {
        return false;
    }
    let mut i: usize = 0;
    while i < n
        invariant
            i <= n,
            n == a@.len(),
            n == b@.len(),
            forall|k: int| 0 <= k < i ==> a@[k] == b@[k],
        decreases n - i,
    {
        if a.get_char(i) != b.get_char(i) {
            return false;
        }
        i = i + 1;
    }
    assert(a@ =~= b@);
    true
}

/// Whether `word`, with its ASCII capitals in lower case, reads as `name`.
pub fn same_text_ignore_case(word: &str, name: &str) -> (res: bool)
    ensures
        res == (lower(word@) == name@),
{
    let n = word.unicode_len();
    if n != name.unicode_len() {
        return false;
    }
    let mut i: usize = 0;
    while i < n
        invariant
            i <= n,
            n == word@.len(),
            n == name@.len(),
            forall|k: int| 0 <= k < i ==> lower_char(word@[k]) == name@[k],
        decreases n - i,
    {
        if to_lower_char(word.get_char(i)) != name.get_char(i) {
            assert(lower(word@)[i as int] != name@[i as int]);
            return false;
        }
        i = i + 1;
    }
    assert(lower(word@) =~= name@);
    true
}

/// The words of `s[start..]`, where `s[start..i]` holds no separator.
pub open spec fn split_at(s: Seq<char>, sep: char, start: int, i: int) -> Seq<Seq<char>>
    decreases s.len() - i,
{
    if i >= s.len() {
        seq![s.subrange(start, s.len() as int)]
    } else if s[i] == sep {
        seq![s.subrange(start, i)] + split_at(s, sep, i + 1, i + 1)
    } else {
        split_at(s, sep, start, i + 1)
    }
}

/// The pieces of `s` between the occurrences of `sep`, empty pieces
/// included: one piece more than there are separators.
pub open spec fn split(s: Seq<char>, sep: char) -> Seq<Seq<char>> {
    split_at(s, sep, 0, 0)
}

/// The texts that a list of strings holds.
pub open spec fn texts(words: Seq<String>) -> Seq<Seq<char>> {
    Seq::new(words.len(), |i: int| words[i]@)
}

/// Splits `s` at every occurrence of `sep`.
pub fn split_words(s: &str, sep: char) -> (words: Vec<String>)
    ensures
        texts(words@) == split(s@, sep),
{
    let n = s.unicode_len();
    let mut words: Vec<String> = Vec::new();
    let mut start: usize = 0;
    let mut i: usize = 0;
    while i < n
        invariant
            n == s@.len(),
            start <= i <= n,
            split(s@, sep) == texts(words@) + split_at(s@, sep, start as int, i as int),
        decreases n - i,
    {
        if s.get_char(i) == sep {
            let word = s.substring_char(start, i).to_owned();
            let ghost before = texts(words@);
            words.push(word);
            proof {
                assert(texts(words@) =~= before + seq![s@.subrange(start as int, i as int)]);
                assert(before + (seq![s@.subrange(start as int, i as int)] + split_at(
                    s@,
                    sep,
                    i + 1,
                    i + 1,
                )) =~= texts(words@) + split_at(s@, sep, i + 1, i + 1));
            }
            start = i + 1;
        }
        i = i + 1;
    }
    let word = s.substring_char(start, n).to_owned();
    let ghost before = texts(words@);
    words.push(word);
    proof {
        assert(texts(words@) =~= before + seq![s@.subrange(start as int, n as int)]);
    }
    words
}

} // verus!
