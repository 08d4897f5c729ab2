//! Whitespace as std's `str` methods understand it, and the trimming and
//! word splitting built on it.
use vstd::prelude::*;

verus! {

/// Whether `c` has the Unicode property White_Space, which `char::is_whitespace`
/// and the `str` methods below go by.
pub open spec fn is_white_space(c: char) -> bool {
    let u = c as u32;
    ||| 0x09 <= u <= 0x0D
    ||| u == 0x20
    ||| u == 0x85
    ||| u == 0xA0
    ||| u == 0x1680
    ||| 0x2000 <= u <= 0x200A
    ||| u == 0x2028
    ||| u == 0x2029
    ||| u == 0x202F
    ||| u == 0x205F
    ||| u == 0x3000
}

/// `s` without its leading whitespace.
pub open spec fn trimmed_start(s: Seq<char>) -> Seq<char>
    decreases s.len(),
{
    if s.len() > 0 && is_white_space(s[0]) {
        trimmed_start(s.drop_first())
    } else {
        s
    }
}

/// `s` without its trailing whitespace.
pub open spec fn trimmed_end(s: Seq<char>) -> Seq<char>
    decreases s.len(),
{
    if s.len() > 0 && is_white_space(s.last()) {
        trimmed_end(s.drop_last())
    } else {
        s
    }
}

/// `str::trim`: `s` without leading and trailing whitespace.
pub open spec fn trimmed(s: Seq<char>) -> Seq<char> {
    trimmed_end(trimmed_start(s))
}

/// The words of `s`, where `word` is the word being read when `s` begins:
/// each maximal run of characters other than whitespace, in order.
pub open spec fn words_after(word: Seq<char>, s: Seq<char>) -> Seq<Seq<char>>
    decreases s.len(),
{
    let done: Seq<Seq<char>> = if word.len() > 0 {
        seq![word]
    } else {
        Seq::empty()
    };
    if s.len() == 0 {
        done
    } else if is_white_space(s[0]) {
        done + words_after(Seq::empty(), s.drop_first())
    } else {
        words_after(word.push(s[0]), s.drop_first())
    }
}

/// `str::split_whitespace`: the maximal runs of characters other than
/// whitespace, in order.
pub open spec fn whitespace_words(s: Seq<char>) -> Seq<Seq<char>> {
    words_after(Seq::empty(), s)
}

} // verus!
