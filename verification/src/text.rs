//! Small operations on texts that are held as characters.

use crate::token::to_chars;
use vstd::prelude::*;

verus! {

/// The lower-case form of `text` in Unicode.
pub uninterp spec fn unicode_lowercase(text: Seq<char>) -> Seq<char>;

/// `str::to_lowercase`.
///
/// Assumed, not proved: the call returns the lower-case form of `text`.
#[verifier::external_body]
pub(crate) fn to_lowercase(text: &str) -> (lower: String)
    ensures
        lower@ == unicode_lowercase(text@),
{
    text.to_lowercase()
}

/// Whether `c` has the Unicode property `White_Space`.
pub uninterp spec fn unicode_white_space(c: char) -> bool;

/// `char::is_whitespace` returns whether the character has the Unicode
/// property `White_Space`; nothing more is assumed of it.
pub assume_specification[ char::is_whitespace ](c: char) -> (b: bool)
    ensures
        b == unicode_white_space(c),
;

/// Number of characters of the first `n` of `text` that are left once the
/// white space at their end is taken away.
pub open spec fn trimmed_len(text: Seq<char>, n: nat) -> nat
    decreases n,
{
    if n == 0 {
        0
    } else if unicode_white_space(text[n - 1]) {
        trimmed_len(text, (n - 1) as nat)
    } else {
        n
    }
}

/// `text` without the white space at its end: the longest start of `text`
/// that does not end in white space.
pub open spec fn trim_end_of(text: Seq<char>) -> Seq<char> {
    text.take(trimmed_len(text, text.len()) as int)
}

/// What is left of a text without the white space at its end is a start of
/// the text that does not end in white space, and only white space follows
/// it.
pub proof fn lemma_trimmed_len(text: Seq<char>, n: nat)
    requires
        n <= text.len(),
    ensures
        trimmed_len(text, n) <= n,
        trimmed_len(text, n) > 0 ==> !unicode_white_space(text[trimmed_len(text, n) - 1]),
        forall|i: int| trimmed_len(text, n) <= i < n ==> unicode_white_space(#[trigger] text[i]),
    decreases n,
{
    if n > 0 && unicode_white_space(text[n - 1]) {
        lemma_trimmed_len(text, (n - 1) as nat);
    }
}

/// `text` without the white space at its end.
pub fn trim_end(text: &str) -> (trimmed: String)
    ensures
        trimmed@ == trim_end_of(text@),
        trimmed@.is_prefix_of(text@),
{
    let chars = to_chars(text);
    let mut end: usize = chars.len();
    while end > 0 && chars[end - 1].is_whitespace()
        invariant
            end <= chars@.len(),
            trimmed_len(chars@, chars@.len()) == trimmed_len(chars@, end as nat),
        decreases end,
    {
        end = end - 1;
    }
    proof {
        lemma_trimmed_len(chars@, chars@.len());
    }
    chars_to_string(&chars, 0, end)
}

/// `needle` stands in `text` at position `at`.
pub open spec fn occurs_at(text: Seq<char>, needle: Seq<char>, at: int) -> bool {
    0 <= at && at + needle.len() <= text.len() && text.subrange(at, at + needle.len()) == needle
}

/// `needle` stands somewhere in `text`.
pub open spec fn contains_text(text: Seq<char>, needle: Seq<char>) -> bool {
    exists|at: int| occurs_at(text, needle, at)
}

/// `text` ends with `suffix`.
pub open spec fn ends_with(text: Seq<char>, suffix: Seq<char>) -> bool {
    occurs_at(text, suffix, text.len() - suffix.len())
}

/// Whether `needle` stands in `text` at position `at`.
pub fn chars_occur_at(text: &Vec<char>, needle: &Vec<char>, at: usize) -> (r: bool)
    ensures
        r == occurs_at(text@, needle@, at as int),
{
    if at > text.len() || needle.len() > text.len() - at {
        return false;
    }
    let len = text.len();
    let mut k: usize = 0;
    while k < needle.len()
        invariant
            k <= needle@.len(),
            at + needle@.len() <= len,
            len == text@.len(),
            forall|j: int| 0 <= j < k ==> text@[at + j] == needle@[j],
        decreases needle@.len() - k,
    {
        if text[at + k] != needle[k] {
            assert(text@.subrange(at as int, at + needle@.len())[k as int] != needle@[k as int]);
            return false;
        }
        k = k + 1;
    }
    assert(text@.subrange(at as int, at + needle@.len()) =~= needle@);
    true
}

/// Whether `needle` stands somewhere in `text`.
pub fn chars_contain(text: &Vec<char>, needle: &Vec<char>) -> (r: bool)
    ensures
        r == contains_text(text@, needle@),
{
    let len = text.len();
    let mut at: usize = 0;
    loop
        invariant
            at <= len,
            len == text@.len(),
            forall|j: int| 0 <= j < at ==> !occurs_at(text@, needle@, j),
        decreases len - at,
    {
        if chars_occur_at(text, needle, at) {
            return true;
        }
        if at == len {
            return false;
        }
        at = at + 1;
    }
}

/// Whether `text` ends with `suffix`.
pub fn chars_end_with(text: &Vec<char>, suffix: &Vec<char>) -> (r: bool)
    ensures
        r == ends_with(text@, suffix@),
{
    if suffix.len() > text.len() {
        return false;
    }
    chars_occur_at(text, suffix, text.len() - suffix.len())
}

/// The string of the characters of `chars` from `start` to `end`.
pub fn chars_to_string(chars: &Vec<char>, start: usize, end: usize) -> (text: String)
    requires
        start <= end <= chars@.len(),
    ensures
        text@ == chars@.subrange(start as int, end as int),
{
    let mut text = String::new();
    let mut k: usize = start;
    while k < end
        invariant
            start <= k <= end <= chars@.len(),
            text@ == chars@.subrange(start as int, k as int),
        decreases end - k,
    {
        text.push(chars[k]);
        k = k + 1;
        assert(text@ =~= chars@.subrange(start as int, k as int));
    }
    text
}

/// The characters of the lower-case form of `text`.
pub fn lower_chars(text: &str) -> (chars: Vec<char>)
    ensures
        chars@ == unicode_lowercase(text@),
{
    let lower = to_lowercase(text);
    to_chars(lower.as_str())
}

} // verus!
