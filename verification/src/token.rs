//! The tokenizer: a line of text becomes its list of normalized words. The
//! same function serves the indexer and the query parser.

use vstd::prelude::*;

verus! {

/// Whether `c` has the Unicode property `Alphabetic`.
pub uninterp spec fn unicode_alphabetic(c: char) -> bool;

/// The upper-case mapping of `c` in Unicode: one character or several.
pub uninterp spec fn unicode_upper(c: char) -> Seq<char>;

/// `char::is_alphabetic` returns whether the character has the Unicode
/// property `Alphabetic`; nothing more is assumed of it.
pub assume_specification[ char::is_alphabetic ](c: char) -> (b: bool)
    ensures
        b == unicode_alphabetic(c),
;

/// `String::push` appends the character to the string.
pub assume_specification[ String::push ](s: &mut String, c: char)
    ensures
        final(s)@ == old(s)@.push(c),
;

/// `char::to_uppercase`, its characters collected in order.
///
/// Assumed, not proved: the call returns the upper-case mapping of `c`.
#[verifier::external_body]
fn to_upper_chars(c: char) -> (mapped: Vec<char>)
    ensures
        mapped@ == unicode_upper(c),
{
    c.to_uppercase().collect()
}

/// The escape character that starts a control sequence.
pub const ESC: char = '\u{1b}';

/// The longest run of hexadecimal digits that is still read as text.
pub const MAX_HEX_RUN: usize = 8;

/// The shortest word that becomes a token.
pub const MIN_TOKEN_LEN: usize = 2;

/// `c` is one of `a` to `z` or `A` to `Z`.
pub open spec fn is_ascii_letter(c: char) -> bool {
    ('a' <= c && c <= 'z') || ('A' <= c && c <= 'Z')
}

/// `c` is a hexadecimal digit.
pub open spec fn is_hex_digit(c: char) -> bool {
    ('0' <= c && c <= '9') || ('a' <= c && c <= 'f') || ('A' <= c && c <= 'F')
}

/// `c` can stand in a word: an ASCII letter, or a character beyond ASCII
/// that Unicode calls alphabetic.
pub open spec fn is_letter(c: char) -> bool {
    if (c as u32) < 0x80 {
        is_ascii_letter(c)
    } else {
        unicode_alphabetic(c)
    }
}

/// The upper-case form of `c`. ASCII letters map within ASCII, other ASCII
/// characters stay; beyond ASCII the Unicode mapping holds, and a character
/// that it maps to nothing stays as it is.
pub open spec fn upper(c: char) -> Seq<char> {
    if 'a' <= c && c <= 'z' {
        seq![((c as u32) - 32) as char]
    } else if (c as u32) < 0x80 || unicode_upper(c).len() == 0 {
        seq![c]
    } else {
        unicode_upper(c)
    }
}

/// The upper-case form of `s`, character by character.
pub open spec fn upper_all(s: Seq<char>) -> Seq<char>
    decreases s.len(),
{
    if s.len() == 0 {
        Seq::empty()
    } else {
        upper_all(s.drop_last()) + upper(s.last())
    }
}

/// Number of hexadecimal digits in a row from position `i` on.
pub open spec fn hex_run(s: Seq<char>, i: int) -> nat
    decreases s.len() - i,
{
    if 0 <= i < s.len() && is_hex_digit(s[i]) {
        1 + hex_run(s, i + 1)
    } else {
        0
    }
}

/// Number of letters in a row from position `i` on.
pub open spec fn letter_run(s: Seq<char>, i: int) -> nat
    decreases s.len() - i,
{
    if 0 <= i < s.len() && is_letter(s[i]) {
        1 + letter_run(s, i + 1)
    } else {
        0
    }
}

/// The position after the first ASCII letter at or after `i`, or `None`
/// where there is none.
pub open spec fn after_final_letter(s: Seq<char>, i: int) -> Option<int>
    decreases s.len() - i,
{
    if i < 0 || i >= s.len() {
        None
    } else if is_ascii_letter(s[i]) {
        Some(i + 1)
    } else {
        after_final_letter(s, i + 1)
    }
}

/// The position after the control sequence that starts at `i`: the escape
/// character, `[`, any characters that are no ASCII letters, and one ASCII
/// letter. `None` where no such sequence starts at `i`.
pub open spec fn ansi_ctrl_end(s: Seq<char>, i: int) -> Option<int> {
    if 0 <= i && i + 1 < s.len() && s[i] == ESC && s[i + 1] == '[' {
        after_final_letter(s, i + 2)
    } else {
        None
    }
}

/// The tokens of `s` from position `i` on. At each position, in this order:
/// a control sequence is skipped; a run of more than eight hexadecimal
/// digits is skipped; a run of letters is a word, which becomes a token in
/// upper case where it has at least two characters; any other character is
/// skipped.
pub open spec fn tokens_from(s: Seq<char>, i: int) -> Seq<Seq<char>>
    decreases s.len() - i,
{
    if i < 0 || i >= s.len() {
        Seq::empty()
    } else if let Some(end) = ansi_ctrl_end(s, i) {
        proof {
            lemma_after_final_letter(s, i + 2);
        }
        tokens_from(s, end)
    } else if hex_run(s, i) > 8 {
        proof {
            lemma_hex_run(s, i);
        }
        tokens_from(s, i + hex_run(s, i))
    } else if is_letter(s[i]) {
        proof {
            lemma_letter_run(s, i);
        }
        let n = letter_run(s, i);
        if n >= 2 {
            seq![upper_all(s.subrange(i, i + n))] + tokens_from(s, i + n)
        } else {
            tokens_from(s, i + n)
        }
    } else {
        tokens_from(s, i + 1)
    }
}

/// The tokens of the line `s`.
pub open spec fn tokens_of(s: Seq<char>) -> Seq<Seq<char>> {
    tokens_from(s, 0)
}

/// The first ASCII letter at or after a position ends the search for it;
/// where there is none, no character from there on is an ASCII letter.
pub proof fn lemma_after_final_letter(s: Seq<char>, i: int)
    ensures
        match after_final_letter(s, i) {
            Some(end) => i < end <= s.len() && is_ascii_letter(s[end - 1]) && forall|j: int|
                i <= j < end - 1 ==> !is_ascii_letter(#[trigger] s[j]),
            None => forall|j: int| 0 <= i <= j < s.len() ==> !is_ascii_letter(#[trigger] s[j]),
        },
    decreases s.len() - i,
{
    if 0 <= i < s.len() && !is_ascii_letter(s[i]) {
        lemma_after_final_letter(s, i + 1);
    }
}

/// A run of hexadecimal digits lies within the line, holds hexadecimal
/// digits only, and ends where the next character is none.
pub proof fn lemma_hex_run(s: Seq<char>, i: int)
    requires
        0 <= i <= s.len(),
    ensures
        i + hex_run(s, i) <= s.len(),
        forall|j: int| i <= j < i + hex_run(s, i) ==> is_hex_digit(#[trigger] s[j]),
        i + hex_run(s, i) < s.len() ==> !is_hex_digit(s[i + hex_run(s, i)]),
    decreases s.len() - i,
{
    if i < s.len() && is_hex_digit(s[i]) {
        lemma_hex_run(s, i + 1);
    }
}

/// A run of letters lies within the line, holds letters only, and ends
/// where the next character is none.
pub proof fn lemma_letter_run(s: Seq<char>, i: int)
    requires
        0 <= i <= s.len(),
    ensures
        i + letter_run(s, i) <= s.len(),
        forall|j: int| i <= j < i + letter_run(s, i) ==> is_letter(#[trigger] s[j]),
        i + letter_run(s, i) < s.len() ==> !is_letter(s[i + letter_run(s, i)]),
    decreases s.len() - i,
{
    if i < s.len() && is_letter(s[i]) {
        lemma_letter_run(s, i + 1);
    }
}

/// The upper-case form of a string is not shorter than the string.
pub proof fn lemma_upper_all_len(s: Seq<char>)
    ensures
        upper_all(s).len() >= s.len(),
    decreases s.len(),
{
    if s.len() > 0 {
        lemma_upper_all_len(s.drop_last());
    }
}

/// Every token has at least two characters.
pub proof fn lemma_token_lengths(s: Seq<char>, i: int)
    ensures
        forall|k: int| 0 <= k < tokens_from(s, i).len() ==> (#[trigger] tokens_from(s, i)[k]).len()
            >= 2,
{
    let tokens = tokens_from(s, i);
    assert forall|k: int| 0 <= k < tokens.len() implies (#[trigger] tokens[k]).len() >= 2 by {
        let p = lemma_token_origin(s, i, k);
        lemma_upper_all_len(s.subrange(p, p + letter_run(s, p)));
    }
}

/// The position at which the word of token `k` of `s` from position `i`
/// on starts; the length of `s` where there is no such token.
pub open spec fn token_start(s: Seq<char>, i: int, k: int) -> int
    decreases s.len() - i,
{
    if i < 0 || i >= s.len() {
        s.len() as int
    } else if let Some(end) = ansi_ctrl_end(s, i) {
        proof {
            lemma_after_final_letter(s, i + 2);
        }
        token_start(s, end, k)
    } else if hex_run(s, i) > 8 {
        proof {
            lemma_hex_run(s, i);
        }
        token_start(s, i + hex_run(s, i), k)
    } else if is_letter(s[i]) {
        proof {
            lemma_letter_run(s, i);
        }
        if letter_run(s, i) >= 2 && k == 0 {
            i
        } else if letter_run(s, i) >= 2 {
            token_start(s, i + letter_run(s, i), k - 1)
        } else {
            token_start(s, i + letter_run(s, i), k)
        }
    } else {
        token_start(s, i + 1, k)
    }
}

/// The word of the line `s` that token `k` is the upper-case form of.
pub open spec fn token_word(s: Seq<char>, k: int) -> Seq<char> {
    s.subrange(token_start(s, 0, k), token_start(s, 0, k) + letter_run(s, token_start(s, 0, k)))
}

/// Where token `k` of `s` from position `i` on comes from: a position at
/// which no control sequence and no run of more than eight hexadecimal
/// digits starts, and from which at least two letters follow. The token is
/// the upper-case form of all the letters that follow in a row.
pub proof fn lemma_token_origin(s: Seq<char>, i: int, k: int) -> (p: int)
    requires
        0 <= k < tokens_from(s, i).len(),
    ensures
        p == token_start(s, i, k),
        0 <= i <= p < s.len(),
        ansi_ctrl_end(s, p).is_none(),
        hex_run(s, p) <= 8,
        letter_run(s, p) >= 2,
        p + letter_run(s, p) <= s.len(),
        tokens_from(s, i)[k] == upper_all(s.subrange(p, p + letter_run(s, p))),
    decreases s.len() - i,
{
    if let Some(end) = ansi_ctrl_end(s, i) {
        lemma_after_final_letter(s, i + 2);
        lemma_token_origin(s, end, k)
    } else if hex_run(s, i) > 8 {
        lemma_hex_run(s, i);
        lemma_token_origin(s, i + hex_run(s, i), k)
    } else if is_letter(s[i]) {
        lemma_letter_run(s, i);
        let n = letter_run(s, i);
        if n >= 2 {
            if k == 0 {
                i
            } else {
                assert(tokens_from(s, i)[k] == tokens_from(s, i + n)[k - 1]);
                lemma_token_origin(s, i + n, k - 1)
            }
        } else {
            lemma_token_origin(s, i + n, k)
        }
    } else {
        lemma_token_origin(s, i + 1, k)
    }
}

/// `c` is one of `A` to `Z`.
pub open spec fn is_ascii_upper(c: char) -> bool {
    'A' <= c && c <= 'Z'
}

/// Every character of `s` is an ASCII character.
pub open spec fn is_ascii_text(s: Seq<char>) -> bool {
    forall|i: int| 0 <= i < s.len() ==> (#[trigger] s[i] as u32) < 0x80
}

/// The upper-case form of ASCII letters has one upper-case ASCII letter for
/// each, and a hexadecimal digit exactly where there was one.
pub proof fn lemma_upper_all_ascii(s: Seq<char>)
    requires
        forall|i: int| 0 <= i < s.len() ==> is_ascii_letter(#[trigger] s[i]),
    ensures
        upper_all(s).len() == s.len(),
        forall|i: int| 0 <= i < s.len() ==> is_ascii_upper(#[trigger] upper_all(s)[i]),
        forall|i: int|
            0 <= i < s.len() ==> (is_hex_digit(#[trigger] upper_all(s)[i]) <==> is_hex_digit(s[i])),
        forall|i: int|
            0 <= i < s.len() && is_ascii_upper(s[i]) ==> #[trigger] upper_all(s)[i] == s[i],
    decreases s.len(),
{
    if s.len() > 0 {
        let front = s.drop_last();
        lemma_upper_all_ascii(front);
        assert(is_ascii_letter(s[s.len() - 1]));
        assert forall|i: int| 0 <= i < s.len() implies is_ascii_upper(#[trigger] upper_all(s)[i])
            && (is_hex_digit(upper_all(s)[i]) <==> is_hex_digit(s[i])) && (is_ascii_upper(s[i])
            ==> upper_all(s)[i] == s[i]) by {
            if i < s.len() - 1 {
                assert(upper_all(s)[i] == upper_all(front)[i]);
                assert(front[i] == s[i]);
            }
        }
    }
}

/// A word of at least two upper-case ASCII letters that does not start with
/// more than eight hexadecimal digits is its own single token.
pub proof fn lemma_upper_word_is_token(t: Seq<char>)
    requires
        t.len() >= 2,
        forall|i: int| 0 <= i < t.len() ==> is_ascii_upper(#[trigger] t[i]),
        hex_run(t, 0) <= 8,
    ensures
        tokens_of(t) == seq![t],
{
    assert(is_ascii_upper(t[0]));
    assert(is_letter(t[0]));
    lemma_all_letters(t, 0);
    lemma_upper_all_ascii(t);
    assert(upper_all(t) =~= t);
    assert(t.subrange(0, t.len() as int) =~= t);
    assert(tokens_from(t, t.len() as int) =~= Seq::<Seq<char>>::empty());
    assert(tokens_of(t) =~= seq![t]);
}

/// Where only letters follow position `i`, the run of letters from `i`
/// reaches the end.
pub proof fn lemma_all_letters(s: Seq<char>, i: int)
    requires
        0 <= i <= s.len(),
        forall|j: int| i <= j < s.len() ==> is_letter(#[trigger] s[j]),
    ensures
        letter_run(s, i) == s.len() - i,
    decreases s.len() - i,
{
    if i < s.len() {
        lemma_all_letters(s, i + 1);
    }
}

/// The hexadecimal digits at the start of the upper-case form of a word of
/// ASCII letters are not more than those that start at the word itself.
pub proof fn lemma_hex_run_of_upper(s: Seq<char>, p: int, n: int, j: int)
    requires
        0 <= p,
        0 <= j <= n,
        p + n <= s.len(),
        forall|i: int| p <= i < p + n ==> is_ascii_letter(#[trigger] s[i]),
    ensures
        hex_run(upper_all(s.subrange(p, p + n)), j) <= hex_run(s, p + j),
    decreases n - j,
{
    let word = s.subrange(p, p + n);
    let t = upper_all(word);
    assert forall|i: int| 0 <= i < word.len() implies is_ascii_letter(#[trigger] word[i]) by {
        assert(word[i] == s[p + i]);
    }
    lemma_upper_all_ascii(word);
    if j < n {
        assert(word[j] == s[p + j]);
        lemma_hex_run_of_upper(s, p, n, j + 1);
    }
}

/// Every token is the upper-case form of its word, and its word holds
/// letters only, at least two of them.
pub proof fn lemma_token_is_upper_word(s: Seq<char>, k: int)
    requires
        0 <= k < tokens_of(s).len(),
    ensures
        tokens_of(s)[k] == upper_all(token_word(s, k)),
        token_word(s, k).len() >= 2,
        forall|j: int| 0 <= j < token_word(s, k).len() ==> is_letter(#[trigger] token_word(s, k)[j]),
{
    let p = lemma_token_origin(s, 0, k);
    lemma_letter_run(s, p);
    assert forall|j: int| 0 <= j < token_word(s, k).len() implies is_letter(
        #[trigger] token_word(s, k)[j],
    ) by {
        assert(token_word(s, k)[j] == s[p + j]);
    }
}

/// A token whose word holds ASCII characters only, whatever else the line
/// holds, consists of upper-case ASCII letters only, and tokenizing it again
/// yields that token and nothing else.
pub proof fn lemma_ascii_word_token(s: Seq<char>, k: int)
    requires
        0 <= k < tokens_of(s).len(),
        is_ascii_text(token_word(s, k)),
    ensures
        forall|j: int|
            0 <= j < tokens_of(s)[k].len() ==> is_ascii_upper(#[trigger] tokens_of(s)[k][j]),
        tokens_of(tokens_of(s)[k]) == seq![tokens_of(s)[k]],
{
    let p = lemma_token_origin(s, 0, k);
    let n = letter_run(s, p) as int;
    let word = s.subrange(p, p + n);
    let token = tokens_of(s)[k];
    lemma_letter_run(s, p);
    assert forall|i: int| 0 <= i < word.len() implies is_ascii_letter(#[trigger] word[i]) by {
        assert(word[i] == s[p + i]);
        assert(is_letter(s[p + i]));
        assert((word[i] as u32) < 0x80);
    }
    assert forall|i: int| p <= i < p + n implies is_ascii_letter(#[trigger] s[i]) by {
        assert(s[i] == word[i - p]);
    }
    lemma_upper_all_ascii(word);
    lemma_hex_run_of_upper(s, p, n, 0);
    lemma_upper_word_is_token(token);
}

/// Tokenizing is idempotent on ASCII text: every token of a line of ASCII
/// characters consists of upper-case ASCII letters only, and tokenizing it
/// again yields that token and nothing else.
pub proof fn lemma_tokenize_idempotent(s: Seq<char>, k: int)
    requires
        is_ascii_text(s),
        0 <= k < tokens_of(s).len(),
    ensures
        forall|j: int|
            0 <= j < tokens_of(s)[k].len() ==> is_ascii_upper(#[trigger] tokens_of(s)[k][j]),
        tokens_of(tokens_of(s)[k]) == seq![tokens_of(s)[k]],
{
    let p = lemma_token_origin(s, 0, k);
    lemma_letter_run(s, p);
    assert forall|j: int| 0 <= j < token_word(s, k).len() implies (
    #[trigger] token_word(s, k)[j] as u32) < 0x80 by {
        assert(token_word(s, k)[j] == s[p + j]);
    }
    lemma_ascii_word_token(s, k);
}

/// A line without characters has no tokens.
pub proof fn lemma_tokens_of_empty_line()
    ensures
        tokens_of(Seq::<char>::empty()) == Seq::<Seq<char>>::empty(),
{
}

/// A line that is one control sequence has no tokens.
pub proof fn lemma_tokens_of_escape(s: Seq<char>)
    requires
        ansi_ctrl_end(s, 0) == Some(s.len() as int),
    ensures
        tokens_of(s) == Seq::<Seq<char>>::empty(),
{
    assert(tokens_from(s, s.len() as int) =~= Seq::<Seq<char>>::empty());
}

/// A line that is one run of more than eight hexadecimal digits has no
/// tokens.
pub proof fn lemma_tokens_of_long_hex(s: Seq<char>)
    requires
        s.len() > 8,
        forall|i: int| 0 <= i < s.len() ==> is_hex_digit(#[trigger] s[i]),
    ensures
        tokens_of(s) == Seq::<Seq<char>>::empty(),
{
    lemma_all_hex(s, 0);
    assert(s[0] != ESC) by {
        assert(is_hex_digit(s[0]));
    }
    assert(tokens_from(s, s.len() as int) =~= Seq::<Seq<char>>::empty());
}

/// Where only hexadecimal digits follow position `i`, the run of
/// hexadecimal digits from `i` reaches the end.
pub proof fn lemma_all_hex(s: Seq<char>, i: int)
    requires
        0 <= i <= s.len(),
        forall|j: int| i <= j < s.len() ==> is_hex_digit(#[trigger] s[j]),
    ensures
        hex_run(s, i) == s.len() - i,
    decreases s.len() - i,
{
    if i < s.len() {
        lemma_all_hex(s, i + 1);
    }
}

/// The characters of a line.
pub fn to_chars(line: &str) -> (chars: Vec<char>)
    ensures
        chars@ == line@,
{
    let mut chars: Vec<char> = Vec::new();
    for c in it: line.chars()
        invariant
            chars@ == it.seq().take(it.index()),
    {
        chars.push(c);
    }
    chars
}

/// Whether `c` is an ASCII letter.
fn is_ascii_letter_char(c: char) -> (r: bool)
    ensures
        r == is_ascii_letter(c),
{
    ('a' <= c && c <= 'z') || ('A' <= c && c <= 'Z')
}

/// Whether `c` is a hexadecimal digit.
fn is_hex_digit_char(c: char) -> (r: bool)
    ensures
        r == is_hex_digit(c),
{
    ('0' <= c && c <= '9') || ('a' <= c && c <= 'f') || ('A' <= c && c <= 'F')
}

/// Whether `c` can stand in a word.
fn is_letter_char(c: char) -> (r: bool)
    ensures
        r == is_letter(c),
{
    if (c as u32) < 0x80 {
        is_ascii_letter_char(c)
    } else {
        c.is_alphabetic()
    }
}

/// Appends the upper-case form of `c` to `out`.
fn push_upper(out: &mut String, c: char)
    ensures
        final(out)@ == old(out)@ + upper(c),
{
    if 'a' <= c && c <= 'z' {
        let code = c as u8 - 32;
        out.push(code as char);
        assert(out@ =~= old(out)@ + upper(c));
    } else if (c as u32) < 0x80 {
        out.push(c);
        assert(out@ =~= old(out)@ + upper(c));
    } else {
        let mapped = to_upper_chars(c);
        if mapped.len() == 0 {
            out.push(c);
            assert(out@ =~= old(out)@ + upper(c));
        } else {
            let mut k: usize = 0;
            while k < mapped.len()
                invariant
                    k <= mapped@.len(),
                    out@ == old(out)@ + mapped@.take(k as int),
                decreases mapped@.len() - k,
            {
                out.push(mapped[k]);
                k = k + 1;
                assert(out@ =~= old(out)@ + mapped@.take(k as int));
            }
            assert(mapped@.take(k as int) =~= mapped@);
        }
    }
}

/// The upper-case form of `c`.
pub fn upper_chars(c: char) -> (mapped: String)
    ensures
        mapped@ == upper(c),
{
    let mut mapped = String::new();
    push_upper(&mut mapped, c);
    assert(mapped@ =~= upper(c));
    mapped
}

/// The upper-case form of the characters of `chars` from `start` to `end`.
fn upper_word(chars: &Vec<char>, start: usize, end: usize) -> (word: String)
    requires
        start <= end <= chars@.len(),
    ensures
        word@ == upper_all(chars@.subrange(start as int, end as int)),
{
    let mut word = String::new();
    let mut k: usize = start;
    assert(chars@.subrange(start as int, start as int) =~= Seq::<char>::empty());
    while k < end
        invariant
            start <= k <= end <= chars@.len(),
            word@ == upper_all(chars@.subrange(start as int, k as int)),
        decreases end - k,
    {
        push_upper(&mut word, chars[k]);
        assert(chars@.subrange(start as int, k + 1).drop_last() =~= chars@.subrange(
            start as int,
            k as int,
        ));
        k = k + 1;
    }
    word
}

/// Where a control sequence starts at `i`, the position after it.
fn strip_ansi_ctrl(chars: &Vec<char>, i: usize) -> (r: Option<usize>)
    requires
        i < chars@.len(),
    ensures
        match r {
            Some(end) => ansi_ctrl_end(chars@, i as int) == Some(end as int) && i < end
                <= chars@.len(),
            None => ansi_ctrl_end(chars@, i as int).is_none(),
        },
{
    if chars[i] != ESC || chars.len() - i < 2 || chars[i + 1] != '[' {
        return None;
    }
    let mut j: usize = i + 2;
    while j < chars.len()
        invariant
            i + 2 <= j <= chars@.len(),
            ansi_ctrl_end(chars@, i as int) == after_final_letter(chars@, i + 2),
            after_final_letter(chars@, i + 2) == after_final_letter(chars@, j as int),
        decreases chars@.len() - j,
    {
        if is_ascii_letter_char(chars[j]) {
            return Some(j + 1);
        }
        j = j + 1;
    }
    None
}

/// Where more than eight hexadecimal digits start at `i`, the position after
/// them.
fn strip_long_hex(chars: &Vec<char>, i: usize) -> (r: Option<usize>)
    requires
        i < chars@.len(),
    ensures
        match r {
            Some(end) => hex_run(chars@, i as int) > 8 && end == i + hex_run(chars@, i as int)
                && end <= chars@.len(),
            None => hex_run(chars@, i as int) <= 8,
        },
{
    let mut j: usize = i;
    while j < chars.len() && is_hex_digit_char(chars[j])
        invariant
            i <= j <= chars@.len(),
            hex_run(chars@, i as int) == (j - i) + hex_run(chars@, j as int),
        decreases chars@.len() - j,
    {
        j = j + 1;
    }
    if j - i > MAX_HEX_RUN {
        Some(j)
    } else {
        None
    }
}

/// Where the character at `i` is no letter, the position after it.
fn strip_first_char(chars: &Vec<char>, i: usize) -> (r: Option<usize>)
    requires
        i < chars@.len(),
    ensures
        match r {
            Some(next) => !is_letter(chars@[i as int]) && next == i + 1,
            None => is_letter(chars@[i as int]),
        },
{
    let len = chars.len();
    if is_letter_char(chars[i]) {
        None
    } else {
        Some(i + 1)
    }
}

/// The position of the next word at or after `i`, or the length of the line
/// where there is none.
fn skip_to_word_start(chars: &Vec<char>, i: usize) -> (start: usize)
    requires
        i <= chars@.len(),
    ensures
        i <= start <= chars@.len(),
        tokens_from(chars@, i as int) == tokens_from(chars@, start as int),
        start < chars@.len() ==> {
            &&& ansi_ctrl_end(chars@, start as int).is_none()
            &&& hex_run(chars@, start as int) <= 8
            &&& is_letter(chars@[start as int])
        },
{
    let mut rest: usize = i;
    while rest < chars.len()
        invariant
            i <= rest <= chars@.len(),
            tokens_from(chars@, i as int) == tokens_from(chars@, rest as int),
        decreases chars@.len() - rest,
    {
        rest = if let Some(next) = strip_ansi_ctrl(chars, rest) {
            next
        } else if let Some(next) = strip_long_hex(chars, rest) {
            next
        } else if let Some(next) = strip_first_char(chars, rest) {
            next
        } else {
            return rest;
        };
    }
    rest
}

/// The position after the letters that start at `start`.
fn word_end(chars: &Vec<char>, start: usize) -> (end: usize)
    requires
        start <= chars@.len(),
    ensures
        end == start + letter_run(chars@, start as int),
        end <= chars@.len(),
{
    let mut j: usize = start;
    while j < chars.len() && is_letter_char(chars[j])
        invariant
            start <= j <= chars@.len(),
            letter_run(chars@, start as int) == (j - start) + letter_run(chars@, j as int),
        decreases chars@.len() - j,
    {
        j = j + 1;
    }
    j
}

/// The texts of `tokens`.
pub open spec fn texts(tokens: Seq<String>) -> Seq<Seq<char>> {
    tokens.map_values(|token: String| token@)
}

/// The normalized words of a line, in order.
pub fn tokenize(line: &str) -> (tokens: Vec<String>)
    ensures
        texts(tokens@) == tokens_of(line@),
        forall|k: int| 0 <= k < tokens@.len() ==> (#[trigger] tokens@[k])@.len() >= 2,
{
    let chars = to_chars(line);
    let tokens = tokenize_chars(&chars);
    proof {
        lemma_token_lengths(line@, 0);
        assert forall|k: int| 0 <= k < tokens@.len() implies (#[trigger] tokens@[k])@.len()
            >= 2 by {
            assert(texts(tokens@)[k] == tokens@[k]@);
        }
    }
    tokens
}

/// The normalized words of a line that is given by its characters, in
/// order.
pub fn tokenize_chars(chars: &Vec<char>) -> (tokens: Vec<String>)
    ensures
        texts(tokens@) == tokens_of(chars@),
{
    let mut tokens: Vec<String> = Vec::new();
    let mut start = skip_to_word_start(chars, 0);
    assert(texts(tokens@) + tokens_from(chars@, start as int) =~= tokens_of(chars@));
    while start < chars.len()
        invariant
            start <= chars@.len(),
            tokens_of(chars@) == texts(tokens@) + tokens_from(chars@, start as int),
            start < chars@.len() ==> {
                &&& ansi_ctrl_end(chars@, start as int).is_none()
                &&& hex_run(chars@, start as int) <= 8
                &&& is_letter(chars@[start as int])
            },
        decreases chars@.len() - start,
    {
        let end = word_end(chars, start);
        let ghost before = tokens@;
        if end - start >= MIN_TOKEN_LEN {
            let word = upper_word(chars, start, end);
            tokens.push(word);
            assert(texts(tokens@) =~= texts(before).push(word@));
            assert(texts(tokens@) + tokens_from(chars@, end as int) =~= texts(before) + (seq![
                word@,
            ] + tokens_from(chars@, end as int)));
        }
        start = skip_to_word_start(chars, end);
    }
    assert(texts(tokens@) + tokens_from(chars@, start as int) =~= texts(tokens@));
    tokens
}

} // verus!
