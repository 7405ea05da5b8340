//! What is shown of a line that a query has found: the words of the query
//! are set off in it, and its context is told from the context of the line
//! before.

use crate::file_utils::LogLine;
use crate::text::chars_to_string;
use crate::token::{texts, to_chars, upper, upper_chars, ESC};
use colorize::AnsiColor;
use vstd::prelude::*;
use vstd::string::StringExecFns;

verus! {

/// `text` begins with the two characters that start a control sequence.
pub open spec fn starts_control(text: Seq<char>) -> bool {
    text.len() >= 2 && text[0] == ESC && text[1] == '['
}

/// `reset` has the form of the control sequence that ends a colour: it
/// starts with the escape character, `[0;`, and ends with `m`. The colours
/// that it names are those in force when the text was painted.
pub open spec fn is_reset(reset: Seq<char>) -> bool {
    "\x1b[0;"@.is_prefix_of(reset) && reset.last() == 'm'
}

/// `text` in the colour with the number `code`, ended by `reset`: the
/// control sequence that selects the colour, the text, and `reset`. A text
/// that itself begins a control sequence has the colour put in front of the
/// parameters of that sequence instead, and no reset behind.
pub open spec fn painted(code: Seq<char>, text: Seq<char>, reset: Seq<char>) -> Seq<char> {
    if starts_control(text) {
        "\x1b["@ + code + ";"@ + text.skip(2)
    } else {
        "\x1b["@ + code + "m"@ + text + reset
    }
}

/// `shown` is `text` in the colour with the number `code`.
pub open spec fn is_painted(shown: Seq<char>, code: Seq<char>, text: Seq<char>) -> bool {
    exists|reset: Seq<char>| is_reset(reset) && shown == #[trigger] painted(code, text, reset)
}

/// `AnsiColor::red` of colorize.
///
/// Assumed, not proved: the call puts the control sequence for colour 31
/// in front of the text and a reset behind it, or, where the text begins a
/// control sequence, the colour in front of the parameters of that
/// sequence. Which colours the reset names is not assumed.
#[verifier::external_body]
fn paint_red(text: String) -> (shown: String)
    ensures
        is_painted(shown@, "31"@, text@),
{
    text.red()
}

/// `AnsiColor::b_grey` of colorize.
///
/// Assumed, not proved: the call puts the control sequence for colour 97
/// in front of the text and a reset behind it, or, where the text begins a
/// control sequence, the colour in front of the parameters of that
/// sequence. Which colours the reset names is not assumed.
#[verifier::external_body]
fn paint_grey(text: String) -> (shown: String)
    ensures
        is_painted(shown@, "97"@, text@),
{
    text.b_grey()
}

/// `a` and `b` are the same letter but for their case.
pub open spec fn same_letter(a: char, b: char) -> bool {
    upper(a) == upper(b)
}

/// `word` stands in `line` at position `at`, case aside. A word without
/// characters stands nowhere.
pub open spec fn word_at(line: Seq<char>, word: Seq<char>, at: int) -> bool {
    &&& word.len() > 0
    &&& 0 <= at
    &&& at + word.len() <= line.len()
    &&& forall|k: int| 0 <= k < word.len() ==> same_letter(#[trigger] line[at + k], word[k])
}

/// The first of the first `n` words that stands in `line` at position `at`.
pub open spec fn first_word_at(line: Seq<char>, words: Seq<Seq<char>>, at: int, n: nat) -> Option<
    int,
>
    decreases n,
{
    if n == 0 {
        None
    } else {
        match first_word_at(line, words, at, (n - 1) as nat) {
            Some(i) => Some(i),
            None => if word_at(line, words[n - 1], at) {
                Some(n - 1)
            } else {
                None
            },
        }
    }
}

/// The parts of `line` from position `at` on that are set off: from left to
/// right, wherever one of `words` stands, the first such word is set off
/// and the search goes on behind it.
pub open spec fn highlights(line: Seq<char>, words: Seq<Seq<char>>, at: int) -> Seq<(int, int)>
    decreases line.len() - at,
{
    if at < 0 || at >= line.len() {
        Seq::empty()
    } else {
        match first_word_at(line, words, at, words.len()) {
            Some(i) => {
                proof {
                    lemma_first_word_at(line, words, at, words.len());
                }
                seq![(at, at + words[i].len())] + highlights(line, words, at + words[i].len())
            },
            None => highlights(line, words, at + 1),
        }
    }
}

/// The characters of `words`.
pub open spec fn word_chars(words: Seq<Vec<char>>) -> Seq<Seq<char>> {
    words.map_values(|word: Vec<char>| word@)
}

/// The parts of `spans` as positions.
pub open spec fn span_positions(spans: Seq<(usize, usize)>) -> Seq<(int, int)> {
    spans.map_values(|span: (usize, usize)| (span.0 as int, span.1 as int))
}

/// The first word that stands at a position is one of the words and
/// stands there; where there is none, no word stands there.
pub proof fn lemma_first_word_at(line: Seq<char>, words: Seq<Seq<char>>, at: int, n: nat)
    requires
        n <= words.len(),
    ensures
        match first_word_at(line, words, at, n) {
            Some(i) => 0 <= i < n && word_at(line, words[i], at),
            None => forall|j: int| 0 <= j < n ==> !word_at(line, #[trigger] words[j], at),
        },
    decreases n,
{
    if n > 0 {
        lemma_first_word_at(line, words, at, (n - 1) as nat);
    }
}

/// Whether `a` and `b` are the same letter but for their case.
pub fn is_same_letter(a: char, b: char) -> (r: bool)
    ensures
        r == same_letter(a, b),
{
    if a == b {
        return true;
    }
    let upper_a = to_chars(upper_chars(a).as_str());
    let upper_b = to_chars(upper_chars(b).as_str());
    if upper_a.len() != upper_b.len() {
        return false;
    }
    let mut k: usize = 0;
    while k < upper_a.len()
        invariant
            k <= upper_a@.len(),
            upper_a@.len() == upper_b@.len(),
            upper_a@ == upper(a),
            upper_b@ == upper(b),
            forall|j: int| 0 <= j < k ==> upper_a@[j] == upper_b@[j],
        decreases upper_a@.len() - k,
    {
        if upper_a[k] != upper_b[k] {
            return false;
        }
        k = k + 1;
    }
    assert(upper_a@ =~= upper_b@);
    true
}

/// Whether `word` stands in `line` at position `at`, case aside.
pub fn is_word_at(line: &Vec<char>, word: &Vec<char>, at: usize) -> (r: bool)
    ensures
        r == word_at(line@, word@, at as int),
{
    let len = line.len();
    if word.len() == 0 || at > len || word.len() > len - at {
        return false;
    }
    let mut k: usize = 0;
    while k < word.len()
        invariant
            k <= word@.len(),
            at + word@.len() <= len,
            len == line@.len(),
            forall|j: int| 0 <= j < k ==> same_letter(#[trigger] line@[at + j], word@[j]),
        decreases word@.len() - k,
    {
        if !is_same_letter(line[at + k], word[k]) {
            assert(!same_letter(line@[at + k], word@[k as int]));
            return false;
        }
        k = k + 1;
    }
    true
}

/// The parts of `line` in which one of `words` stands, from left to right.
pub fn find_highlights(line: &Vec<char>, words: &Vec<Vec<char>>) -> (spans: Vec<(usize, usize)>)
    ensures
        span_positions(spans@) == highlights(line@, word_chars(words@), 0),
        forall|i: int|
            0 <= i < spans@.len() ==> (#[trigger] spans@[i]).0 < spans@[i].1 <= line@.len(),
        forall|i: int| 0 <= i < spans@.len() - 1 ==> (#[trigger] spans@[i]).1 <= spans@[i + 1].0,
{
    let ghost texts = word_chars(words@);
    let len = line.len();
    let mut spans: Vec<(usize, usize)> = Vec::new();
    let mut at: usize = 0;
    while at < len
        invariant
            at <= len,
            len == line@.len(),
            texts == word_chars(words@),
            highlights(line@, texts, 0) == span_positions(spans@) + highlights(
                line@,
                texts,
                at as int,
            ),
            forall|i: int|
                0 <= i < spans@.len() ==> (#[trigger] spans@[i]).0 < spans@[i].1 <= at,
            forall|i: int|
                0 <= i < spans@.len() - 1 ==> (#[trigger] spans@[i]).1 <= spans@[i + 1].0,
        decreases len - at,
    {
        let mut found: Option<usize> = None;
        let mut j: usize = 0;
        while j < words.len() && found.is_none()
            invariant
                j <= words@.len(),
                at < len,
                len == line@.len(),
                texts == word_chars(words@),
                match found {
                    Some(i) => first_word_at(line@, texts, at as int, j as nat) == Some(i as int)
                        && i < j,
                    None => first_word_at(line@, texts, at as int, j as nat).is_none(),
                },
                found is Some ==> first_word_at(line@, texts, at as int, words@.len())
                    == first_word_at(line@, texts, at as int, j as nat),
            decreases words@.len() - j,
        {
            assert(texts[j as int] == words@[j as int]@);
            if is_word_at(line, &words[j], at) {
                found = Some(j);
                proof {
                    lemma_first_word_stays(line@, texts, at as int, (j + 1) as nat, words@.len());
                }
            }
            j = j + 1;
        }
        let ghost before = spans@;
        match found {
            Some(i) => {
                proof {
                    lemma_first_word_at(line@, texts, at as int, words@.len());
                    assert(texts[i as int] == words@[i as int]@);
                }
                let end = at + words[i].len();
                spans.push((at, end));
                proof {
                    assert(span_positions(spans@) =~= span_positions(before).push(
                        (at as int, end as int),
                    ));
                    assert(span_positions(spans@) + highlights(line@, texts, end as int)
                        =~= span_positions(before) + (seq![(at as int, end as int)] + highlights(
                        line@,
                        texts,
                        end as int,
                    )));
                }
                at = end;
            },
            None => {
                at = at + 1;
            },
        }
    }
    assert(span_positions(spans@) + highlights(line@, texts, at as int) =~= span_positions(spans@));
    spans
}

/// A word that is the first to stand at a position among some words is the
/// first among more.
pub proof fn lemma_first_word_stays(
    line: Seq<char>,
    words: Seq<Seq<char>>,
    at: int,
    n: nat,
    m: nat,
)
    requires
        n <= m,
        first_word_at(line, words, at, n) is Some,
    ensures
        first_word_at(line, words, at, m) == first_word_at(line, words, at, n),
    decreases m,
{
    if n < m {
        lemma_first_word_stays(line, words, at, n, (m - 1) as nat);
    }
}

/// What is shown of `line` up to the end of the first `k` of the parts
/// `spans`: the text between the parts as it is, and each part in red, ended
/// by its reset of `resets`.
pub open spec fn shown_before(
    line: Seq<char>,
    spans: Seq<(int, int)>,
    resets: Seq<Seq<char>>,
    k: int,
) -> Seq<char>
    decreases k,
{
    if k <= 0 {
        Seq::empty()
    } else {
        shown_before(line, spans, resets, k - 1) + line.subrange(
            if k == 1 {
                0
            } else {
                spans[k - 2].1
            },
            spans[k - 1].0,
        ) + painted("31"@, line.subrange(spans[k - 1].0, spans[k - 1].1), resets[k - 1])
    }
}

/// What is shown of `line` with the parts `spans` set off in red: all the
/// parts and the text between them, then the text behind the last part.
pub open spec fn shown_line(line: Seq<char>, spans: Seq<(int, int)>, resets: Seq<Seq<char>>) -> Seq<
    char,
> {
    shown_before(line, spans, resets, spans.len() as int) + line.subrange(
        if spans.len() == 0 {
            0
        } else {
            spans.last().1
        },
        line.len() as int,
    )
}

/// `shown` is `line` with every part set off in red in which one of `words`
/// stands: nothing of the line is lost or moved, and only those parts are
/// wrapped.
pub open spec fn is_highlighted(shown: Seq<char>, line: Seq<char>, words: Seq<Seq<char>>) -> bool {
    exists|resets: Seq<Seq<char>>|
        {
            &&& resets.len() == highlights(line, words, 0).len()
            &&& forall|i: int| 0 <= i < resets.len() ==> is_reset(#[trigger] resets[i])
            &&& shown == #[trigger] shown_line(line, highlights(line, words, 0), resets)
        }
}

/// Without words nothing is set off.
pub proof fn lemma_no_words_no_highlights(line: Seq<char>, at: int)
    ensures
        highlights(line, Seq::<Seq<char>>::empty(), at) == Seq::<(int, int)>::empty(),
    decreases line.len() - at,
{
    if 0 <= at < line.len() {
        lemma_no_words_no_highlights(line, at + 1);
    }
}

/// What is shown up to a part does not depend on the resets of later parts.
pub proof fn lemma_shown_before_resets(
    line: Seq<char>,
    spans: Seq<(int, int)>,
    resets: Seq<Seq<char>>,
    others: Seq<Seq<char>>,
    k: int,
)
    requires
        forall|i: int| 0 <= i < k ==> resets[i] == others[i],
    ensures
        shown_before(line, spans, resets, k) == shown_before(line, spans, others, k),
    decreases k,
{
    if k > 0 {
        lemma_shown_before_resets(line, spans, resets, others, k - 1);
    }
}

/// The line with every part set off in red in which one of `words` stands,
/// case aside. Where no word stands in the line, the line comes back as it
/// is.
pub fn highlight_words(line: &str, words: &Vec<String>) -> (shown: String)
    ensures
        is_highlighted(shown@, line@, texts(words@)),
        highlights(line@, texts(words@), 0).len() == 0 ==> shown@ == line@,
        words@.len() == 0 ==> shown@ == line@,
{
    proof {
        if words@.len() == 0 {
            assert(texts(words@) =~= Seq::<Seq<char>>::empty());
            lemma_no_words_no_highlights(line@, 0);
        }
    }
    let chars = to_chars(line);
    let mut word_list: Vec<Vec<char>> = Vec::new();
    let mut i: usize = 0;
    while i < words.len()
        invariant
            i <= words@.len(),
            word_chars(word_list@) == texts(words@).take(i as int),
        decreases words@.len() - i,
    {
        let ghost earlier = word_list@;
        word_list.push(to_chars(words[i].as_str()));
        i = i + 1;
        assert(word_chars(word_list@) =~= word_chars(earlier).push(words@[i - 1]@));
        assert(word_chars(word_list@) =~= texts(words@).take(i as int));
    }
    assert(texts(words@).take(i as int) =~= texts(words@));
    let spans = find_highlights(&chars, &word_list);
    let ghost parts = span_positions(spans@);
    let ghost mut resets: Seq<Seq<char>> = Seq::empty();
    let mut shown = String::new();
    let mut at: usize = 0;
    let mut k: usize = 0;
    while k < spans.len()
        invariant
            k <= spans@.len(),
            at <= chars@.len(),
            k == 0 ==> at == 0,
            k > 0 ==> at == spans@[k - 1].1,
            parts == span_positions(spans@),
            resets.len() == k,
            forall|i: int| 0 <= i < k ==> is_reset(#[trigger] resets[i]),
            shown@ == shown_before(chars@, parts, resets, k as int),
            forall|i: int|
                0 <= i < spans@.len() ==> (#[trigger] spans@[i]).0 < spans@[i].1 <= chars@.len(),
            forall|i: int|
                0 <= i < spans@.len() - 1 ==> (#[trigger] spans@[i]).1 <= spans@[i + 1].0,
        decreases spans@.len() - k,
    {
        let (start, end) = spans[k];
        proof {
            if k > 0 {
                assert(spans@[k - 1].1 <= spans@[k as int].0);
                assert(parts[k - 1] == (spans@[k - 1].0 as int, spans@[k - 1].1 as int));
            }
            assert(parts[k as int] == (start as int, end as int));
        }
        let plain = chars_to_string(&chars, at, start);
        shown.append(plain.as_str());
        let text = chars_to_string(&chars, start, end);
        let ghost word = text@;
        let part = paint_red(text);
        shown.append(part.as_str());
        proof {
            let reset = choose|reset: Seq<char>|
                is_reset(reset) && part@ == #[trigger] painted("31"@, word, reset);
            let longer = resets.push(reset);
            lemma_shown_before_resets(chars@, parts, resets, longer, k as int);
            assert(shown@ =~= shown_before(chars@, parts, longer, k + 1));
            resets = longer;
        }
        at = end;
        k = k + 1;
    }
    let rest = chars_to_string(&chars, at, chars.len());
    shown.append(rest.as_str());
    proof {
        if spans@.len() > 0 {
            assert(parts.last() == (spans@[spans@.len() - 1].0 as int, at as int));
        }
        assert(shown@ =~= shown_line(line@, parts, resets));
        if spans@.len() == 0 {
            assert(shown@ =~= line@);
        }
    }
    shown
}

/// A line has context where lines before or after it are shown with it.
pub open spec fn has_context(line: LogLine) -> bool {
    line.before@.len() > 0 || line.after@.len() > 0
}

/// Number of lines that are printed ahead of a line and its context: one
/// for the separator where there is one.
pub open spec fn separator_lines(line: LogLine, show_separator: bool) -> int {
    if has_context(line) && show_separator {
        1
    } else {
        0
    }
}

/// What is printed for a line that was found: a separator `--` where the
/// line has context and a line with context was shown before, the lines
/// before it in grey, the line with the words of the query in red, and the
/// lines after it in grey. `show_separator` tells whether a line with
/// context was shown before, and is set once one is.
pub fn render_line(line: &LogLine, highlight: &Vec<String>, show_separator: &mut bool) -> (out: Vec<
    String,
>)
    ensures
        *final(show_separator) == (*old(show_separator) || has_context(*line)),
        out@.len() == separator_lines(*line, *old(show_separator)) + line.before@.len() + 1
            + line.after@.len(),
        has_context(*line) && *old(show_separator) ==> out@[0]@ == "--"@,
        forall|i: int|
            0 <= i < line.before@.len() ==> is_painted(
                (#[trigger] out@[separator_lines(*line, *old(show_separator)) + i])@,
                "97"@,
                line.before@[i]@,
            ),
        is_highlighted(
            out@[separator_lines(*line, *old(show_separator)) + line.before@.len()]@,
            line.line@,
            texts(highlight@),
        ),
        forall|i: int|
            0 <= i < line.after@.len() ==> is_painted(
                (#[trigger] out@[separator_lines(*line, *old(show_separator)) + line.before@.len()
                    + 1 + i])@,
                "97"@,
                line.after@[i]@,
            ),
{
    let mut out: Vec<String> = Vec::new();
    let ghost base = separator_lines(*line, *show_separator);
    if line.before.len() > 0 || line.after.len() > 0 {
        if *show_separator {
            out.push(String::from_str("--"));
        } else {
            *show_separator = true;
        }
    }
    let mut i: usize = 0;
    while i < line.before.len()
        invariant
            i <= line.before@.len(),
            0 <= base <= 1,
            out@.len() == base + i,
            base == 1 ==> out@[0]@ == "--"@,
            forall|j: int|
                0 <= j < i ==> is_painted((#[trigger] out@[base + j])@, "97"@, line.before@[j]@),
        decreases line.before@.len() - i,
    {
        let ghost earlier = out@;
        let shown = paint_grey(line.before[i].clone());
        out.push(shown);
        proof {
            assert forall|j: int| 0 <= j < i + 1 implies is_painted(
                (#[trigger] out@[base + j])@,
                "97"@,
                line.before@[j]@,
            ) by {
                if j < i {
                    assert(out@[base + j] == earlier[base + j]);
                }
            }
        }
        i = i + 1;
    }
    let ghost above = out@;
    let before_len = line.before.len();
    out.push(highlight_words(line.line.as_str(), highlight));
    let mut i: usize = 0;
    while i < line.after.len()
        invariant
            i <= line.after@.len(),
            0 <= base <= 1,
            before_len == line.before@.len(),
            out@.len() == base + before_len + 1 + i,
            base == 1 ==> out@[0]@ == "--"@,
            forall|j: int|
                0 <= j < before_len ==> is_painted(
                    (#[trigger] out@[base + j])@,
                    "97"@,
                    line.before@[j]@,
                ),
            is_highlighted(out@[base + before_len]@, line.line@, texts(highlight@)),
            forall|j: int|
                0 <= j < i ==> is_painted(
                    (#[trigger] out@[base + before_len + 1 + j])@,
                    "97"@,
                    line.after@[j]@,
                ),
        decreases line.after@.len() - i,
    {
        let ghost earlier = out@;
        let shown = paint_grey(line.after[i].clone());
        out.push(shown);
        proof {
            assert forall|j: int| 0 <= j < before_len implies is_painted(
                (#[trigger] out@[base + j])@,
                "97"@,
                line.before@[j]@,
            ) by {
                assert(out@[base + j] == earlier[base + j]);
            }
            assert(out@[base + before_len] == earlier[base + before_len]);
            assert forall|j: int| 0 <= j < i + 1 implies is_painted(
                (#[trigger] out@[base + before_len + 1 + j])@,
                "97"@,
                line.after@[j]@,
            ) by {
                if j < i {
                    assert(out@[base + before_len + 1 + j] == earlier[base + before_len + 1 + j]);
                }
            }
        }
        i = i + 1;
    }
    out
}

} // verus!
