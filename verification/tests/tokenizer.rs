use logix::query::parse_words;
use logix::token::tokenize;

fn words(line: &str) -> Vec<String> {
    tokenize(line)
}

#[test]
fn words_are_upper_cased() {
    assert_eq!(words("2024 ERROR disk full"), vec!["ERROR", "DISK", "FULL"]);
}

#[test]
fn empty_line_has_no_tokens() {
    assert_eq!(words(""), Vec::<String>::new());
}

#[test]
fn single_characters_are_dropped() {
    assert_eq!(words("a b cd e fg"), vec!["CD", "FG"]);
    assert_eq!(words("x"), Vec::<String>::new());
}

#[test]
fn punctuation_and_digits_separate_words() {
    assert_eq!(words("disk-full,retry:3times"), vec!["DISK", "FULL", "RETRY", "TIMES"]);
}

#[test]
fn escape_sequence_contributes_nothing() {
    assert_eq!(words("\x1b[31m"), Vec::<String>::new());
    assert_eq!(words("\x1b[0;31mhello\x1b[0m world"), vec!["HELLO", "WORLD"]);
}

#[test]
fn escape_sequence_takes_its_final_letter() {
    assert_eq!(words("\x1b[1;32mok"), vec!["OK"]);
    assert_eq!(words("\x1b[Kdone"), vec!["DONE"]);
}

#[test]
fn escape_without_final_letter_is_no_sequence() {
    assert_eq!(words("\x1b[12 34"), Vec::<String>::new());
    assert_eq!(words("ab \x1b[12"), vec!["AB"]);
}

#[test]
fn escape_without_bracket_is_a_separator() {
    assert_eq!(words("ab\x1bcd"), vec!["AB", "CD"]);
}

#[test]
fn long_hex_run_is_skipped() {
    assert_eq!(words("deadbeefcafe1234"), Vec::<String>::new());
    assert_eq!(words("id 0123456789abcdef done"), vec!["ID", "DONE"]);
}

#[test]
fn hex_run_of_eight_is_a_word() {
    assert_eq!(words("deadbeef"), vec!["DEADBEEF"]);
    assert_eq!(words("deadbeefx"), vec!["DEADBEEFX"]);
}

#[test]
fn hex_run_of_nine_is_skipped() {
    assert_eq!(words("deadbeefc"), Vec::<String>::new());
}

#[test]
fn letters_behind_a_long_hex_run_are_a_word() {
    assert_eq!(words("deadbeefcafexyz"), vec!["XYZ"]);
}

#[test]
fn letters_beyond_ascii_are_letters() {
    assert_eq!(words("héllo wörld"), vec!["HÉLLO", "WÖRLD"]);
    assert_eq!(words("日本語 ab"), vec!["日本語", "AB"]);
}

#[test]
fn symbols_beyond_ascii_are_separators() {
    assert_eq!(words("ab💝cd"), vec!["AB", "CD"]);
    assert_eq!(words("ab×cd"), vec!["AB", "CD"]);
}

#[test]
fn upper_case_may_take_more_characters() {
    assert_eq!(words("straße"), vec!["STRASSE"]);
}

#[test]
fn two_characters_beyond_ascii_are_a_word() {
    assert_eq!(words("é"), Vec::<String>::new());
    assert_eq!(words("éé"), vec!["ÉÉ"]);
}

#[test]
fn tokens_are_their_own_tokens() {
    for line in ["2024 ERROR disk full", "xdeadbeefcafe went away", "a bc def"] {
        for token in words(line) {
            assert_eq!(words(&token), vec![token.clone()]);
            assert!(token.chars().count() >= 2);
            assert!(token.chars().all(|c| c.is_ascii_uppercase()));
        }
    }
}

#[test]
fn query_words_are_the_tokens_of_the_indexer() {
    for line in ["2024 ERROR disk full", "\x1b[0;31mhello\x1b[0m wörld", "deadbeefcafexyz ab"] {
        assert_eq!(parse_words(line), tokenize(line));
    }
}

#[test]
fn upper_case_may_turn_letters_into_a_hex_run() {
    assert_eq!(words("ﬀﬀﬀﬀﬀ"), vec!["FFFFFFFFFF"]);
    assert_eq!(words("FFFFFFFFFF"), Vec::<String>::new());
}
