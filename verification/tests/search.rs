use logix::error::IxError;
use logix::index::builder::IxBuilder;
use logix::index::reader::IxReader;

fn build(lines: &[(&str, u64)]) -> Vec<u8> {
    let mut builder = IxBuilder::new();
    for (line, offset) in lines {
        builder.add_line(line, *offset);
    }
    let mut index = Vec::new();
    builder.write(&mut index).unwrap();
    index
}

fn search(ix: &IxReader, query: &str, whole_words: bool) -> Vec<u64> {
    let (mut lines, _) = ix.find_matches(query, whole_words).unwrap();
    let mut offsets = Vec::new();
    while let Some(offset) = lines.next() {
        offsets.push(offset);
    }
    offsets
}

fn two_lines() -> IxReader {
    IxReader::new(build(&[("2024 ERROR disk full", 0), ("2024 WARN disk ok", 22)])).unwrap()
}

#[test]
fn single_word_finds_its_line() {
    assert_eq!(search(&two_lines(), "ERROR", false), vec![0]);
}

#[test]
fn query_is_case_insensitive() {
    assert_eq!(search(&two_lines(), "disk", false), vec![0, 22]);
}

#[test]
fn alternatives_come_out_ascending() {
    assert_eq!(search(&two_lines(), "ERROR|WARN", false), vec![0, 22]);
}

#[test]
fn words_of_one_alternative_must_all_occur() {
    assert_eq!(search(&two_lines(), "ERROR disk", false), vec![0]);
}

#[test]
fn empty_log_gives_empty_directory() {
    let ix = IxReader::new(build(&[])).unwrap();
    assert_eq!(ix.words_section.words.len(), 0);
    assert_eq!(search(&ix, "ERROR", false), Vec::<u64>::new());
    assert_eq!(search(&ix, "ERROR|WARN disk", true), Vec::<u64>::new());
}

#[test]
fn query_without_words_is_empty_query() {
    let ix = two_lines();
    assert!(matches!(ix.find_matches(" | 12 ", false), Err(IxError::EmptyQuery)));
}
