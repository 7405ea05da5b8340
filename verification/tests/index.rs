use logix::error::IxError;
use logix::index::builder::IxBuilder;
use logix::index::header_section::IxHeaderSection;
use logix::index::lines_reader::LinesReader;
use logix::index::reader::{IxData, IxReader};
use logix::index::words_section::{IxWord, IxWordsSection};
use logix::index::{block_body_len, get_be, ByteReader, WriteEx};
use logix::indexing::LogIndexer;
use logix::query::{parse_words, Query};
use logix::token::tokenize;

fn drain(mut reader: LinesReader) -> Vec<u64> {
    let mut offsets = Vec::new();
    while let Some(offset) = reader.next() {
        offsets.push(offset);
    }
    offsets
}

fn bytes_of(lines: &[(&str, u64)]) -> Vec<u8> {
    let mut builder = IxBuilder::new();
    for (line, offset) in lines {
        builder.add_line(line, *offset);
    }
    let mut index = Vec::new();
    builder.write(&mut index).unwrap();
    index
}

fn index_of(lines: &[(&str, u64)]) -> IxReader {
    IxReader::new(bytes_of(lines)).unwrap()
}

/// The compressed block that `bytes` hold at `offset`, as one read of its
/// length and one read of its body give it.
fn block_at(bytes: &[u8], offset: u64) -> Vec<u8> {
    let start = (offset as usize).min(bytes.len());
    let prefix_end = (start + 8).min(bytes.len());
    let mut block = bytes[start..prefix_end].to_vec();
    if let Ok(len) = block_body_len(&block) {
        let end = prefix_end.saturating_add(len as usize).min(bytes.len());
        block.extend_from_slice(&bytes[prefix_end..end]);
    }
    block
}

/// Opens the index `bytes` piece by piece and loads the sections that the
/// query needs.
fn open_for(bytes: &[u8], query: &Query, whole_words: bool) -> IxReader {
    let position = IxReader::directory_position(&bytes[..10.min(bytes.len())]).unwrap();
    let mut ix = IxReader::from_directory(&block_at(bytes, position)).unwrap();
    for offset in ix.sections_needed(query, whole_words) {
        ix.load(offset, block_at(bytes, offset));
    }
    ix
}

fn search(ix: &IxReader, query: &str, whole_words: bool) -> Vec<u64> {
    drain(ix.query(&Query::parse(query).unwrap(), whole_words).unwrap())
}

fn directory(words: &[&str]) -> IxWordsSection {
    let mut section = IxWordsSection::new();
    for text in words {
        section.words.push(IxWord::new(text.to_string(), 0));
    }
    section
}

fn texts(found: Vec<&IxWord>) -> Vec<String> {
    found.into_iter().map(|word| word.text.clone()).collect()
}

#[test]
fn prefix_lookup_finds_words_that_start_with_the_text() {
    let section = directory(&["ERROR", "ERRS", "PERROR", "WARN"]);
    assert_eq!(texts(section.select_words("ERR", false)), vec!["ERROR", "ERRS"]);
    assert_eq!(texts(section.get_prefixed("ERR")), vec!["ERROR", "ERRS"]);
    assert_eq!(texts(section.get_prefixed("PERR")), vec!["PERROR"]);
    assert_eq!(texts(section.get_prefixed("X")), Vec::<String>::new());
    assert_eq!(texts(section.get_prefixed("ERRORS")), Vec::<String>::new());
}

#[test]
fn prefix_lookup_of_nothing_finds_every_word() {
    let section = directory(&["ERROR", "ERRS", "PERROR"]);
    assert_eq!(texts(section.get_prefixed("")), vec!["ERROR", "ERRS", "PERROR"]);
    assert_eq!(texts(directory(&[]).get_prefixed("")), Vec::<String>::new());
}

#[test]
fn whole_word_lookup_finds_the_word_itself() {
    let section = directory(&["ERROR", "ERRS", "PERROR"]);
    assert_eq!(texts(section.select_words("ERRS", true)), vec!["ERRS"]);
    assert_eq!(texts(section.select_words("ERR", true)), Vec::<String>::new());
    assert_eq!(texts(section.select_words("ZZZ", true)), Vec::<String>::new());
}

#[test]
fn prefix_lookup_beyond_ascii() {
    let section = directory(&["WORLD", "WÖRLD", "WÖRTER"]);
    assert_eq!(texts(section.get_prefixed("WÖR")), vec!["WÖRLD", "WÖRTER"]);
    assert_eq!(texts(section.get_prefixed("WO")), vec!["WORLD"]);
}

#[test]
fn lower_bound_is_the_place_in_the_order() {
    let section = directory(&["BB", "DD", "FF"]);
    assert_eq!(section.lower_bound(b"AA"), 0);
    assert_eq!(section.lower_bound(b"BB"), 0);
    assert_eq!(section.lower_bound(b"BBA"), 1);
    assert_eq!(section.lower_bound(b"DD"), 1);
    assert_eq!(section.lower_bound(b"EE"), 2);
    assert_eq!(section.lower_bound(b"GG"), 3);
}

fn postings(builder: &IxBuilder) -> Vec<(String, Vec<u64>)> {
    builder
        .words_section
        .words
        .iter()
        .zip(builder.lines_sections.iter())
        .map(|(word, section)| {
            let offsets = (0..section.len()).map(|i| section.get_line_offset(5 * i)).collect();
            (word.text.clone(), offsets)
        })
        .collect()
}

#[test]
fn builder_keeps_words_sorted() {
    let mut builder = IxBuilder::new();
    builder.add_word("WARN".to_string(), 22);
    builder.add_word("DISK".to_string(), 0);
    builder.add_word("ERROR".to_string(), 0);
    builder.add_word("DISK".to_string(), 22);
    assert_eq!(
        postings(&builder),
        vec![
            ("DISK".to_string(), vec![0, 22]),
            ("ERROR".to_string(), vec![0]),
            ("WARN".to_string(), vec![22]),
        ]
    );
}

#[test]
fn builder_records_the_first_occurrence_of_a_word() {
    let mut builder = IxBuilder::new();
    builder.add_word("ERROR".to_string(), 7);
    assert_eq!(postings(&builder), vec![("ERROR".to_string(), vec![7])]);
}

#[test]
fn builder_records_a_word_once_for_each_occurrence() {
    let mut builder = IxBuilder::new();
    builder.add_line("disk disk full", 5);
    assert_eq!(
        postings(&builder),
        vec![("DISK".to_string(), vec![5, 5]), ("FULL".to_string(), vec![5])]
    );
}

#[test]
fn builder_records_words_of_any_length() {
    let mut builder = IxBuilder::new();
    builder.add_word("A".repeat(256), 1);
    builder.add_word("B".repeat(255), 2);
    builder.add_word("A".repeat(256), 3);
    assert_eq!(
        postings(&builder),
        vec![("A".repeat(256), vec![1, 3]), ("B".repeat(255), vec![2])]
    );
    builder.add_line(&"z".repeat(300), 9);
    assert_eq!(builder.words_section.words.len(), 3);
    assert_eq!(builder.words_section.words[2].text, "Z".repeat(300));
}

#[test]
fn index_with_a_word_of_more_than_255_bytes_cannot_be_written() {
    let mut builder = IxBuilder::new();
    assert!(builder.can_write());
    builder.add_word("A".repeat(255), 1);
    builder.add_word("É".repeat(127), 2);
    assert!(builder.can_write());
    assert!(builder.words_section.is_storable());
    let mut index = Vec::new();
    builder.write(&mut index).unwrap();
    let ix = IxReader::new(index).unwrap();
    assert_eq!(ix.words_section.words[0].text, "A".repeat(255));
    assert_eq!(ix.words_section.words[1].text, "É".repeat(127));
    builder.add_word("É".repeat(128), 3);
    assert!(!builder.can_write());
    assert!(!builder.words_section.is_storable());
    let mut indexer = LogIndexer::new();
    indexer.push_line("short words only\n");
    assert!(indexer.can_write());
    indexer.push_line(&"x".repeat(256));
    assert!(!indexer.can_write());
}

#[test]
fn index_layout() {
    let mut builder = IxBuilder::new();
    builder.add_line("warn disk", 0);
    let mut index = Vec::new();
    builder.write(&mut index).unwrap();
    let mut sections: Vec<u8> = Vec::new();
    let first = sections.write_compressed(&[0, 0, 0, 0, 0]).unwrap();
    let second = sections.write_compressed(&[0, 0, 0, 0, 0]).unwrap();
    assert_eq!(builder.words_section.words[0].text, "DISK");
    assert_eq!(builder.words_section.words[0].lines_section_offset, 10);
    assert_eq!(builder.words_section.words[1].lines_section_offset, 10 + first);
    assert_eq!(&index[..2], &[0, 0]);
    assert_eq!(get_be(&index, 2, 8), 10 + first + second);
    assert_eq!(&index[10..10 + sections.len()], &sections[..]);
    let mut reader = ByteReader::at(&index, 10 + first + second).unwrap();
    let words = IxWordsSection::read(&mut reader).unwrap();
    assert_eq!(words.words.len(), 2);
    assert_eq!(words.words[1].text, "WARN");
    assert_eq!(reader.remaining_len(), 0);
}

#[test]
fn index_is_appended_with_absolute_positions() {
    let mut builder = IxBuilder::new();
    builder.add_line("disk", 0);
    let mut out = vec![9u8; 3];
    builder.write(&mut out).unwrap();
    assert_eq!(&out[..3], &[9, 9, 9]);
    assert_eq!(builder.words_section.words[0].lines_section_offset, 13);
    let mut reader = ByteReader::new(&out[3..]);
    let header = IxHeaderSection::read(&mut reader).unwrap();
    assert!(header.words_section_offset > 13);
}

#[test]
fn opening_a_broken_index_fails() {
    assert!(matches!(IxReader::new(vec![]), Err(IxError::CorruptIndex)));
    assert!(matches!(IxReader::new(vec![0; 9]), Err(IxError::CorruptIndex)));
    assert!(matches!(IxReader::new(vec![0; 10]), Err(IxError::CorruptIndex)));
    let good = bytes_of(&[("error", 0)]);
    let mut other_version = good.clone();
    other_version[1] = 1;
    assert!(matches!(IxReader::new(other_version), Err(IxError::CorruptIndex)));
    let mut far = good.clone();
    far[2] = 0xff;
    assert!(matches!(IxReader::new(far), Err(IxError::CorruptIndex)));
    let mut cut = good.clone();
    cut.pop();
    assert!(matches!(IxReader::new(cut), Err(IxError::CorruptIndex)));
    assert!(IxReader::new(good).is_ok());
}

#[test]
fn broken_posting_section_fails_the_query() {
    let mut bytes = bytes_of(&[("error here", 0)]);
    let at = IxReader::new(bytes.clone()).unwrap().words_section.words[0].lines_section_offset;
    bytes[at as usize + 7] = 0xff;
    let ix = IxReader::new(bytes).unwrap();
    let query = Query::parse("error").unwrap();
    assert!(matches!(ix.query(&query, true), Err(IxError::CorruptIndex)));
    let other = Query::parse("here").unwrap();
    assert_eq!(drain(ix.query(&other, true).unwrap()), vec![0]);
    assert!(matches!(ix.find_matches("here error", false), Err(IxError::CorruptIndex)));
}

#[test]
fn prefix_and_whole_word_queries() {
    let ix = index_of(&[("error", 0), ("errors errs", 10), ("perror", 30)]);
    assert_eq!(search(&ix, "err", false), vec![0, 10, 10]);
    assert_eq!(search(&ix, "err", true), Vec::<u64>::new());
    assert_eq!(search(&ix, "error", true), vec![0]);
    assert_eq!(search(&ix, "error", false), vec![0, 10]);
    assert_eq!(search(&ix, "perror", false), vec![30]);
}

#[test]
fn line_that_matches_two_alternatives_comes_out_twice() {
    let ix = index_of(&[("error disk", 0), ("warn", 22)]);
    assert_eq!(search(&ix, "error|disk", true), vec![0, 0]);
    assert_eq!(search(&ix, "error|warn|nothing", true), vec![0, 22]);
}

#[test]
fn conditions_and_alternatives_combine() {
    let ix = index_of(&[("error disk full", 0), ("warn disk ok", 22), ("error net down", 40)]);
    assert_eq!(search(&ix, "error disk", true), vec![0]);
    assert_eq!(search(&ix, "error disk | net", true), vec![0, 40]);
    assert_eq!(search(&ix, "disk ok|error down", true), vec![22, 40]);
    assert_eq!(search(&ix, "error warn", true), Vec::<u64>::new());
}

#[test]
fn found_lines_hold_the_word() {
    let lines = [
        "2024-01-01 ERROR disk full on /dev/sda1",
        "2024-01-01 WARN disk almost full",
        "\x1b[31mERROR\x1b[0m request 0123456789abcdef failed",
        "",
        "info: wörld says héllo, error none",
    ];
    let mut indexer = LogIndexer::new();
    let mut starts = Vec::new();
    for line in lines {
        starts.push(indexer.line_offset());
        indexer.push_line(&format!("{}\n", line));
    }
    let mut index = Vec::new();
    indexer.write(&mut index).unwrap();
    let ix = IxReader::new(index).unwrap();
    let mut vocabulary: Vec<String> = lines.iter().flat_map(|line| tokenize(line)).collect();
    vocabulary.sort();
    vocabulary.dedup();
    let stored: Vec<String> = ix.words_section.words.iter().map(|w| w.text.clone()).collect();
    assert_eq!(stored, vocabulary);
    for word in vocabulary {
        let found = drain(ix.query(&Query::with_word(word.clone()), true).unwrap());
        let expected: Vec<u64> = lines
            .iter()
            .zip(starts.iter())
            .flat_map(|(line, start)| {
                parse_words(line).into_iter().filter(|w| *w == word).map(|_| *start)
            })
            .collect();
        assert_eq!(found, expected);
        for offset in found {
            let at = starts.iter().position(|start| *start == offset).unwrap();
            assert!(tokenize(lines[at]).contains(&word));
        }
    }
}

fn in_order(query: &str, line: &str) -> bool {
    Query::parse(query).unwrap().check_words_order(&tokenize(line))
}

#[test]
fn words_are_sought_in_the_order_of_the_query() {
    assert!(in_order("error disk", "2024 error on disk"));
    assert!(!in_order("disk error", "2024 error on disk"));
    assert!(in_order("err dis", "2024 error on disk"));
    assert!(in_order("disk disk", "disk and disk"));
    assert!(!in_order("disk disk", "disk only"));
    assert!(!in_order("error", "all is well"));
}

#[test]
fn first_alternative_in_order_counts() {
    assert!(in_order("disk error|error disk", "2024 error on disk"));
    assert!(in_order("warn|error", "2024 error on disk"));
    assert!(!in_order("warn|disk error", "2024 error on disk"));
}

#[test]
fn readers_of_a_query_are_listed() {
    let ix = index_of(&[("error disk", 0), ("errs", 9)]);
    let reader = ix.query(&Query::parse("err disk|zzz").unwrap(), false).unwrap();
    let mut listing = Vec::new();
    reader.print_debug(1, &mut listing);
    assert_eq!(
        listing,
        vec!["  Any:", "    All:", "      Any:", "        ERROR", "        ERRS", "      DISK", "    Empty"]
    );
}

#[test]
fn queries_are_parsed_into_trees() {
    assert!(matches!(Query::parse("error"), Some(Query::Word(word)) if word == "ERROR"));
    match Query::parse("error disk") {
        Some(Query::All(children)) => {
            assert_eq!(children.len(), 2);
            assert!(matches!(&children[0], Query::Word(word) if word == "ERROR"));
            assert!(matches!(&children[1], Query::Word(word) if word == "DISK"));
        }
        _ => panic!("two words are one condition"),
    }
    match Query::parse("error disk|warn") {
        Some(Query::Any(children)) => {
            assert_eq!(children.len(), 2);
            assert!(matches!(&children[0], Query::All(words) if words.len() == 2));
            assert!(matches!(&children[1], Query::Word(word) if word == "WARN"));
        }
        _ => panic!("two alternatives"),
    }
}

#[test]
fn alternatives_without_words_are_dropped() {
    assert!(matches!(Query::parse("|error|"), Some(Query::Word(word)) if word == "ERROR"));
    assert!(matches!(Query::parse("x | error | 42"), Some(Query::Word(word)) if word == "ERROR"));
    assert!(Query::parse("").is_none());
    assert!(Query::parse("|").is_none());
    assert!(Query::parse(" a | 1 2 3 | ").is_none());
}

#[test]
fn single_queries_are_not_wrapped() {
    assert!(Query::with_any(vec![]).is_none());
    assert!(Query::with_all(vec![]).is_none());
    let one = Query::with_any(vec![Query::with_word("A".to_string())]);
    assert!(matches!(one, Some(Query::Word(word)) if word == "A"));
    let one = Query::with_all(vec![Query::with_word("A".to_string())]);
    assert!(matches!(one, Some(Query::Word(word)) if word == "A"));
    let two = Query::with_all(vec![
        Query::with_word("A".to_string()),
        Query::with_word("B".to_string()),
    ]);
    assert!(matches!(two, Some(Query::All(children)) if children.len() == 2));
    let two = Query::with_any(vec![
        Query::with_word("A".to_string()),
        Query::with_word("B".to_string()),
    ]);
    assert!(matches!(two, Some(Query::Any(children)) if children.len() == 2));
}

#[test]
fn words_of_a_query_come_in_written_order() {
    let query = Query::parse("error disk|warn|net down").unwrap();
    assert_eq!(query.get_words(), vec!["ERROR", "DISK", "WARN", "NET", "DOWN"]);
    let (_, words) = index_of(&[("error", 0)]).find_matches("warn | error", false).unwrap();
    assert_eq!(words, vec!["WARN", "ERROR"]);
}

#[test]
fn directory_is_listed() {
    let ix = index_of(&[("warn disk", 0)]);
    let mut listing = vec!["before".to_string()];
    ix.print_debug(&mut listing);
    assert_eq!(listing, vec!["before", "Tokens:", "  DISK", "  WARN"]);
}

#[test]
fn reader_gives_lines_in_order_only() {
    let ix = index_of(&[("error on disk", 0)]);
    let query = Query::parse("disk error").unwrap();
    let context = vec!["around\n".to_string()];
    assert!(ix.read_log("error on disk\n", &context, &context, Some(&query)).is_none());
    let line = ix.read_log("error on disk\n", &context, &context, None).unwrap();
    assert_eq!(line.line, "error on disk");
    assert_eq!(line.before, vec!["around"]);
    assert_eq!(line.after, vec!["around"]);
}

#[test]
fn directory_holds_the_tokens_of_the_log_and_no_other_word() {
    let mut indexer = LogIndexer::new();
    let mut index = Vec::new();
    indexer.write(&mut index).unwrap();
    assert_eq!(IxReader::new(index).unwrap().words_section.words.len(), 0);
    let mut indexer = LogIndexer::new();
    for line in ["warn disk\n", "a 12 disk\n", "\n", "error\n"] {
        indexer.push_line(line);
    }
    let mut index = Vec::new();
    indexer.write(&mut index).unwrap();
    let ix = IxReader::new(index).unwrap();
    let stored: Vec<String> = ix.words_section.words.iter().map(|w| w.text.clone()).collect();
    assert_eq!(stored, vec!["DISK", "ERROR", "WARN"]);
}

#[test]
fn reading_by_sections_answers_as_reading_the_whole() {
    let lines = [("error disk full", 0), ("warn disk ok", 22), ("errors net down", 40)];
    let bytes = bytes_of(&lines);
    let whole = IxReader::new(bytes.clone()).unwrap();
    for text in ["err", "disk", "error disk | net", "warn|zzz", "disk disk", "nothing"] {
        let query = Query::parse(text).unwrap();
        for whole_words in [false, true] {
            let ix = open_for(&bytes, &query, whole_words);
            assert_eq!(
                drain(ix.query(&query, whole_words).unwrap()),
                drain(whole.query(&query, whole_words).unwrap())
            );
        }
    }
}

#[test]
fn sections_are_needed_in_the_order_of_the_words() {
    let bytes = bytes_of(&[("error disk", 0), ("errs", 9)]);
    let ix = IxReader::new(bytes.clone()).unwrap();
    let at = |text: &str| -> u64 {
        ix.words_section.words.iter().find(|w| w.text == text).unwrap().lines_section_offset
    };
    let query = Query::parse("disk err | errs disk").unwrap();
    assert_eq!(
        ix.sections_needed(&query, false),
        vec![at("DISK"), at("ERROR"), at("ERRS"), at("ERRS"), at("DISK")]
    );
    assert_eq!(ix.sections_needed(&query, true), vec![at("DISK"), at("ERRS"), at("DISK")]);
    assert_eq!(ix.sections_needed(&Query::parse("zzz").unwrap(), false), Vec::<u64>::new());
}

#[test]
fn section_that_was_not_loaded_fails_the_query() {
    let bytes = bytes_of(&[("error disk", 0)]);
    let query = Query::parse("error").unwrap();
    let position = IxReader::directory_position(&bytes[..10]).unwrap();
    let mut ix = IxReader::from_directory(&block_at(&bytes, position)).unwrap();
    assert!(matches!(&ix.data, IxData::Sections(sections) if sections.is_empty()));
    assert!(matches!(ix.query(&query, true), Err(IxError::CorruptIndex)));
    let offset = ix.sections_needed(&query, true)[0];
    let mut cut = block_at(&bytes, offset);
    cut.pop();
    ix.load(offset, cut);
    assert!(matches!(ix.query(&query, true), Err(IxError::CorruptIndex)));
    ix.load(offset, block_at(&bytes, offset));
    assert!(matches!(ix.query(&query, true), Err(IxError::CorruptIndex)));
    let mut ix = IxReader::from_directory(&block_at(&bytes, position)).unwrap();
    ix.load(offset, block_at(&bytes, offset));
    assert_eq!(drain(ix.query(&query, true).unwrap()), vec![0]);
}

#[test]
fn loading_leaves_a_reader_of_the_whole_index_alone() {
    let bytes = bytes_of(&[("error disk", 0)]);
    let mut ix = IxReader::new(bytes.clone()).unwrap();
    ix.load(10, vec![1, 2, 3]);
    assert!(matches!(&ix.data, IxData::Whole(held) if *held == bytes));
    assert_eq!(drain(ix.query(&Query::parse("error").unwrap(), true).unwrap()), vec![0]);
}

#[test]
fn directory_position_is_read_from_the_header() {
    assert_eq!(IxReader::directory_position(&[0, 0, 0, 0, 0, 0, 0, 0, 1, 2]), Ok(258));
    assert_eq!(IxReader::directory_position(&[0, 0, 0, 0, 0, 0, 0, 0, 1, 2, 9, 9]), Ok(258));
    assert_eq!(
        IxReader::directory_position(&[0, 1, 0, 0, 0, 0, 0, 0, 1, 2]),
        Err(IxError::CorruptIndex)
    );
    assert_eq!(IxReader::directory_position(&[0; 9]), Err(IxError::CorruptIndex));
}

#[test]
fn directory_that_cannot_be_read_fails_the_opening() {
    let bytes = bytes_of(&[("error disk", 0)]);
    let position = IxReader::directory_position(&bytes[..10]).unwrap();
    let mut block = block_at(&bytes, position);
    assert!(IxReader::from_directory(&block).is_ok());
    block.pop();
    assert!(matches!(IxReader::from_directory(&block), Err(IxError::CorruptIndex)));
    assert!(matches!(IxReader::from_directory(&[]), Err(IxError::CorruptIndex)));
}

#[test]
fn block_length_is_read_from_its_first_eight_bytes() {
    assert_eq!(block_body_len(&[0, 0, 0, 0, 0, 0, 1, 2]), Ok(258));
    assert_eq!(block_body_len(&[0, 0, 0, 0, 0, 0, 1, 2, 7, 7]), Ok(258));
    assert_eq!(block_body_len(&[0, 0, 0, 0, 0, 0, 1]), Err(IxError::CorruptIndex));
    assert_eq!(block_body_len(&[]), Err(IxError::CorruptIndex));
}
