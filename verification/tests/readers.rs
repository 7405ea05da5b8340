use logix::index::lines_reader::all::AllLinesReader;
use logix::index::lines_reader::any::AnyLinesReader;
use logix::index::lines_reader::word::WordLinesReader;
use logix::index::lines_reader::LinesReader;
use logix::index::lines_section::IxLinesSection;

fn word(offsets: &[u64]) -> LinesReader {
    let mut section = IxLinesSection::new();
    for offset in offsets {
        section.add_line_offset(*offset);
    }
    LinesReader::Word(WordLinesReader::from_section("W".to_string(), section))
}

fn drain(mut reader: LinesReader) -> Vec<u64> {
    let mut offsets = Vec::new();
    while let Some(offset) = reader.next() {
        offsets.push(offset);
    }
    assert_eq!(reader.next(), None);
    offsets
}

#[test]
fn word_reader_yields_in_stored_order() {
    assert_eq!(drain(word(&[3, 7, 7, 20])), vec![3, 7, 7, 20]);
    assert_eq!(drain(word(&[])), Vec::<u64>::new());
}

#[test]
fn word_reader_pulls_one_at_a_time() {
    let mut section = IxLinesSection::new();
    section.add_line_offset(5);
    section.add_line_offset(9);
    let mut reader = WordLinesReader::from_section("W".to_string(), section);
    assert_eq!(reader.next(), Some(5));
    assert_eq!(reader.next(), Some(9));
    assert_eq!(reader.next(), None);
    assert_eq!(reader.next(), None);
}

#[test]
fn empty_reader_yields_nothing() {
    assert_eq!(drain(LinesReader::Empty), Vec::<u64>::new());
}

#[test]
fn any_merges_ascending() {
    let reader = LinesReader::with_any(vec![word(&[1, 4, 9]), word(&[2, 3, 10]), word(&[5])]);
    assert_eq!(drain(reader), vec![1, 2, 3, 4, 5, 9, 10]);
}

#[test]
fn any_keeps_what_several_readers_hold() {
    let reader = LinesReader::with_any(vec![word(&[0, 22]), word(&[22, 30])]);
    assert_eq!(drain(reader), vec![0, 22, 22, 30]);
    let reader = LinesReader::with_any(vec![word(&[5, 5]), word(&[5])]);
    assert_eq!(drain(reader), vec![5, 5, 5]);
}

#[test]
fn any_of_none_is_empty() {
    assert!(matches!(LinesReader::with_any(vec![]), LinesReader::Empty));
}

#[test]
fn any_of_one_is_that_one() {
    let reader = LinesReader::with_any(vec![word(&[1, 2])]);
    assert!(matches!(reader, LinesReader::Word(_)));
    assert_eq!(drain(reader), vec![1, 2]);
}

#[test]
fn any_of_two_is_a_merge() {
    let reader = LinesReader::with_any(vec![word(&[1]), word(&[])]);
    assert!(matches!(reader, LinesReader::Any(_)));
    assert_eq!(drain(reader), vec![1]);
}

#[test]
fn any_reader_by_itself() {
    let mut reader = AnyLinesReader::new(vec![word(&[2, 8]), word(&[1, 8])]);
    assert_eq!(reader.next(), Some(1));
    assert_eq!(reader.next(), Some(2));
    assert_eq!(reader.next(), Some(8));
    assert_eq!(reader.next(), Some(8));
    assert_eq!(reader.next(), None);
}

#[test]
fn all_intersects() {
    let reader = LinesReader::with_all(vec![word(&[1, 4, 9, 12]), word(&[2, 4, 10, 12])]);
    assert_eq!(drain(reader), vec![4, 12]);
    let reader =
        LinesReader::with_all(vec![word(&[1, 4, 9, 12]), word(&[4, 9, 12]), word(&[0, 9, 12, 13])]);
    assert_eq!(drain(reader), vec![9, 12]);
}

#[test]
fn all_holds_nothing_twice_that_one_reader_holds_once() {
    let reader = LinesReader::with_all(vec![word(&[5, 5, 7]), word(&[5, 7])]);
    assert_eq!(drain(reader), vec![5, 7]);
    let reader = LinesReader::with_all(vec![word(&[5]), word(&[5, 5])]);
    assert_eq!(drain(reader), vec![5]);
}

#[test]
fn all_holds_twice_what_every_reader_holds_twice() {
    let reader = LinesReader::with_all(vec![word(&[5, 5]), word(&[5, 5])]);
    assert_eq!(drain(reader), vec![5, 5]);
}

#[test]
fn all_ends_when_one_reader_ends() {
    let reader = LinesReader::with_all(vec![word(&[1, 2, 3]), word(&[])]);
    assert_eq!(drain(reader), Vec::<u64>::new());
    let reader = LinesReader::with_all(vec![word(&[1, 2, 3, 50]), word(&[3])]);
    assert_eq!(drain(reader), vec![3]);
}

#[test]
fn all_of_none_or_one() {
    assert!(matches!(LinesReader::with_all(vec![]), LinesReader::Empty));
    let reader = LinesReader::with_all(vec![word(&[1, 1, 2])]);
    assert!(matches!(reader, LinesReader::Word(_)));
    assert_eq!(drain(reader), vec![1, 1, 2]);
}

#[test]
fn all_reader_by_itself() {
    let mut reader = AllLinesReader::new(vec![word(&[2, 8, 9]), word(&[1, 8, 9])]);
    assert_eq!(reader.next(), Some(8));
    assert_eq!(reader.next(), Some(9));
    assert_eq!(reader.next(), None);
    assert_eq!(reader.next(), None);
}

#[test]
fn readers_nest() {
    let any = LinesReader::with_any(vec![word(&[1, 5]), word(&[3, 9])]);
    let reader = LinesReader::with_all(vec![any, word(&[3, 4, 5, 6])]);
    assert_eq!(drain(reader), vec![3, 5]);
    let all = LinesReader::with_all(vec![word(&[1, 5, 7]), word(&[5, 7])]);
    let reader = LinesReader::with_any(vec![all, word(&[6])]);
    assert_eq!(drain(reader), vec![5, 6, 7]);
}

#[test]
fn combined_readers_are_listed() {
    let any = AnyLinesReader::new(vec![word(&[1]), LinesReader::Empty]);
    let mut listing = Vec::new();
    any.print_debug(1, &mut listing);
    assert_eq!(listing, vec!["  Any:", "    W", "    Empty"]);
    let all = AllLinesReader::new(vec![word(&[1]), word(&[2])]);
    let mut listing = Vec::new();
    all.print_debug(0, &mut listing);
    assert_eq!(listing, vec!["All:", "  W", "  W"]);
}

#[test]
fn construction_pulls_no_more_than_the_first_offset() {
    let any = AnyLinesReader::new(vec![word(&[1, 2, 3]), word(&[]), word(&[4, 5])]);
    let mut listing = Vec::new();
    any.print_debug(0, &mut listing);
    assert_eq!(listing.len(), 4);
    assert_eq!(drain(LinesReader::Any(any)), vec![1, 2, 3, 4, 5]);
    let all = AllLinesReader::new(vec![word(&[1, 2]), word(&[]), word(&[1, 2])]);
    assert_eq!(drain(LinesReader::All(all)), Vec::<u64>::new());
}
