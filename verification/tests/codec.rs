use logix::error::IxError;
use logix::index::header_section::IxHeaderSection;
use logix::index::lines_section::IxLinesSection;
use logix::index::words_section::{IxWord, IxWordsSection};
use logix::index::{get_be, get_le, ix_path, put_be, put_le, ByteReader, ReadEx, WriteEx};

#[test]
fn big_endian_digits() {
    let mut out = Vec::new();
    put_be(&mut out, 0x0102, 2);
    put_be(&mut out, 0x0a0b0c0d0e0f1011, 8);
    assert_eq!(out, vec![1, 2, 0x0a, 0x0b, 0x0c, 0x0d, 0x0e, 0x0f, 0x10, 0x11]);
    assert_eq!(get_be(&out, 0, 2), 0x0102);
    assert_eq!(get_be(&out, 2, 8), 0x0a0b0c0d0e0f1011);
}

#[test]
fn little_endian_digits() {
    let mut out = Vec::new();
    put_le(&mut out, 0x0102030405, 5);
    assert_eq!(out, vec![5, 4, 3, 2, 1]);
    assert_eq!(get_le(&out, 0, 5), 0x0102030405);
}

#[test]
fn digits_beyond_the_width_are_dropped() {
    let mut out = Vec::new();
    put_be(&mut out, 0x010203, 2);
    assert_eq!(out, vec![2, 3]);
}

#[test]
fn writer_primitives() {
    let mut out: Vec<u8> = Vec::new();
    out.write_u8(7);
    out.write_u16_be(0x0102);
    out.write_u64_be(258);
    assert_eq!(out, vec![7, 1, 2, 0, 0, 0, 0, 0, 0, 1, 2]);
}

#[test]
fn reader_primitives() {
    let data = vec![7, 1, 2, 0, 0, 0, 0, 0, 0, 1, 2, 9];
    let mut reader = ByteReader::new(&data);
    assert_eq!(reader.read_u8(), Ok(7));
    assert_eq!(reader.read_u16_be(), Ok(0x0102));
    assert_eq!(reader.read_u64_be(), Ok(258));
    assert_eq!(reader.remaining_len(), 1);
    assert_eq!(reader.read_u16_be(), Err(IxError::CorruptIndex));
    assert_eq!(reader.read_u64_be(), Err(IxError::CorruptIndex));
    assert_eq!(reader.read_u8(), Ok(9));
    assert_eq!(reader.read_u8(), Err(IxError::CorruptIndex));
}

#[test]
fn reader_reads_bytes_and_starts_anywhere() {
    let data = vec![1, 2, 3, 4, 5];
    let mut reader = ByteReader::at(&data, 1).unwrap();
    assert_eq!(reader.read_bytes(3), Ok(vec![2, 3, 4]));
    assert_eq!(reader.read_bytes(2), Err(IxError::CorruptIndex));
    assert_eq!(reader.read_bytes(1), Ok(vec![5]));
    assert!(ByteReader::at(&data, 5).is_ok());
    assert!(matches!(ByteReader::at(&data, 6), Err(IxError::CorruptIndex)));
}

#[test]
fn header_is_ten_bytes() {
    let mut header = IxHeaderSection::new();
    assert_eq!(header.version, 0);
    assert_eq!(header.words_section_offset, 0);
    header.words_section_offset = 0x0102;
    let mut out: Vec<u8> = Vec::new();
    assert_eq!(header.write(&mut out), 10);
    assert_eq!(out, vec![0, 0, 0, 0, 0, 0, 0, 0, 1, 2]);
    let mut reader = ByteReader::new(&out);
    let read = IxHeaderSection::read(&mut reader).unwrap();
    assert_eq!(read.version, 0);
    assert_eq!(read.words_section_offset, 0x0102);
}

#[test]
fn truncated_header_is_corrupt() {
    let data = vec![0u8; 9];
    let mut reader = ByteReader::new(&data);
    assert!(matches!(IxHeaderSection::read(&mut reader), Err(IxError::CorruptIndex)));
}

#[test]
fn line_offsets_take_five_bytes_each() {
    let mut section = IxLinesSection::new();
    section.add_line_offset(22);
    section.add_line_offset(0x0102030405);
    assert_eq!(section.line_offsets_buf, vec![22, 0, 0, 0, 0, 5, 4, 3, 2, 1]);
    assert_eq!(section.len(), 2);
    assert_eq!(section.get_line_offset(0), 22);
    assert_eq!(section.get_line_offset(5), 0x0102030405);
}

#[test]
fn line_offsets_keep_their_low_forty_bits() {
    let mut section = IxLinesSection::new();
    section.add_line_offset((1 << 40) + 7);
    section.add_line_offset((1 << 40) - 1);
    assert_eq!(section.get_line_offset(0), 7);
    assert_eq!(section.get_line_offset(5), (1 << 40) - 1);
}

#[test]
fn compressed_block_is_framed_by_its_length() {
    let data = vec![42u8; 4096];
    let mut out: Vec<u8> = Vec::new();
    let written = out.write_compressed(&data).unwrap();
    assert_eq!(written, out.len() as u64);
    assert_eq!(get_be(&out, 0, 8), out.len() as u64 - 8);
    assert_eq!(&out[8..12], &[0x28, 0xb5, 0x2f, 0xfd]);
    assert!(out.len() < data.len());
    out.push(99);
    let mut reader = ByteReader::new(&out);
    assert_eq!(reader.read_compressed(), Ok(data));
    assert_eq!(reader.read_u8(), Ok(99));
}

#[test]
fn write_block_frames_bytes_as_they_are() {
    let mut out: Vec<u8> = Vec::new();
    assert_eq!(out.write_block(&[1, 2, 3]), 11);
    assert_eq!(out, vec![0, 0, 0, 0, 0, 0, 0, 3, 1, 2, 3]);
}

#[test]
fn block_that_is_no_compressed_data_is_corrupt() {
    let mut out: Vec<u8> = Vec::new();
    out.write_block(&[1, 2, 3, 4, 5, 6]);
    let mut reader = ByteReader::new(&out);
    assert_eq!(reader.read_compressed(), Err(IxError::CorruptIndex));
    assert_eq!(reader.remaining_len(), out.len());
}

#[test]
fn truncated_block_is_corrupt() {
    let mut out: Vec<u8> = Vec::new();
    out.write_compressed(&[1, 2, 3]).unwrap();
    out.pop();
    let mut reader = ByteReader::new(&out);
    assert_eq!(reader.read_compressed(), Err(IxError::CorruptIndex));
    let short = vec![0u8; 7];
    let mut reader = ByteReader::new(&short);
    assert_eq!(reader.read_compressed(), Err(IxError::CorruptIndex));
}

#[test]
fn lines_section_round_trip() {
    let mut section = IxLinesSection::new();
    for offset in [0u64, 22, 22, 1000] {
        section.add_line_offset(offset);
    }
    let mut out: Vec<u8> = Vec::new();
    let written = section.write(&mut out).unwrap();
    assert_eq!(written, out.len() as u64);
    let mut reader = ByteReader::new(&out);
    let read = IxLinesSection::read(&mut reader).unwrap();
    assert_eq!(read.line_offsets_buf, section.line_offsets_buf);
}

#[test]
fn lines_section_of_broken_entries_is_corrupt() {
    let mut out: Vec<u8> = Vec::new();
    out.write_compressed(&[1, 2, 3, 4, 5, 6]).unwrap();
    let mut reader = ByteReader::new(&out);
    assert!(matches!(IxLinesSection::read(&mut reader), Err(IxError::CorruptIndex)));
}

fn directory(words: &[(&str, u64)]) -> IxWordsSection {
    let mut section = IxWordsSection::new();
    for (text, offset) in words {
        section.words.push(IxWord::new(text.to_string(), *offset));
    }
    section
}

#[test]
fn directory_round_trip() {
    let section = directory(&[("DISK", 10), ("ERROR", 300), ("WÖRLD", 7)]);
    let mut out: Vec<u8> = Vec::new();
    section.write(&mut out).unwrap();
    let mut reader = ByteReader::new(&out);
    let read = IxWordsSection::read(&mut reader).unwrap();
    let found: Vec<(String, u64)> =
        read.words.iter().map(|w| (w.text.clone(), w.lines_section_offset)).collect();
    assert_eq!(
        found,
        vec![("DISK".to_string(), 10), ("ERROR".to_string(), 300), ("WÖRLD".to_string(), 7)]
    );
}

#[test]
fn directory_payload_layout() {
    let payload = vec![
        0, 0, 0, 0, 0, 0, 0, 2, // two entries
        2, b'A', b'B', 0, 0, 0, 0, 0, 0, 0, 10, // AB at 10
        1, b'C', 0, 0, 0, 0, 0, 0, 1, 0, // C at 256
    ];
    let section = IxWordsSection::parse(&payload).unwrap();
    assert_eq!(section.words.len(), 2);
    assert_eq!(section.words[0].text, "AB");
    assert_eq!(section.words[0].lines_section_offset, 10);
    assert_eq!(section.words[1].text, "C");
    assert_eq!(section.words[1].lines_section_offset, 256);
}

#[test]
fn directory_with_bad_utf8_is_corrupt() {
    let payload = vec![0, 0, 0, 0, 0, 0, 0, 1, 2, 0xff, 0xfe, 0, 0, 0, 0, 0, 0, 0, 10];
    assert!(matches!(IxWordsSection::parse(&payload), Err(IxError::CorruptIndex)));
}

#[test]
fn directory_that_ends_early_is_corrupt() {
    let payload = vec![0, 0, 0, 0, 0, 0, 0, 2, 2, b'A', b'B', 0, 0, 0, 0, 0, 0, 0, 10];
    assert!(matches!(IxWordsSection::parse(&payload), Err(IxError::CorruptIndex)));
    assert!(matches!(IxWordsSection::parse(&[0, 0, 0]), Err(IxError::CorruptIndex)));
}

#[test]
fn directory_out_of_order_is_corrupt() {
    let payload = vec![
        0, 0, 0, 0, 0, 0, 0, 2, //
        1, b'B', 0, 0, 0, 0, 0, 0, 0, 10, //
        1, b'A', 0, 0, 0, 0, 0, 0, 0, 20,
    ];
    assert!(matches!(IxWordsSection::parse(&payload), Err(IxError::CorruptIndex)));
    let twice = vec![
        0, 0, 0, 0, 0, 0, 0, 2, //
        1, b'A', 0, 0, 0, 0, 0, 0, 0, 10, //
        1, b'A', 0, 0, 0, 0, 0, 0, 0, 20,
    ];
    assert!(matches!(IxWordsSection::parse(&twice), Err(IxError::CorruptIndex)));
}

#[test]
fn empty_directory_parses() {
    let section = IxWordsSection::parse(&[0, 0, 0, 0, 0, 0, 0, 0]).unwrap();
    assert_eq!(section.words.len(), 0);
}

#[test]
fn index_path_appends_to_the_file_name() {
    assert_eq!(ix_path("app.log"), Ok("app.log.ix".to_string()));
    assert_eq!(ix_path("/var/log/app.log"), Ok("/var/log/app.log.ix".to_string()));
    assert_eq!(ix_path("logs/app.log/"), Ok("logs/app.log.ix".to_string()));
}

#[test]
fn index_path_needs_a_file_name() {
    assert_eq!(ix_path("/"), Err(IxError::MissingFileName));
    assert_eq!(ix_path(""), Err(IxError::MissingFileName));
    assert_eq!(ix_path("logs/.."), Err(IxError::MissingFileName));
}

#[test]
fn error_messages() {
    assert_eq!(IxError::Io.message(), "I/O error");
    assert_eq!(IxError::CorruptIndex.message(), "Corrupt index");
    assert_eq!(IxError::MissingFileName.message(), "Missing file name");
    assert_eq!(IxError::EmptyQuery.message(), "Empty query");
}
