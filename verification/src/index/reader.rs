use crate::error::IxError;
use crate::file_utils::{trimmed_lines, LogLine};
use crate::index::{ByteReader, IX_VERSION};
use crate::index::builder::{
    lemma_log_postings_complete, lemma_log_postings_origin, log_postings, IxBuilder,
    LogLineAt,
};
use crate::index::header_section::IxHeaderSection;
use crate::index::lex::{lemma_lex_irreflexive, lex_lt};
use crate::index::lines_reader::LinesReader;
use crate::index::lines_reader::all::intersect;
use crate::index::lines_reader::any::{kmerge, lemma_kmerge_none, lemma_kmerge_single, streams_of};
use crate::index::lines_section::{decode_offsets, parse_lines_section, LINE_OFFSET_LIMIT};
use crate::index::words_section::{
    lemma_filter_member, lemma_filter_range, lemma_key_injective, parse_words_section, word_matches,
    words_of, Entry, IxWord, IxWordsSection,
};
use crate::query::{order_end, parse_query, query_words, Query, QueryView};
use crate::text::trim_end_of;
use crate::token::{texts, tokens_of};
use vstd::prelude::*;
use vstd::string::StringExecFns;
use vstd::utf8::encode_utf8;

verus! {

/// The word directory of the index `data`, or `None` where the header is
/// truncated or of another version, or the directory is not where the header
/// says or is malformed.
pub open spec fn index_directory(data: Seq<u8>) -> Option<Seq<Entry>> {
    match IxHeaderSection::parse(data) {
        Some(header) => if header.version == IX_VERSION && header.words_section_offset
            <= data.len() {
            parse_words_section(data.skip(header.words_section_offset as int))
        } else {
            None
        },
        None => None,
    }
}

/// The posting buffer of the section at position `offset` of the index
/// `data`, or `None` where there is no well-formed section.
pub open spec fn lines_section_at(data: Seq<u8>, offset: u64) -> Option<Seq<u8>> {
    if offset <= data.len() {
        parse_lines_section(data.skip(offset as int))
    } else {
        None
    }
}

/// The line offsets of the posting section at position `offset` of the
/// index `data`.
pub open spec fn postings_at(data: Seq<u8>, offset: u64) -> Option<Seq<u64>> {
    match lines_section_at(data, offset) {
        Some(buf) => Some(decode_offsets(buf)),
        None => None,
    }
}

/// The line offsets of the posting section that the bytes `block` start
/// with, or `None` where they start with no well-formed section.
pub open spec fn block_postings(block: Seq<u8>) -> Option<Seq<u64>> {
    match parse_lines_section(block) {
        Some(buf) => Some(decode_offsets(buf)),
        None => None,
    }
}

/// The bytes of `sections`, each with its position.
pub open spec fn section_views(sections: Seq<(u64, Vec<u8>)>) -> Seq<(u64, Seq<u8>)> {
    sections.map_values(|section: (u64, Vec<u8>)| (section.0, section.1@))
}

/// The line offsets of the first of `sections` that was loaded from
/// position `offset`, or `None` where none was or it is malformed.
pub open spec fn section_postings(sections: Seq<(u64, Seq<u8>)>, offset: u64) -> Option<Seq<u64>>
    decreases sections.len(),
{
    if sections.len() == 0 {
        None
    } else if sections[0].0 == offset {
        block_postings(sections[0].1)
    } else {
        section_postings(sections.drop_first(), offset)
    }
}

/// One of `sections` was loaded from position `offset`.
pub open spec fn has_section(sections: Seq<(u64, Seq<u8>)>, offset: u64) -> bool {
    exists|i: int| 0 <= i < sections.len() && (#[trigger] sections[i]).0 == offset
}

/// A section that is loaded behind others is found for its position unless
/// one was loaded for it before; what is found for other positions stays.
pub proof fn lemma_section_postings_push(
    sections: Seq<(u64, Seq<u8>)>,
    offset: u64,
    block: Seq<u8>,
    sought: u64,
)
    ensures
        section_postings(sections.push((offset, block)), sought) == if has_section(
            sections,
            sought,
        ) {
            section_postings(sections, sought)
        } else if sought == offset {
            block_postings(block)
        } else {
            None
        },
    decreases sections.len(),
{
    let longer = sections.push((offset, block));
    if sections.len() == 0 {
        assert(longer.drop_first() =~= Seq::<(u64, Seq<u8>)>::empty());
    } else {
        assert(longer.drop_first() =~= sections.drop_first().push((offset, block)));
        if sections[0].0 == sought {
            assert(has_section(sections, sought));
        } else {
            lemma_section_postings_push(sections.drop_first(), offset, block, sought);
            if has_section(sections, sought) {
                let i = choose|i: int| 0 <= i < sections.len() && (#[trigger] sections[i]).0
                    == sought;
                assert(sections.drop_first()[i - 1].0 == sought);
            }
            if has_section(sections.drop_first(), sought) {
                let i = choose|i: int|
                    0 <= i < sections.drop_first().len() && (#[trigger] sections.drop_first()[i]).0
                        == sought;
                assert(sections[i + 1].0 == sought);
            }
        }
    }
}

/// A posting section that was read from its place in the index, all of it
/// and no more, holds the posting list that the whole index holds at that
/// place.
pub proof fn lemma_section_read_from(bytes: Seq<u8>, offset: u64, block: Seq<u8>)
    requires
        crate::index::is_block_at(bytes, offset, block),
    ensures
        block_postings(block) == postings_at(bytes, offset),
{
    crate::index::lemma_block_taken_out(bytes, offset, block);
}

/// A directory that was read from the place that the header names, all of
/// its block and no more, is the directory of the whole index.
pub proof fn lemma_directory_read_from(bytes: Seq<u8>, header: Seq<u8>, block: Seq<u8>)
    requires
        header.len() <= bytes.len(),
        header == bytes.take(header.len() as int),
        IxHeaderSection::parse(header) is Some,
        IxHeaderSection::parse(header)->0.version == IX_VERSION,
        crate::index::is_block_at(
            bytes,
            IxHeaderSection::parse(header)->0.words_section_offset,
            block,
        ),
    ensures
        index_directory(bytes) == parse_words_section(block),
{
    let position = IxHeaderSection::parse(header)->0.words_section_offset;
    assert(bytes.take(2) =~= header.take(2));
    assert(bytes.subrange(2, 10) =~= header.subrange(2, 10));
    crate::index::lemma_block_taken_out(bytes, position, block);
}

/// The positions of the posting sections of `found`, in order.
pub open spec fn sections_of(found: Seq<IxWord>) -> Seq<u64> {
    found.map_values(|word: IxWord| word.lines_section_offset)
}

/// The listing of `words`: each word behind two spaces.
pub open spec fn word_listing(words: Seq<IxWord>) -> Seq<Seq<char>> {
    Seq::new(words.len(), |i: int| "  "@ + words[i].text@)
}

/// The sequences of `results`, or `None` where one of them is missing.
pub open spec fn all_some(results: Seq<Option<Seq<u64>>>) -> Option<Seq<Seq<u64>>> {
    if forall|i: int| 0 <= i < results.len() ==> (#[trigger] results[i]) is Some {
        Some(Seq::new(results.len(), |i: int| results[i]->0))
    } else {
        None
    }
}

/// The posting list of each of `found` in the index that `ix` reads.
pub open spec fn word_postings(ix: IxReader, found: Seq<IxWord>) -> Seq<Option<Seq<u64>>> {
    Seq::new(found.len(), |i: int| ix.posting(found[i].lines_section_offset))
}

/// Reading back what was written: a whole-word query for `word` against the
/// stored index of a builder selects the posting list that the builder
/// holds for `word`.
pub proof fn lemma_index_round_trip(builder: IxBuilder, reader: IxReader, word: Seq<char>)
    requires
        builder.wf(),
        reader.wf(),
        reader.stores(builder),
    ensures
        reader.eval(QueryView::Word(word), true) == Some(builder.postings(word)),
{
    let data = reader.image();
    let stored = reader.words_section.words@;
    let built = builder.words_section.words@;
    let key = encode_utf8(word);
    let matches = |entry: IxWord| word_matches(entry.text@, word, true);
    assert(reader.words_section.entries() == builder.words_section.entries());
    assert(stored.len() == built.len()) by {
        assert(reader.words_section.entries().len() == builder.words_section.entries().len());
    }
    assert forall|i: int| 0 <= i < stored.len() implies (#[trigger] stored[i]).key()
        == built[i].key() && stored[i].lines_section_offset == built[i].lines_section_offset by {
        assert(reader.words_section.entries()[i] == stored[i].entry());
        assert(builder.words_section.entries()[i] == built[i].entry());
    }
    if builder.has_word(word) {
        let at = choose|at: int| builder.word_at(word, at);
        builder.lemma_postings_at(at);
        assert forall|i: int| 0 <= i < stored.len() implies (matches(#[trigger] stored[i]) <==> at
            <= i < at + 1) by {
            let entries = reader.words_section.entries();
            lemma_lex_irreflexive(key);
            lemma_key_injective(stored[at].text@, built[at].text@);
            if i < at {
                assert(lex_lt(entries[i].0, entries[at].0));
            } else if i > at {
                assert(lex_lt(entries[at].0, entries[i].0));
            }
        }
        lemma_filter_range(stored, matches, at, at + 1);
        let found = reader.words_section.lookup(word, true);
        assert(found =~= seq![stored[at]]);
        let results = word_postings(reader, found);
        let offsets = builder.lines_sections@[at].offsets();
        assert(results[0] == Some(offsets));
        assert(all_some(results)->0 =~= seq![offsets]);
        lemma_kmerge_single(seq![offsets]);
    } else {
        assert forall|i: int| 0 <= i < stored.len() implies (matches(#[trigger] stored[i]) <==> 0
            <= i < 0) by {
            if stored[i].text@ == word {
                lemma_key_injective(built[i].text@, word);
                assert(builder.word_at(word, i));
            }
        }
        lemma_filter_range(stored, matches, 0, 0);
        let found = reader.words_section.lookup(word, true);
        assert(found =~= Seq::<IxWord>::empty());
        let results = word_postings(reader, found);
        assert(all_some(results)->0 =~= Seq::<Seq<u64>>::empty());
        lemma_kmerge_none(all_some(results)->0);
    }
}

/// The round trip of a log through its index: where a builder has indexed
/// `lines` and its index is stored and opened, a whole-word query for a
/// word selects the posting list of the word, and each offset that it
/// selects is the offset, in its low 40 bits, of a line of the log that has
/// the word among its tokens.
pub proof fn lemma_query_selects_lines_with_word(
    builder: IxBuilder,
    reader: IxReader,
    lines: Seq<LogLineAt>,
    word: Seq<char>,
)
    requires
        builder.wf(),
        builder.indexes(lines),
        reader.wf(),
        reader.stores(builder),
    ensures
        reader.eval(QueryView::Word(word), true) == Some(log_postings(lines, word)),
        forall|k: int|
            0 <= k < log_postings(lines, word).len() ==> exists|i: int|
                0 <= i < lines.len() && #[trigger] log_postings(lines, word)[k] == (
                #[trigger] lines[i]).1 % LINE_OFFSET_LIMIT && tokens_of(lines[i].0).contains(word),
{
    lemma_index_round_trip(builder, reader, word);
    assert(builder.postings(word) == log_postings(lines, word));
    assert forall|k: int| 0 <= k < log_postings(lines, word).len() implies exists|i: int|
        0 <= i < lines.len() && #[trigger] log_postings(lines, word)[k] == (#[trigger] lines[i]).1
            % LINE_OFFSET_LIMIT && tokens_of(lines[i].0).contains(word) by {
        let i = lemma_log_postings_origin(lines, word, k);
        assert(0 <= i < lines.len() && log_postings(lines, word)[k] == lines[i].1
            % LINE_OFFSET_LIMIT && tokens_of(lines[i].0).contains(word));
    }
}

/// What an opened index holds of the builder whose index it stores: the
/// same words in the same order, and for each word its posting list.
pub proof fn lemma_stored_words(builder: IxBuilder, reader: IxReader, m: int)
    requires
        builder.wf(),
        reader.wf(),
        reader.stores(builder),
        0 <= m < reader.words_section.words@.len(),
    ensures
        reader.words_section.words@.len() == builder.words_section.words@.len(),
        reader.words_section.words@[m].text@ == builder.words_section.words@[m].text@,
        reader.posting(reader.words_section.words@[m].lines_section_offset) == Some(
            builder.postings(builder.words_section.words@[m].text@),
        ),
{
    let stored = reader.words_section.words@;
    let built = builder.words_section.words@;
    assert(reader.words_section.entries() == builder.words_section.entries());
    assert(reader.words_section.entries().len() == builder.words_section.entries().len());
    assert(reader.words_section.entries()[m] == stored[m].entry());
    assert(builder.words_section.entries()[m] == built[m].entry());
    lemma_key_injective(stored[m].text@, built[m].text@);
    builder.lemma_postings_at(m);
}

/// The directory of a stored index: where a builder has indexed `lines` and
/// its index is stored and opened, the directory that was read holds a word
/// exactly where the word is a token of a line of the log. The index of a
/// log without lines has an empty directory.
pub proof fn lemma_stored_directory_is_vocabulary(
    builder: IxBuilder,
    reader: IxReader,
    lines: Seq<LogLineAt>,
    word: Seq<char>,
)
    requires
        builder.wf(),
        builder.indexes(lines),
        reader.wf(),
        reader.stores(builder),
    ensures
        (exists|m: int|
            0 <= m < reader.words_section.words@.len() && (
            #[trigger] reader.words_section.words@[m]).text@ == word) <==> exists|i: int|
            0 <= i < lines.len() && tokens_of((#[trigger] lines[i]).0).contains(word),
        lines.len() == 0 ==> reader.words_section.words@.len() == 0,
{
    let stored = reader.words_section.words@;
    let built = builder.words_section.words@;
    assert(reader.words_section.entries() == builder.words_section.entries());
    assert(stored.len() == built.len()) by {
        assert(reader.words_section.entries().len() == builder.words_section.entries().len());
    }
    builder.lemma_directory_is_vocabulary(lines, word);
    if exists|m: int| 0 <= m < stored.len() && (#[trigger] stored[m]).text@ == word {
        let m = choose|m: int| 0 <= m < stored.len() && (#[trigger] stored[m]).text@ == word;
        lemma_stored_words(builder, reader, m);
        assert(builder.word_at(word, m));
    }
    if builder.has_word(word) {
        let m = choose|m: int| builder.word_at(word, m);
        lemma_stored_words(builder, reader, m);
        assert(stored[m].text@ == word);
    }
    if lines.len() == 0 {
        assert(lines =~= Seq::<LogLineAt>::empty());
        builder.lemma_empty_log_empty_directory();
    }
}

/// A query against a stored index does not fail: every posting section
/// that it needs is read back.
pub proof fn lemma_stored_index_answers(
    builder: IxBuilder,
    reader: IxReader,
    query: QueryView,
    whole_words: bool,
)
    requires
        builder.wf(),
        reader.wf(),
        reader.stores(builder),
    ensures
        reader.eval(query, whole_words) is Some,
    decreases query,
{
    match query {
        QueryView::Word(word) => {
            let stored = reader.words_section.words@;
            let matches = |entry: IxWord| word_matches(entry.text@, word, whole_words);
            let found = reader.words_section.lookup(word, whole_words);
            let results = word_postings(reader, found);
            assert forall|j: int| 0 <= j < results.len() implies (#[trigger] results[j])
                is Some by {
                let m = lemma_filter_member(stored, matches, j);
                lemma_stored_words(builder, reader, m);
            }
        },
        QueryView::Any(children) => {
            let results = reader.eval_each(children, whole_words);
            assert forall|j: int| 0 <= j < results.len() implies (#[trigger] results[j])
                is Some by {
                lemma_stored_index_answers(builder, reader, children[j], whole_words);
            }
        },
        QueryView::All(children) => {
            let results = reader.eval_each(children, whole_words);
            assert forall|j: int| 0 <= j < results.len() implies (#[trigger] results[j])
                is Some by {
                lemma_stored_index_answers(builder, reader, children[j], whole_words);
            }
        },
    }
}

/// What a prefix query finds: where a builder has indexed `lines` and its
/// index is stored and opened, every offset that a query for `text` selects
/// is the offset, in its low 40 bits, of a line of the log one of whose
/// tokens starts with `text`.
pub proof fn lemma_prefix_query_selects_lines_with_prefixed_word(
    builder: IxBuilder,
    reader: IxReader,
    lines: Seq<LogLineAt>,
    text: Seq<char>,
    k: int,
) -> (found: (int, Seq<char>))
    requires
        builder.wf(),
        builder.indexes(lines),
        reader.wf(),
        reader.stores(builder),
        reader.eval(QueryView::Word(text), false) is Some,
        0 <= k < reader.eval(QueryView::Word(text), false)->0.len(),
    ensures
        0 <= found.0 < lines.len(),
        reader.eval(QueryView::Word(text), false)->0[k] == lines[found.0].1 % LINE_OFFSET_LIMIT,
        tokens_of(lines[found.0].0).contains(found.1),
        text.is_prefix_of(found.1),
{
    let stored = reader.words_section.words@;
    let matches = |entry: IxWord| word_matches(entry.text@, text, false);
    let entries = reader.words_section.lookup(text, false);
    let results = word_postings(reader, entries);
    let streams = all_some(results)->0;
    let at = crate::index::lines_reader::any::lemma_kmerge_member(streams, k);
    let m = lemma_filter_member(stored, matches, at.0);
    lemma_stored_words(builder, reader, m);
    let word = builder.words_section.words@[m].text@;
    assert(results[at.0] == Some(builder.postings(word)));
    assert(builder.postings(word) == log_postings(lines, word));
    let i = lemma_log_postings_origin(lines, word, at.1);
    (i, word)
}

/// A query against the index of an empty log selects nothing, and does not
/// fail.
pub proof fn lemma_empty_index_selects_nothing(
    reader: IxReader,
    query: QueryView,
    whole_words: bool,
)
    requires
        reader.words_section.words@.len() == 0,
    ensures
        reader.eval(query, whole_words) == Some(Seq::<u64>::empty()),
    decreases query,
{
    match query {
        QueryView::Word(word) => {
            let matches = |entry: IxWord| word_matches(entry.text@, word, whole_words);
            lemma_filter_range(reader.words_section.words@, matches, 0, 0);
            let found = reader.words_section.lookup(word, whole_words);
            assert(found =~= Seq::<IxWord>::empty());
            let results = word_postings(reader, found);
            assert(all_some(results)->0 =~= Seq::<Seq<u64>>::empty());
            lemma_kmerge_none(all_some(results)->0);
        },
        QueryView::Any(children) => {
            let results = reader.eval_each(children, whole_words);
            assert forall|j: int| 0 <= j < results.len() implies #[trigger] results[j] == Some(
                Seq::<u64>::empty(),
            ) by {
                lemma_empty_index_selects_nothing(reader, children[j], whole_words);
            }
            crate::index::lines_reader::any::lemma_kmerge_exhausted(all_some(results)->0);
        },
        QueryView::All(children) => {
            let results = reader.eval_each(children, whole_words);
            assert forall|j: int| 0 <= j < results.len() implies #[trigger] results[j] == Some(
                Seq::<u64>::empty(),
            ) by {
                lemma_empty_index_selects_nothing(reader, children[j], whole_words);
            }
            let streams = all_some(results)->0;
            if streams.len() > 0 {
                assert(streams[0].len() == 0);
                assert(!crate::index::lines_reader::all::all_nonempty(streams));
            }
        },
    }
}

/// No line is lost on the way through the index: where a builder has
/// indexed `lines` and its index is stored and opened, a whole-word query
/// for a word selects the offset, in its low 40 bits, of every line that
/// has the word among its tokens.
pub proof fn lemma_query_selects_every_line_with_word(
    builder: IxBuilder,
    reader: IxReader,
    lines: Seq<LogLineAt>,
    word: Seq<char>,
    i: int,
)
    requires
        builder.wf(),
        builder.indexes(lines),
        reader.wf(),
        reader.stores(builder),
        0 <= i < lines.len(),
        tokens_of(lines[i].0).contains(word),
    ensures
        reader.eval(QueryView::Word(word), true) is Some,
        reader.eval(QueryView::Word(word), true)->0.contains(lines[i].1 % LINE_OFFSET_LIMIT),
{
    lemma_index_round_trip(builder, reader, word);
    assert(builder.postings(word) == log_postings(lines, word));
    let k = lemma_log_postings_complete(lines, word, i);
    assert(log_postings(lines, word)[k] == lines[i].1 % LINE_OFFSET_LIMIT);
}

/// The bytes of an index from which posting sections are read.
pub enum IxData {
    /// All the bytes of the index.
    Whole(Vec<u8>),
    /// The posting sections that were loaded, each with its position in
    /// the index and its bytes from that position on.
    Sections(Vec<(u64, Vec<u8>)>),
}

/// What a query needs of one of its parts it needs as a whole.
pub proof fn lemma_needed_of_child(
    ix: IxReader,
    children: Seq<QueryView>,
    whole_words: bool,
    j: int,
    offset: u64,
)
    requires
        0 <= j < children.len(),
        ix.needed(children[j], whole_words).contains(offset),
    ensures
        ix.needed_each(children, whole_words).contains(offset),
    decreases children.len(),
{
    let before = ix.needed_each(children.drop_last(), whole_words);
    let last = ix.needed(children.last(), whole_words);
    let all = ix.needed_each(children, whole_words);
    if j == children.len() - 1 {
        let k = choose|k: int| 0 <= k < last.len() && last[k] == offset;
        assert(all[before.len() + k] == offset);
    } else {
        lemma_needed_of_child(ix, children.drop_last(), whole_words, j, offset);
        let k = choose|k: int| 0 <= k < before.len() && before[k] == offset;
        assert(all[k] == offset);
    }
}

/// Reading section by section is reading the whole index: a reader that
/// has loaded posting sections answers a query as a reader of all the bytes
/// with the same directory does, where for every section that the query
/// needs it finds what the whole index holds.
pub proof fn lemma_loaded_sections_answer(
    loaded: IxReader,
    whole: IxReader,
    query: QueryView,
    whole_words: bool,
)
    requires
        loaded.words_section == whole.words_section,
        forall|offset: u64|
            loaded.needed(query, whole_words).contains(offset) ==> #[trigger] loaded.posting(
                offset,
            ) == whole.posting(offset),
    ensures
        loaded.eval(query, whole_words) == whole.eval(query, whole_words),
    decreases query,
{
    match query {
        QueryView::Word(word) => {
            let found = loaded.words_section.lookup(word, whole_words);
            let sought = sections_of(found);
            assert forall|i: int| 0 <= i < found.len() implies #[trigger] word_postings(
                loaded,
                found,
            )[i] == word_postings(whole, found)[i] by {
                assert(sought[i] == found[i].lines_section_offset);
                assert(sought.contains(found[i].lines_section_offset));
            }
            assert(word_postings(loaded, found) =~= word_postings(whole, found));
        },
        QueryView::Any(children) => {
            assert forall|j: int| 0 <= j < children.len() implies #[trigger] loaded.eval_each(
                children,
                whole_words,
            )[j] == whole.eval_each(children, whole_words)[j] by {
                assert forall|offset: u64|
                    loaded.needed(children[j], whole_words).contains(offset) implies #[trigger]
                    loaded.posting(offset) == whole.posting(offset) by {
                    lemma_needed_of_child(loaded, children, whole_words, j, offset);
                }
                lemma_loaded_sections_answer(loaded, whole, children[j], whole_words);
            }
            assert(loaded.eval_each(children, whole_words) =~= whole.eval_each(
                children,
                whole_words,
            ));
        },
        QueryView::All(children) => {
            assert forall|j: int| 0 <= j < children.len() implies #[trigger] loaded.eval_each(
                children,
                whole_words,
            )[j] == whole.eval_each(children, whole_words)[j] by {
                assert forall|offset: u64|
                    loaded.needed(children[j], whole_words).contains(offset) implies #[trigger]
                    loaded.posting(offset) == whole.posting(offset) by {
                    lemma_needed_of_child(loaded, children, whole_words, j, offset);
                }
                lemma_loaded_sections_answer(loaded, whole, children[j], whole_words);
            }
            assert(loaded.eval_each(children, whole_words) =~= whole.eval_each(
                children,
                whole_words,
            ));
        },
    }
}

/// Sections that were each read from their place in the index hold, for
/// every position that one was loaded for, the posting list that the whole
/// index holds there.
pub proof fn lemma_sections_read_from(sections: Seq<(u64, Seq<u8>)>, bytes: Seq<u8>, offset: u64)
    requires
        forall|i: int|
            0 <= i < sections.len() ==> crate::index::is_block_at(
                bytes,
                (#[trigger] sections[i]).0,
                sections[i].1,
            ),
        has_section(sections, offset),
    ensures
        section_postings(sections, offset) == postings_at(bytes, offset),
    decreases sections.len(),
{
    assert(crate::index::is_block_at(bytes, sections[0].0, sections[0].1));
    if sections[0].0 == offset {
        lemma_section_read_from(bytes, offset, sections[0].1);
    } else {
        let rest = sections.drop_first();
        let i = choose|i: int| 0 <= i < sections.len() && (#[trigger] sections[i]).0 == offset;
        assert(rest[i - 1].0 == offset);
        assert forall|k: int| 0 <= k < rest.len() implies crate::index::is_block_at(
            bytes,
            (#[trigger] rest[k]).0,
            rest[k].1,
        ) by {
            assert(rest[k] == sections[k + 1]);
        }
        lemma_sections_read_from(rest, bytes, offset);
    }
}

/// Reading an index piece by piece: a reader that has loaded, each from
/// its place in the index, the posting sections that a query needs answers
/// the query as a reader of all the bytes of the index with the same
/// directory does.
pub proof fn lemma_reading_by_sections(
    loaded: IxReader,
    whole: IxReader,
    query: QueryView,
    whole_words: bool,
)
    requires
        loaded.words_section == whole.words_section,
        whole.data is Whole,
        loaded.data is Sections,
        forall|i: int|
            0 <= i < loaded.sections().len() ==> crate::index::is_block_at(
                whole.image(),
                (#[trigger] loaded.sections()[i]).0,
                loaded.sections()[i].1,
            ),
        forall|k: int|
            0 <= k < loaded.needed(query, whole_words).len() ==> has_section(
                loaded.sections(),
                #[trigger] loaded.needed(query, whole_words)[k],
            ),
    ensures
        loaded.eval(query, whole_words) == whole.eval(query, whole_words),
{
    assert forall|offset: u64|
        loaded.needed(query, whole_words).contains(offset) implies #[trigger] loaded.posting(
        offset,
    ) == whole.posting(offset) by {
        lemma_sections_read_from(loaded.sections(), whole.image(), offset);
    }
    lemma_loaded_sections_answer(loaded, whole, query, whole_words);
}

/// An index that is open for queries: its word directory, and the bytes
/// from which its posting sections are read.
pub struct IxReader {
    pub data: IxData,
    pub words_section: IxWordsSection,
}

impl IxReader {
    /// The directory is sorted, and where all the bytes of the index are
    /// held it is the one that they store.
    pub open spec fn wf(&self) -> bool {
        &&& self.words_section.wf()
        &&& self.data matches IxData::Whole(bytes) ==> index_directory(bytes@) == Some(
            self.words_section.entries(),
        )
    }

    /// All the bytes of the index, where the reader holds them.
    pub open spec fn image(&self) -> Seq<u8> {
        match self.data {
            IxData::Whole(bytes) => bytes@,
            IxData::Sections(_) => Seq::empty(),
        }
    }

    /// The posting sections that were loaded, each with its position.
    pub open spec fn sections(&self) -> Seq<(u64, Seq<u8>)> {
        match self.data {
            IxData::Whole(_) => Seq::empty(),
            IxData::Sections(sections) => section_views(sections@),
        }
    }

    /// The reader holds all the bytes of the index that `builder` wrote.
    pub open spec fn stores(&self, builder: IxBuilder) -> bool {
        self.data is Whole && builder.stored_in(self.image())
    }

    /// The posting list that the reader finds for the position `offset`, or
    /// `None` where it finds no well-formed posting section for it.
    pub open spec fn posting(&self, offset: u64) -> Option<Seq<u64>> {
        match self.data {
            IxData::Whole(bytes) => postings_at(bytes@, offset),
            IxData::Sections(sections) => section_postings(section_views(sections@), offset),
        }
    }

    /// The positions of the posting sections that `query` needs, in the
    /// order in which the query names its words: for each word the sections
    /// of the directory entries that it matches.
    pub open spec fn needed(&self, query: QueryView, whole_words: bool) -> Seq<u64>
        decreases query, 1nat,
    {
        match query {
            QueryView::Word(word) => sections_of(self.words_section.lookup(word, whole_words)),
            QueryView::Any(children) => self.needed_each(children, whole_words),
            QueryView::All(children) => self.needed_each(children, whole_words),
        }
    }

    /// The positions of the posting sections that `children` need, one
    /// query after the other.
    pub open spec fn needed_each(&self, children: Seq<QueryView>, whole_words: bool) -> Seq<u64>
        decreases children, 0nat,
    {
        if children.len() == 0 {
            Seq::empty()
        } else {
            self.needed_each(children.drop_last(), whole_words) + self.needed(
                children.last(),
                whole_words,
            )
        }
    }

    /// The position of the word directory that the header of an index
    /// names. `header` holds the first bytes of the index, at least the ten
    /// of the header. Fails with `CorruptIndex` where it holds fewer or the
    /// index is of another version.
    pub fn directory_position(header: &[u8]) -> (r: Result<u64, IxError>)
        ensures
            match IxHeaderSection::parse(header@) {
                Some(parsed) => r == if parsed.version == IX_VERSION {
                    Ok::<u64, IxError>(parsed.words_section_offset)
                } else {
                    Err::<u64, IxError>(IxError::CorruptIndex)
                },
                None => r == Err::<u64, IxError>(IxError::CorruptIndex),
            },
    {
        let mut file = ByteReader::new(header);
        match IxHeaderSection::read(&mut file) {
            Ok(parsed) => if parsed.version == IX_VERSION {
                Ok(parsed.words_section_offset)
            } else {
                Err(IxError::CorruptIndex)
            },
            Err(e) => Err(e),
        }
    }

    /// Opens an index of which only the word directory was read: `block`
    /// holds the compressed block of the directory. No posting section is
    /// loaded yet. Fails with `CorruptIndex` where the directory cannot be
    /// read.
    pub fn from_directory(block: &[u8]) -> (r: Result<Self, IxError>)
        ensures
            match r {
                Ok(ix) => {
                    &&& ix.wf()
                    &&& ix.data matches IxData::Sections(sections) && sections@.len() == 0
                    &&& parse_words_section(block@) == Some(ix.words_section.entries())
                },
                Err(e) => e == IxError::CorruptIndex && parse_words_section(block@).is_none(),
            },
    {
        let mut file = ByteReader::new(block);
        match IxWordsSection::read(&mut file) {
            Ok(words_section) => Ok(Self { data: IxData::Sections(Vec::new()), words_section }),
            Err(e) => Err(e),
        }
    }

    /// Loads the posting section that was read from position `offset` of
    /// the index: `block` holds its bytes. Of two sections that are loaded
    /// for one position the first counts. A reader that holds all the bytes
    /// of the index stays as it is.
    pub fn load(&mut self, offset: u64, block: Vec<u8>)
        ensures
            final(self).words_section == old(self).words_section,
            match old(self).data {
                IxData::Whole(_) => final(self).data == old(self).data,
                IxData::Sections(sections) => final(self).data matches IxData::Sections(longer)
                    && section_views(longer@) == section_views(sections@).push((offset, block@)),
            },
            old(self).data is Sections ==> forall|sought: u64|
                #![trigger final(self).posting(sought)]
                final(self).posting(sought) == if has_section(old(self).sections(), sought) {
                    old(self).posting(sought)
                } else if sought == offset {
                    block_postings(block@)
                } else {
                    None
                },
            old(self).wf() ==> final(self).wf(),
    {
        match &mut self.data {
            IxData::Whole(_) => {},
            IxData::Sections(sections) => {
                let ghost earlier = sections@;
                sections.push((offset, block));
                proof {
                    assert(section_views(sections@) =~= section_views(earlier).push(
                        (offset, block@),
                    ));
                    assert forall|sought: u64|
                        #![trigger section_postings(section_views(sections@), sought)]
                        section_postings(section_views(sections@), sought) == if has_section(
                            section_views(earlier),
                            sought,
                        ) {
                            section_postings(section_views(earlier), sought)
                        } else if sought == offset {
                            block_postings(block@)
                        } else {
                            None
                        } by {
                        lemma_section_postings_push(
                            section_views(earlier),
                            offset,
                            block@,
                            sought,
                        );
                    }
                }
            },
        }
    }

    /// The positions of the posting sections that `query` needs, in the
    /// order in which the query names its words.
    pub fn sections_needed(&self, query: &Query, whole_words: bool) -> (offsets: Vec<u64>)
        requires
            self.words_section.wf(),
        ensures
            offsets@ == self.needed(query@, whole_words),
    {
        let mut offsets: Vec<u64> = Vec::new();
        self.collect_needed(query, whole_words, &mut offsets);
        assert(offsets@ =~= self.needed(query@, whole_words));
        offsets
    }

    /// Appends the positions of the posting sections that `query` needs to
    /// `offsets`.
    fn collect_needed(&self, query: &Query, whole_words: bool, offsets: &mut Vec<u64>)
        requires
            self.words_section.wf(),
        ensures
            final(offsets)@ == old(offsets)@ + self.needed(query@, whole_words),
        decreases query,
    {
        match query {
            Query::Word(word) => {
                let found = self.words_section.select_words(word.as_str(), whole_words);
                let ghost sought = sections_of(self.words_section.lookup(word@, whole_words));
                let mut i: usize = 0;
                assert(sought.take(0) =~= Seq::<u64>::empty());
                assert(offsets@ =~= old(offsets)@ + sought.take(0));
                while i < found.len()
                    invariant
                        i <= found@.len(),
                        sought == sections_of(words_of(found@)),
                        offsets@ == old(offsets)@ + sought.take(i as int),
                    decreases found@.len() - i,
                {
                    assert(words_of(found@)[i as int] == *found@[i as int]);
                    offsets.push(found[i].lines_section_offset);
                    i = i + 1;
                    assert(offsets@ =~= old(offsets)@ + sought.take(i as int));
                }
                assert(sought.take(i as int) =~= sought);
            },
            Query::Any(queries) | Query::All(queries) => {
                let ghost children = crate::query::views(queries@);
                assert(query@ is Any ==> query@->Any_0 =~= children);
                assert(query@ is All ==> query@->All_0 =~= children);
                let mut i: usize = 0;
                assert(children.take(0) =~= Seq::<QueryView>::empty());
                assert(offsets@ =~= old(offsets)@ + self.needed_each(
                    children.take(0),
                    whole_words,
                ));
                while i < queries.len()
                    invariant
                        i <= queries@.len(),
                        self.words_section.wf(),
                        children == crate::query::views(queries@),
                        offsets@ == old(offsets)@ + self.needed_each(
                            children.take(i as int),
                            whole_words,
                        ),
                        forall|j: int|
                            0 <= j < queries@.len() ==> decreases_to!(query => #[trigger] queries@[j]),
                    decreases queries@.len() - i,
                {
                    self.collect_needed(&queries[i], whole_words, offsets);
                    proof {
                        assert(children.take(i + 1).drop_last() =~= children.take(i as int));
                        assert(offsets@ =~= old(offsets)@ + self.needed_each(
                            children.take(i + 1),
                            whole_words,
                        ));
                    }
                    i = i + 1;
                }
                assert(children.take(i as int) =~= children);
            },
        }
    }

    /// Opens the index `data`: reads the header, then the word directory
    /// where the header says it is. Fails with `CorruptIndex` where either
    /// cannot be read or the index is of another version.
    pub fn new(data: Vec<u8>) -> (r: Result<Self, IxError>)
        ensures
            match r {
                Ok(ix) => ix.wf() && ix.data is Whole && ix.image() == data@,
                Err(e) => e == IxError::CorruptIndex && index_directory(data@).is_none(),
            },
    {
        let words_section = match Self::read_directory(data.as_slice()) {
            Ok(section) => section,
            Err(e) => {
                return Err(e);
            },
        };
        Ok(Self { data: IxData::Whole(data), words_section })
    }

    /// The line offsets that `query` selects, in the order in which a reader
    /// yields them, or `None` where a posting section that the query needs
    /// is malformed. A word selects the merge of the posting lists of the
    /// directory entries that it matches, alternatives select the merge of
    /// what each selects, and conditions that hold together select the
    /// intersection.
    pub open spec fn eval(&self, query: QueryView, whole_words: bool) -> Option<Seq<u64>>
        decreases query, 1nat,
    {
        match query {
            QueryView::Word(word) => match all_some(
                word_postings(*self,
                    self.words_section.lookup(word, whole_words),
                ),
            ) {
                Some(streams) => Some(kmerge(streams)),
                None => None,
            },
            QueryView::Any(children) => match all_some(self.eval_each(children, whole_words)) {
                Some(streams) => Some(kmerge(streams)),
                None => None,
            },
            QueryView::All(children) => match all_some(self.eval_each(children, whole_words)) {
                Some(streams) => Some(intersect(streams)),
                None => None,
            },
        }
    }

    /// What each of `children` selects.
    pub open spec fn eval_each(&self, children: Seq<QueryView>, whole_words: bool) -> Seq<
        Option<Seq<u64>>,
    >
        decreases children, 0nat,
    {
        Seq::new(
            children.len(),
            |i: int|
                if 0 <= i < children.len() {
                    self.eval(children[i], whole_words)
                } else {
                    None
                },
        )
    }

    /// A reader of the lines that `query` selects. Fails with
    /// `CorruptIndex` where a posting section that the query needs is
    /// malformed.
    pub fn query(&self, query: &Query, whole_words: bool) -> (r: Result<LinesReader, IxError>)
        requires
            self.wf(),
        ensures
            match r {
                Ok(reader) => reader.wf() && self.eval(query@, whole_words) == Some(
                    reader.remaining(),
                ),
                Err(e) => e == IxError::CorruptIndex && self.eval(query@, whole_words).is_none(),
            },
        decreases query,
    {
        match query {
            Query::Word(word) => {
                let found = self.words_section.select_words(word.as_str(), whole_words);
                let ghost results = word_postings(*self,
                    self.words_section.lookup(word@, whole_words),
                );
                let mut readers: Vec<LinesReader> = Vec::new();
                let mut i: usize = 0;
                while i < found.len()
                    invariant
                        i <= found@.len(),
                        readers@.len() == i,
                        query@ == QueryView::Word(word@),
                        results == word_postings(*self,
                            self.words_section.lookup(word@, whole_words),
                        ),
                        results == word_postings(*self, words_of(found@)),
                        results.len() == found@.len(),
                        forall|j: int| 0 <= j < i ==> (#[trigger] readers@[j]).wf(),
                        forall|j: int|
                            0 <= j < i ==> results[j] == Some((#[trigger] readers@[j]).remaining()),
                    decreases found@.len() - i,
                {
                    assert(words_of(found@)[i as int] == *found@[i as int]);
                    match LinesReader::with_word(self, found[i]) {
                        Ok(reader) => {
                            readers.push(reader);
                        },
                        Err(e) => {
                            assert(results[i as int] is None);
                            return Err(e);
                        },
                    }
                    i = i + 1;
                }
                assert forall|j: int| 0 <= j < results.len() implies (#[trigger] results[j])
                    is Some by {
                    assert(results[j] == Some(readers@[j].remaining()));
                }
                assert(all_some(results)->0 =~= streams_of(readers@));
                Ok(LinesReader::with_any(readers))
            },
            Query::Any(queries) => {
                assert(query@->Any_0 =~= crate::query::views(queries@));
                let readers = match self.query_each(queries, whole_words) {
                    Ok(readers) => readers,
                    Err(e) => {
                        return Err(e);
                    },
                };
                Ok(LinesReader::with_any(readers))
            },
            Query::All(queries) => {
                assert(query@->All_0 =~= crate::query::views(queries@));
                let readers = match self.query_each(queries, whole_words) {
                    Ok(readers) => readers,
                    Err(e) => {
                        return Err(e);
                    },
                };
                Ok(LinesReader::with_all(readers))
            },
        }
    }

    /// A reader for each of `queries`.
    fn query_each(&self, queries: &Vec<Query>, whole_words: bool) -> (r: Result<
        Vec<LinesReader>,
        IxError,
    >)
        requires
            self.wf(),
        ensures
            match r {
                Ok(readers) => {
                    &&& forall|j: int| 0 <= j < readers@.len() ==> (#[trigger] readers@[j]).wf()
                    &&& all_some(self.eval_each(crate::query::views(queries@), whole_words))
                        == Some(streams_of(readers@))
                },
                Err(e) => e == IxError::CorruptIndex && all_some(
                    self.eval_each(crate::query::views(queries@), whole_words),
                ).is_none(),
            },
        decreases queries,
    {
        let ghost results = self.eval_each(crate::query::views(queries@), whole_words);
        let mut readers: Vec<LinesReader> = Vec::new();
        let mut i: usize = 0;
        while i < queries.len()
            invariant
                i <= queries@.len(),
                readers@.len() == i,
                self.wf(),
                results == self.eval_each(crate::query::views(queries@), whole_words),
                results.len() == queries@.len(),
                forall|j: int| 0 <= j < i ==> (#[trigger] readers@[j]).wf(),
                forall|j: int|
                    0 <= j < i ==> results[j] == Some((#[trigger] readers@[j]).remaining()),
                forall|j: int|
                    0 <= j < queries@.len() ==> decreases_to!(queries => #[trigger] queries@[j]),
            decreases queries@.len() - i,
        {
            match self.query(&queries[i], whole_words) {
                Ok(reader) => {
                    readers.push(reader);
                },
                Err(e) => {
                    assert(results[i as int] is None);
                    return Err(e);
                },
            }
            i = i + 1;
        }
        assert forall|j: int| 0 <= j < results.len() implies (#[trigger] results[j]) is Some by {
            assert(results[j] == Some(readers@[j].remaining()));
        }
        assert(all_some(results)->0 =~= streams_of(readers@));
        Ok(readers)
    }

    /// The line `target_line` of the log with the lines before and after
    /// it, each as it was read and now without the white space at its end;
    /// `None` where the order of the words counts and the words of
    /// `check_order` do not occur in the line in their order.
    pub fn read_log(
        &self,
        target_line: &str,
        lines_before: &Vec<String>,
        lines_after: &Vec<String>,
        check_order: Option<&Query>,
    ) -> (r: Option<LogLine>)
        ensures
            r is Some <==> match check_order {
                Some(query) => order_end(query@, tokens_of(target_line@), 0).is_some(),
                None => true,
            },
            r matches Some(line) ==> {
                &&& line.line@ == trim_end_of(target_line@)
                &&& line.line@.is_prefix_of(target_line@)
                &&& texts(line.before@) == trimmed_lines(texts(lines_before@))
                &&& texts(line.after@) == trimmed_lines(texts(lines_after@))
            },
    {
        if LogLine::in_order(target_line, check_order) {
            Some(LogLine::read(target_line, lines_before, lines_after))
        } else {
            None
        }
    }

    /// Appends the listing of the directory to `out`: `Tokens:`, then
    /// every word behind two spaces.
    pub fn print_debug(&self, out: &mut Vec<String>)
        ensures
            texts(final(out)@) == texts(old(out)@) + seq!["Tokens:"@] + word_listing(
                self.words_section.words@,
            ),
    {
        out.push(String::from_str("Tokens:"));
        let ghost head = texts(old(out)@) + seq!["Tokens:"@];
        assert(texts(out@) =~= head);
        let ghost listing = word_listing(self.words_section.words@);
        let mut i: usize = 0;
        while i < self.words_section.words.len()
            invariant
                i <= self.words_section.words@.len(),
                listing == word_listing(self.words_section.words@),
                texts(out@) == head + listing.take(i as int),
            decreases self.words_section.words@.len() - i,
        {
            let ghost earlier = out@;
            let mut line = String::from_str("  ");
            line.append(self.words_section.words[i].text.as_str());
            assert(line@ == listing[i as int]);
            out.push(line);
            i = i + 1;
            assert(texts(out@) =~= texts(earlier).push(line@));
            assert(texts(out@) =~= head + listing.take(i as int));
        }
        assert(listing.take(i as int) =~= listing);
    }

    /// Parses `query_str` and returns a reader of the lines that the query
    /// selects, with the words of the query. Fails with `EmptyQuery` where
    /// the string holds no word, and with `CorruptIndex` where a posting
    /// section that the query needs is malformed.
    pub fn find_matches(&self, query_str: &str, whole_words: bool) -> (r: Result<
        (LinesReader, Vec<String>),
        IxError,
    >)
        requires
            self.wf(),
        ensures
            match parse_query(query_str@) {
                None => r == Err::<(LinesReader, Vec<String>), IxError>(IxError::EmptyQuery),
                Some(query) => match self.eval(query, whole_words) {
                    None => r == Err::<(LinesReader, Vec<String>), IxError>(
                        IxError::CorruptIndex,
                    ),
                    Some(lines) => r is Ok && r->Ok_0.0.wf() && r->Ok_0.0.remaining() == lines
                        && texts(r->Ok_0.1@) == query_words(query),
                },
            },
    {
        let query = match Query::parse(query_str) {
            Some(query) => query,
            None => {
                return Err(IxError::EmptyQuery);
            },
        };
        let lines = match self.query(&query, whole_words) {
            Ok(lines) => lines,
            Err(e) => {
                return Err(e);
            },
        };
        Ok((lines, query.get_words()))
    }

    /// Reads the header of the index `data`, then the word directory where
    /// the header says it is.
    fn read_directory(data: &[u8]) -> (r: Result<IxWordsSection, IxError>)
        ensures
            match r {
                Ok(section) => section.wf() && index_directory(data@) == Some(section.entries()),
                Err(e) => e == IxError::CorruptIndex && index_directory(data@).is_none(),
            },
    {
        let mut file = ByteReader::new(data);
        let header = match IxHeaderSection::read(&mut file) {
            Ok(header) => header,
            Err(e) => {
                return Err(e);
            },
        };
        if header.version != IX_VERSION {
            return Err(IxError::CorruptIndex);
        }
        let mut file = match ByteReader::at(data, header.words_section_offset) {
            Ok(file) => file,
            Err(e) => {
                return Err(e);
            },
        };
        IxWordsSection::read(&mut file)
    }
}

} // verus!
