use crate::error::IxError;
use crate::index::header_section::IxHeaderSection;
use crate::index::lex::{lemma_lex_irreflexive, lemma_lex_total, lex_lt};
use crate::index::lines_section::{IxLinesSection, LINE_OFFSET_LIMIT};
use crate::index::reader::{index_directory, lines_section_at};
use crate::index::words_section::{
    directory_image, entries_of, entries_sorted, lemma_key_injective, parse_words_section, Entry,
    IxWord, IxWordsSection,
};
use crate::index::{block_payload, compressed_block, lemma_block_prefix_stable, IX_VERSION};
use crate::token::{texts, tokenize, tokens_of};
use vstd::prelude::*;
use vstd::utf8::encode_utf8;

verus! {

/// The offsets that indexing a line with the tokens `tokens` at
/// `line_offset` appends to the posting list of `word`: the low 40 bits of
/// `line_offset`, once for each time that `word` is among the tokens.
pub open spec fn added(tokens: Seq<Seq<char>>, word: Seq<char>, line_offset: u64) -> Seq<u64>
    decreases tokens.len(),
{
    if tokens.len() == 0 {
        Seq::empty()
    } else if tokens.last() == word {
        added(tokens.drop_last(), word, line_offset).push(line_offset % LINE_OFFSET_LIMIT)
    } else {
        added(tokens.drop_last(), word, line_offset)
    }
}

/// A line of a log: its text and the byte offset at which it starts.
pub type LogLineAt = (Seq<char>, u64);

/// The posting list of `word` in the index of `lines`: line by line, the
/// offsets that indexing the line appends.
pub open spec fn log_postings(lines: Seq<LogLineAt>, word: Seq<char>) -> Seq<u64>
    decreases lines.len(),
{
    if lines.len() == 0 {
        Seq::empty()
    } else {
        log_postings(lines.drop_last(), word) + added(
            tokens_of(lines.last().0),
            word,
            lines.last().1,
        )
    }
}

/// Whatever indexing a line appends to the posting list of a word is the
/// offset of that line, and the word is among the tokens of the line.
pub proof fn lemma_added_origin(tokens: Seq<Seq<char>>, word: Seq<char>, line_offset: u64, k: int)
    requires
        0 <= k < added(tokens, word, line_offset).len(),
    ensures
        added(tokens, word, line_offset)[k] == line_offset % LINE_OFFSET_LIMIT,
        tokens.contains(word),
    decreases tokens.len(),
{
    if tokens.last() == word {
        assert(tokens[tokens.len() - 1] == word);
        if k < added(tokens.drop_last(), word, line_offset).len() {
            lemma_added_origin(tokens.drop_last(), word, line_offset, k);
        }
    } else {
        lemma_added_origin(tokens.drop_last(), word, line_offset, k);
        let at = choose|at: int| 0 <= at < tokens.drop_last().len() && tokens.drop_last()[at] == word;
        assert(tokens[at] == word);
    }
}

/// Indexing a line appends to the posting list of a word exactly where the
/// word is among the tokens of the line.
pub proof fn lemma_added_some(tokens: Seq<Seq<char>>, word: Seq<char>, line_offset: u64)
    ensures
        added(tokens, word, line_offset).len() > 0 <==> tokens.contains(word),
{
    if added(tokens, word, line_offset).len() > 0 {
        lemma_added_origin(tokens, word, line_offset, 0);
    }
    if tokens.contains(word) {
        let k = lemma_added_complete(tokens, word, line_offset);
    }
}

/// A sequence with one more item holds what the sequence holds, and the
/// one more.
pub proof fn lemma_contains_push(s: Seq<Seq<char>>, last: Seq<char>, item: Seq<char>)
    ensures
        s.push(last).contains(item) <==> s.contains(item) || item == last,
{
    let longer = s.push(last);
    if s.contains(item) {
        let at = choose|at: int| 0 <= at < s.len() && s[at] == item;
        assert(longer[at] == item);
    }
    if item == last {
        assert(longer[s.len() as int] == item);
    }
    if longer.contains(item) {
        let at = choose|at: int| 0 <= at < longer.len() && longer[at] == item;
        if at < s.len() {
            assert(s[at] == item);
        }
    }
}

/// The posting list of a word in the index of a log has occurrences exactly
/// where the word is among the tokens of a line of the log.
pub proof fn lemma_log_postings_some(lines: Seq<LogLineAt>, word: Seq<char>)
    ensures
        log_postings(lines, word).len() > 0 <==> exists|i: int|
            0 <= i < lines.len() && tokens_of((#[trigger] lines[i]).0).contains(word),
{
    if log_postings(lines, word).len() > 0 {
        let i = lemma_log_postings_origin(lines, word, 0);
        assert(0 <= i < lines.len() && tokens_of(lines[i].0).contains(word));
    }
    if exists|i: int|
        0 <= i < lines.len() && tokens_of((#[trigger] lines[i]).0).contains(word) {
        let i = choose|i: int|
            0 <= i < lines.len() && tokens_of((#[trigger] lines[i]).0).contains(word);
        let k = lemma_log_postings_complete(lines, word, i);
    }
}

/// Every offset in the posting list of a word is the offset, in its low 40
/// bits, of a line of the log that has the word among its tokens.
pub proof fn lemma_log_postings_origin(lines: Seq<LogLineAt>, word: Seq<char>, k: int) -> (i: int)
    requires
        0 <= k < log_postings(lines, word).len(),
    ensures
        0 <= i < lines.len(),
        log_postings(lines, word)[k] == lines[i].1 % LINE_OFFSET_LIMIT,
        tokens_of(lines[i].0).contains(word),
    decreases lines.len(),
{
    let earlier = log_postings(lines.drop_last(), word);
    if k < earlier.len() {
        lemma_log_postings_origin(lines.drop_last(), word, k)
    } else {
        lemma_added_origin(tokens_of(lines.last().0), word, lines.last().1, k - earlier.len());
        lines.len() - 1
    }
}

/// Every line that has a word among its tokens has its offset,
/// in its low 40 bits, in the posting list of the word.
pub proof fn lemma_log_postings_complete(lines: Seq<LogLineAt>, word: Seq<char>, i: int) -> (k: int)
    requires
        0 <= i < lines.len(),
        tokens_of(lines[i].0).contains(word),
    ensures
        0 <= k < log_postings(lines, word).len(),
        log_postings(lines, word)[k] == lines[i].1 % LINE_OFFSET_LIMIT,
    decreases lines.len(),
{
    let earlier = log_postings(lines.drop_last(), word);
    if i < lines.len() - 1 {
        lemma_log_postings_complete(lines.drop_last(), word, i)
    } else {
        let at = lemma_added_complete(tokens_of(lines.last().0), word, lines.last().1);
        earlier.len() + at
    }
}

/// Indexing a line that has a word among its tokens appends the
/// offset of the line to the posting list of the word.
pub proof fn lemma_added_complete(tokens: Seq<Seq<char>>, word: Seq<char>, line_offset: u64) -> (k:
    int)
    requires
        tokens.contains(word),
    ensures
        0 <= k < added(tokens, word, line_offset).len(),
        added(tokens, word, line_offset)[k] == line_offset % LINE_OFFSET_LIMIT,
    decreases tokens.len(),
{
    if tokens.last() == word {
        added(tokens.drop_last(), word, line_offset).len() as int
    } else {
        let at = choose|at: int| 0 <= at < tokens.len() && tokens[at] == word;
        assert(tokens.drop_last()[at] == word);
        lemma_added_complete(tokens.drop_last(), word, line_offset)
    }
}

/// The posting sections of an index, one compressed block after the other.
pub open spec fn sections_image(buffers: Seq<Seq<u8>>) -> Seq<u8>
    decreases buffers.len(),
{
    if buffers.len() == 0 {
        Seq::empty()
    } else {
        sections_image(buffers.drop_last()) + compressed_block(buffers.last())
    }
}

/// The position of posting section `i` in an index that starts at `base`:
/// after the header and the sections before it.
pub open spec fn section_offset(buffers: Seq<Seq<u8>>, base: nat, i: int) -> nat {
    base + 10 + sections_image(buffers.take(i)).len()
}

/// The sections up to `i`, section `i` and what follows it make up all the
/// sections.
pub proof fn lemma_sections_split(buffers: Seq<Seq<u8>>, i: int) -> (tail: Seq<u8>)
    requires
        0 <= i < buffers.len(),
    ensures
        sections_image(buffers) == sections_image(buffers.take(i)) + compressed_block(buffers[i])
            + tail,
    decreases buffers.len(),
{
    if i == buffers.len() - 1 {
        assert(buffers.take(i) =~= buffers.drop_last());
        assert(sections_image(buffers) =~= sections_image(buffers.take(i)) + compressed_block(
            buffers[i],
        ) + Seq::<u8>::empty());
        Seq::empty()
    } else {
        let inner = lemma_sections_split(buffers.drop_last(), i);
        assert(buffers.drop_last().take(i) =~= buffers.take(i));
        let tail = inner + compressed_block(buffers.last());
        assert(sections_image(buffers) =~= sections_image(buffers.take(i)) + compressed_block(
            buffers[i],
        ) + tail);
        tail
    }
}

/// Builds an index in memory: a directory of words kept sorted, and for each
/// word the list of the lines that hold it.
pub struct IxBuilder {
    pub words_section: IxWordsSection,
    /// The posting list of each word of the directory, at the same index.
    pub lines_sections: Vec<IxLinesSection>,
}

impl IxBuilder {
    /// The directory is sorted and every word has its posting list.
    pub open spec fn wf(&self) -> bool {
        &&& self.words_section.wf()
        &&& self.lines_sections@.len() == self.words_section.words@.len()
        &&& forall|i: int|
            0 <= i < self.lines_sections@.len() ==> (#[trigger] self.lines_sections@[i]).wf()
    }

    /// `word` is in the directory at index `i`.
    pub open spec fn word_at(&self, word: Seq<char>, i: int) -> bool {
        0 <= i < self.words_section.words@.len() && self.words_section.words@[i].text@ == word
    }

    /// `word` is in the directory.
    pub open spec fn has_word(&self, word: Seq<char>) -> bool {
        exists|i: int| self.word_at(word, i)
    }

    /// The line offsets recorded for `word`, in the order of insertion;
    /// empty for a word that is not in the directory.
    pub open spec fn postings(&self, word: Seq<char>) -> Seq<u64> {
        if self.has_word(word) {
            self.lines_sections@[choose|i: int| self.word_at(word, i)].offsets()
        } else {
            Seq::empty()
        }
    }

    /// The posting list of the word at index `i` is the one paired with it.
    pub proof fn lemma_postings_at(&self, i: int)
        requires
            self.wf(),
            0 <= i < self.words_section.words@.len(),
        ensures
            self.has_word(self.words_section.words@[i].text@),
            self.postings(self.words_section.words@[i].text@) == self.lines_sections@[i].offsets(),
    {
        let word = self.words_section.words@[i].text@;
        assert(self.word_at(word, i));
        let j = choose|j: int| self.word_at(word, j);
        let entries = self.words_section.entries();
        lemma_lex_irreflexive(entries[i].0);
        if i < j {
            assert(lex_lt(entries[i].0, entries[j].0));
        } else if j < i {
            assert(lex_lt(entries[j].0, entries[i].0));
        }
    }

    /// The builder holds the index of `lines`: for every word the posting
    /// list that indexing the lines in order gives, and in its directory the
    /// words that have occurrences in that list, and no others.
    pub open spec fn indexes(&self, lines: Seq<LogLineAt>) -> bool {
        &&& forall|word: Seq<char>| #[trigger] self.postings(word) == log_postings(lines, word)
        &&& forall|word: Seq<char>| #[trigger]
            self.has_word(word) <==> log_postings(lines, word).len() > 0
    }

    /// The directory of the index of a log holds the tokens of the log, and
    /// no other word. In a consistent builder its words are strictly
    /// ascending, so it holds each of them once.
    pub proof fn lemma_directory_is_vocabulary(&self, lines: Seq<LogLineAt>, word: Seq<char>)
        requires
            self.indexes(lines),
        ensures
            self.has_word(word) <==> exists|i: int|
                0 <= i < lines.len() && tokens_of((#[trigger] lines[i]).0).contains(word),
    {
        lemma_log_postings_some(lines, word);
        assert(self.has_word(word) <==> log_postings(lines, word).len() > 0);
    }

    /// The index of a log without lines has an empty directory.
    pub proof fn lemma_empty_log_empty_directory(&self)
        requires
            self.indexes(Seq::empty()),
        ensures
            self.words_section.words@.len() == 0,
    {
        if self.words_section.words@.len() > 0 {
            let word = self.words_section.words@[0].text@;
            assert(self.word_at(word, 0));
            assert(self.has_word(word));
            assert(log_postings(Seq::<LogLineAt>::empty(), word).len() > 0);
        }
    }

    /// The posting buffers, in directory order.
    pub open spec fn buffers(&self) -> Seq<Seq<u8>> {
        Seq::new(self.lines_sections@.len(), |i: int| self.lines_sections@[i].line_offsets_buf@)
    }

    /// The header of the index that `write` produces at position `base`.
    pub open spec fn header(&self, base: nat) -> IxHeaderSection {
        IxHeaderSection {
            version: IX_VERSION,
            words_section_offset: section_offset(
                self.buffers(),
                base,
                self.buffers().len() as int,
            ) as u64,
        }
    }

    /// The bytes of the index at position `base`: the header, the posting
    /// sections in directory order, and the word directory.
    pub open spec fn image(&self, base: nat) -> Seq<u8> {
        self.header(base).image() + sections_image(self.buffers()) + compressed_block(
            directory_image(self.words_section.entries()),
        )
    }

    /// Every word records the position of its posting section in an index
    /// that starts at `base`.
    pub open spec fn placed(&self, base: nat) -> bool {
        forall|i: int|
            0 <= i < self.words_section.words@.len() ==> (
            #[trigger] self.words_section.words@[i]).lines_section_offset == section_offset(
                self.buffers(),
                base,
                i,
            )
    }

    /// `data` is an index from which the directory and every posting list
    /// of the builder are read back.
    pub open spec fn stored_in(&self, data: Seq<u8>) -> bool {
        &&& index_directory(data) == Some(self.words_section.entries())
        &&& forall|i: int|
            0 <= i < self.lines_sections@.len() ==> lines_section_at(
                data,
                (#[trigger] self.words_section.words@[i]).lines_section_offset,
            ) == Some(self.lines_sections@[i].line_offsets_buf@)
    }

    /// A word stands at one place of the directory only.
    pub proof fn lemma_word_unique(&self, word: Seq<char>, i: int, j: int)
        requires
            self.wf(),
            self.word_at(word, i),
            self.word_at(word, j),
        ensures
            i == j,
    {
        let entries = self.words_section.entries();
        lemma_lex_irreflexive(entries[i].0);
        if i < j {
            assert(lex_lt(entries[i].0, entries[j].0));
        } else if j < i {
            assert(lex_lt(entries[j].0, entries[i].0));
        }
    }

    /// A builder without words.
    pub fn new() -> (builder: Self)
        ensures
            builder.wf(),
            builder.words_section.words@.len() == 0,
            forall|word: Seq<char>| !builder.has_word(word),
            builder.indexes(Seq::empty()),
    {
        Self { words_section: IxWordsSection::new(), lines_sections: Vec::new() }
    }

    /// Records that the line at `line_offset` holds the word `text`. A word
    /// that is new to the directory is inserted at its place in the order,
    /// with the offset as its posting list; for a word that the directory
    /// holds the offset is appended to its posting list.
    pub fn add_word(&mut self, text: String, line_offset: u64)
        requires
            old(self).wf(),
        ensures
            final(self).wf(),
            forall|word: Seq<char>|
                final(self).has_word(word) <==> old(self).has_word(word) || word == text@,
            forall|word: Seq<char>|
                #[trigger] final(self).postings(word) == if word == text@ {
                    old(self).postings(word).push(line_offset % LINE_OFFSET_LIMIT)
                } else {
                    old(self).postings(word)
                },
            old(self).has_word(text@) ==> final(self).words_section.words@
                == old(self).words_section.words@,
            !old(self).has_word(text@) ==> exists|at: int|
                0 <= at <= old(self).words_section.words@.len() && final(self).words_section.words@
                    == #[trigger] old(self).words_section.words@.insert(
                    at,
                    (IxWord { text, lines_section_offset: 0 }),
                ),
    {
        let key_bytes = text.as_str().as_bytes();
        assert(key_bytes@ == encode_utf8(text@));
        let index = self.words_section.lower_bound(key_bytes);
        let ghost key = encode_utf8(text@);
        let ghost before = *self;
        let ghost entries = before.words_section.entries();
        let hit = index < self.words_section.words.len() && crate::index::lex::bytes_eq(
            self.words_section.words[index].key_bytes(),
            key_bytes,
        );
        if hit {
            self.lines_sections[index].add_line_offset(line_offset);
            proof {
                lemma_key_injective(before.words_section.words@[index as int].text@, text@);
                assert(before.word_at(text@, index as int));
                assert(self.wf());
                assert(before.has_word(text@));
                assert forall|word: Seq<char>|
                    self.has_word(word) <==> old(self).has_word(word) || word == text@ by {
                    if before.has_word(word) {
                        let i = choose|i: int| before.word_at(word, i);
                        assert(self.word_at(word, i));
                    }
                    if self.has_word(word) {
                        let i = choose|i: int| self.word_at(word, i);
                        assert(before.word_at(word, i));
                    }
                }
                assert forall|word: Seq<char>|
                    #[trigger] self.postings(word) == if word == text@ {
                        before.postings(word).push(line_offset % LINE_OFFSET_LIMIT)
                    } else {
                        before.postings(word)
                    } by {
                    assert(self.word_at(text@, index as int));
                    if self.has_word(word) {
                        let i = choose|i: int| self.word_at(word, i);
                        assert(before.word_at(word, i));
                        before.lemma_postings_at(i);
                        self.lemma_postings_at(i);
                        if word == text@ {
                            before.lemma_word_unique(word, i, index as int);
                        }
                    }
                }
            }
        } else {
            let mut lines_section = IxLinesSection::new();
            lines_section.add_line_offset(line_offset);
            proof {
                assert(lines_section.offsets() =~= Seq::<u64>::empty().push(
                    line_offset % LINE_OFFSET_LIMIT,
                ));
            }
            let word = IxWord::new(text, 0);
            self.words_section.words.insert(index, word);
            self.lines_sections.insert(index, lines_section);
            proof {
                let words = before.words_section.words@;
                let after = self.words_section.words@;
                assert(after == words.insert(index as int, word));
                assert(word == (IxWord { text: word.text, lines_section_offset: 0 }));
                assert forall|i: int| 0 <= i < words.len() implies (#[trigger] words[i]).text@
                    != text@ by {
                    assert(entries[i].0 == words[i].key());
                    lemma_lex_irreflexive(key);
                    if i >= index && words[i].text@ == text@ {
                        if i > index {
                            assert(lex_lt(entries[index as int].0, entries[i].0));
                        }
                    }
                }
                lemma_insert_keeps_sorted(words, index as int, word);
                assert(self.wf());
                assert forall|candidate: Seq<char>|
                    self.has_word(candidate) <==> old(self).has_word(candidate) || candidate
                        == word.text@ by {
                    if before.has_word(candidate) {
                        let i = choose|i: int| before.word_at(candidate, i);
                        if i < index {
                            assert(self.word_at(candidate, i));
                        } else {
                            assert(self.word_at(candidate, i + 1));
                        }
                    }
                    if candidate == text@ {
                        assert(self.word_at(candidate, index as int));
                    }
                    if self.has_word(candidate) && candidate != text@ {
                        let i = choose|i: int| self.word_at(candidate, i);
                        if i < index {
                            assert(before.word_at(candidate, i));
                        } else {
                            assert(before.word_at(candidate, i - 1));
                        }
                    }
                }
                assert forall|candidate: Seq<char>|
                    #[trigger] self.postings(candidate) == if candidate == text@ {
                        before.postings(candidate).push(line_offset % LINE_OFFSET_LIMIT)
                    } else {
                        before.postings(candidate)
                    } by {
                    if candidate == text@ {
                        assert(!before.has_word(candidate));
                        self.lemma_postings_at(index as int);
                    } else if self.has_word(candidate) {
                        let i = choose|i: int| self.word_at(candidate, i);
                        self.lemma_postings_at(i);
                        if i < index {
                            before.lemma_postings_at(i);
                        } else {
                            before.lemma_postings_at(i - 1);
                        }
                    }
                }
            }
        }
    }

    /// Whether the index can be written: whether no word of the directory is
    /// longer than 255 bytes.
    pub fn can_write(&self) -> (r: bool)
        ensures
            r == self.words_section.storable(),
    {
        self.words_section.is_storable()
    }

    /// Appends the index to `writer`: ten bytes are reserved for the header,
    /// the posting sections follow in directory order, each word recording
    /// the position of its own, then the word directory, and at last the
    /// header is filled in. Fails with `Io` where the compressor fails;
    /// what was written before stays in `writer`. The format keeps the
    /// length of a word in one byte: a builder that holds a longer word
    /// cannot be written, which `can_write` tells.
    pub fn write(&mut self, writer: &mut Vec<u8>) -> (r: Result<(), IxError>)
        requires
            old(self).wf(),
            old(self).words_section.storable(),
        ensures
            final(self).wf(),
            final(self).words_section.storable(),
            final(self).lines_sections@ == old(self).lines_sections@,
            final(self).words_section.words@.len() == old(self).words_section.words@.len(),
            forall|i: int|
                0 <= i < old(self).words_section.words@.len() ==> (
                #[trigger] final(self).words_section.words@[i]).text
                    == old(self).words_section.words@[i].text,
            forall|word: Seq<char>|
                #![trigger final(self).postings(word)]
                final(self).postings(word) == old(self).postings(word),
            forall|word: Seq<char>|
                #![trigger final(self).has_word(word)]
                final(self).has_word(word) <==> old(self).has_word(word),
            forall|lines: Seq<LogLineAt>| #[trigger]
                old(self).indexes(lines) ==> final(self).indexes(lines),
            match r {
                Ok(_) => {
                    &&& final(self).placed(old(writer)@.len())
                    &&& final(writer)@ == old(writer)@ + final(self).image(old(writer)@.len())
                    &&& old(writer)@.len() == 0 ==> final(self).stored_in(final(writer)@)
                },
                Err(e) => e == IxError::Io && old(writer)@.is_prefix_of(final(writer)@),
            },
    {
        let ghost base = writer@.len();
        let ghost buffers = self.buffers();
        let start_position = writer.len();
        let mut header_section = IxHeaderSection::new();
        let ghost reserved = header_section.image();
        proof {
            header_section.lemma_image_round_trip(Seq::empty());
        }
        let reserved_len = header_section.write(writer);
        assert(writer@.len() == writer.len());
        let mut pos = start_position as u64 + reserved_len;
        let n = self.lines_sections.len();
        let mut i: usize = 0;
        assert(buffers.take(0) =~= Seq::<Seq<u8>>::empty());
        while i < n
            invariant
                i <= n,
                n == self.lines_sections@.len(),
                self.wf(),
                self.words_section.storable(),
                old(self).wf(),
                self.lines_sections@ == old(self).lines_sections@,
                self.words_section.words@.len() == old(self).words_section.words@.len(),
                forall|j: int|
                    0 <= j < n ==> (#[trigger] self.words_section.words@[j]).text
                        == old(self).words_section.words@[j].text,
                buffers == self.buffers(),
                base == old(writer)@.len(),
                reserved.len() == 10,
                writer@ == old(writer)@ + reserved + sections_image(buffers.take(i as int)),
                pos == writer@.len(),
                forall|j: int|
                    0 <= j < i ==> (#[trigger] self.words_section.words@[j]).lines_section_offset
                        == section_offset(buffers, base, j),
                forall|j: int|
                    0 <= j < i ==> block_payload(compressed_block(#[trigger] buffers[j])) == Some(
                        buffers[j],
                    ),
            decreases n - i,
        {
            let ghost words = self.words_section.words@;
            self.words_section.words[i].lines_section_offset = pos;
            proof {
                let changed = self.words_section.words@;
                assert(changed[i as int].text == words[i as int].text);
                assert(crate::index::words_section::entries_of(changed).map_values(
                    |entry: Entry| entry.0,
                ) =~= crate::index::words_section::entries_of(words).map_values(
                    |entry: Entry| entry.0,
                ));
                lemma_same_keys_sorted(words, changed);
                assert forall|j: int| 0 <= j < changed.len() implies (#[trigger] changed[j]).key().len()
                    <= 255 by {
                    assert(changed[j].text == words[j].text);
                    assert(words[j].key().len() <= 255);
                }
            }
            match self.lines_sections[i].write(writer) {
                Ok(written) => {
                    proof {
                        assert(buffers.take(i + 1).drop_last() =~= buffers.take(i as int));
                        assert(writer@ =~= old(writer)@ + reserved + sections_image(
                            buffers.take(i + 1),
                        ));
                        assert(writer@.len() == writer.len());
                    }
                    pos = pos + written;
                },
                Err(e) => {
                    assert(old(writer)@ =~= writer@.subrange(0, old(writer)@.len() as int));
                    proof {
                        lemma_same_texts_same_postings(*old(self), *self);
                    }
                    return Err(e);
                },
            }
            i = i + 1;
        }
        proof {
            lemma_same_texts_same_postings(*old(self), *self);
        }
        assert(buffers.take(n as int) =~= buffers);
        header_section.words_section_offset = pos;
        let ghost sections = old(writer)@ + reserved + sections_image(buffers);
        match self.words_section.write(writer) {
            Ok(_) => {},
            Err(e) => {
                assert(old(writer)@ =~= writer@.subrange(0, old(writer)@.len() as int));
                return Err(e);
            },
        }
        let ghost directory = compressed_block(directory_image(self.words_section.entries()));
        let mut head: Vec<u8> = Vec::new();
        header_section.write(&mut head);
        proof {
            header_section.lemma_image_round_trip(Seq::empty());
            assert(head@ =~= header_section.image());
        }
        let total = writer.len();
        let mut k: usize = 0;
        while k < 10
            invariant
                k <= 10,
                head@.len() == 10,
                total == writer@.len(),
                start_position == old(writer)@.len(),
                reserved.len() == 10,
                writer@.len() == sections.len() + directory.len(),
                sections == old(writer)@ + reserved + sections_image(buffers),
                forall|j: int| 0 <= j < k ==> writer@[start_position + j] == head@[j],
                forall|j: int|
                    0 <= j < writer@.len() && !(start_position <= j < start_position + k)
                        ==> writer@[j] == (sections + directory)[j],
            decreases 10 - k,
        {
            writer[start_position + k] = head[k];
            k = k + 1;
        }
        proof {
            assert(header_section == self.header(base));
            assert(writer@ =~= old(writer)@ + self.image(base));
            if base == 0 {
                self.lemma_stored(writer@);
            }
        }
        Ok(())
    }

    /// An index written at position zero is read back.
    proof fn lemma_stored(&self, data: Seq<u8>)
        requires
            self.wf(),
            self.placed(0),
            data == self.image(0),
            data.len() <= u64::MAX,
            parse_words_section(compressed_block(directory_image(self.words_section.entries())))
                == Some(self.words_section.entries()),
            forall|j: int|
                0 <= j < self.buffers().len() ==> block_payload(
                    compressed_block(#[trigger] self.buffers()[j]),
                ) == Some(self.buffers()[j]),
        ensures
            self.stored_in(data),
    {
        let header = self.header(0);
        let buffers = self.buffers();
        let sections = sections_image(buffers);
        let directory = compressed_block(directory_image(self.words_section.entries()));
        header.lemma_image_round_trip(sections + directory);
        assert(data =~= header.image() + (sections + directory));
        assert(buffers.take(buffers.len() as int) =~= buffers);
        assert(data.skip(10 + sections.len() as int) =~= directory);
        assert forall|i: int| 0 <= i < self.lines_sections@.len() implies lines_section_at(
            data,
            (#[trigger] self.words_section.words@[i]).lines_section_offset,
        ) == Some(self.lines_sections@[i].line_offsets_buf@) by {
            let tail = lemma_sections_split(buffers, i);
            let block = compressed_block(buffers[i]);
            let offset = section_offset(buffers, 0, i);
            assert(data.skip(offset as int) =~= block + (tail + directory));
            lemma_block_prefix_stable(block, tail + directory);
            assert(self.lines_sections@[i].wf());
        }
    }

    /// Records every token of the line that starts at `line_offset`.
    pub fn add_line(&mut self, line: &str, line_offset: u64)
        requires
            old(self).wf(),
        ensures
            final(self).wf(),
            forall|word: Seq<char>|
                #[trigger] final(self).postings(word) == old(self).postings(word) + added(
                    tokens_of(line@),
                    word,
                    line_offset,
                ),
            forall|word: Seq<char>|
                #![trigger final(self).has_word(word)]
                final(self).has_word(word) <==> old(self).has_word(word) || (tokens_of(
                    line@,
                ).contains(word)),
            forall|lines: Seq<LogLineAt>| #[trigger]
                old(self).indexes(lines) ==> final(self).indexes(lines.push((line@, line_offset))),
    {
        let tokens = tokenize(line);
        let ghost all = tokens_of(line@);
        let mut i: usize = 0;
        proof {
            assert(all.take(0) =~= Seq::<Seq<char>>::empty());
            assert forall|word: Seq<char>|
                #[trigger] self.postings(word) == old(self).postings(word) + added(
                    all.take(0),
                    word,
                    line_offset,
                ) by {
                assert(old(self).postings(word) + Seq::<u64>::empty() =~= old(self).postings(word));
            }
        }
        while i < tokens.len()
            invariant
                i <= tokens@.len(),
                self.wf(),
                texts(tokens@) == all,
                forall|word: Seq<char>|
                    #[trigger] self.postings(word) == old(self).postings(word) + added(
                        all.take(i as int),
                        word,
                        line_offset,
                    ),
                forall|word: Seq<char>|
                    #![trigger self.has_word(word)]
                    self.has_word(word) <==> old(self).has_word(word) || (all.take(
                        i as int,
                    ).contains(word)),
            decreases tokens@.len() - i,
        {
            let ghost before = *self;
            self.add_word(tokens[i].clone(), line_offset);
            proof {
                let token = all[i as int];
                assert(token == tokens@[i as int]@);
                assert(all.take(i + 1).drop_last() =~= all.take(i as int));
                assert forall|word: Seq<char>|
                    #![trigger self.has_word(word)]
                    self.has_word(word) <==> old(self).has_word(word) || (all.take(
                        i + 1,
                    ).contains(word)) by {
                    assert(before.has_word(word) <==> old(self).has_word(word) || (all.take(
                        i as int,
                    ).contains(word)));
                    lemma_contains_push(all.take(i as int), token, word);
                    assert(all.take(i + 1) =~= all.take(i as int).push(token));
                }
                assert forall|word: Seq<char>|
                    #[trigger] self.postings(word) == old(self).postings(word) + added(
                        all.take(i + 1),
                        word,
                        line_offset,
                    ) by {
                    let earlier = added(all.take(i as int), word, line_offset);
                    assert(before.postings(word) == old(self).postings(word) + earlier);
                    if word == token {
                        assert((old(self).postings(word) + earlier).push(
                            line_offset % LINE_OFFSET_LIMIT,
                        ) =~= old(self).postings(word) + earlier.push(
                            line_offset % LINE_OFFSET_LIMIT,
                        ));
                    }
                }
            }
            i = i + 1;
        }
        assert(all.take(i as int) =~= all);
        assert forall|lines: Seq<LogLineAt>| #[trigger] old(self).indexes(lines) implies self.indexes(
            lines.push((line@, line_offset)),
        ) by {
            let longer = lines.push((line@, line_offset));
            assert(longer.drop_last() =~= lines);
            assert forall|word: Seq<char>| #[trigger]
                self.postings(word) == log_postings(longer, word) by {
                assert(old(self).postings(word) == log_postings(lines, word));
            }
            assert forall|word: Seq<char>| #[trigger]
                self.has_word(word) <==> log_postings(longer, word).len() > 0 by {
                assert(old(self).has_word(word) <==> log_postings(lines, word).len() > 0);
                lemma_added_some(all, word, line_offset);
            }
        }
    }
}

/// Builders with the same words and the same posting lists have the same
/// posting list for every word.
pub proof fn lemma_same_texts_same_postings(before: IxBuilder, after: IxBuilder)
    requires
        before.wf(),
        after.wf(),
        before.lines_sections@ == after.lines_sections@,
        before.words_section.words@.len() == after.words_section.words@.len(),
        forall|i: int|
            0 <= i < before.words_section.words@.len() ==> (
            #[trigger] after.words_section.words@[i]).text == before.words_section.words@[i].text,
    ensures
        forall|word: Seq<char>|
            #![trigger after.postings(word)]
            after.postings(word) == before.postings(word),
        forall|word: Seq<char>|
            #![trigger after.has_word(word)]
            after.has_word(word) <==> before.has_word(word),
        forall|lines: Seq<LogLineAt>| #[trigger] before.indexes(lines) ==> after.indexes(lines),
{
    assert forall|word: Seq<char>|
        #![trigger after.postings(word)]
        after.postings(word) == before.postings(word) by {
        if before.has_word(word) {
            let i = choose|i: int| before.word_at(word, i);
            assert(after.word_at(word, i));
            before.lemma_postings_at(i);
            after.lemma_postings_at(i);
        }
        if after.has_word(word) {
            let i = choose|i: int| after.word_at(word, i);
            assert(before.word_at(word, i));
        }
    }
    assert forall|word: Seq<char>|
        #![trigger after.has_word(word)]
        after.has_word(word) <==> before.has_word(word) by {
        if before.has_word(word) {
            let i = choose|i: int| before.word_at(word, i);
            assert(after.word_at(word, i));
        }
        if after.has_word(word) {
            let i = choose|i: int| after.word_at(word, i);
            assert(before.word_at(word, i));
        }
    }
    assert forall|lines: Seq<LogLineAt>| #[trigger] before.indexes(lines) implies after.indexes(
        lines,
    ) by {
        assert forall|word: Seq<char>| #[trigger]
            after.postings(word) == log_postings(lines, word) by {
            assert(before.postings(word) == log_postings(lines, word));
        }
        assert forall|word: Seq<char>| #[trigger]
            after.has_word(word) <==> log_postings(lines, word).len() > 0 by {
            assert(before.has_word(word) <==> log_postings(lines, word).len() > 0);
        }
    }
}

/// A directory stays sorted when only the positions of its posting
/// sections change.
pub proof fn lemma_same_keys_sorted(words: Seq<IxWord>, changed: Seq<IxWord>)
    requires
        entries_sorted(entries_of(words)),
        words.len() == changed.len(),
        forall|i: int| 0 <= i < words.len() ==> (#[trigger] changed[i]).text == words[i].text,
    ensures
        entries_sorted(entries_of(changed)),
{
    let before = entries_of(words);
    let after = entries_of(changed);
    assert forall|i: int| 0 <= i < after.len() implies (#[trigger] after[i]).0 == before[i].0 by {}
    assert forall|i: int, j: int| 0 <= i < j < after.len() implies lex_lt(
        (#[trigger] after[i]).0,
        (#[trigger] after[j]).0,
    ) by {
        assert(lex_lt(before[i].0, before[j].0));
    }
}

/// A sorted directory stays sorted when a word that it does not hold is
/// inserted at its place in the order.
pub proof fn lemma_insert_keeps_sorted(words: Seq<IxWord>, index: int, word: IxWord)
    requires
        entries_sorted(entries_of(words)),
        0 <= index <= words.len(),
        forall|i: int| 0 <= i < index ==> lex_lt((#[trigger] words[i]).key(), word.key()),
        forall|i: int| index <= i < words.len() ==> !lex_lt((#[trigger] words[i]).key(), word.key()),
        forall|i: int| 0 <= i < words.len() ==> (#[trigger] words[i]).text@ != word.text@,
    ensures
        entries_sorted(entries_of(words.insert(index, word))),
{
    let before = entries_of(words);
    let after = entries_of(words.insert(index, word));
    assert forall|i: int, j: int| 0 <= i < j < after.len() implies lex_lt(
        (#[trigger] after[i]).0,
        (#[trigger] after[j]).0,
    ) by {
        let a = if i < index {
            i
        } else {
            i - 1
        };
        let b = if j < index {
            j
        } else {
            j - 1
        };
        if i != index && j != index {
            assert(after[i] == before[a]);
            assert(after[j] == before[b]);
            assert(lex_lt(before[a].0, before[b].0));
        } else if i == index {
            assert(after[j] == before[b]);
            assert(before[b].0 == words[b].key());
            lemma_lex_total(words[b].key(), word.key());
            if words[b].key() == word.key() {
                lemma_key_injective(words[b].text@, word.text@);
            }
        } else {
            assert(after[i] == before[a]);
            assert(before[a].0 == words[a].key());
        }
    }
}

} // verus!
