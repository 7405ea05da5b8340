use crate::error::IxError;
use crate::index::lex::{
    bytes_eq, bytes_lt, bytes_starts_with, lemma_lex_irreflexive, lemma_lex_le_lt_transitive,
    lemma_lex_transitive, lemma_prefix_between, lemma_prefix_not_greater, lex_le, lex_lt,
};
use crate::index::{
    be_bytes, be_value, block_payload, compressed_block, lemma_be_bytes_len, lemma_be_round_trip,
    lemma_pow256_values, ByteReader, ReadEx, WriteEx,
};
use vstd::prelude::*;
use vstd::utf8::{decode_first_scalar, encode_scalar, encode_utf8, valid_utf8};

verus! {

/// The longest word, in bytes of UTF-8, that a directory entry can hold: its
/// length is stored in one byte.
pub const MAX_WORD_LEN: usize = 255;

/// One entry of the word directory, as the format stores it: the bytes of
/// the word and the position of its posting section.
pub type Entry = (Seq<u8>, u64);

/// The words of `entries` are strictly ascending.
pub open spec fn entries_sorted(entries: Seq<Entry>) -> bool {
    forall|i: int, j: int|
        0 <= i < j < entries.len() ==> lex_lt((#[trigger] entries[i]).0, (#[trigger] entries[j]).0)
}

/// `entries` can stand in an index: every word is valid UTF-8 of at most 255
/// bytes, and the words are strictly ascending.
pub open spec fn entries_valid(entries: Seq<Entry>) -> bool {
    &&& forall|i: int|
        0 <= i < entries.len() ==> (#[trigger] entries[i]).0.len() <= 255 && valid_utf8(
            entries[i].0,
        )
    &&& entries_sorted(entries)
}

/// The bytes of one directory entry: the length of the word in one byte, the
/// word, and the position of its posting section as a big-endian `u64`.
pub open spec fn entry_image(entry: Entry) -> Seq<u8> {
    seq![entry.0.len() as u8] + entry.0 + be_bytes(entry.1 as nat, 8)
}

/// The bytes of `entries`, one after the other.
pub open spec fn entries_image(entries: Seq<Entry>) -> Seq<u8>
    decreases entries.len(),
{
    if entries.len() == 0 {
        Seq::empty()
    } else {
        entry_image(entries[0]) + entries_image(entries.drop_first())
    }
}

/// The payload of the word directory section: the number of entries as a
/// big-endian `u64`, then the entries.
pub open spec fn directory_image(entries: Seq<Entry>) -> Seq<u8> {
    be_bytes(entries.len(), 8) + entries_image(entries)
}

/// The first `count` entries stored in `bytes`, or `None` where `bytes` ends
/// before them.
pub open spec fn parse_entries(bytes: Seq<u8>, count: nat) -> Option<Seq<Entry>>
    decreases count,
{
    if count == 0 {
        Some(Seq::empty())
    } else if bytes.len() < 1 || bytes.len() < 1 + bytes[0] + 8 {
        None
    } else {
        let n = bytes[0] as int;
        let entry = (bytes.subrange(1, 1 + n), be_value(bytes.subrange(1 + n, 9 + n)) as u64);
        match parse_entries(bytes.skip(9 + n), (count - 1) as nat) {
            Some(rest) => Some(seq![entry] + rest),
            None => None,
        }
    }
}

/// The entries that a directory payload stores, or `None` where the payload
/// is truncated, a word is not valid UTF-8, or the words are not strictly
/// ascending.
pub open spec fn parse_directory(payload: Seq<u8>) -> Option<Seq<Entry>> {
    if payload.len() < 8 {
        None
    } else {
        match parse_entries(payload.skip(8), be_value(payload.take(8))) {
            Some(entries) => if entries_valid(entries) {
                Some(entries)
            } else {
                None
            },
            None => None,
        }
    }
}

/// The entries of the word directory section at the start of `bytes`.
pub open spec fn parse_words_section(bytes: Seq<u8>) -> Option<Seq<Entry>> {
    match block_payload(bytes) {
        Some(payload) => parse_directory(payload),
        None => None,
    }
}

/// The bytes of entries with one more entry are the bytes of the entries,
/// then those of the one more.
pub proof fn lemma_entries_image_push(entries: Seq<Entry>, entry: Entry)
    ensures
        entries_image(entries.push(entry)) == entries_image(entries) + entry_image(entry),
    decreases entries.len(),
{
    let pushed = entries.push(entry);
    if entries.len() == 0 {
        assert(pushed.drop_first() =~= Seq::<Entry>::empty());
        assert(entries_image(pushed.drop_first()) =~= Seq::<u8>::empty());
        assert(entries_image(pushed) =~= entry_image(entry));
        assert(entries_image(entries) + entry_image(entry) =~= entry_image(entry));
    } else {
        lemma_entries_image_push(entries.drop_first(), entry);
        assert(pushed.drop_first() =~= entries.drop_first().push(entry));
        assert(entries_image(pushed) =~= entries_image(entries) + entry_image(entry));
    }
}

/// Entries are read back from their own bytes, whatever follows them.
pub proof fn lemma_entries_round_trip(entries: Seq<Entry>, rest: Seq<u8>)
    requires
        forall|i: int| 0 <= i < entries.len() ==> (#[trigger] entries[i]).0.len() <= 255,
    ensures
        parse_entries(entries_image(entries) + rest, entries.len()) == Some(entries),
    decreases entries.len(),
{
    if entries.len() > 0 {
        let bytes = entries_image(entries) + rest;
        let first = entries[0];
        let n = first.0.len() as int;
        lemma_be_bytes_len(first.1 as nat, 8);
        lemma_be_round_trip(first.1 as nat, 8);
        lemma_pow256_values();
        assert(bytes[0] == n as u8);
        assert(bytes.subrange(1, 1 + n) =~= first.0);
        assert(bytes.subrange(1 + n, 9 + n) =~= be_bytes(first.1 as nat, 8));
        assert(bytes.skip(9 + n) =~= entries_image(entries.drop_first()) + rest);
        assert(first.1 as nat % 0x1_0000_0000_0000_0000 == first.1);
        lemma_entries_round_trip(entries.drop_first(), rest);
        assert(seq![first] + entries.drop_first() =~= entries);
    }
}

/// The payload of a directory is read back as its entries.
pub proof fn lemma_directory_round_trip(entries: Seq<Entry>)
    requires
        entries_valid(entries),
        entries.len() <= u64::MAX,
    ensures
        parse_directory(directory_image(entries)) == Some(entries),
{
    let payload = directory_image(entries);
    lemma_be_bytes_len(entries.len(), 8);
    lemma_be_round_trip(entries.len(), 8);
    lemma_pow256_values();
    assert(payload.take(8) =~= be_bytes(entries.len(), 8));
    assert(payload.skip(8) =~= entries_image(entries) + Seq::<u8>::empty());
    assert(entries.len() % 0x1_0000_0000_0000_0000 == entries.len());
    lemma_entries_round_trip(entries, Seq::empty());
}

/// Entries that stay sorted when one more word, larger than the last, is
/// added.
pub proof fn lemma_sorted_push(entries: Seq<Entry>, entry: Entry)
    requires
        entries_sorted(entries),
        entries.len() > 0 ==> lex_lt(entries.last().0, entry.0),
    ensures
        entries_sorted(entries.push(entry)),
{
    let pushed = entries.push(entry);
    assert forall|i: int, j: int| 0 <= i < j < pushed.len() implies lex_lt(
        (#[trigger] pushed[i]).0,
        (#[trigger] pushed[j]).0,
    ) by {
        if j == entries.len() && i < entries.len() - 1 {
            assert(lex_lt(entries[i].0, entries[entries.len() - 1].0));
            lemma_lex_transitive(entries[i].0, entries.last().0, entry.0);
        }
    }
}

/// `String::from_utf8`.
///
/// Assumed, not proved: the call succeeds exactly on valid UTF-8, and the
/// string it returns is the one whose UTF-8 encoding is `bytes`.
#[verifier::external_body]
fn string_from_utf8(bytes: Vec<u8>) -> (r: Option<String>)
    ensures
        match r {
            Some(text) => valid_utf8(bytes@) && encode_utf8(text@) == bytes@,
            None => !valid_utf8(bytes@),
        },
{
    match String::from_utf8(bytes) {
        Ok(text) => Some(text),
        Err(_) => None,
    }
}

/// A word of the directory with the position of its posting section.
pub struct IxWord {
    /// The normalized word.
    pub text: String,
    /// Absolute position of the word's posting section in the index.
    pub lines_section_offset: u64,
}

impl IxWord {
    /// The bytes by which the directory orders and stores the word: its
    /// UTF-8 encoding.
    pub open spec fn key(&self) -> Seq<u8> {
        encode_utf8(self.text@)
    }

    /// The directory entry of the word.
    pub open spec fn entry(&self) -> Entry {
        (self.key(), self.lines_section_offset)
    }

    /// The entry of the word `text` whose posting section is at
    /// `lines_section_offset`.
    pub fn new(text: String, lines_section_offset: u64) -> (word: IxWord)
        ensures
            word.text == text,
            word.lines_section_offset == lines_section_offset,
    {
        Self { text, lines_section_offset }
    }

    /// The UTF-8 bytes of the word.
    pub fn key_bytes(&self) -> (bytes: &[u8])
        ensures
            bytes@ == self.key(),
    {
        self.text.as_str().as_bytes()
    }
}

/// The entries of `words`, in order.
pub open spec fn entries_of(words: Seq<IxWord>) -> Seq<Entry> {
    Seq::new(words.len(), |i: int| words[i].entry())
}

/// The entries that `found` refers to.
pub open spec fn words_of(found: Seq<&IxWord>) -> Seq<IxWord> {
    found.map_values(|word: &IxWord| *word)
}

/// Whether `word` answers a lookup of `text`: as a whole word it must equal
/// `text`, otherwise start with it.
pub open spec fn word_matches(word: Seq<char>, text: Seq<char>, whole_word: bool) -> bool {
    if whole_word {
        word == text
    } else {
        text.is_prefix_of(word)
    }
}

/// Words with the same UTF-8 encoding are the same word.
pub proof fn lemma_key_injective(a: Seq<char>, b: Seq<char>)
    requires
        encode_utf8(a) == encode_utf8(b),
    ensures
        a == b,
{
    vstd::utf8::encode_utf8_decode_utf8(a);
    vstd::utf8::encode_utf8_decode_utf8(b);
}

/// The word directory, sorted by word.
pub struct IxWordsSection {
    pub words: Vec<IxWord>,
}

impl IxWordsSection {
    /// The entries of the directory, in order.
    pub open spec fn entries(&self) -> Seq<Entry> {
        entries_of(self.words@)
    }

    /// The words are strictly ascending.
    pub open spec fn wf(&self) -> bool {
        entries_sorted(self.entries())
    }

    /// The directory can be written: no word is longer than the 255 bytes
    /// that the one byte for its length can tell.
    pub open spec fn storable(&self) -> bool {
        forall|i: int| 0 <= i < self.words@.len() ==> (#[trigger] self.words@[i]).key().len() <= 255
    }

    /// A sorted directory that can be written holds entries that can stand
    /// in an index.
    pub proof fn lemma_entries_valid(&self)
        requires
            self.wf(),
            self.storable(),
        ensures
            entries_valid(self.entries()),
    {
        let entries = self.entries();
        assert forall|i: int| 0 <= i < entries.len() implies (#[trigger] entries[i]).0.len() <= 255
            && valid_utf8(entries[i].0) by {
            assert(entries[i] == self.words@[i].entry());
            vstd::utf8::encode_utf8_valid_utf8(self.words@[i].text@);
        }
    }

    /// Whether the directory can be written: whether no word is longer than
    /// 255 bytes.
    pub fn is_storable(&self) -> (r: bool)
        ensures
            r == self.storable(),
    {
        let mut i: usize = 0;
        while i < self.words.len()
            invariant
                i <= self.words@.len(),
                forall|j: int| 0 <= j < i ==> (#[trigger] self.words@[j]).key().len() <= 255,
            decreases self.words@.len() - i,
        {
            if self.words[i].key_bytes().len() > MAX_WORD_LEN {
                return false;
            }
            i = i + 1;
        }
        true
    }

    /// The entries that answer a lookup of `text`, in directory order.
    pub open spec fn lookup(&self, text: Seq<char>, whole_word: bool) -> Seq<IxWord> {
        self.words@.filter(|word: IxWord| word_matches(word.text@, text, whole_word))
    }

    /// An empty directory.
    pub fn new() -> (section: IxWordsSection)
        ensures
            section.wf(),
            section.storable(),
            section.words@.len() == 0,
    {
        Self { words: Vec::new() }
    }

    /// Writes the directory as a compressed block and returns the number of
    /// bytes written. Fails with `Io`, writing nothing, where the compressor
    /// fails. The format keeps the length of a word in one byte: a directory
    /// with a longer word cannot be written.
    pub fn write<W: WriteEx>(&self, writer: &mut W) -> (r: Result<u64, IxError>)
        requires
            self.wf(),
            self.storable(),
        ensures
            match r {
                Ok(n) => final(writer).written() == old(writer).written() + compressed_block(
                    directory_image(self.entries()),
                ) && n == compressed_block(directory_image(self.entries())).len()
                    && parse_words_section(compressed_block(directory_image(self.entries())))
                    == Some(self.entries()),
                Err(e) => e == IxError::Io && final(writer).written() == old(writer).written(),
            },
    {
        let ghost entries = self.entries();
        let mut buf: Vec<u8> = Vec::new();
        buf.write_u64_be(self.words.len() as u64);
        let mut i: usize = 0;
        assert(entries.take(0) =~= Seq::<Entry>::empty());
        while i < self.words.len()
            invariant
                i <= self.words@.len(),
                entries == self.entries(),
                self.wf(),
                self.storable(),
                buf@ == be_bytes(entries.len(), 8) + entries_image(entries.take(i as int)),
            decreases self.words@.len() - i,
        {
            let word = &self.words[i];
            let text_bytes = word.key_bytes();
            assert(entries[i as int] == word.entry());
            let ghost before = buf@;
            buf.write_u8(text_bytes.len() as u8);
            let mut k: usize = 0;
            while k < text_bytes.len()
                invariant
                    k <= text_bytes@.len(),
                    buf@ == before.push(text_bytes@.len() as u8) + text_bytes@.take(k as int),
                decreases text_bytes@.len() - k,
            {
                buf.write_u8(text_bytes[k]);
                k = k + 1;
                assert(buf@ =~= before.push(text_bytes@.len() as u8) + text_bytes@.take(k as int));
            }
            buf.write_u64_be(word.lines_section_offset);
            proof {
                assert(text_bytes@.take(k as int) =~= text_bytes@);
                lemma_entries_image_push(entries.take(i as int), entries[i as int]);
                assert(entries.take(i + 1) =~= entries.take(i as int).push(entries[i as int]));
                assert(buf@ =~= be_bytes(entries.len(), 8) + entries_image(entries.take(i + 1)));
            }
            i = i + 1;
        }
        proof {
            assert(entries.take(i as int) =~= entries);
            self.lemma_entries_valid();
            lemma_directory_round_trip(entries);
        }
        writer.write_compressed(buf.as_slice())
    }

    /// Reads a directory. Fails with `CorruptIndex` where the block is
    /// truncated or does not decompress, the entries end early, a word is
    /// not valid UTF-8, or the words are not strictly ascending.
    pub fn read<R: ReadEx>(reader: &mut R) -> (r: Result<Self, IxError>)
        ensures
            match r {
                Ok(section) => section.wf() && section.storable() && parse_words_section(
                    old(reader).unread(),
                ) == Some(section.entries()),
                Err(e) => e == IxError::CorruptIndex && parse_words_section(
                    old(reader).unread(),
                ).is_none(),
            },
    {
        let payload = match reader.read_compressed() {
            Ok(payload) => payload,
            Err(e) => {
                return Err(e);
            },
        };
        Self::parse(payload.as_slice())
    }

    /// The directory that `payload` stores.
    pub fn parse(payload: &[u8]) -> (r: Result<Self, IxError>)
        ensures
            match r {
                Ok(section) => section.wf() && section.storable() && parse_directory(payload@)
                    == Some(section.entries()),
                Err(e) => e == IxError::CorruptIndex && parse_directory(payload@).is_none(),
            },
    {
        let mut cursor = ByteReader::new(payload);
        let count = match cursor.read_u64_be() {
            Ok(count) => count,
            Err(e) => {
                return Err(e);
            },
        };
        let ghost body = payload@.skip(8);
        let mut words: Vec<IxWord> = Vec::new();
        let mut i: u64 = 0;
        assert(entries_of(words@) =~= Seq::<Entry>::empty());
        while i < count
            invariant
                i <= count,
                payload@.len() >= 8,
                count == be_value(payload@.take(8)),
                body == payload@.skip(8),
                words@.len() == i,
                entries_valid(entries_of(words@)),
                parse_entries(body, count as nat) == match parse_entries(
                    cursor.unread(),
                    (count - i) as nat,
                ) {
                    Some(rest) => Some(entries_of(words@) + rest),
                    None => None,
                },
            decreases count - i,
        {
            let ghost bytes = cursor.unread();
            let ghost done = entries_of(words@);
            let text_len = match cursor.read_u8() {
                Ok(n) => n,
                Err(e) => {
                    return Err(e);
                },
            };
            let text_bytes = match cursor.read_bytes(text_len as usize) {
                Ok(bytes) => bytes,
                Err(e) => {
                    return Err(e);
                },
            };
            let lines_section_offset = match cursor.read_u64_be() {
                Ok(offset) => offset,
                Err(e) => {
                    return Err(e);
                },
            };
            let ghost n = text_len as int;
            let ghost entry: Entry = (text_bytes@, lines_section_offset);
            proof {
                assert(bytes.skip(1).take(n) =~= bytes.subrange(1, 1 + n));
                assert(bytes.skip(1).skip(n).take(8) =~= bytes.subrange(1 + n, 9 + n));
                assert(bytes.skip(1).skip(n).skip(8) =~= bytes.skip(9 + n));
                if let Some(all) = parse_entries(body, count as nat) {
                    let rest = parse_entries(bytes.skip(9 + n), (count - i - 1) as nat)->0;
                    assert(all =~= (done + seq![entry]) + rest);
                    assert(all[i as int] == entry);
                    if i > 0 {
                        assert(all[i - 1] == done[i - 1]);
                    }
                }
            }
            let text = match string_from_utf8(text_bytes) {
                Some(text) => text,
                None => {
                    return Err(IxError::CorruptIndex);
                },
            };
            let word = IxWord { text, lines_section_offset };
            if words.len() > 0 {
                let last = &words[words.len() - 1];
                if !bytes_lt(last.key_bytes(), word.key_bytes()) {
                    proof {
                        assert(done[i - 1].0 == last.key());
                    }
                    return Err(IxError::CorruptIndex);
                }
            }
            proof {
                assert(word.entry() == entry);
                lemma_sorted_push(done, entry);
                assert(entries_of(words@.push(word)) =~= done.push(entry));
                assert(done.push(entry) =~= done + seq![entry]);
                match parse_entries(bytes.skip(9 + n), (count - i - 1) as nat) {
                    Some(rest) => {
                        assert((done + seq![entry]) + rest =~= done + (seq![entry] + rest));
                    },
                    None => {},
                }
            }
            words.push(word);
            i = i + 1;
        }
        proof {
            assert(parse_entries(body, count as nat) == Some(
                entries_of(words@) + Seq::<Entry>::empty(),
            ));
            assert(entries_of(words@) + Seq::<Entry>::empty() =~= entries_of(words@));
            assert forall|j: int| 0 <= j < words@.len() implies (#[trigger] words@[j]).key().len()
                <= 255 by {
                assert(entries_of(words@)[j] == words@[j].entry());
            }
        }
        Ok(Self { words })
    }

    /// The place of `key` in the directory: the index of the first word that
    /// does not come before `key`.
    pub fn lower_bound(&self, key: &[u8]) -> (pos: usize)
        requires
            self.wf(),
        ensures
            pos <= self.words@.len(),
            forall|i: int| 0 <= i < pos ==> lex_lt((#[trigger] self.words@[i]).key(), key@),
            forall|i: int|
                pos <= i < self.words@.len() ==> lex_le(key@, (#[trigger] self.words@[i]).key()),
    {
        let mut lo: usize = 0;
        let mut hi: usize = self.words.len();
        while lo < hi
            invariant
                lo <= hi <= self.words@.len(),
                self.wf(),
                forall|i: int| 0 <= i < lo ==> lex_lt((#[trigger] self.words@[i]).key(), key@),
                forall|i: int|
                    hi <= i < self.words@.len() ==> lex_le(key@, (#[trigger] self.words@[i]).key()),
            decreases hi - lo,
        {
            let mid = lo + (hi - lo) / 2;
            let ghost entries = self.entries();
            if bytes_lt(self.words[mid].key_bytes(), key) {
                proof {
                    assert forall|i: int| 0 <= i < mid + 1 implies lex_lt(
                        (#[trigger] self.words@[i]).key(),
                        key@,
                    ) by {
                        if i < mid {
                            assert(lex_lt(entries[i].0, entries[mid as int].0));
                            lemma_lex_transitive(
                                self.words@[i].key(),
                                self.words@[mid as int].key(),
                                key@,
                            );
                        }
                    }
                }
                lo = mid + 1;
            } else {
                proof {
                    assert forall|i: int| mid <= i < self.words@.len() implies lex_le(
                        key@,
                        (#[trigger] self.words@[i]).key(),
                    ) by {
                        if i > mid {
                            assert(lex_lt(entries[mid as int].0, entries[i].0));
                            if lex_lt(self.words@[i].key(), key@) {
                                lemma_lex_transitive(
                                    self.words@[mid as int].key(),
                                    self.words@[i].key(),
                                    key@,
                                );
                            }
                        }
                    }
                }
                hi = mid;
            }
        }
        lo
    }

    /// Every entry whose word starts with `prefix`, in directory order.
    pub fn get_prefixed(&self, prefix: &str) -> (found: Vec<&IxWord>)
        requires
            self.wf(),
        ensures
            words_of(found@) == self.lookup(prefix@, false),
    {
        let key = prefix.as_bytes();
        let start = self.lower_bound(key);
        let mut found: Vec<&IxWord> = Vec::new();
        let mut pos = start;
        while pos < self.words.len() && bytes_starts_with(self.words[pos].key_bytes(), key)
            invariant
                start <= pos <= self.words@.len(),
                words_of(found@) == self.words@.subrange(
                    start as int,
                    pos as int,
                ),
                forall|i: int|
                    start <= i < pos ==> key@.is_prefix_of((#[trigger] self.words@[i]).key()),
            decreases self.words@.len() - pos,
        {
            let ghost before = found@;
            found.push(&self.words[pos]);
            pos = pos + 1;
            assert(words_of(found@) =~= words_of(before).push(self.words@[pos - 1]));
            assert(words_of(found@) =~= self.words@.subrange(start as int, pos as int));
        }
        proof {
            let entries = self.entries();
            let matches = |word: IxWord| word_matches(word.text@, prefix@, false);
            assert forall|i: int| 0 <= i < self.words@.len() implies (matches(self.words@[i]) <==> start
                <= i < pos) by {
                let word = self.words@[i].key();
                lemma_prefix_of_chars(prefix@, self.words@[i].text@);
                if i < start {
                    if key@.is_prefix_of(word) {
                        lemma_prefix_not_greater(key@, word);
                    }
                } else if i >= pos {
                    let stop = self.words@[pos as int].key();
                    if i > pos {
                        assert(lex_lt(entries[pos as int].0, entries[i].0));
                        crate::index::lex::lemma_lex_asymmetric(stop, word);
                        if key@.is_prefix_of(word) {
                            lemma_prefix_between(key@, stop, word);
                        }
                    }
                }
            }
            lemma_filter_range(self.words@, matches, start as int, pos as int);
        }
        found
    }

    /// The entries that answer a lookup of `text`: the entry of that very
    /// word where `whole_words` is set, otherwise every entry whose word
    /// starts with `text`.
    pub fn select_words(&self, text: &str, whole_words: bool) -> (found: Vec<&IxWord>)
        requires
            self.wf(),
        ensures
            words_of(found@) == self.lookup(text@, whole_words),
            whole_words ==> found@.len() <= 1,
    {
        if !whole_words {
            return self.get_prefixed(text);
        }
        let key = text.as_bytes();
        let pos = self.lower_bound(key);
        let mut found: Vec<&IxWord> = Vec::new();
        let mut end = pos;
        if pos < self.words.len() && bytes_eq(self.words[pos].key_bytes(), key) {
            found.push(&self.words[pos]);
            end = pos + 1;
        }
        proof {
            let entries = self.entries();
            let matches = |word: IxWord| word_matches(word.text@, text@, true);
            assert(words_of(found@) =~= self.words@.subrange(
                pos as int,
                end as int,
            ));
            assert forall|i: int| 0 <= i < self.words@.len() implies (matches(self.words@[i]) <==> pos
                <= i < end) by {
                let word = self.words@[i].key();
                lemma_lex_irreflexive(key@);
                if word == key@ {
                    lemma_key_injective(self.words@[i].text@, text@);
                }
                if i > pos {
                    assert(lex_lt(entries[pos as int].0, entries[i].0));
                    if word == key@ {
                        lemma_lex_le_lt_transitive(key@, self.words@[pos as int].key(), word);
                    }
                }
            }
            lemma_filter_range(self.words@, matches, pos as int, end as int);
        }
        found
    }
}

/// A word starts with a text exactly where its UTF-8 encoding starts with
/// the encoding of the text: a lookup by bytes is a lookup by characters.
pub proof fn lemma_prefix_of_chars(text: Seq<char>, word: Seq<char>)
    ensures
        text.is_prefix_of(word) <==> encode_utf8(text).is_prefix_of(encode_utf8(word)),
    decreases text.len(),
{
    let text_bytes = encode_utf8(text);
    let word_bytes = encode_utf8(word);
    if text.len() == 0 {
        assert(text_bytes =~= word_bytes.subrange(0, 0));
        assert(text =~= word.subrange(0, 0));
    } else {
        let first = encode_scalar(text[0] as u32);
        vstd::utf8::encode_utf8_first_scalar(text);
        assert(text_bytes == first + encode_utf8(text.drop_first()));
        if word.len() == 0 {
            assert(word_bytes.len() == 0);
            assert(first.len() >= 1);
        } else {
            let word_first = encode_scalar(word[0] as u32);
            vstd::utf8::encode_utf8_first_scalar(word);
            assert(word_bytes == word_first + encode_utf8(word.drop_first()));
            lemma_prefix_of_chars(text.drop_first(), word.drop_first());
            if text.is_prefix_of(word) {
                assert(text[0] == word.subrange(0, text.len() as int)[0]);
                assert(text.drop_first() =~= word.drop_first().subrange(0, text.len() - 1));
                let rest = encode_utf8(word.drop_first());
                assert(encode_utf8(text.drop_first()) == rest.subrange(
                    0,
                    encode_utf8(text.drop_first()).len() as int,
                ));
                assert(text_bytes =~= word_bytes.subrange(0, text_bytes.len() as int));
            }
            if text_bytes.is_prefix_of(word_bytes) {
                let n = first.len() as int;
                assert forall|i: int| 0 <= i < n implies text_bytes[i] == word_bytes[i] by {
                    assert(text_bytes[i] == word_bytes.subrange(0, text_bytes.len() as int)[i]);
                }
                assert(decode_first_scalar(text_bytes) == decode_first_scalar(word_bytes));
                vstd::utf8::char_u32_cast(text[0], text[0] as u32);
                vstd::utf8::char_u32_cast(word[0], word[0] as u32);
                assert(text[0] == word[0]);
                let text_rest = encode_utf8(text.drop_first());
                let word_rest = encode_utf8(word.drop_first());
                assert(text_rest =~= word_rest.subrange(0, text_rest.len() as int)) by {
                    assert forall|i: int| 0 <= i < text_rest.len() implies text_rest[i]
                        == word_rest[i] by {
                        assert(text_bytes[n + i] == word_bytes.subrange(
                            0,
                            text_bytes.len() as int,
                        )[n + i]);
                        assert(text_bytes[n + i] == text_rest[i]);
                        assert(word_bytes[n + i] == word_rest[i]);
                    }
                }
                assert(text.drop_first().is_prefix_of(word.drop_first()));
                assert(text =~= word.subrange(0, text.len() as int)) by {
                    assert forall|i: int| 0 <= i < text.len() implies text[i] == word[i] by {
                        if i > 0 {
                            assert(text[i] == text.drop_first()[i - 1]);
                            assert(text.drop_first()[i - 1] == word.drop_first().subrange(
                                0,
                                text.len() - 1,
                            )[i - 1]);
                        }
                    }
                }
            }
        }
    }
}

/// Every item of a filtered sequence is an item of the sequence that the
/// predicate accepts.
pub proof fn lemma_filter_member<A>(s: Seq<A>, pred: spec_fn(A) -> bool, j: int) -> (m: int)
    requires
        0 <= j < s.filter(pred).len(),
    ensures
        0 <= m < s.len(),
        s[m] == s.filter(pred)[j],
        pred(s[m]),
    decreases s.len(),
{
    reveal(Seq::filter);
    let front = s.drop_last();
    if pred(s.last()) && j == front.filter(pred).len() {
        s.len() - 1
    } else {
        lemma_filter_member(front, pred, j)
    }
}

/// Where the items that a predicate accepts are those of one range, the
/// filter of the sequence is that range.
pub proof fn lemma_filter_range<A>(s: Seq<A>, pred: spec_fn(A) -> bool, lo: int, hi: int)
    requires
        0 <= lo <= hi <= s.len(),
        forall|i: int| 0 <= i < s.len() ==> (pred(#[trigger] s[i]) <==> lo <= i < hi),
    ensures
        s.filter(pred) == s.subrange(lo, hi),
    decreases s.len(),
{
    reveal(Seq::filter);
    if s.len() == 0 {
        assert(s.filter(pred) =~= s.subrange(lo, hi));
    } else {
        let front = s.drop_last();
        if hi == s.len() && lo < hi {
            lemma_filter_range(front, pred, lo, hi - 1);
            assert(front.subrange(lo, hi - 1).push(s.last()) =~= s.subrange(lo, hi));
        } else if lo == hi {
            assert forall|i: int| 0 <= i < front.len() implies (pred(#[trigger] front[i]) <==> 0
                <= i < 0) by {
                assert(front[i] == s[i]);
            }
            lemma_filter_range(front, pred, 0, 0);
            assert(front.subrange(0, 0) =~= s.subrange(lo, hi));
        } else {
            lemma_filter_range(front, pred, lo, hi);
            assert(front.subrange(lo, hi) =~= s.subrange(lo, hi));
        }
    }
}

} // verus!
