//! Building the index of a log: whether to build at all, and the pass over
//! the lines of the log.

use crate::error::IxError;
use crate::index::builder::{log_postings, IxBuilder, LogLineAt};
use crate::index::header_section::IxHeaderSection;
use crate::index::{ByteReader, IX_VERSION};
use vstd::prelude::*;
use vstd::utf8::encode_utf8;

verus! {

/// What to do about the index of a log before a query.
#[derive(Debug, Clone, Copy, PartialEq, Eq, Structural)]
pub enum IndexPlan {
    /// The index that exists is used as it is.
    Reuse,
    /// The index is built, replacing one that exists.
    Rebuild,
}

/// The bytes `start` begin an index of the version that this library reads.
pub open spec fn current_index(start: Seq<u8>) -> bool {
    match IxHeaderSection::parse(start) {
        Some(header) => header.version == IX_VERSION,
        None => false,
    }
}

/// Decides whether the index of a log is built. `existing` holds the first
/// bytes of the index file, at least the ten of the header where the file
/// has as many, or `None` where there is no file. An index is reused where
/// it exists, is of the current version and no rebuild is forced.
pub fn plan_index(existing: Option<&[u8]>, force_reindex: bool) -> (plan: IndexPlan)
    ensures
        plan == if !force_reindex && existing is Some && current_index(existing->0@) {
            IndexPlan::Reuse
        } else {
            IndexPlan::Rebuild
        },
{
    if force_reindex {
        return IndexPlan::Rebuild;
    }
    match existing {
        Some(start) => {
            let mut file = ByteReader::new(start);
            match IxHeaderSection::read(&mut file) {
                Ok(header) => if header.version == IX_VERSION {
                    IndexPlan::Reuse
                } else {
                    IndexPlan::Rebuild
                },
                Err(_) => IndexPlan::Rebuild,
            }
        },
        None => IndexPlan::Rebuild,
    }
}

/// How far the indexing of a log of `log_size` bytes has come at byte
/// `line_offset`, in per cent. An empty log is done at once.
pub open spec fn percent_done(line_offset: u64, log_size: u64) -> int {
    if log_size == 0 {
        100
    } else {
        line_offset * 100 / log_size as int
    }
}

/// How far the indexing of a log of `log_size` bytes has come at byte
/// `line_offset`, in per cent.
pub fn progress_percent(line_offset: u64, log_size: u64) -> (percent: u128)
    ensures
        percent == percent_done(line_offset, log_size),
{
    if log_size == 0 {
        100
    } else {
        line_offset as u128 * 100 / log_size as u128
    }
}

/// Number of bytes of the lines `texts`.
pub open spec fn log_size(texts: Seq<Seq<char>>) -> nat
    decreases texts.len(),
{
    if texts.len() == 0 {
        0
    } else {
        log_size(texts.drop_last()) + encode_utf8(texts.last()).len()
    }
}

/// The lines `texts` of a log, each with the byte offset at which it
/// starts: the number of bytes of the lines before it.
pub open spec fn log_lines(texts: Seq<Seq<char>>) -> Seq<LogLineAt>
    decreases texts.len(),
{
    if texts.len() == 0 {
        Seq::empty()
    } else {
        log_lines(texts.drop_last()).push((texts.last(), log_size(texts.drop_last()) as u64))
    }
}

/// Indexes a log in one pass: the lines are pushed in order, each as it was
/// read, line end included.
pub struct LogIndexer {
    builder: IxBuilder,
    line_offset: u64,
    texts: Ghost<Seq<Seq<char>>>,
}

impl LogIndexer {
    /// The builder holds the index of the lines pushed so far, and the
    /// offset is the number of their bytes.
    pub closed spec fn wf(&self) -> bool {
        &&& self.builder.wf()
        &&& self.builder.indexes(log_lines(self.texts@))
        &&& self.line_offset == log_size(self.texts@)
    }

    /// The lines pushed so far.
    pub closed spec fn texts(&self) -> Seq<Seq<char>> {
        self.texts@
    }

    /// The index of the lines pushed so far.
    pub closed spec fn builder(&self) -> IxBuilder {
        self.builder
    }

    /// The builder of a consistent indexer holds the index of the lines
    /// that were pushed, each at the offset at which it starts in the log.
    pub proof fn lemma_holds_index(&self)
        requires
            self.wf(),
        ensures
            self.builder().wf(),
            self.builder().indexes(log_lines(self.texts())),
            forall|word: Seq<char>|
                #![trigger self.builder().has_word(word)]
                self.builder().has_word(word) <==> log_postings(
                    log_lines(self.texts()),
                    word,
                ).len() > 0,
            self.texts().len() == 0 ==> self.builder().words_section.words@.len() == 0,
    {
        if self.texts().len() == 0 {
            assert(log_lines(self.texts()) =~= Seq::<LogLineAt>::empty());
            self.builder.lemma_empty_log_empty_directory();
        }
    }

    /// Nothing is indexed yet.
    pub fn new() -> (indexer: Self)
        ensures
            indexer.wf(),
            indexer.texts() == Seq::<Seq<char>>::empty(),
            indexer.builder().words_section.words@.len() == 0,
    {
        Self { builder: IxBuilder::new(), line_offset: 0, texts: Ghost(Seq::empty()) }
    }

    /// The byte offset at which the next line starts.
    pub fn line_offset(&self) -> (offset: u64)
        requires
            self.wf(),
        ensures
            offset == log_size(self.texts()),
    {
        self.line_offset
    }

    /// Whether `line` can be pushed: the offset after it must fit in 64
    /// bits.
    pub fn has_room(&self, line: &str) -> (r: bool)
        requires
            self.wf(),
        ensures
            r == (log_size(self.texts()) + encode_utf8(line@).len() <= u64::MAX),
    {
        line.as_bytes().len() as u64 <= u64::MAX - self.line_offset
    }

    /// Indexes the next line of the log: every token of the line is
    /// recorded at the offset at which the line starts.
    pub fn push_line(&mut self, line: &str)
        requires
            old(self).wf(),
            log_size(old(self).texts()) + encode_utf8(line@).len() <= u64::MAX,
        ensures
            final(self).wf(),
            final(self).texts() == old(self).texts().push(line@),
    {
        let ghost before = self.builder;
        let ghost lines = log_lines(self.texts@);
        assert(before.indexes(lines));
        self.builder.add_line(line, self.line_offset);
        self.line_offset = self.line_offset + line.as_bytes().len() as u64;
        proof {
            let longer = self.texts@.push(line@);
            assert(longer.drop_last() =~= self.texts@);
            assert(log_lines(longer) == lines.push((line@, old(self).line_offset)));
            self.texts = Ghost(longer);
        }
    }

    /// Whether the index of the lines pushed so far can be written: whether
    /// no token of the log is longer than 255 bytes.
    pub fn can_write(&self) -> (r: bool)
        ensures
            r == self.builder().words_section.storable(),
    {
        self.builder.can_write()
    }

    /// Appends the index of the lines pushed so far to `writer`. Fails with
    /// `Io` where the compressor fails. The format keeps the length of a word
    /// in one byte: an index with a longer word cannot be written, which
    /// `can_write` tells.
    pub fn write(&mut self, writer: &mut Vec<u8>) -> (r: Result<(), IxError>)
        requires
            old(self).wf(),
            old(self).builder().words_section.storable(),
        ensures
            final(self).wf(),
            final(self).builder().words_section.storable(),
            final(self).texts() == old(self).texts(),
            match r {
                Ok(_) => {
                    &&& final(writer)@ == old(writer)@ + final(self).builder().image(
                        old(writer)@.len(),
                    )
                    &&& old(writer)@.len() == 0 ==> final(self).builder().stored_in(final(writer)@)
                },
                Err(e) => e == IxError::Io && old(writer)@.is_prefix_of(final(writer)@),
            },
    {
        let ghost before = self.builder;
        let ghost lines = log_lines(self.texts@);
        assert(before.indexes(lines));
        self.builder.write(writer)
    }
}

} // verus!
