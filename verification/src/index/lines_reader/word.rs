use crate::error::IxError;
use crate::index::lines_section::IxLinesSection;
use crate::index::reader::{section_postings, section_views, IxData, IxReader};
use crate::index::words_section::IxWord;
use crate::index::ByteReader;
use vstd::prelude::*;

verus! {

/// Yields the line offsets of one word, in stored order.
pub struct WordLinesReader {
    word: String,
    lines_section: IxLinesSection,
    buf_offset: usize,
}

impl WordLinesReader {
    /// The read position stands at the start of an entry of a buffer of whole
    /// entries.
    pub closed spec fn wf(&self) -> bool {
        &&& self.lines_section.wf()
        &&& self.buf_offset % 5 == 0
        &&& self.buf_offset <= self.lines_section.line_offsets_buf@.len()
    }

    /// The offsets not yet yielded.
    pub closed spec fn remaining(&self) -> Seq<u64> {
        self.lines_section.offsets().skip(self.buf_offset as int / 5)
    }

    /// The word whose occurrences are read.
    pub closed spec fn word(&self) -> Seq<char> {
        self.word@
    }

    /// A reader of the posting list of `word` in the index `ix`. The whole
    /// posting section is decompressed at once. Fails with `CorruptIndex`
    /// where `ix` finds no well-formed posting section for the position
    /// that `word` records.
    pub fn new(ix: &IxReader, word: &IxWord) -> (r: Result<Self, IxError>)
        ensures
            match r {
                Ok(reader) => {
                    &&& reader.wf()
                    &&& reader.word() == word.text@
                    &&& ix.posting(word.lines_section_offset) == Some(reader.remaining())
                },
                Err(e) => {
                    &&& e == IxError::CorruptIndex
                    &&& ix.posting(word.lines_section_offset).is_none()
                },
            },
    {
        let offset = word.lines_section_offset;
        let lines_section = match &ix.data {
            IxData::Whole(bytes) => {
                let mut file = match ByteReader::at(bytes.as_slice(), offset) {
                    Ok(file) => file,
                    Err(e) => {
                        return Err(e);
                    },
                };
                match IxLinesSection::read(&mut file) {
                    Ok(section) => section,
                    Err(e) => {
                        return Err(e);
                    },
                }
            },
            IxData::Sections(sections) => {
                let ghost views = section_views(sections@);
                let mut i: usize = 0;
                assert(views.skip(0) =~= views);
                while i < sections.len() && sections[i].0 != offset
                    invariant
                        i <= sections@.len(),
                        views == section_views(sections@),
                        section_postings(views, offset) == section_postings(
                            views.skip(i as int),
                            offset,
                        ),
                    decreases sections@.len() - i,
                {
                    assert(views.skip(i as int)[0] == views[i as int]);
                    assert(views[i as int].0 == sections@[i as int].0);
                    assert(views.skip(i as int).drop_first() =~= views.skip(i + 1));
                    i = i + 1;
                }
                if i >= sections.len() {
                    return Err(IxError::CorruptIndex);
                }
                proof {
                    assert(views.skip(i as int)[0] == views[i as int]);
                    assert(views[i as int] == (sections@[i as int].0, sections@[i as int].1@));
                }
                let mut file = ByteReader::new(sections[i].1.as_slice());
                match IxLinesSection::read(&mut file) {
                    Ok(section) => section,
                    Err(e) => {
                        return Err(e);
                    },
                }
            },
        };
        Ok(Self::from_section(word.text.clone(), lines_section))
    }

    /// The word, for a listing of the readers of a query.
    pub fn word_text(&self) -> (text: &str)
        ensures
            text@ == self.word(),
    {
        self.word.as_str()
    }

    /// A reader at the start of `lines_section`, the posting list of `word`.
    pub fn from_section(word: String, lines_section: IxLinesSection) -> (reader: Self)
        requires
            lines_section.wf(),
        ensures
            reader.wf(),
            reader.remaining() == lines_section.offsets(),
            reader.word() == word@,
    {
        let reader = Self { word, lines_section, buf_offset: 0 };
        assert(reader.remaining() =~= lines_section.offsets());
        reader
    }

    /// Yields the next offset, or `None` once all are read.
    pub fn next(&mut self) -> (r: Option<u64>)
        requires
            old(self).wf(),
        ensures
            final(self).wf(),
            final(self).word() == old(self).word(),
            match r {
                Some(offset) => {
                    &&& old(self).remaining().len() > 0
                    &&& offset == old(self).remaining()[0]
                    &&& final(self).remaining() == old(self).remaining().skip(1)
                },
                None => old(self).remaining().len() == 0 && final(self).remaining().len() == 0,
            },
    {
        if self.buf_offset >= self.lines_section.line_offsets_buf.len() {
            return None;
        }
        let offset = self.lines_section.get_line_offset(self.buf_offset);
        self.buf_offset += 5;
        assert(self.remaining() =~= old(self).remaining().skip(1));
        Some(offset)
    }
}

} // verus!
