//! Lazy readers of line offsets. A reader is pulled with `next`; what it will
//! still yield is its `remaining()` sequence.

pub mod all;
pub mod any;
pub mod word;

use crate::index::lines_reader::all::{intersect, pulled_in_turn, AllLinesReader};
use crate::index::lines_reader::any::{kmerge, pulled_each, streams_of, AnyLinesReader};
use crate::error::IxError;
use crate::index::lines_reader::word::WordLinesReader;
use crate::index::reader::IxReader;
use crate::index::words_section::IxWord;
use vstd::prelude::*;
use vstd::string::StringExecFns;

verus! {

/// The largest number in `s`, or zero for an empty `s`.
pub open spec fn seq_max(s: Seq<nat>) -> nat
    decreases s.len(),
{
    if s.len() == 0 {
        0
    } else if s.last() > seq_max(s.drop_last()) {
        s.last()
    } else {
        seq_max(s.drop_last())
    }
}

/// No number in `s` is larger than the largest.
pub proof fn lemma_seq_max_bounds(s: Seq<nat>, i: int)
    requires
        0 <= i < s.len(),
    ensures
        s[i] <= seq_max(s),
    decreases s.len(),
{
    if i < s.len() - 1 {
        lemma_seq_max_bounds(s.drop_last(), i);
    }
}

/// No offset of `s` is smaller than one before it.
pub open spec fn ascending(s: Seq<u64>) -> bool {
    forall|i: int, j: int| 0 <= i <= j < s.len() ==> s[i] <= s[j]
}

/// Every offset of `s` is larger than those before it.
pub open spec fn strictly_ascending(s: Seq<u64>) -> bool {
    forall|i: int, j: int| 0 <= i < j < s.len() ==> s[i] < s[j]
}

/// How often `v` occurs in `s`.
pub open spec fn occurrences(s: Seq<u64>, v: u64) -> nat
    decreases s.len(),
{
    if s.len() == 0 {
        0
    } else if s.last() == v {
        occurrences(s.drop_last(), v) + 1
    } else {
        occurrences(s.drop_last(), v)
    }
}

/// An offset occurs in two sequences joined as often as in both together.
pub proof fn lemma_occurrences_concat(a: Seq<u64>, b: Seq<u64>, v: u64)
    ensures
        occurrences(a + b, v) == occurrences(a, v) + occurrences(b, v),
    decreases b.len(),
{
    if b.len() == 0 {
        assert(a + b =~= a);
    } else {
        lemma_occurrences_concat(a, b.drop_last(), v);
        assert((a + b).drop_last() =~= a + b.drop_last());
    }
}

/// Taking the first offset away takes one occurrence of it away and leaves
/// the other offsets as they are.
pub proof fn lemma_occurrences_skip(s: Seq<u64>, v: u64)
    requires
        s.len() > 0,
    ensures
        occurrences(s, v) == occurrences(s.skip(1), v) + if s[0] == v {
            1nat
        } else {
            0nat
        },
{
    let head = seq![s[0]];
    assert(s =~= head + s.skip(1));
    lemma_occurrences_concat(head, s.skip(1), v);
    assert(head.drop_last() =~= Seq::<u64>::empty());
    assert(occurrences(head.drop_last(), v) == 0);
}

/// An offset occurs in a sequence as often as the multiset of the sequence
/// holds it.
pub proof fn lemma_occurrences_multiset(s: Seq<u64>, v: u64)
    ensures
        occurrences(s, v) == s.to_multiset().count(v),
    decreases s.len(),
{
    broadcast use vstd::seq_lib::group_to_multiset_ensures;
    broadcast use vstd::multiset::group_multiset_axioms;

    if s.len() == 0 {
        assert(s.to_multiset().len() == 0);
    } else {
        lemma_occurrences_multiset(s.drop_last(), v);
        assert(s =~= s.drop_last().push(s.last()));
        assert(s.to_multiset() =~= s.drop_last().to_multiset().insert(s.last()));
    }
}

/// An offset that occurs in a sequence stands at some place of it.
pub proof fn lemma_occurs_somewhere(s: Seq<u64>, v: u64) -> (k: int)
    requires
        occurrences(s, v) > 0,
    ensures
        0 <= k < s.len(),
        s[k] == v,
    decreases s.len(),
{
    if s.last() == v {
        s.len() - 1
    } else {
        lemma_occurs_somewhere(s.drop_last(), v)
    }
}

/// An offset that stands at some place of a sequence occurs in it.
pub proof fn lemma_occurs_at(s: Seq<u64>, k: int)
    requires
        0 <= k < s.len(),
    ensures
        occurrences(s, s[k]) > 0,
    decreases s.len(),
{
    if k < s.len() - 1 {
        lemma_occurs_at(s.drop_last(), k);
    }
}

/// Nesting depth of each of `readers`.
pub open spec fn depths_of(readers: Seq<LinesReader>) -> Seq<nat> {
    Seq::new(readers.len(), |i: int| readers[i].depth())
}

/// Two spaces for each level of `indent`.
pub open spec fn indentation(indent: nat) -> Seq<char>
    decreases indent,
{
    if indent == 0 {
        Seq::empty()
    } else {
        indentation((indent - 1) as nat) + "  "@
    }
}

/// The lines of `parts`, one part after the other.
pub open spec fn flatten(parts: Seq<Seq<Seq<char>>>) -> Seq<Seq<char>>
    decreases parts.len(),
{
    if parts.len() == 0 {
        Seq::empty()
    } else {
        flatten(parts.drop_last()) + parts.last()
    }
}

/// Two spaces for each level of `indent`.
pub fn indent_text(indent: usize) -> (text: String)
    ensures
        text@ == indentation(indent as nat),
{
    let mut text = String::new();
    let mut i: usize = 0;
    while i < indent
        invariant
            i <= indent,
            text@ == indentation(i as nat),
        decreases indent - i,
    {
        text.append("  ");
        i = i + 1;
    }
    text
}

/// A lazy, pull-based source of line offsets.
pub enum LinesReader {
    /// Yields nothing.
    Empty,
    /// The posting list of one word.
    Word(WordLinesReader),
    /// The merge of several readers.
    Any(AnyLinesReader),
    /// The intersection of several readers.
    All(AllLinesReader),
}

impl LinesReader {
    /// The reader and all the readers below it are in a consistent state.
    pub open spec fn wf(&self) -> bool
        decreases self,
    {
        match self {
            LinesReader::Empty => true,
            LinesReader::Word(reader) => reader.wf(),
            LinesReader::Any(reader) => reader.wf(),
            LinesReader::All(reader) => reader.wf(),
        }
    }

    /// The offsets that the reader will still yield, in order.
    pub open spec fn remaining(&self) -> Seq<u64>
        decreases self, 0nat,
    {
        match self {
            LinesReader::Empty => Seq::empty(),
            LinesReader::Word(reader) => reader.remaining(),
            LinesReader::Any(reader) => reader.remaining(),
            LinesReader::All(reader) => reader.remaining(),
        }
    }

    /// Nesting depth of the reader: zero for a leaf.
    pub open spec fn depth(&self) -> nat
        decreases self, 0nat,
    {
        match self {
            LinesReader::Empty => 0,
            LinesReader::Word(_) => 0,
            LinesReader::Any(reader) => reader.depth(),
            LinesReader::All(reader) => reader.depth(),
        }
    }

    /// A reader of the posting list of `word` in the index `ix`. Fails with
    /// `CorruptIndex` where there is no well-formed posting section at the
    /// position that `word` records.
    pub fn with_word(ix: &IxReader, word: &IxWord) -> (r: Result<Self, IxError>)
        ensures
            match r {
                Ok(reader) => {
                    &&& reader.wf()
                    &&& reader is Word
                    &&& ix.posting(word.lines_section_offset) == Some(reader.remaining())
                },
                Err(e) => {
                    &&& e == IxError::CorruptIndex
                    &&& ix.posting(word.lines_section_offset).is_none()
                },
            },
    {
        match WordLinesReader::new(ix, word) {
            Ok(reader) => Ok(Self::Word(reader)),
            Err(e) => Err(e),
        }
    }

    /// The merge of `readers`. No reader is built around a single one, and
    /// none at all yields nothing.
    pub fn with_any(mut readers: Vec<Self>) -> (reader: Self)
        requires
            forall|i: int| 0 <= i < readers@.len() ==> (#[trigger] readers@[i]).wf(),
        ensures
            reader.wf(),
            reader.remaining() == kmerge(streams_of(readers@)),
            readers@.len() == 0 ==> reader == LinesReader::Empty,
            readers@.len() == 1 ==> reader == readers@[0],
            readers@.len() >= 2 ==> reader is Any && streams_of(reader->Any_0.children())
                == pulled_each(streams_of(readers@)),
    {
        let ghost streams = streams_of(readers@);
        if readers.len() == 0 {
            proof {
                crate::index::lines_reader::any::lemma_kmerge_none(streams);
            }
            LinesReader::Empty
        } else if readers.len() == 1 {
            proof {
                crate::index::lines_reader::any::lemma_kmerge_single(streams);
            }
            readers.pop().unwrap()
        } else {
            LinesReader::Any(AnyLinesReader::new(readers))
        }
    }

    /// The intersection of `readers`. No reader is built around a single
    /// one, and none at all yields nothing.
    pub fn with_all(mut readers: Vec<Self>) -> (reader: Self)
        requires
            forall|i: int| 0 <= i < readers@.len() ==> (#[trigger] readers@[i]).wf(),
        ensures
            reader.wf(),
            reader.remaining() == intersect(streams_of(readers@)),
            readers@.len() == 0 ==> reader == LinesReader::Empty,
            readers@.len() == 1 ==> reader == readers@[0],
            readers@.len() >= 2 ==> reader is All && streams_of(reader->All_0.children())
                == pulled_in_turn(streams_of(readers@)),
    {
        let ghost streams = streams_of(readers@);
        if readers.len() == 0 {
            LinesReader::Empty
        } else if readers.len() == 1 {
            proof {
                crate::index::lines_reader::all::lemma_intersect_single(streams);
            }
            readers.pop().unwrap()
        } else {
            LinesReader::All(AllLinesReader::new(readers))
        }
    }

    /// The listing of the reader and the readers below it, one line for
    /// each, every line behind `prefix` and two more spaces for each level:
    /// the word of a word reader, `Any:` or `All:` above the readers that
    /// are combined, `Empty` for the reader that yields nothing.
    pub open spec fn listing(&self, prefix: Seq<char>) -> Seq<Seq<char>>
        decreases self, 0nat,
    {
        match self {
            LinesReader::Empty => seq![prefix + "Empty"@],
            LinesReader::Word(reader) => seq![prefix + reader.word()],
            LinesReader::Any(reader) => reader.listing(prefix),
            LinesReader::All(reader) => reader.listing(prefix),
        }
    }

    /// Appends the listing of the reader behind `prefix` to `out`.
    pub fn list(&self, prefix: &str, out: &mut Vec<String>)
        ensures
            crate::token::texts(final(out)@) == crate::token::texts(old(out)@) + self.listing(
                prefix@,
            ),
        decreases self,
    {
        match self {
            LinesReader::Empty => {
                let mut line = String::from_str(prefix);
                line.append("Empty");
                out.push(line);
                assert(crate::token::texts(out@) =~= crate::token::texts(old(out)@) + self.listing(
                    prefix@,
                ));
            },
            LinesReader::Word(reader) => {
                let mut line = String::from_str(prefix);
                line.append(reader.word_text());
                out.push(line);
                assert(crate::token::texts(out@) =~= crate::token::texts(old(out)@) + self.listing(
                    prefix@,
                ));
            },
            LinesReader::Any(reader) => reader.list(prefix, out),
            LinesReader::All(reader) => reader.list(prefix, out),
        }
    }

    /// Appends the listing of the reader to `out`, indented by two spaces
    /// for each level of `indent`.
    pub fn print_debug(&self, indent: usize, out: &mut Vec<String>)
        ensures
            crate::token::texts(final(out)@) == crate::token::texts(old(out)@) + self.listing(
                indentation(indent as nat),
            ),
    {
        let prefix = indent_text(indent);
        self.list(prefix.as_str(), out);
    }

    /// Yields the next offset, or `None` once the reader is exhausted.
    pub fn next(&mut self) -> (r: Option<u64>)
        requires
            old(self).wf(),
        ensures
            final(self).wf(),
            final(self).depth() == old(self).depth(),
            match r {
                Some(offset) => {
                    &&& old(self).remaining().len() > 0
                    &&& offset == old(self).remaining()[0]
                    &&& final(self).remaining() == old(self).remaining().skip(1)
                },
                None => old(self).remaining().len() == 0 && final(self).remaining().len() == 0,
            },
        decreases old(self).depth(), 2nat,
    {
        match self {
            LinesReader::Word(reader) => reader.next(),
            LinesReader::Any(reader) => reader.next(),
            LinesReader::All(reader) => reader.next(),
            LinesReader::Empty => None,
        }
    }
}

} // verus!
