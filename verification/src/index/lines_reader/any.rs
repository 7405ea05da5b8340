use crate::index::lines_reader::{
    ascending, flatten, indent_text, indentation, lemma_occurrences_multiset,
    lemma_occurrences_skip, lemma_seq_max_bounds, occurrences, seq_max, LinesReader,
};
use vstd::prelude::*;
use vstd::string::StringExecFns;

verus! {

/// Total number of offsets in `streams`.
pub open spec fn total_len(streams: Seq<Seq<u64>>) -> nat
    decreases streams.len(),
{
    if streams.len() == 0 {
        0
    } else {
        total_len(streams.drop_last()) + streams.last().len()
    }
}

/// Among the first `n` streams, the one to take the next offset from: the
/// stream with the smallest first offset and, among equals, the lowest index.
/// `None` where all of them are empty.
pub open spec fn pick(streams: Seq<Seq<u64>>, n: nat) -> Option<int>
    decreases n,
{
    if n == 0 {
        None
    } else {
        let i = n - 1;
        match pick(streams, (n - 1) as nat) {
            None => if streams[i].len() > 0 {
                Some(i)
            } else {
                None
            },
            Some(j) => if streams[i].len() > 0 && streams[i][0] < streams[j][0] {
                Some(i)
            } else {
                Some(j)
            },
        }
    }
}

/// The merge of `streams`: over and over, the smallest first offset of all
/// streams is taken from the stream that holds it. Offsets that several
/// streams hold come out once for each.
pub open spec fn kmerge(streams: Seq<Seq<u64>>) -> Seq<u64>
    decreases total_len(streams),
{
    match pick(streams, streams.len()) {
        None => Seq::empty(),
        Some(i) => {
            proof {
                lemma_pick_some(streams, streams.len());
                lemma_total_len_update(streams, i, streams[i].skip(1));
            }
            seq![streams[i][0]] + kmerge(streams.update(i, streams[i].skip(1)))
        },
    }
}

/// What is left of each stream once its first offset was pulled; an empty
/// stream stays empty.
pub open spec fn pulled_each(streams: Seq<Seq<u64>>) -> Seq<Seq<u64>> {
    Seq::new(
        streams.len(),
        |i: int|
            if streams[i].len() > 0 {
                streams[i].skip(1)
            } else {
                streams[i]
            },
    )
}

/// What each of `readers` will still yield.
pub open spec fn streams_of(readers: Seq<LinesReader>) -> Seq<Seq<u64>> {
    Seq::new(readers.len(), |i: int| readers[i].remaining())
}

/// A stream picked among the first `n` is one of them, is not empty, and no
/// other of them starts with a smaller offset, nor an earlier one with the
/// same.
pub proof fn lemma_pick_some(streams: Seq<Seq<u64>>, n: nat)
    requires
        n <= streams.len(),
    ensures
        match pick(streams, n) {
            Some(i) => {
                &&& 0 <= i < n
                &&& streams[i].len() > 0
                &&& forall|j: int|
                    0 <= j < n && streams[j].len() > 0 ==> streams[i][0] <= #[trigger] streams[j][0]
                &&& forall|j: int|
                    0 <= j < i && streams[j].len() > 0 ==> streams[i][0] < #[trigger] streams[j][0]
            },
            None => forall|j: int| 0 <= j < n ==> (#[trigger] streams[j]).len() == 0,
        },
    decreases n,
{
    if n > 0 {
        lemma_pick_some(streams, (n - 1) as nat);
    }
}

/// Replacing one stream changes the total length by the difference of the
/// two lengths.
pub proof fn lemma_total_len_update(streams: Seq<Seq<u64>>, i: int, stream: Seq<u64>)
    requires
        0 <= i < streams.len(),
    ensures
        total_len(streams.update(i, stream)) == total_len(streams) - streams[i].len()
            + stream.len(),
    decreases streams.len(),
{
    let updated = streams.update(i, stream);
    if i == streams.len() - 1 {
        assert(updated.drop_last() =~= streams.drop_last());
    } else {
        lemma_total_len_update(streams.drop_last(), i, stream);
        assert(updated.drop_last() =~= streams.drop_last().update(i, stream));
    }
}

/// The merge of no streams is empty.
pub proof fn lemma_kmerge_none(streams: Seq<Seq<u64>>)
    requires
        streams.len() == 0,
    ensures
        kmerge(streams) == Seq::<u64>::empty(),
{
}

/// The merge of a single stream is that stream.
pub proof fn lemma_kmerge_single(streams: Seq<Seq<u64>>)
    requires
        streams.len() == 1,
    ensures
        kmerge(streams) == streams[0],
    decreases streams[0].len(),
{
    reveal_with_fuel(pick, 2);
    if streams[0].len() == 0 {
        assert(kmerge(streams) =~= streams[0]);
    } else {
        let rest = streams.update(0, streams[0].skip(1));
        lemma_kmerge_single(rest);
        assert(kmerge(streams) =~= streams[0]);
    }
}

/// How often `v` occurs in all of `streams` together.
pub open spec fn total_occurrences(streams: Seq<Seq<u64>>, v: u64) -> nat
    decreases streams.len(),
{
    if streams.len() == 0 {
        0
    } else {
        total_occurrences(streams.drop_last(), v) + occurrences(streams.last(), v)
    }
}

/// Replacing one stream changes the occurrences of an offset by the
/// difference of its occurrences in the two streams.
pub proof fn lemma_total_occurrences_update(
    streams: Seq<Seq<u64>>,
    i: int,
    stream: Seq<u64>,
    v: u64,
)
    requires
        0 <= i < streams.len(),
    ensures
        total_occurrences(streams.update(i, stream), v) + occurrences(streams[i], v)
            == total_occurrences(streams, v) + occurrences(stream, v),
    decreases streams.len(),
{
    let updated = streams.update(i, stream);
    if i == streams.len() - 1 {
        assert(updated.drop_last() =~= streams.drop_last());
    } else {
        lemma_total_occurrences_update(streams.drop_last(), i, stream, v);
        assert(updated.drop_last() =~= streams.drop_last().update(i, stream));
    }
}

/// Nothing occurs in streams that are all empty.
pub proof fn lemma_total_occurrences_exhausted(streams: Seq<Seq<u64>>, v: u64)
    requires
        forall|j: int| 0 <= j < streams.len() ==> (#[trigger] streams[j]).len() == 0,
    ensures
        total_occurrences(streams, v) == 0,
    decreases streams.len(),
{
    if streams.len() > 0 {
        lemma_total_occurrences_exhausted(streams.drop_last(), v);
    }
}

/// The merge holds every offset as often as the streams hold it together:
/// nothing is lost, nothing is made up, and what several streams hold is
/// not collapsed.
pub proof fn lemma_kmerge_occurrences(streams: Seq<Seq<u64>>, v: u64)
    ensures
        occurrences(kmerge(streams), v) == total_occurrences(streams, v),
    decreases total_len(streams),
{
    lemma_pick_some(streams, streams.len());
    match pick(streams, streams.len()) {
        None => {
            lemma_total_occurrences_exhausted(streams, v);
        },
        Some(i) => {
            let rest = streams.update(i, streams[i].skip(1));
            lemma_total_len_update(streams, i, streams[i].skip(1));
            lemma_kmerge_occurrences(rest, v);
            lemma_total_occurrences_update(streams, i, streams[i].skip(1), v);
            lemma_occurrences_skip(streams[i], v);
            lemma_occurrences_skip(kmerge(streams), v);
            assert(kmerge(streams).skip(1) =~= kmerge(rest));
        },
    }
}

/// No offset of the merge is smaller than a bound that holds of every
/// offset of every stream.
pub proof fn lemma_kmerge_lower_bound(streams: Seq<Seq<u64>>, bound: u64)
    requires
        forall|j: int, k: int|
            0 <= j < streams.len() && 0 <= k < streams[j].len() ==> bound <= #[trigger] streams[j][k],
    ensures
        forall|k: int| 0 <= k < kmerge(streams).len() ==> bound <= #[trigger] kmerge(streams)[k],
    decreases total_len(streams),
{
    lemma_pick_some(streams, streams.len());
    match pick(streams, streams.len()) {
        None => {},
        Some(i) => {
            let rest = streams.update(i, streams[i].skip(1));
            lemma_total_len_update(streams, i, streams[i].skip(1));
            assert forall|j: int, k: int|
                0 <= j < rest.len() && 0 <= k < rest[j].len() implies bound <= #[trigger] rest[j][k] by {
                if j == i {
                    assert(rest[j][k] == streams[i][k + 1]);
                } else {
                    assert(rest[j][k] == streams[j][k]);
                }
            }
            lemma_kmerge_lower_bound(rest, bound);
            assert(bound <= streams[i][0]);
            assert forall|k: int| 0 <= k < kmerge(streams).len() implies bound
                <= #[trigger] kmerge(streams)[k] by {
                if k > 0 {
                    assert(kmerge(streams)[k] == kmerge(rest)[k - 1]);
                }
            }
        },
    }
}

/// The merge of ascending streams is ascending.
pub proof fn lemma_kmerge_ascending(streams: Seq<Seq<u64>>)
    requires
        forall|j: int| 0 <= j < streams.len() ==> ascending(#[trigger] streams[j]),
    ensures
        ascending(kmerge(streams)),
    decreases total_len(streams),
{
    lemma_pick_some(streams, streams.len());
    match pick(streams, streams.len()) {
        None => {},
        Some(i) => {
            let first = streams[i][0];
            let rest = streams.update(i, streams[i].skip(1));
            lemma_total_len_update(streams, i, streams[i].skip(1));
            assert forall|j: int| 0 <= j < rest.len() implies ascending(#[trigger] rest[j]) by {
                assert(ascending(streams[j]));
                if j == i {
                    assert forall|a: int, b: int| 0 <= a <= b < rest[j].len() implies rest[j][a]
                        <= rest[j][b] by {
                        assert(rest[j][a] == streams[i][a + 1]);
                        assert(rest[j][b] == streams[i][b + 1]);
                    }
                }
            }
            lemma_kmerge_ascending(rest);
            assert forall|j: int, k: int|
                0 <= j < rest.len() && 0 <= k < rest[j].len() implies first <= #[trigger] rest[j][k] by {
                assert(ascending(streams[j]));
                if j == i {
                    assert(rest[j][k] == streams[i][k + 1]);
                } else {
                    assert(rest[j][k] == streams[j][k]);
                    assert(streams[j][0] <= streams[j][k]);
                }
            }
            lemma_kmerge_lower_bound(rest, first);
            let merged = kmerge(streams);
            assert forall|a: int, b: int| 0 <= a <= b < merged.len() implies merged[a]
                <= merged[b] by {
                if a > 0 {
                    assert(merged[a] == kmerge(rest)[a - 1]);
                    assert(merged[b] == kmerge(rest)[b - 1]);
                } else if b > 0 {
                    assert(merged[b] == kmerge(rest)[b - 1]);
                }
            }
        },
    }
}

/// An offset that occurs in the streams together occurs in one of them.
pub proof fn lemma_occurs_in_some_stream(streams: Seq<Seq<u64>>, v: u64) -> (j: int)
    requires
        total_occurrences(streams, v) > 0,
    ensures
        0 <= j < streams.len(),
        occurrences(streams[j], v) > 0,
    decreases streams.len(),
{
    if occurrences(streams.last(), v) > 0 {
        streams.len() - 1
    } else {
        lemma_occurs_in_some_stream(streams.drop_last(), v)
    }
}

/// Every offset of the merge stands in one of the streams.
pub proof fn lemma_kmerge_member(streams: Seq<Seq<u64>>, k: int) -> (at: (int, int))
    requires
        0 <= k < kmerge(streams).len(),
    ensures
        0 <= at.0 < streams.len(),
        0 <= at.1 < streams[at.0].len(),
        streams[at.0][at.1] == kmerge(streams)[k],
{
    let v = kmerge(streams)[k];
    crate::index::lines_reader::lemma_occurs_at(kmerge(streams), k);
    lemma_kmerge_occurrences(streams, v);
    let j = lemma_occurs_in_some_stream(streams, v);
    let p = crate::index::lines_reader::lemma_occurs_somewhere(streams[j], v);
    (j, p)
}

/// The merge of streams that are all empty is empty.
pub proof fn lemma_kmerge_exhausted(streams: Seq<Seq<u64>>)
    requires
        forall|j: int| 0 <= j < streams.len() ==> (#[trigger] streams[j]).len() == 0,
    ensures
        kmerge(streams) == Seq::<u64>::empty(),
{
    lemma_pick_some(streams, streams.len());
}

/// The union of two readers: what `Any` yields over the outputs `a` and `b`
/// holds every offset as often as `a` and `b` hold it together, so an offset
/// that both hold comes out once for each, and it is ascending where `a` and
/// `b` are.
pub proof fn lemma_any_is_merge(a: Seq<u64>, b: Seq<u64>)
    ensures
        kmerge(seq![a, b]).to_multiset() == a.to_multiset().add(b.to_multiset()),
        forall|v: u64|
            #![trigger occurrences(a, v)]
            occurrences(kmerge(seq![a, b]), v) == occurrences(a, v) + occurrences(b, v),
        ascending(a) && ascending(b) ==> ascending(kmerge(seq![a, b])),
{
    broadcast use vstd::multiset::group_multiset_axioms;

    let streams = seq![a, b];
    let merged = kmerge(streams);
    assert forall|v: u64| #![trigger occurrences(a, v)]
        occurrences(merged, v) == occurrences(a, v) + occurrences(b, v) by {
        lemma_kmerge_occurrences(streams, v);
        assert(streams.drop_last() =~= seq![a]);
        assert(streams.drop_last().drop_last() =~= Seq::<Seq<u64>>::empty());
        assert(total_occurrences(streams.drop_last().drop_last(), v) == 0);
        assert(total_occurrences(streams.drop_last(), v) == occurrences(a, v));
    }
    assert forall|v: u64|
        merged.to_multiset().count(v) == a.to_multiset().add(b.to_multiset()).count(v) by {
        lemma_occurrences_multiset(merged, v);
        lemma_occurrences_multiset(a, v);
        lemma_occurrences_multiset(b, v);
    }
    assert(merged.to_multiset() =~= a.to_multiset().add(b.to_multiset()));
    if ascending(a) && ascending(b) {
        lemma_kmerge_ascending(streams);
    }
}

/// Merges the offsets of several readers into one ascending sequence, as
/// long as each of them is ascending.
pub struct AnyLinesReader {
    readers: Vec<LinesReader>,
    heads: Vec<Option<u64>>,
}

impl AnyLinesReader {
    /// Every reader below is consistent, and a reader without a pulled
    /// offset is exhausted.
    pub closed spec fn wf(&self) -> bool
        decreases self,
    {
        &&& self.readers@.len() == self.heads@.len()
        &&& forall|i: int|
            0 <= i < self.readers@.len() ==> {
                &&& (#[trigger] self.readers@[i]).wf()
                &&& (self.heads@[i] is None ==> self.readers@[i].remaining().len() == 0)
            }
    }

    /// What each reader below will still contribute: the offset already
    /// pulled from it, then what it will yield.
    pub closed spec fn streams(&self) -> Seq<Seq<u64>>
        decreases self, 0nat,
    {
        Seq::new(
            self.readers@.len(),
            |i: int|
                if 0 <= i < self.readers@.len() {
                    match self.heads@[i] {
                        Some(offset) => seq![offset] + self.readers@[i].remaining(),
                        None => self.readers@[i].remaining(),
                    }
                } else {
                    Seq::empty()
                },
        )
    }

    /// The offsets that the reader will still yield, in order.
    pub closed spec fn remaining(&self) -> Seq<u64>
        decreases self, 1nat,
    {
        kmerge(self.streams())
    }

    /// Nesting depth of each reader below.
    pub closed spec fn child_depths(&self) -> Seq<nat>
        decreases self, 0nat,
    {
        Seq::new(
            self.readers@.len(),
            |i: int|
                if 0 <= i < self.readers@.len() {
                    self.readers@[i].depth()
                } else {
                    0
                },
        )
    }

    /// Nesting depth: one more than the deepest reader below.
    pub closed spec fn depth(&self) -> nat
        decreases self, 1nat,
    {
        1 + seq_max(self.child_depths())
    }

    /// The listing of the reader: `Any:` behind `prefix`, then the listings of
    /// the readers below, each two spaces further in.
    pub closed spec fn listing(&self, prefix: Seq<char>) -> Seq<Seq<char>>
        decreases self, 1nat,
    {
        seq![prefix + "Any:"@] + flatten(self.listings(prefix + "  "@))
    }

    /// The listing of each reader below.
    pub closed spec fn listings(&self, prefix: Seq<char>) -> Seq<Seq<Seq<char>>>
        decreases self, 0nat,
    {
        Seq::new(
            self.readers@.len(),
            |i: int|
                if 0 <= i < self.readers@.len() {
                    self.readers@[i].listing(prefix)
                } else {
                    Seq::empty()
                },
        )
    }

    /// Appends the listing of the reader to `out`, indented by two spaces
    /// for each level of `indent`.
    pub fn print_debug(&self, indent: usize, out: &mut Vec<String>)
        ensures
            crate::token::texts(final(out)@) == crate::token::texts(old(out)@) + self.listing(
                indentation(indent as nat),
            ),
    {
        let prefix = indent_text(indent);
        self.list(prefix.as_str(), out);
    }

    /// Appends the listing of the reader behind `prefix` to `out`.
    pub fn list(&self, prefix: &str, out: &mut Vec<String>)
        ensures
            crate::token::texts(final(out)@) == crate::token::texts(old(out)@) + self.listing(
                prefix@,
            ),
        decreases self,
    {
        let mut line = String::from_str(prefix);
        line.append("Any:");
        out.push(line);
        let mut deeper = String::from_str(prefix);
        deeper.append("  ");
        let ghost parts = self.listings(deeper@);
        let ghost head = crate::token::texts(old(out)@) + seq![prefix@ + "Any:"@];
        assert(crate::token::texts(out@) =~= head);
        assert(parts.take(0) =~= Seq::<Seq<Seq<char>>>::empty());
        let mut i: usize = 0;
        while i < self.readers.len()
            invariant
                i <= self.readers@.len(),
                parts == self.listings(deeper@),
                parts.len() == self.readers@.len(),
                crate::token::texts(out@) == head + flatten(parts.take(i as int)),
                forall|j: int|
                    0 <= j < self.readers@.len() ==> decreases_to!(self => #[trigger] self.readers@[j]),
            decreases self.readers@.len() - i,
        {
            self.readers[i].list(deeper.as_str(), out);
            proof {
                assert(parts.take(i + 1).drop_last() =~= parts.take(i as int));
                assert(parts.take(i + 1).last() == self.readers@[i as int].listing(deeper@));
                assert(crate::token::texts(out@) =~= head + flatten(parts.take(i + 1)));
            }
            i = i + 1;
        }
        proof {
            assert(parts.take(i as int) =~= parts);
            assert(crate::token::texts(out@) =~= crate::token::texts(old(out)@) + self.listing(
                prefix@,
            ));
        }
    }


    /// Every reader below is less deep than the reader itself.
    proof fn lemma_child_depth(&self, i: int)
        requires
            0 <= i < self.readers@.len(),
        ensures
            self.readers@[i].depth() < self.depth(),
    {
        lemma_seq_max_bounds(self.child_depths(), i);
    }

    /// The readers that are merged.
    pub closed spec fn children(&self) -> Seq<LinesReader> {
        self.readers@
    }

    /// A reader that merges `readers`. The first offset of each is pulled at
    /// once, and no more than that.
    pub fn new(mut readers: Vec<LinesReader>) -> (reader: Self)
        requires
            forall|i: int| 0 <= i < readers@.len() ==> (#[trigger] readers@[i]).wf(),
        ensures
            reader.wf(),
            reader.remaining() == kmerge(streams_of(readers@)),
            streams_of(reader.children()) == pulled_each(streams_of(readers@)),
    {
        let ghost streams = streams_of(readers@);
        let mut heads: Vec<Option<u64>> = Vec::new();
        let n = readers.len();
        let mut i: usize = 0;
        while i < n
            invariant
                i <= n,
                n == readers@.len(),
                streams.len() == n,
                heads@.len() == i,
                forall|j: int| 0 <= j < n ==> (#[trigger] readers@[j]).wf(),
                forall|j: int| i <= j < n ==> (#[trigger] readers@[j]).remaining() == streams[j],
                forall|j: int|
                    0 <= j < i ==> {
                        &&& (heads@[j] is None ==> (#[trigger] readers@[j]).remaining().len() == 0)
                        &&& streams[j] == match heads@[j] {
                            Some(offset) => seq![offset] + readers@[j].remaining(),
                            None => readers@[j].remaining(),
                        }
                    },
            decreases n - i,
        {
            let head = readers[i].next();
            heads.push(head);
            proof {
                let j = i as int;
                match head {
                    Some(offset) => {
                        assert(streams[j] =~= seq![offset] + readers@[j].remaining());
                    },
                    None => {
                        assert(streams[j] =~= readers@[j].remaining());
                    },
                }
            }
            i = i + 1;
        }
        let reader = Self { readers, heads };
        proof {
            assert(reader.streams() =~= streams);
            let left = pulled_each(streams);
            assert forall|j: int| 0 <= j < n implies #[trigger] streams_of(reader.children())[j]
                == left[j] by {
                match reader.heads@[j] {
                    Some(offset) => {
                        assert(reader.readers@[j].remaining() =~= streams[j].skip(1));
                    },
                    None => {
                        assert(reader.readers@[j].remaining() =~= streams[j]);
                    },
                }
            }
            assert(streams_of(reader.children()) =~= left);
        }
        reader
    }

    /// Yields the smallest offset that any reader below still holds, or
    /// `None` once all are exhausted. Only the reader that held the offset
    /// moves on, by one offset.
    pub fn next(&mut self) -> (r: Option<u64>)
        requires
            old(self).wf(),
        ensures
            final(self).wf(),
            final(self).depth() == old(self).depth(),
            match r {
                Some(offset) => {
                    &&& old(self).remaining().len() > 0
                    &&& offset == old(self).remaining()[0]
                    &&& final(self).remaining() == old(self).remaining().skip(1)
                },
                None => old(self).remaining().len() == 0 && final(self).remaining().len() == 0,
            },
            final(self).children().len() == old(self).children().len(),
            match pick(old(self).streams(), old(self).streams().len()) {
                Some(b) => {
                    &&& final(self).streams() == old(self).streams().update(
                        b,
                        old(self).streams()[b].skip(1),
                    )
                    &&& forall|i: int|
                        0 <= i < old(self).children().len() && i != b ==> (
                        #[trigger] final(self).children()[i]) == old(self).children()[i]
                    &&& 0 <= b < old(self).children().len()
                    &&& streams_of(final(self).children())[b] == pulled_each(
                        streams_of(old(self).children()),
                    )[b]
                },
                None => final(self).streams() == old(self).streams() && final(self).children()
                    == old(self).children(),
            },
        decreases old(self).depth(), 1nat,
    {
        let ghost streams = self.streams();
        let n = self.heads.len();
        let mut best: Option<usize> = None;
        let mut i: usize = 0;
        while i < n
            invariant
                i <= n,
                n == self.heads@.len(),
                self.wf(),
                streams == self.streams(),
                match best {
                    Some(b) => pick(streams, i as nat) == Some(b as int) && b < i,
                    None => pick(streams, i as nat).is_none(),
                },
            decreases n - i,
        {
            proof {
                if let Some(b) = best {
                    lemma_pick_some(streams, i as nat);
                }
            }
            if let Some(offset) = self.heads[i] {
                match best {
                    None => {
                        best = Some(i);
                    },
                    Some(b) => {
                        if let Some(smallest) = self.heads[b] {
                            if offset < smallest {
                                best = Some(i);
                            }
                        }
                    },
                }
            }
            i = i + 1;
        }
        match best {
            None => {
                proof {
                    lemma_pick_some(streams, n as nat);
                }
                None
            },
            Some(b) => {
                proof {
                    lemma_pick_some(streams, n as nat);
                    self.lemma_child_depth(b as int);
                }
                let offset = self.heads[b].unwrap();
                let head = self.readers[b].next();
                self.heads[b] = head;
                proof {
                    let rest = streams.update(b as int, streams[b as int].skip(1));
                    assert(self.streams() =~= rest) by {
                        match head {
                            Some(next_offset) => {
                                assert(self.streams()[b as int] =~= streams[b as int].skip(1));
                            },
                            None => {
                                assert(self.streams()[b as int] =~= streams[b as int].skip(1));
                            },
                        }
                    }
                    assert(old(self).remaining().skip(1) =~= kmerge(rest));
                    assert(self.child_depths() =~= old(self).child_depths());
                    match head {
                        Some(next_offset) => {
                            let before = old(self).readers@[b as int].remaining();
                            assert(self.readers@[b as int].remaining() =~= before.skip(1));
                        },
                        None => {
                            let before = old(self).readers@[b as int].remaining();
                            assert(self.readers@[b as int].remaining() =~= before);
                        },
                    }
                }
                Some(offset)
            },
        }
    }
}

} // verus!
