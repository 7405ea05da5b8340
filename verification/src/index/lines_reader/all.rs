use crate::index::lines_reader::any::{streams_of, total_len};
use crate::index::lines_reader::{
    ascending, depths_of, flatten, indent_text, indentation, lemma_occurrences_multiset,
    lemma_occurrences_skip, lemma_occurs_at, lemma_occurs_somewhere, lemma_seq_max_bounds,
    occurrences, seq_max, strictly_ascending, LinesReader,
};
use vstd::prelude::*;
use vstd::string::StringExecFns;

verus! {

/// No stream is empty.
pub open spec fn all_nonempty(streams: Seq<Seq<u64>>) -> bool {
    forall|i: int| 0 <= i < streams.len() ==> (#[trigger] streams[i]).len() > 0
}

/// The largest first offset of the first `n` streams.
pub open spec fn max_head(streams: Seq<Seq<u64>>, n: nat) -> u64
    decreases n,
{
    if n == 0 {
        0
    } else if streams[n - 1][0] > max_head(streams, (n - 1) as nat) {
        streams[n - 1][0]
    } else {
        max_head(streams, (n - 1) as nat)
    }
}

/// The smallest first offset of the first `n` streams.
pub open spec fn min_head(streams: Seq<Seq<u64>>, n: nat) -> u64
    decreases n,
{
    if n == 0 {
        u64::MAX
    } else if streams[n - 1][0] < min_head(streams, (n - 1) as nat) {
        streams[n - 1][0]
    } else {
        min_head(streams, (n - 1) as nat)
    }
}

/// Every stream without its first offset.
pub open spec fn advance_all(streams: Seq<Seq<u64>>) -> Seq<Seq<u64>> {
    Seq::new(streams.len(), |i: int| streams[i].skip(1))
}

/// The streams, each without its first offset where that offset is below
/// `bound`.
pub open spec fn advance_below(streams: Seq<Seq<u64>>, bound: u64) -> Seq<Seq<u64>> {
    Seq::new(
        streams.len(),
        |i: int|
            if streams[i][0] < bound {
                streams[i].skip(1)
            } else {
                streams[i]
            },
    )
}

/// The position of the first empty stream at or after `from`, or the
/// number of streams where there is none.
pub open spec fn first_empty(streams: Seq<Seq<u64>>, from: int) -> int
    decreases streams.len() - from,
{
    if from < 0 || from >= streams.len() {
        streams.len() as int
    } else if streams[from].len() == 0 {
        from
    } else {
        first_empty(streams, from + 1)
    }
}

/// What is left of each stream once the first offset of every stream was
/// pulled in turn, up to the first stream that is empty: the streams before
/// that one have given their first offset, the others have given nothing.
pub open spec fn pulled_in_turn(streams: Seq<Seq<u64>>) -> Seq<Seq<u64>> {
    Seq::new(
        streams.len(),
        |i: int|
            if i < first_empty(streams, 0) {
                streams[i].skip(1)
            } else {
                streams[i]
            },
    )
}

/// The intersection of `streams` by merge-join. While no stream is empty:
/// where all first offsets agree, that offset comes out and every stream
/// moves on; otherwise every stream whose first offset is below the largest
/// one moves on. It ends as soon as one stream is empty.
pub open spec fn intersect(streams: Seq<Seq<u64>>) -> Seq<u64>
    decreases total_len(streams),
{
    if streams.len() == 0 || !all_nonempty(streams) {
        Seq::empty()
    } else {
        let hi = max_head(streams, streams.len());
        let lo = min_head(streams, streams.len());
        if lo == hi {
            proof {
                lemma_advance_all_shrinks(streams);
            }
            seq![lo] + intersect(advance_all(streams))
        } else {
            proof {
                lemma_advance_below_shrinks(streams);
            }
            intersect(advance_below(streams, hi))
        }
    }
}

/// The position of the first stream at or after `from` that is to move on,
/// its first offset being below `bound`, but holds nothing behind that
/// offset; the number of streams where there is none.
pub open spec fn first_stuck(streams: Seq<Seq<u64>>, bound: u64, from: int) -> int
    decreases streams.len() - from,
{
    if from < 0 || from >= streams.len() {
        streams.len() as int
    } else if streams[from][0] < bound && streams[from].len() <= 1 {
        from
    } else {
        first_stuck(streams, bound, from + 1)
    }
}

/// What the readers below still hold once the intersection of `streams`,
/// each of them the offset in the slot of a reader and what the reader
/// holds behind it, has looked for its next offset. Where the first offsets
/// agree, every reader gives its next offset in turn, up to the first that
/// is exhausted. Otherwise the readers whose first offset is below the
/// largest give their next offset in turn; where one of them is exhausted
/// the search ends there, else it goes on.
pub open spec fn left_after_next(streams: Seq<Seq<u64>>) -> Seq<Seq<u64>>
    decreases total_len(streams),
{
    if streams.len() == 0 || !all_nonempty(streams) {
        advance_all(streams)
    } else {
        let hi = max_head(streams, streams.len());
        let lo = min_head(streams, streams.len());
        let stuck = first_stuck(streams, hi, 0);
        if lo == hi {
            pulled_in_turn(advance_all(streams))
        } else if stuck < streams.len() {
            Seq::new(
                streams.len(),
                |i: int|
                    if i < stuck && streams[i][0] < hi {
                        streams[i].skip(1).skip(1)
                    } else {
                        streams[i].skip(1)
                    },
            )
        } else {
            proof {
                lemma_advance_below_shrinks(streams);
            }
            left_after_next(advance_below(streams, hi))
        }
    }
}

/// The largest and the smallest first offset of the first `n` streams bound
/// all of their first offsets, and each is the first offset of one of them.
pub proof fn lemma_head_bounds(streams: Seq<Seq<u64>>, n: nat)
    requires
        0 < n <= streams.len(),
    ensures
        forall|i: int| 0 <= i < n ==> (#[trigger] streams[i])[0] <= max_head(streams, n),
        forall|i: int| 0 <= i < n ==> min_head(streams, n) <= (#[trigger] streams[i])[0],
        exists|i: int| 0 <= i < n && (#[trigger] streams[i])[0] == max_head(streams, n),
        exists|i: int| 0 <= i < n && (#[trigger] streams[i])[0] == min_head(streams, n),
    decreases n,
{
    reveal_with_fuel(max_head, 2);
    reveal_with_fuel(min_head, 2);
    if n > 1 {
        lemma_head_bounds(streams, (n - 1) as nat);
        let a = choose|i: int|
            0 <= i < n - 1 && (#[trigger] streams[i])[0] == max_head(streams, (n - 1) as nat);
        let b = choose|i: int|
            0 <= i < n - 1 && (#[trigger] streams[i])[0] == min_head(streams, (n - 1) as nat);
        let last = n - 1;
        if streams[last][0] > max_head(streams, (n - 1) as nat) {
            assert(streams[last][0] == max_head(streams, n));
        } else {
            assert(streams[a][0] == max_head(streams, n));
        }
        if streams[last][0] < min_head(streams, (n - 1) as nat) {
            assert(streams[last][0] == min_head(streams, n));
        } else {
            assert(streams[b][0] == min_head(streams, n));
        }
    } else {
        assert(streams[0][0] == max_head(streams, n));
        assert(streams[0][0] == min_head(streams, n));
    }
}

/// Streams that are nowhere longer than others, and shorter in one place,
/// are shorter in total.
pub proof fn lemma_total_len_shrinks(longer: Seq<Seq<u64>>, shorter: Seq<Seq<u64>>, k: int)
    requires
        longer.len() == shorter.len(),
        forall|i: int| 0 <= i < longer.len() ==> (#[trigger] shorter[i]).len() <= longer[i].len(),
        0 <= k < longer.len(),
        shorter[k].len() < longer[k].len(),
    ensures
        total_len(shorter) < total_len(longer),
    decreases longer.len(),
{
    lemma_total_len_monotonic(longer.drop_last(), shorter.drop_last());
    if k < longer.len() - 1 {
        lemma_total_len_shrinks(longer.drop_last(), shorter.drop_last(), k);
    }
}

/// Streams that are nowhere longer than others are not longer in total.
pub proof fn lemma_total_len_monotonic(longer: Seq<Seq<u64>>, shorter: Seq<Seq<u64>>)
    requires
        longer.len() == shorter.len(),
        forall|i: int| 0 <= i < longer.len() ==> (#[trigger] shorter[i]).len() <= longer[i].len(),
    ensures
        total_len(shorter) <= total_len(longer),
    decreases longer.len(),
{
    if longer.len() > 0 {
        lemma_total_len_monotonic(longer.drop_last(), shorter.drop_last());
    }
}

/// Streams of which none is empty are fewer offsets in total once each has
/// moved on.
pub proof fn lemma_advance_all_shrinks(streams: Seq<Seq<u64>>)
    requires
        streams.len() > 0,
        all_nonempty(streams),
    ensures
        total_len(advance_all(streams)) < total_len(streams),
{
    lemma_total_len_shrinks(streams, advance_all(streams), 0);
}

/// Streams whose first offsets differ are fewer offsets in total once those
/// below the largest first offset have moved on.
pub proof fn lemma_advance_below_shrinks(streams: Seq<Seq<u64>>)
    requires
        streams.len() > 0,
        all_nonempty(streams),
        min_head(streams, streams.len()) != max_head(streams, streams.len()),
    ensures
        total_len(advance_below(streams, max_head(streams, streams.len()))) < total_len(streams),
{
    lemma_head_bounds(streams, streams.len());
    let k = choose|i: int|
        0 <= i < streams.len() && (#[trigger] streams[i])[0] == min_head(streams, streams.len());
    lemma_total_len_shrinks(
        streams,
        advance_below(streams, max_head(streams, streams.len())),
        k,
    );
}

/// The intersection of a single stream is that stream.
pub proof fn lemma_intersect_single(streams: Seq<Seq<u64>>)
    requires
        streams.len() == 1,
    ensures
        intersect(streams) == streams[0],
    decreases streams[0].len(),
{
    reveal_with_fuel(max_head, 2);
    reveal_with_fuel(min_head, 2);
    if streams[0].len() == 0 {
        assert(!all_nonempty(streams));
        assert(intersect(streams) =~= streams[0]);
    } else {
        assert(all_nonempty(streams));
        lemma_intersect_single(advance_all(streams));
        assert(intersect(streams) =~= streams[0]);
    }
}

/// The merge-join of two streams: where the first offsets agree, the offset
/// comes out and both streams move on; otherwise the stream with the
/// smaller first offset moves on.
pub open spec fn join(a: Seq<u64>, b: Seq<u64>) -> Seq<u64>
    decreases a.len() + b.len(),
{
    if a.len() == 0 || b.len() == 0 {
        Seq::empty()
    } else if a[0] == b[0] {
        seq![a[0]] + join(a.skip(1), b.skip(1))
    } else if a[0] < b[0] {
        join(a.skip(1), b)
    } else {
        join(a, b.skip(1))
    }
}

/// The intersection of two streams is their merge-join.
pub proof fn lemma_intersect_two(a: Seq<u64>, b: Seq<u64>)
    ensures
        intersect(seq![a, b]) == join(a, b),
    decreases a.len() + b.len(),
{
    let streams = seq![a, b];
    reveal_with_fuel(max_head, 3);
    reveal_with_fuel(min_head, 3);
    if a.len() == 0 || b.len() == 0 {
        if a.len() == 0 {
            assert(streams[0].len() == 0);
        } else {
            assert(streams[1].len() == 0);
        }
        assert(!all_nonempty(streams));
    } else {
        assert(all_nonempty(streams)) by {
            assert forall|i: int| 0 <= i < streams.len() implies (#[trigger] streams[i]).len()
                > 0 by {
                if i == 0 {
                } else {
                    assert(streams[i] == b);
                }
            }
        }
        if a[0] == b[0] {
            assert(advance_all(streams) =~= seq![a.skip(1), b.skip(1)]);
            lemma_intersect_two(a.skip(1), b.skip(1));
        } else if a[0] < b[0] {
            assert(advance_below(streams, b[0]) =~= seq![a.skip(1), b]);
            lemma_intersect_two(a.skip(1), b);
        } else {
            assert(advance_below(streams, a[0]) =~= seq![a, b.skip(1)]);
            lemma_intersect_two(a, b.skip(1));
        }
    }
}

/// What follows the first offset of an ascending stream is ascending.
pub proof fn lemma_ascending_skip(s: Seq<u64>)
    requires
        s.len() > 0,
    ensures
        ascending(s) ==> ascending(s.skip(1)),
        strictly_ascending(s) ==> strictly_ascending(s.skip(1)),
{
    if ascending(s) {
        assert forall|i: int, j: int| 0 <= i <= j < s.skip(1).len() implies s.skip(1)[i] <= s.skip(
            1,
        )[j] by {
            assert(s.skip(1)[i] == s[i + 1]);
            assert(s.skip(1)[j] == s[j + 1]);
        }
    }
    if strictly_ascending(s) {
        assert forall|i: int, j: int| 0 <= i < j < s.skip(1).len() implies s.skip(1)[i] < s.skip(
            1,
        )[j] by {
            assert(s.skip(1)[i] == s[i + 1]);
            assert(s.skip(1)[j] == s[j + 1]);
        }
    }
}

/// Every offset of the merge-join stands in both streams.
pub proof fn lemma_join_members(a: Seq<u64>, b: Seq<u64>, k: int) -> (at: (int, int))
    requires
        0 <= k < join(a, b).len(),
    ensures
        0 <= at.0 < a.len(),
        0 <= at.1 < b.len(),
        a[at.0] == join(a, b)[k],
        b[at.1] == join(a, b)[k],
    decreases a.len() + b.len(),
{
    if a[0] == b[0] {
        if k == 0 {
            (0, 0)
        } else {
            let inner = lemma_join_members(a.skip(1), b.skip(1), k - 1);
            (inner.0 + 1, inner.1 + 1)
        }
    } else if a[0] < b[0] {
        let inner = lemma_join_members(a.skip(1), b, k);
        (inner.0 + 1, inner.1)
    } else {
        let inner = lemma_join_members(a, b.skip(1), k);
        (inner.0, inner.1 + 1)
    }
}

/// The merge-join of ascending streams holds every offset as often as the
/// stream that holds it less often.
pub proof fn lemma_join_occurrences(a: Seq<u64>, b: Seq<u64>, v: u64)
    requires
        ascending(a),
        ascending(b),
    ensures
        occurrences(join(a, b), v) == if occurrences(a, v) <= occurrences(b, v) {
            occurrences(a, v)
        } else {
            occurrences(b, v)
        },
    decreases a.len() + b.len(),
{
    if a.len() == 0 || b.len() == 0 {
    } else {
        lemma_ascending_skip(a);
        lemma_ascending_skip(b);
        lemma_occurrences_skip(a, v);
        lemma_occurrences_skip(b, v);
        if a[0] == b[0] {
            lemma_join_occurrences(a.skip(1), b.skip(1), v);
            lemma_occurrences_skip(join(a, b), v);
            assert(join(a, b).skip(1) =~= join(a.skip(1), b.skip(1)));
        } else if a[0] < b[0] {
            lemma_join_occurrences(a.skip(1), b, v);
            if v == a[0] {
                lemma_absent_below_first(b, v);
            }
        } else {
            lemma_join_occurrences(a, b.skip(1), v);
            if v == b[0] {
                lemma_absent_below_first(a, v);
            }
        }
    }
}

/// An offset below the first of an ascending stream does not occur in it.
pub proof fn lemma_absent_below_first(s: Seq<u64>, v: u64)
    requires
        ascending(s),
        s.len() > 0,
        v < s[0],
    ensures
        occurrences(s, v) == 0,
{
    if occurrences(s, v) > 0 {
        let k = lemma_occurs_somewhere(s, v);
        assert(s[0] <= s[k]);
    }
}

/// The merge-join of ascending streams is ascending, and it holds no offset
/// twice where one of the streams holds none twice.
pub proof fn lemma_join_ascending(a: Seq<u64>, b: Seq<u64>)
    requires
        ascending(a),
        ascending(b),
    ensures
        ascending(join(a, b)),
        strictly_ascending(a) || strictly_ascending(b) ==> strictly_ascending(join(a, b)),
    decreases a.len() + b.len(),
{
    if a.len() == 0 || b.len() == 0 {
    } else {
        lemma_ascending_skip(a);
        lemma_ascending_skip(b);
        if a[0] == b[0] {
            let rest = join(a.skip(1), b.skip(1));
            let joined = join(a, b);
            lemma_join_ascending(a.skip(1), b.skip(1));
            assert forall|k: int| 0 <= k < rest.len() implies a[0] <= #[trigger] rest[k] && (
            strictly_ascending(a) || strictly_ascending(b) ==> a[0] < rest[k]) by {
                let at = lemma_join_members(a.skip(1), b.skip(1), k);
                assert(a.skip(1)[at.0] == a[at.0 + 1]);
                assert(b.skip(1)[at.1] == b[at.1 + 1]);
                assert(a[0] <= a[at.0 + 1]);
                assert(b[0] <= b[at.1 + 1]);
            }
            assert forall|i: int, j: int| 0 <= i <= j < joined.len() implies joined[i]
                <= joined[j] by {
                if i > 0 {
                    assert(joined[i] == rest[i - 1]);
                    assert(joined[j] == rest[j - 1]);
                } else if j > 0 {
                    assert(joined[j] == rest[j - 1]);
                }
            }
            if strictly_ascending(a) || strictly_ascending(b) {
                assert forall|i: int, j: int| 0 <= i < j < joined.len() implies joined[i]
                    < joined[j] by {
                    assert(joined[j] == rest[j - 1]);
                    if i > 0 {
                        assert(joined[i] == rest[i - 1]);
                    }
                }
            }
        } else if a[0] < b[0] {
            lemma_join_ascending(a.skip(1), b);
        } else {
            lemma_join_ascending(a, b.skip(1));
        }
    }
}

/// How often `v` occurs in that one of the first `n` streams that holds it
/// least often; zero for no streams.
pub open spec fn least_occurrences(streams: Seq<Seq<u64>>, v: u64, n: nat) -> nat
    decreases n,
{
    if n == 0 {
        0
    } else if n == 1 {
        occurrences(streams[0], v)
    } else if occurrences(streams[n - 1], v) < least_occurrences(streams, v, (n - 1) as nat) {
        occurrences(streams[n - 1], v)
    } else {
        least_occurrences(streams, v, (n - 1) as nat)
    }
}

/// The least number of occurrences is that of one of the streams, and no
/// stream has fewer.
pub proof fn lemma_least_occurrences(streams: Seq<Seq<u64>>, v: u64, n: nat)
    requires
        0 < n <= streams.len(),
    ensures
        forall|i: int|
            0 <= i < n ==> least_occurrences(streams, v, n) <= occurrences(#[trigger] streams[i], v),
        exists|i: int|
            0 <= i < n && occurrences(#[trigger] streams[i], v) == least_occurrences(streams, v, n),
    decreases n,
{
    if n > 1 {
        lemma_least_occurrences(streams, v, (n - 1) as nat);
        let at = choose|i: int|
            0 <= i < n - 1 && occurrences(#[trigger] streams[i], v) == least_occurrences(
                streams,
                v,
                (n - 1) as nat,
            );
        if occurrences(streams[n - 1], v) < least_occurrences(streams, v, (n - 1) as nat) {
            assert(occurrences(streams[n - 1], v) == least_occurrences(streams, v, n));
        } else {
            assert(occurrences(streams[at], v) == least_occurrences(streams, v, n));
        }
    } else {
        assert(occurrences(streams[0], v) == least_occurrences(streams, v, n));
    }
}

/// Streams that agree on how often they hold `v` agree on the least number
/// of its occurrences, up to what each of them has more than the other.
pub proof fn lemma_least_occurrences_shift(
    streams: Seq<Seq<u64>>,
    moved: Seq<Seq<u64>>,
    v: u64,
    extra: nat,
    n: nat,
)
    requires
        n <= streams.len(),
        streams.len() == moved.len(),
        forall|i: int|
            0 <= i < n ==> occurrences(#[trigger] streams[i], v) == occurrences(moved[i], v)
                + extra,
    ensures
        n > 0 ==> least_occurrences(streams, v, n) == least_occurrences(moved, v, n) + extra,
    decreases n,
{
    if n > 1 {
        lemma_least_occurrences_shift(streams, moved, v, extra, (n - 1) as nat);
        assert(occurrences(streams[n - 1], v) == occurrences(moved[n - 1], v) + extra);
    } else if n == 1 {
        assert(occurrences(streams[0], v) == occurrences(moved[0], v) + extra);
    }
}

/// The intersection of ascending streams holds every offset as often as
/// the stream that holds it least often.
pub proof fn lemma_intersect_occurrences(streams: Seq<Seq<u64>>, v: u64)
    requires
        forall|i: int| 0 <= i < streams.len() ==> ascending(#[trigger] streams[i]),
    ensures
        occurrences(intersect(streams), v) == least_occurrences(streams, v, streams.len()),
    decreases total_len(streams),
{
    let n = streams.len();
    if n == 0 {
    } else if !all_nonempty(streams) {
        let i = choose|i: int| 0 <= i < n && (#[trigger] streams[i]).len() == 0;
        lemma_least_occurrences(streams, v, n);
        assert(occurrences(streams[i], v) == 0);
    } else {
        let hi = max_head(streams, n);
        let lo = min_head(streams, n);
        lemma_head_bounds(streams, n);
        if lo == hi {
            let rest = advance_all(streams);
            lemma_advance_all_shrinks(streams);
            assert forall|i: int| 0 <= i < rest.len() implies ascending(#[trigger] rest[i]) by {
                assert(ascending(streams[i]));
                lemma_ascending_skip(streams[i]);
            }
            lemma_intersect_occurrences(rest, v);
            lemma_occurrences_skip(intersect(streams), v);
            assert(intersect(streams).skip(1) =~= intersect(rest));
            let extra: nat = if lo == v {
                1
            } else {
                0
            };
            assert forall|i: int| 0 <= i < n implies occurrences(#[trigger] streams[i], v)
                == occurrences(rest[i], v) + extra by {
                lemma_occurrences_skip(streams[i], v);
                assert(streams[i][0] == lo);
            }
            lemma_least_occurrences_shift(streams, rest, v, extra, n);
        } else {
            let rest = advance_below(streams, hi);
            lemma_advance_below_shrinks(streams);
            assert forall|i: int| 0 <= i < rest.len() implies ascending(#[trigger] rest[i]) by {
                assert(ascending(streams[i]));
                lemma_ascending_skip(streams[i]);
            }
            lemma_intersect_occurrences(rest, v);
            let top = choose|i: int| 0 <= i < n && (#[trigger] streams[i])[0] == hi;
            assert(rest[top] == streams[top]);
            if v < hi {
                lemma_absent_below_first(streams[top], v);
                lemma_least_occurrences(streams, v, n);
                lemma_least_occurrences(rest, v, n);
                assert(occurrences(rest[top], v) == 0);
            } else {
                assert forall|i: int| 0 <= i < n implies occurrences(#[trigger] streams[i], v)
                    == occurrences(rest[i], v) + 0 by {
                    if streams[i][0] < hi {
                        lemma_occurrences_skip(streams[i], v);
                    }
                }
                lemma_least_occurrences_shift(streams, rest, v, 0, n);
            }
        }
    }
}

/// Every offset of the intersection stands in every stream.
pub proof fn lemma_intersect_member(streams: Seq<Seq<u64>>, k: int, i: int) -> (at: int)
    requires
        0 <= k < intersect(streams).len(),
        0 <= i < streams.len(),
    ensures
        0 <= at < streams[i].len(),
        streams[i][at] == intersect(streams)[k],
    decreases total_len(streams),
{
    let n = streams.len();
    let hi = max_head(streams, n);
    let lo = min_head(streams, n);
    lemma_head_bounds(streams, n);
    if lo == hi {
        let rest = advance_all(streams);
        lemma_advance_all_shrinks(streams);
        if k == 0 {
            assert(streams[i][0] == lo);
            0
        } else {
            assert(intersect(streams)[k] == intersect(rest)[k - 1]);
            let inner = lemma_intersect_member(rest, k - 1, i);
            assert(rest[i][inner] == streams[i][inner + 1]);
            inner + 1
        }
    } else {
        let rest = advance_below(streams, hi);
        lemma_advance_below_shrinks(streams);
        let inner = lemma_intersect_member(rest, k, i);
        if streams[i][0] < hi {
            assert(rest[i][inner] == streams[i][inner + 1]);
            inner + 1
        } else {
            inner
        }
    }
}

/// The intersection of ascending streams is ascending.
pub proof fn lemma_intersect_ascending(streams: Seq<Seq<u64>>)
    requires
        forall|i: int| 0 <= i < streams.len() ==> ascending(#[trigger] streams[i]),
    ensures
        ascending(intersect(streams)),
    decreases total_len(streams),
{
    let n = streams.len();
    if n == 0 || !all_nonempty(streams) {
    } else {
        let hi = max_head(streams, n);
        let lo = min_head(streams, n);
        lemma_head_bounds(streams, n);
        if lo == hi {
            let rest = advance_all(streams);
            lemma_advance_all_shrinks(streams);
            assert forall|i: int| 0 <= i < rest.len() implies ascending(#[trigger] rest[i]) by {
                assert(ascending(streams[i]));
                lemma_ascending_skip(streams[i]);
            }
            lemma_intersect_ascending(rest);
            let out = intersect(streams);
            let tail = intersect(rest);
            assert forall|k: int| 0 <= k < tail.len() implies lo <= #[trigger] tail[k] by {
                let at = lemma_intersect_member(rest, k, 0);
                assert(rest[0][at] == streams[0][at + 1]);
                assert(ascending(streams[0]));
                assert(streams[0][0] <= streams[0][at + 1]);
            }
            assert forall|a: int, b: int| 0 <= a <= b < out.len() implies out[a] <= out[b] by {
                if a > 0 {
                    assert(out[a] == tail[a - 1]);
                    assert(out[b] == tail[b - 1]);
                } else if b > 0 {
                    assert(out[b] == tail[b - 1]);
                }
            }
        } else {
            let rest = advance_below(streams, hi);
            lemma_advance_below_shrinks(streams);
            assert forall|i: int| 0 <= i < rest.len() implies ascending(#[trigger] rest[i]) by {
                assert(ascending(streams[i]));
                lemma_ascending_skip(streams[i]);
            }
            lemma_intersect_ascending(rest);
        }
    }
}

/// The intersection of two readers: over the ascending outputs `a` and `b`,
/// `All` yields an ascending sequence of exactly the offsets that both
/// hold, each as often as the one that holds it less often. So it holds no
/// offset twice unless both `a` and `b` do.
pub proof fn lemma_all_is_intersection(a: Seq<u64>, b: Seq<u64>)
    requires
        ascending(a),
        ascending(b),
    ensures
        ascending(intersect(seq![a, b])),
        intersect(seq![a, b]).to_set() == a.to_set().intersect(b.to_set()),
        intersect(seq![a, b]).to_multiset() == a.to_multiset().intersection_with(b.to_multiset()),
        strictly_ascending(a) || strictly_ascending(b) ==> strictly_ascending(
            intersect(seq![a, b]),
        ),
{
    broadcast use vstd::multiset::group_multiset_axioms;

    let out = intersect(seq![a, b]);
    lemma_intersect_two(a, b);
    lemma_join_ascending(a, b);
    assert forall|v: u64|
        out.to_multiset().count(v) == a.to_multiset().intersection_with(b.to_multiset()).count(
            v,
        ) by {
        lemma_join_occurrences(a, b, v);
        lemma_occurrences_multiset(out, v);
        lemma_occurrences_multiset(a, v);
        lemma_occurrences_multiset(b, v);
        vstd::multiset::lemma_intersection_count(a.to_multiset(), b.to_multiset(), v);
    }
    assert(out.to_multiset() =~= a.to_multiset().intersection_with(b.to_multiset()));
    assert forall|v: u64| out.to_set().contains(v) <==> a.to_set().intersect(
        b.to_set(),
    ).contains(v) by {
        lemma_join_occurrences(a, b, v);
        if out.contains(v) {
            let k = choose|k: int| 0 <= k < out.len() && out[k] == v;
            lemma_occurs_at(out, k);
            let i = lemma_occurs_somewhere(a, v);
            let j = lemma_occurs_somewhere(b, v);
        }
        if a.contains(v) && b.contains(v) {
            let i = choose|i: int| 0 <= i < a.len() && a[i] == v;
            let j = choose|j: int| 0 <= j < b.len() && b[j] == v;
            lemma_occurs_at(a, i);
            lemma_occurs_at(b, j);
            let k = lemma_occurs_somewhere(out, v);
        }
    }
    assert(out.to_set() =~= a.to_set().intersect(b.to_set()));
}

/// Yields the offsets that all the readers below yield, as long as each of
/// them is ascending.
pub struct AllLinesReader {
    readers: Vec<LinesReader>,
    current: Vec<u64>,
}

impl AllLinesReader {
    /// Every reader below is consistent, and either each has its pulled
    /// offset in its slot or, once the reader is exhausted, there are no
    /// slots.
    pub closed spec fn wf(&self) -> bool
        decreases self,
    {
        &&& (self.current@.len() == 0 || self.current@.len() == self.readers@.len())
        &&& forall|i: int| 0 <= i < self.readers@.len() ==> (#[trigger] self.readers@[i]).wf()
    }

    /// What each reader below will still contribute: the offset in its slot,
    /// then what it will yield.
    pub closed spec fn streams(&self) -> Seq<Seq<u64>>
        decreases self, 0nat,
    {
        Seq::new(
            self.readers@.len(),
            |i: int|
                if 0 <= i < self.readers@.len() {
                    seq![self.current@[i]] + self.readers@[i].remaining()
                } else {
                    Seq::empty()
                },
        )
    }

    /// The offsets that the reader will still yield, in order.
    pub closed spec fn remaining(&self) -> Seq<u64>
        decreases self, 1nat,
    {
        if self.current@.len() == 0 {
            Seq::empty()
        } else {
            intersect(self.streams())
        }
    }

    /// Nesting depth of each reader below.
    pub closed spec fn child_depths(&self) -> Seq<nat>
        decreases self, 0nat,
    {
        Seq::new(
            self.readers@.len(),
            |i: int|
                if 0 <= i < self.readers@.len() {
                    self.readers@[i].depth()
                } else {
                    0
                },
        )
    }

    /// Nesting depth: one more than the deepest reader below.
    pub closed spec fn depth(&self) -> nat
        decreases self, 1nat,
    {
        1 + seq_max(self.child_depths())
    }

    /// The listing of the reader: `All:` behind `prefix`, then the listings of
    /// the readers below, each two spaces further in.
    pub closed spec fn listing(&self, prefix: Seq<char>) -> Seq<Seq<char>>
        decreases self, 1nat,
    {
        seq![prefix + "All:"@] + flatten(self.listings(prefix + "  "@))
    }

    /// The listing of each reader below.
    pub closed spec fn listings(&self, prefix: Seq<char>) -> Seq<Seq<Seq<char>>>
        decreases self, 0nat,
    {
        Seq::new(
            self.readers@.len(),
            |i: int|
                if 0 <= i < self.readers@.len() {
                    self.readers@[i].listing(prefix)
                } else {
                    Seq::empty()
                },
        )
    }

    /// Appends the listing of the reader to `out`, indented by two spaces
    /// for each level of `indent`.
    pub fn print_debug(&self, indent: usize, out: &mut Vec<String>)
        ensures
            crate::token::texts(final(out)@) == crate::token::texts(old(out)@) + self.listing(
                indentation(indent as nat),
            ),
    {
        let prefix = indent_text(indent);
        self.list(prefix.as_str(), out);
    }

    /// Appends the listing of the reader behind `prefix` to `out`.
    pub fn list(&self, prefix: &str, out: &mut Vec<String>)
        ensures
            crate::token::texts(final(out)@) == crate::token::texts(old(out)@) + self.listing(
                prefix@,
            ),
        decreases self,
    {
        let mut line = String::from_str(prefix);
        line.append("All:");
        out.push(line);
        let mut deeper = String::from_str(prefix);
        deeper.append("  ");
        let ghost parts = self.listings(deeper@);
        let ghost head = crate::token::texts(old(out)@) + seq![prefix@ + "All:"@];
        assert(crate::token::texts(out@) =~= head);
        assert(parts.take(0) =~= Seq::<Seq<Seq<char>>>::empty());
        let mut i: usize = 0;
        while i < self.readers.len()
            invariant
                i <= self.readers@.len(),
                parts == self.listings(deeper@),
                parts.len() == self.readers@.len(),
                crate::token::texts(out@) == head + flatten(parts.take(i as int)),
                forall|j: int|
                    0 <= j < self.readers@.len() ==> decreases_to!(self => #[trigger] self.readers@[j]),
            decreases self.readers@.len() - i,
        {
            self.readers[i].list(deeper.as_str(), out);
            proof {
                assert(parts.take(i + 1).drop_last() =~= parts.take(i as int));
                assert(parts.take(i + 1).last() == self.readers@[i as int].listing(deeper@));
                assert(crate::token::texts(out@) =~= head + flatten(parts.take(i + 1)));
            }
            i = i + 1;
        }
        proof {
            assert(parts.take(i as int) =~= parts);
            assert(crate::token::texts(out@) =~= crate::token::texts(old(out)@) + self.listing(
                prefix@,
            ));
        }
    }


    /// The readers that are intersected.
    pub closed spec fn children(&self) -> Seq<LinesReader> {
        self.readers@
    }

    /// One of the readers below was found exhausted: the reader yields
    /// nothing any more and pulls nothing any more.
    pub closed spec fn exhausted(&self) -> bool {
        self.current@.len() == 0
    }

    /// A reader that intersects `readers`. The first offset of each is pulled
    /// at once, in turn, up to the first reader that is exhausted: no reader
    /// gives more than its first offset.
    pub fn new(mut readers: Vec<LinesReader>) -> (reader: Self)
        requires
            forall|i: int| 0 <= i < readers@.len() ==> (#[trigger] readers@[i]).wf(),
        ensures
            reader.wf(),
            reader.remaining() == intersect(streams_of(readers@)),
            streams_of(reader.children()) == pulled_in_turn(streams_of(readers@)),
    {
        let ghost initial = readers@;
        let ghost streams = streams_of(readers@);
        let mut current: Vec<u64> = Vec::new();
        let n = readers.len();
        let mut i: usize = 0;
        while i < n
            invariant
                i <= n,
                n == readers@.len(),
                readers@ == initial,
                current@.len() == i,
            decreases n - i,
        {
            current.push(0);
            i = i + 1;
        }
        Self::read_all_next(&mut current, &mut readers);
        let reader = Self { readers, current };
        proof {
            assert(streams_of(reader.children()) == pulled_in_turn(streams));
            if reader.current@.len() == 0 {
                if n > 0 {
                    let j = choose|j: int|
                        0 <= j < n && (#[trigger] initial[j]).remaining().len() == 0;
                    assert(streams[j].len() == 0);
                    assert(!all_nonempty(streams));
                }
            } else {
                assert(reader.streams() =~= streams);
            }
        }
        reader
    }

    /// Pulls the next offset of every reader into its slot. Where a reader is
    /// exhausted, the slots are dropped and the readers after it are left
    /// alone.
    fn read_all_next(current: &mut Vec<u64>, readers: &mut Vec<LinesReader>)
        requires
            old(current)@.len() == old(readers)@.len(),
            forall|i: int| 0 <= i < old(readers)@.len() ==> (#[trigger] old(readers)@[i]).wf(),
        ensures
            final(readers)@.len() == old(readers)@.len(),
            forall|i: int| 0 <= i < final(readers)@.len() ==> (#[trigger] final(readers)@[i]).wf(),
            depths_of(final(readers)@) == depths_of(old(readers)@),
            final(current)@.len() == 0 || final(current)@.len() == old(readers)@.len(),
            final(current)@.len() == 0 ==> old(readers)@.len() == 0 || exists|i: int|
                0 <= i < old(readers)@.len() && (#[trigger] old(readers)@[i]).remaining().len()
                    == 0,
            final(current)@.len() != 0 ==> forall|i: int|
                0 <= i < old(readers)@.len() ==> (#[trigger] old(readers)@[i]).remaining()
                    == seq![final(current)@[i]] + final(readers)@[i].remaining(),
            streams_of(final(readers)@) == pulled_in_turn(streams_of(old(readers)@)),
        decreases 1 + seq_max(depths_of(old(readers)@)), 0nat,
    {
        let ghost streams = streams_of(old(readers)@);
        let n = readers.len();
        let mut i: usize = 0;
        while i < n
            invariant
                i <= n,
                n == readers@.len(),
                n == old(readers)@.len(),
                current@.len() == n,
                streams == streams_of(old(readers)@),
                first_empty(streams, 0) == first_empty(streams, i as int),
                forall|j: int|
                    0 <= j < i ==> (#[trigger] readers@[j]).remaining() == streams[j].skip(1),
                forall|j: int| 0 <= j < n ==> (#[trigger] readers@[j]).wf(),
                forall|j: int|
                    0 <= j < n ==> (#[trigger] readers@[j]).depth() == old(readers)@[j].depth(),
                forall|j: int| i <= j < n ==> (#[trigger] readers@[j]) == old(readers)@[j],
                forall|j: int|
                    0 <= j < i ==> (#[trigger] old(readers)@[j]).remaining() == seq![current@[j]]
                        + readers@[j].remaining(),
            decreases n - i,
        {
            proof {
                lemma_seq_max_bounds(depths_of(old(readers)@), i as int);
            }
            match readers[i].next() {
                Some(offset) => {
                    current[i] = offset;
                    assert(old(readers)@[i as int].remaining() =~= seq![offset]
                        + readers@[i as int].remaining());
                    assert(streams[i as int] == old(readers)@[i as int].remaining());
                },
                None => {
                    *current = Vec::new();
                    proof {
                        assert(depths_of(readers@) =~= depths_of(old(readers)@));
                        assert(streams[i as int] == old(readers)@[i as int].remaining());
                        let left = pulled_in_turn(streams);
                        assert forall|j: int| 0 <= j < n implies #[trigger] streams_of(
                            readers@,
                        )[j] == left[j] by {
                            if j == i {
                                assert(readers@[j].remaining() =~= streams[j]);
                            } else if j > i {
                                assert(readers@[j] == old(readers)@[j]);
                            }
                        }
                        assert(streams_of(readers@) =~= left);
                    }
                    return ;
                },
            }
            i = i + 1;
        }
        proof {
            assert(depths_of(readers@) =~= depths_of(old(readers)@));
            assert(streams_of(readers@) =~= pulled_in_turn(streams));
        }
    }

    /// The depth of the reader is one more than that of the deepest reader
    /// below.
    proof fn lemma_child_depths(&self)
        ensures
            self.child_depths() == depths_of(self.readers@),
            self.depth() == 1 + seq_max(depths_of(self.readers@)),
    {
        assert(self.child_depths() =~= depths_of(self.readers@));
    }

    /// Yields the next offset that all readers below hold, or `None` once
    /// one of them is exhausted. A reader below gives an offset only where
    /// the offset in its slot is below the largest, or was yielded.
    pub fn next(&mut self) -> (r: Option<u64>)
        requires
            old(self).wf(),
        ensures
            final(self).wf(),
            final(self).depth() == old(self).depth(),
            match r {
                Some(offset) => {
                    &&& old(self).remaining().len() > 0
                    &&& offset == old(self).remaining()[0]
                    &&& final(self).remaining() == old(self).remaining().skip(1)
                },
                None => old(self).remaining().len() == 0 && final(self).remaining().len() == 0,
            },
            final(self).children().len() == old(self).children().len(),
            streams_of(final(self).children()) == if old(self).exhausted() {
                streams_of(old(self).children())
            } else {
                left_after_next(old(self).streams())
            },
        decreases old(self).depth(), 1nat,
    {
        if self.current.len() == 0 {
            return None;
        }
        let n = self.current.len();
        proof {
            old(self).lemma_child_depths();
        }
        loop
            invariant
                self.wf(),
                n == self.current@.len(),
                n == self.readers@.len(),
                n > 0,
                !old(self).exhausted(),
                left_after_next(self.streams()) == left_after_next(old(self).streams()),
                self.remaining() == old(self).remaining(),
                depths_of(self.readers@) == depths_of(old(self).readers@),
                old(self).depth() == 1 + seq_max(depths_of(old(self).readers@)),
            decreases total_len(self.streams()),
        {
            let ghost streams = self.streams();
            assert(all_nonempty(streams));
            let mut max = self.current[0];
            let mut min = max;
            let mut k: usize = 1;
            proof {
                reveal_with_fuel(max_head, 2);
                reveal_with_fuel(min_head, 2);
            }
            while k < n
                invariant
                    1 <= k <= n,
                    n == self.current@.len(),
                    n == self.readers@.len(),
                    streams == self.streams(),
                    max == max_head(streams, k as nat),
                    min == min_head(streams, k as nat),
                decreases n - k,
            {
                let offset = self.current[k];
                if offset > max {
                    max = offset;
                }
                if offset < min {
                    min = offset;
                }
                k = k + 1;
            }
            if min == max {
                let ghost before = *self;
                Self::read_all_next(&mut self.current, &mut self.readers);
                proof {
                    self.lemma_child_depths();
                    let rest = advance_all(streams);
                    assert(old(self).remaining() =~= seq![min] + intersect(rest));
                    assert(old(self).remaining().skip(1) =~= intersect(rest));
                    assert forall|j: int| 0 <= j < n implies #[trigger] rest[j]
                        == before.readers@[j].remaining() by {
                        assert(streams[j] == seq![before.current@[j]]
                            + before.readers@[j].remaining());
                        assert(rest[j] =~= before.readers@[j].remaining());
                    }
                    if self.current@.len() == 0 {
                        let j = choose|j: int|
                            0 <= j < n && (#[trigger] before.readers@[j]).remaining().len() == 0;
                        assert(rest[j].len() == 0);
                        assert(!all_nonempty(rest));
                    } else {
                        assert(self.streams() =~= rest);
                    }
                    assert(streams_of(before.readers@) =~= rest);
                    assert(left_after_next(streams) == pulled_in_turn(rest));
                }
                return Some(min);
            }
            let ghost rest = advance_below(streams, max);
            proof {
                lemma_advance_below_shrinks(streams);
                assert forall|j: int| 0 <= j < n implies (#[trigger] self.readers@[j]).remaining()
                    == streams[j].skip(1) by {
                    assert(streams[j] == seq![self.current@[j]] + self.readers@[j].remaining());
                    assert(streams[j].skip(1) =~= self.readers@[j].remaining());
                }
            }
            let mut i: usize = 0;
            while i < n
                invariant
                    i <= n,
                    n == self.current@.len(),
                    n == self.readers@.len(),
                    n == streams.len(),
                    self.wf(),
                    all_nonempty(streams),
                    rest == advance_below(streams, max),
                    depths_of(self.readers@) == depths_of(old(self).readers@),
                    old(self).depth() == 1 + seq_max(depths_of(old(self).readers@)),
                    forall|j: int| 0 <= j < i ==> (#[trigger] self.streams()[j]) == rest[j],
                    forall|j: int| i <= j < n ==> (#[trigger] self.streams()[j]) == streams[j],
                    intersect(streams) == old(self).remaining(),
                    intersect(streams) == intersect(rest),
                    max == max_head(streams, n as nat),
                    min_head(streams, n as nat) != max,
                    !old(self).exhausted(),
                    left_after_next(streams) == left_after_next(old(self).streams()),
                    first_stuck(streams, max, 0) == first_stuck(streams, max, i as int),
                    forall|j: int|
                        0 <= j < i ==> (#[trigger] self.readers@[j]).remaining() == rest[j].skip(1),
                    forall|j: int|
                        i <= j < n ==> (#[trigger] self.readers@[j]).remaining()
                            == streams[j].skip(1),
                decreases n - i,
            {
                let ghost before = *self;
                proof {
                    assert(before.streams()[i as int] == streams[i as int]);
                    assert(streams[i as int] == seq![before.current@[i as int]]
                        + before.readers@[i as int].remaining());
                    assert(streams[i as int][0] == before.current@[i as int]);
                }
                if self.current[i] < max {
                    proof {
                        lemma_seq_max_bounds(depths_of(self.readers@), i as int);
                        assert(rest[i as int] == streams[i as int].skip(1));
                        assert(streams[i as int].skip(1) =~= before.readers@[i as int].remaining());
                    }
                    match self.readers[i].next() {
                        Some(offset) => {
                            self.current[i] = offset;
                            proof {
                                assert(depths_of(self.readers@) =~= depths_of(old(self).readers@));
                                assert(self.streams()[i as int] =~= rest[i as int]);
                                assert(self.readers@[i as int].remaining() =~= rest[i as int].skip(
                                    1,
                                ));
                                assert forall|j: int| 0 <= j < n && j != i implies
                                    #[trigger] self.readers@[j] == before.readers@[j] by {}
                                assert forall|j: int| 0 <= j < n && j != i implies
                                    #[trigger] self.streams()[j] == before.streams()[j] by {
                                    assert(self.readers@[j] == before.readers@[j]);
                                    assert(self.current@[j] == before.current@[j]);
                                }
                            }
                        },
                        None => {
                            self.current = Vec::new();
                            proof {
                                assert(depths_of(self.readers@) =~= depths_of(old(self).readers@));
                                self.lemma_child_depths();
                                assert(rest[i as int].len() == 0);
                                assert(!all_nonempty(rest));
                                assert(streams[i as int].len() == 1);
                                assert(first_stuck(streams, max, 0) == i);
                                let left = left_after_next(streams);
                                assert forall|j: int| 0 <= j < n implies #[trigger] streams_of(
                                    self.readers@,
                                )[j] == left[j] by {
                                    if j < i {
                                        assert(self.readers@[j] == before.readers@[j]);
                                        assert(before.readers@[j].remaining() == rest[j].skip(1));
                                    } else if j == i {
                                        assert(self.readers@[j].remaining() =~= streams[j].skip(1));
                                    } else {
                                        assert(self.readers@[j] == before.readers@[j]);
                                        assert(before.readers@[j].remaining() == streams[j].skip(
                                            1,
                                        ));
                                    }
                                }
                                assert(streams_of(self.readers@) =~= left);
                            }
                            return None;
                        },
                    }
                } else {
                    assert(rest[i as int] == streams[i as int]);
                }
                i = i + 1;
            }
            proof {
                assert(self.streams() =~= rest);
                assert(left_after_next(streams) == left_after_next(rest));
            }
        }
    }
}

} // verus!
