//! The window on the results of a query: the first results, the last
//! results, or both.

use std::collections::VecDeque;
use vstd::prelude::*;

verus! {

/// How many of `results` the head of the window takes.
pub open spec fn head_len(head: usize, results: Seq<u64>) -> int {
    if head as int <= results.len() {
        head as int
    } else {
        results.len() as int
    }
}

/// The last `tail` items of `results`, or all of them where there are
/// fewer.
pub open spec fn last_of(results: Seq<u64>, tail: usize) -> Seq<u64> {
    if results.len() <= tail {
        results
    } else {
        results.skip(results.len() - tail)
    }
}

/// What a window with `head` and `tail` shows of `results`; zero stands for
/// no limit. Without limits everything is shown. With `head` the first
/// `head` results are shown, with `tail` the last `tail`, and with both the
/// first `head` and, of what follows them, the last `tail`.
pub open spec fn shown(head: usize, tail: usize, results: Seq<u64>) -> Seq<u64> {
    if head == 0 && tail == 0 {
        results
    } else if tail == 0 {
        results.take(head_len(head, results))
    } else {
        results.take(head_len(head, results)) + last_of(
            results.skip(head_len(head, results)),
            tail,
        )
    }
}

/// What to do with a result that was offered to the window.
pub struct Step {
    /// The result is to be shown now.
    pub show: bool,
    /// No further result will be shown: the search can stop.
    pub done: bool,
}

/// Decides, result by result, what a query shows.
pub struct Window {
    head: usize,
    tail: usize,
    processed: usize,
    tail_lines: VecDeque<u64>,
    seen: Ghost<Seq<u64>>,
    printed: Ghost<Seq<u64>>,
}

impl Window {
    /// The counters and the kept results agree with what was offered.
    pub closed spec fn wf(&self) -> bool {
        let seen = self.seen@;
        let first = head_len(self.head, seen);
        &&& self.processed == first
        &&& self.tail == 0 && self.head > 0 ==> seen.len() <= self.head
        &&& self.printed@ == if self.head == 0 && self.tail == 0 {
            seen
        } else {
            seen.take(first)
        }
        &&& self.tail_lines@ == if self.tail == 0 {
            Seq::empty()
        } else {
            last_of(seen.skip(first), self.tail)
        }
    }

    /// The limit on the first results; zero for none.
    pub closed spec fn head(&self) -> usize {
        self.head
    }

    /// The limit on the last results; zero for none.
    pub closed spec fn tail(&self) -> usize {
        self.tail
    }

    /// The results offered so far, but for those offered after the window
    /// was done.
    pub closed spec fn seen(&self) -> Seq<u64> {
        self.seen@
    }

    /// The results that were to be shown when they were offered.
    pub closed spec fn printed(&self) -> Seq<u64> {
        self.printed@
    }

    /// Nothing that may still be offered will be shown.
    pub open spec fn is_done(&self) -> bool {
        self.tail() == 0 && self.head() > 0 && self.seen().len() >= self.head()
    }

    /// A window that has seen nothing.
    pub fn new(head: usize, tail: usize) -> (window: Self)
        ensures
            window.wf(),
            window.head() == head,
            window.tail() == tail,
            window.seen() == Seq::<u64>::empty(),
            window.printed() == Seq::<u64>::empty(),
    {
        let window = Window {
            head,
            tail,
            processed: 0,
            tail_lines: VecDeque::new(),
            seen: Ghost(Seq::empty()),
            printed: Ghost(Seq::empty()),
        };
        assert(window.seen@.take(0) =~= Seq::<u64>::empty());
        assert(window.seen@.skip(0) =~= Seq::<u64>::empty());
        window
    }

    /// Offers the next result of the query. A result that is offered to a
    /// window that is done is passed over.
    pub fn offer(&mut self, line_offset: u64) -> (step: Step)
        requires
            old(self).wf(),
        ensures
            final(self).wf(),
            final(self).head() == old(self).head(),
            final(self).tail() == old(self).tail(),
            final(self).seen() == if old(self).is_done() {
                old(self).seen()
            } else {
                old(self).seen().push(line_offset)
            },
            final(self).printed() == if step.show {
                old(self).printed().push(line_offset)
            } else {
                old(self).printed()
            },
            step.done == final(self).is_done(),
    {
        let head_requested = self.head > 0;
        let tail_requested = self.tail > 0;
        if !tail_requested && head_requested && self.processed >= self.head {
            return Step { show: false, done: true };
        }
        let ghost seen = self.seen@;
        let ghost longer = seen.push(line_offset);
        let ghost first = head_len(self.head, seen);
        let show = head_requested && self.processed < self.head || !tail_requested;
        if tail_requested && (!head_requested || self.processed >= self.head) {
            self.tail_lines.push_back(line_offset);
            if self.tail_lines.len() > self.tail {
                self.tail_lines.pop_front();
            }
            proof {
                assert(head_len(self.head, longer) == first);
                assert(longer.skip(first) =~= seen.skip(first).push(line_offset));
                assert(self.tail_lines@ =~= last_of(longer.skip(first), self.tail));
            }
        } else {
            proof {
                if tail_requested {
                    assert(head_len(self.head, longer) == first + 1);
                    assert(longer.skip(first + 1) =~= Seq::<u64>::empty());
                    assert(seen.skip(first) =~= Seq::<u64>::empty());
                }
            }
        }
        if self.processed < self.head {
            self.processed = self.processed + 1;
        }
        proof {
            self.seen = Ghost(longer);
            if show {
                self.printed = Ghost(self.printed@.push(line_offset));
            }
            let after = head_len(self.head, longer);
            if self.head == 0 && self.tail == 0 {
            } else if show {
                assert(longer.take(after) =~= seen.take(first).push(line_offset));
            } else {
                assert(longer.take(after) =~= seen.take(first));
            }
        }
        Step { show, done: !tail_requested && head_requested && self.processed >= self.head }
    }

    /// Ends the query and returns the results that are to be shown at the
    /// end: with what was shown before, they are what the window shows of
    /// all that was offered.
    pub fn finish(self) -> (last: Vec<u64>)
        requires
            self.wf(),
        ensures
            self.printed() + last@ == shown(self.head(), self.tail(), self.seen()),
    {
        let mut last: Vec<u64> = Vec::new();
        let mut i: usize = 0;
        while i < self.tail_lines.len()
            invariant
                i <= self.tail_lines@.len(),
                last@ == self.tail_lines@.take(i as int),
            decreases self.tail_lines@.len() - i,
        {
            last.push(self.tail_lines[i]);
            i = i + 1;
            assert(last@ =~= self.tail_lines@.take(i as int));
        }
        proof {
            assert(self.tail_lines@.take(i as int) =~= self.tail_lines@);
            assert(self.printed() + last@ =~= shown(self.head(), self.tail(), self.seen()));
        }
        last
    }
}

} // verus!
