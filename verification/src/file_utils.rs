//! A line of a log with the lines around it, and the search for the lines
//! that precede a position.

use crate::query::{order_end, parse_words, Query};
use crate::text::{trim_end, trim_end_of};
use crate::token::{texts, tokens_of};
use vstd::prelude::*;

verus! {

/// The byte that ends a line.
pub const NEWLINE: u8 = 10;

/// Number of bytes that are read at once when lines are sought backwards.
pub const CHUNK_LEN: u64 = 1024;

/// A line of a log with its context, each without its line end.
pub struct LogLine {
    /// The line that was asked for.
    pub line: String,
    /// The lines before it, in the order of the log.
    pub before: Vec<String>,
    /// The lines after it, in the order of the log.
    pub after: Vec<String>,
}

/// Each of `lines` without the white space at its end.
pub open spec fn trimmed_lines(lines: Seq<Seq<char>>) -> Seq<Seq<char>> {
    lines.map_values(|line: Seq<char>| trim_end_of(line))
}

impl LogLine {
    /// Whether the line `target_line` is to be shown: where the order of
    /// the words counts, the words of `check_order` must occur in the line
    /// in the order in which the query names them.
    pub fn in_order(target_line: &str, check_order: Option<&Query>) -> (r: bool)
        ensures
            r == match check_order {
                Some(query) => order_end(query@, tokens_of(target_line@), 0).is_some(),
                None => true,
            },
    {
        match check_order {
            Some(query) => query.check_words_order(&parse_words(target_line)),
            None => true,
        }
    }

    /// The line `target_line` with the lines before and after it, each as
    /// it was read and now without the white space at its end.
    pub fn read(target_line: &str, lines_before: &Vec<String>, lines_after: &Vec<String>) -> (line:
        LogLine)
        ensures
            line.line@ == trim_end_of(target_line@),
            line.line@.is_prefix_of(target_line@),
            texts(line.before@) == trimmed_lines(texts(lines_before@)),
            texts(line.after@) == trimmed_lines(texts(lines_after@)),
    {
        LogLine {
            line: trim_end(target_line),
            before: trim_lines(lines_before),
            after: trim_lines(lines_after),
        }
    }
}

/// Each of `lines` without the white space at its end.
fn trim_lines(lines: &Vec<String>) -> (trimmed: Vec<String>)
    ensures
        texts(trimmed@) == trimmed_lines(texts(lines@)),
{
    let mut trimmed: Vec<String> = Vec::new();
    let mut i: usize = 0;
    while i < lines.len()
        invariant
            i <= lines@.len(),
            texts(trimmed@) == trimmed_lines(texts(lines@)).take(i as int),
        decreases lines@.len() - i,
    {
        let ghost earlier = trimmed@;
        let line = trim_end(lines[i].as_str());
        trimmed.push(line);
        i = i + 1;
        assert(texts(trimmed@) =~= texts(earlier).push(line@));
        assert(texts(trimmed@) =~= trimmed_lines(texts(lines@)).take(i as int));
    }
    assert(trimmed_lines(texts(lines@)).take(i as int) =~= trimmed_lines(texts(lines@)));
    trimmed
}

/// The starts of lines that the first `n` bytes of a chunk show, last
/// first. The chunk was read at position `chunk_pos` of the log; a line
/// starts after each newline and at the start of the log, and only starts
/// before `offset` count.
pub open spec fn starts_in(chunk: Seq<u8>, chunk_pos: u64, offset: u64, n: nat) -> Seq<u64>
    decreases n,
{
    if n == 0 {
        if chunk_pos == 0 && 0 < offset {
            seq![0u64]
        } else {
            Seq::empty()
        }
    } else if chunk[n - 1] == NEWLINE && chunk_pos + n < offset {
        seq![(chunk_pos + n) as u64] + starts_in(chunk, chunk_pos, offset, (n - 1) as nat)
    } else {
        starts_in(chunk, chunk_pos, offset, (n - 1) as nat)
    }
}

/// The first `wanted` items of `starts`, or all of them where there are
/// fewer.
pub open spec fn first_of(starts: Seq<u64>, wanted: usize) -> Seq<u64> {
    if starts.len() <= wanted {
        starts
    } else {
        starts.take(wanted as int)
    }
}

/// The position and length of the chunk to read next when lines are sought
/// backwards from `pos`: up to 1024 bytes that end at `pos`.
pub fn chunk_before(pos: u64) -> (chunk: (u64, u64))
    ensures
        chunk.1 == if pos < CHUNK_LEN {
            pos
        } else {
            CHUNK_LEN
        },
        chunk.0 == pos - chunk.1,
{
    let step = if pos < CHUNK_LEN {
        pos
    } else {
        CHUNK_LEN
    };
    (pos - step, step)
}

/// The starts of up to `wanted` lines before `offset` that the chunk read
/// at position `chunk_pos` shows, the nearest to `offset` first.
pub fn line_starts_before(chunk: &[u8], chunk_pos: u64, offset: u64, wanted: usize) -> (starts: Vec<
    u64,
>)
    requires
        chunk_pos + chunk@.len() <= u64::MAX,
    ensures
        starts@ == first_of(starts_in(chunk@, chunk_pos, offset, chunk@.len()), wanted),
{
    let mut starts: Vec<u64> = Vec::new();
    let len = chunk.len();
    let mut n: usize = len;
    while n > 0 && starts.len() < wanted
        invariant
            n <= len,
            len == chunk@.len(),
            chunk_pos + len <= u64::MAX,
            starts@.len() <= wanted,
            starts_in(chunk@, chunk_pos, offset, len as nat) == starts@ + starts_in(
                chunk@,
                chunk_pos,
                offset,
                n as nat,
            ),
        decreases n,
    {
        if chunk[n - 1] == NEWLINE {
            let line_start = chunk_pos + n as u64;
            if line_start < offset {
                starts.push(line_start);
                assert(starts_in(chunk@, chunk_pos, offset, len as nat) =~= starts@ + starts_in(
                    chunk@,
                    chunk_pos,
                    offset,
                    (n - 1) as nat,
                ));
            }
        }
        n = n - 1;
    }
    if n == 0 && starts.len() < wanted && chunk_pos == 0 && 0 < offset {
        starts.push(0);
    }
    proof {
        let all = starts_in(chunk@, chunk_pos, offset, len as nat);
        if starts@.len() < wanted || n == 0 {
            assert(all =~= starts@ || all.take(wanted as int) =~= starts@);
        } else {
            assert(starts@ =~= all.take(wanted as int));
        }
    }
    starts
}

} // verus!
