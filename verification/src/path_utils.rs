//! The rules by which log files are picked among the files of a
//! directory, and by which the logs of an archive are named.

use crate::text::{
    chars_contain, chars_end_with, chars_to_string, contains_text, ends_with, lower_chars,
    unicode_lowercase,
};
use crate::token::to_chars;
use vstd::prelude::*;
use vstd::string::StringExecFns;

verus! {

/// How a file of logs is packed.
#[derive(Debug, Clone, Copy, PartialEq, Eq, Structural)]
pub enum Archive {
    /// A tar archive compressed with gzip.
    Gz,
    /// A tar archive compressed with xz.
    Xz,
}

/// `path` without `suffix`, or `None` where it does not end with it.
pub open spec fn stripped(path: Seq<char>, suffix: Seq<char>) -> Option<Seq<char>> {
    if ends_with(path, suffix) {
        Some(path.take(path.len() - suffix.len()))
    } else {
        None
    }
}

/// `path` without `suffix`, or `None` where it does not end with it.
pub fn strip_suffix(path: &str, suffix: &str) -> (r: Option<String>)
    ensures
        match r {
            Some(base) => stripped(path@, suffix@) == Some(base@),
            None => stripped(path@, suffix@).is_none(),
        },
{
    let chars = to_chars(path);
    let tail = to_chars(suffix);
    if chars_end_with(&chars, &tail) {
        let base = chars_to_string(&chars, 0, chars.len() - tail.len());
        assert(base@ =~= path@.take(path@.len() - suffix@.len()));
        Some(base)
    } else {
        None
    }
}

/// The archive that `path` names, with the path without the ending of the
/// archive: `.tar.gz` is tried first, then `.tar.xz`. `None` for a plain
/// log.
pub open spec fn archive_of(path: Seq<char>) -> Option<(Seq<char>, Archive)> {
    match stripped(path, ".tar.gz"@) {
        Some(base) => Some((base, Archive::Gz)),
        None => match stripped(path, ".tar.xz"@) {
            Some(base) => Some((base, Archive::Xz)),
            None => None,
        },
    }
}

/// Tells a packed file of logs from a plain log by the ending of its path.
pub fn archive_kind(path: &str) -> (r: Option<(String, Archive)>)
    ensures
        match r {
            Some((base, kind)) => archive_of(path@) == Some((base@, kind)),
            None => archive_of(path@).is_none(),
        },
{
    if let Some(base) = strip_suffix(path, ".tar.gz") {
        Some((base, Archive::Gz))
    } else if let Some(base) = strip_suffix(path, ".tar.xz") {
        Some((base, Archive::Xz))
    } else {
        None
    }
}

/// An entry of an archive is a log where its name holds `.log`.
pub open spec fn log_entry(file_name: Seq<char>) -> bool {
    contains_text(file_name, ".log"@)
}

/// Whether the entry `file_name` of an archive is a log.
pub fn is_log_entry(file_name: &str) -> (r: bool)
    ensures
        r == log_entry(file_name@),
{
    let name = to_chars(file_name);
    let mark = to_chars(".log");
    chars_contain(&name, &mark)
}

/// The path to which the log `file_name` of an archive is extracted: the
/// path of the archive without its ending, a hyphen, and the name.
pub open spec fn extracted_name(base: Seq<char>, file_name: Seq<char>) -> Seq<char> {
    base + "-"@ + file_name
}

/// The path to which the log `file_name` of the archive with the base path
/// `base` is extracted.
pub fn extracted_path(base: &str, file_name: &str) -> (path: String)
    ensures
        path@ == extracted_name(base@, file_name@),
{
    let mut path = String::from_str(base);
    path.append("-");
    path.append(file_name);
    path
}

/// Whether a file named `file_name` is picked: in lower case, the name
/// holds one of `patterns` in lower case, and does not end with `.ix`.
pub open spec fn picked(file_name: Seq<char>, patterns: Seq<Seq<char>>) -> bool {
    &&& !ends_with(unicode_lowercase(file_name), ".ix"@)
    &&& exists|i: int|
        0 <= i < patterns.len() && contains_text(
            unicode_lowercase(file_name),
            unicode_lowercase(#[trigger] patterns[i]),
        )
}

/// The texts of `patterns`.
pub open spec fn pattern_texts(patterns: Seq<String>) -> Seq<Seq<char>> {
    patterns.map_values(|pattern: String| pattern@)
}

/// Whether a file named `file_name` is picked as a file of logs.
pub fn is_candidate_name(file_name: &str, patterns: &Vec<String>) -> (r: bool)
    ensures
        r == picked(file_name@, pattern_texts(patterns@)),
{
    let name = lower_chars(file_name);
    let index_ending = to_chars(".ix");
    if chars_end_with(&name, &index_ending) {
        return false;
    }
    let mut i: usize = 0;
    while i < patterns.len()
        invariant
            i <= patterns@.len(),
            name@ == unicode_lowercase(file_name@),
            !ends_with(name@, ".ix"@),
            forall|j: int|
                0 <= j < i ==> !contains_text(
                    name@,
                    unicode_lowercase(#[trigger] pattern_texts(patterns@)[j]),
                ),
        decreases patterns@.len() - i,
    {
        let pattern = lower_chars(patterns[i].as_str());
        assert(pattern_texts(patterns@)[i as int] == patterns@[i as int]@);
        if chars_contain(&name, &pattern) {
            assert(contains_text(
                unicode_lowercase(file_name@),
                unicode_lowercase(pattern_texts(patterns@)[i as int]),
            ));
            return true;
        }
        i = i + 1;
    }
    false
}

} // verus!
