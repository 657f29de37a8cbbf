//! The severity of a message forwarded from the front end.
use vstd::prelude::*;
use crate::text::{lower_of, lowercase, to_chars};

verus! {

/// The severity of a log message.
#[derive(PartialEq, Eq, Structural, Clone, Copy, Debug)]
pub enum LogLevel {
    Error,
    Warn,
    Info,
    Debug,
    Trace,
}

/// The severity that a lower-cased level name denotes; `info` for an
/// unknown name.
pub open spec fn level_of_lowered(l: Seq<char>) -> LogLevel {
    if l == seq!['e', 'r', 'r', 'o', 'r'] {
        LogLevel::Error
    } else if l == seq!['w', 'a', 'r', 'n'] || l == seq!['w', 'a', 'r', 'n', 'i', 'n', 'g'] {
        LogLevel::Warn
    } else if l == seq!['d', 'e', 'b', 'u', 'g'] {
        LogLevel::Debug
    } else if l == seq!['t', 'r', 'a', 'c', 'e'] {
        LogLevel::Trace
    } else {
        LogLevel::Info
    }
}

fn same_chars(a: &Vec<char>, b: &Vec<char>) -> (r: bool)
    ensures
        r == (a@ == b@),
{
    if a.len() != b.len() {
        return false;
    }
    let mut i: usize = 0;
    while i < a.len()
        invariant
            a.len() == b.len(),
            i <= a.len(),
            forall|j: int| 0 <= j < i ==> a@[j] == b@[j],
        decreases a.len() - i,
    {
        if a[i] != b[i] {
            return false;
        }
        i = i + 1;
    }
    assert(a@ =~= b@);
    true
}

/// The severity that the lower-cased level name `lowered` denotes.
pub fn level_from_lowered(lowered: &str) -> (r: LogLevel)
    ensures
        r == level_of_lowered(lowered@),
{
    let l = to_chars(lowered);
    if same_chars(&l, &vec!['e', 'r', 'r', 'o', 'r']) {
        LogLevel::Error
    } else if same_chars(&l, &vec!['w', 'a', 'r', 'n']) || same_chars(
        &l,
        &vec!['w', 'a', 'r', 'n', 'i', 'n', 'g'],
    ) {
        LogLevel::Warn
    } else if same_chars(&l, &vec!['d', 'e', 'b', 'u', 'g']) {
        LogLevel::Debug
    } else if same_chars(&l, &vec!['t', 'r', 'a', 'c', 'e']) {
        LogLevel::Trace
    } else {
        LogLevel::Info
    }
}

/// The severity that the level name `level` denotes, ignoring case.
pub fn log_level(level: &str) -> (r: LogLevel)
    ensures
        r == level_of_lowered(lower_of(level@)),
{
    let lowered = lowercase(level);
    level_from_lowered(lowered.as_str())
}

} // verus!
