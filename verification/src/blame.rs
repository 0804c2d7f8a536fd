//! Who last committed the line the cursor is on, one line at a time: the
//! committed file's blame indexed through the diff that traces a buffer line
//! back to the line the commit holds.

use crate::authorship::{traced_line, traced_through};
use crate::hunks::{context_lines, hunk_lines};
use vstd::prelude::*;

verus! {

/// Who last committed one line of the file as the commit holds it, and when.
#[derive(Debug, Clone, PartialEq, Eq)]
pub struct Authored {
    pub author: String,
    /// The authored date, `YYYY-MM-DD`, as the edge formatted it.
    pub date: String,
}

/// What the editor's border says about the cursor's line.
#[derive(Debug, Clone, PartialEq, Eq)]
pub enum Authorship {
    Committed(Authored),
    /// A line the working tree has changed, and every line of a file the
    /// commit has no copy of.
    NotCommittedYet,
}

/// The line of the file as the commit holds it that a buffer line came from,
/// or `None` for a line the commit does not hold — and for every line where
/// the two could not be diffed.
pub fn committed_line(committed: &str, shown: &str, line: usize) -> (r: Option<usize>)
    ensures
        r == (match hunk_lines(committed@, shown@) {
            Some(lines) => traced_line(lines, line as int),
            None => None,
        }),
{
    match context_lines(committed, shown) {
        Some(lines) => traced_through(&lines, line),
        None => None,
    }
}


fn copy_authored(a: &Authored) -> (copy: Authored)
    ensures
        copy == *a,
{
    Authored { author: a.author.clone(), date: a.date.clone() }
}

/// The authorship of buffer line `line` of `shown`, traced back through the
/// diff against `committed` (empty for a file the commit has no copy of) to
/// the line the blame, `authors`, names: who wrote it, or that it is not
/// committed yet.
pub fn at_cursor(line: usize, committed: &str, shown: &str, authors: &[Authored]) -> (said: Option<Authorship>)
    ensures
        said == Some(match (match hunk_lines(committed@, shown@) {
            Some(lines) => traced_line(lines, line as int),
            None => None,
        }) {
            Some(a) => if 1 <= a <= authors@.len() {
                Authorship::Committed(authors@[a - 1])
            } else {
                Authorship::NotCommittedYet
            },
            None => Authorship::NotCommittedYet,
        }),
{
    match committed_line(committed, shown, line) {
        Some(a) => if a >= 1 && a - 1 < authors.len() {
            Some(Authorship::Committed(copy_authored(&authors[a - 1])))
        } else {
            Some(Authorship::NotCommittedYet)
        },
        None => Some(Authorship::NotCommittedYet),
    }
}

} // verus!
