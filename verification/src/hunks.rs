//! Where two texts differ, line by line, as git's diff machinery answers it:
//! the hunks of a patch taken with no context lines, so a hunk is exactly the
//! lines that changed.

use vstd::prelude::*;

verus! {

/// The hunks git's diff finds between two texts when no context lines are
/// asked for: each as the line it starts on and the lines it covers in the
/// old text, then the same in the new. A hunk covering no lines on a side
/// names the line it sits after there.
pub uninterp spec fn zero_context_hunks(old: Seq<char>, new: Seq<char>) -> Option<Seq<(u32, u32, u32, u32)>>;

/// `git2::Patch::from_buffers` over the two texts with `context_lines(0)`,
/// then each hunk's `old_start`, `old_lines`, `new_start` and `new_lines`, in
/// the patch's order; nothing where the patch could not be made. Claims only
/// that the answer is a function of the two texts: the diff algorithm itself
/// is git's and is not restated here.
#[verifier::external_body]
pub(crate) fn changed_hunks(old: &str, new: &str) -> (hunks: Option<Vec<(u32, u32, u32, u32)>>)
    ensures
        match hunks {
            Some(h) => zero_context_hunks(old@, new@) == Some(h@),
            None => zero_context_hunks(old@, new@) is None,
        },
{
    let mut options = git2::DiffOptions::new();
    options.context_lines(0);
    let patch = git2::Patch::from_buffers(old.as_bytes(), None, new.as_bytes(), None, Some(&mut options)).ok()?;
    (0..patch.num_hunks())
        .map(|index| patch.hunk(index).map(|(h, _)| (h.old_start(), h.old_lines(), h.new_start(), h.new_lines())))
        .collect::<Result<Vec<(u32, u32, u32, u32)>, git2::Error>>()
        .ok()
}

/// Every line of every hunk git's diff finds between two texts with its
/// default three lines of context, in the patch's order: the line's number in
/// the new text and in the old, either absent for a line only one side has.
pub uninterp spec fn hunk_lines(old: Seq<char>, new: Seq<char>) -> Option<Seq<(Option<u32>, Option<u32>)>>;

/// `git2::Patch::from_buffers` over the two texts with default options, then
/// `line_in_hunk` for each line of each hunk, as its `new_lineno` and
/// `old_lineno`; nothing where the patch, a hunk or a line could not be
/// read. Claims only that the answer is a function of the two texts.
#[verifier::external_body]
pub(crate) fn context_lines(old: &str, new: &str) -> (lines: Option<Vec<(Option<u32>, Option<u32>)>>)
    ensures
        match lines {
            Some(l) => hunk_lines(old@, new@) == Some(l@),
            None => hunk_lines(old@, new@) is None,
        },
{
    let patch = git2::Patch::from_buffers(old.as_bytes(), None, new.as_bytes(), None, None).ok()?;
    let counts = (0..patch.num_hunks())
        .map(|h| patch.hunk(h).map(|(_, count)| (h, count)))
        .collect::<Result<Vec<_>, _>>()
        .ok()?;
    counts
        .into_iter()
        .flat_map(|(hunk, count)| (0..count).map(move |index| (hunk, index)))
        .map(|(hunk, index)| patch.line_in_hunk(hunk, index).map(|line| (line.new_lineno(), line.old_lineno())))
        .collect::<Result<Vec<(Option<u32>, Option<u32>)>, _>>()
        .ok()
}

} // verus!
