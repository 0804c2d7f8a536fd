//! Who last committed the line the cursor is on. What the buffer has changed
//! since the commit is the diff's business, which is why a buffer line is
//! traced back through the patch before it names anybody.

use crate::hunks::{context_lines, hunk_lines};
use crate::text::{chars_of, split_lines, split_text};
use vstd::prelude::*;

verus! {

/// Who last committed one line of the file as the commit holds it, and when.
#[derive(Debug, Clone, PartialEq, Eq)]
pub struct Authored {
    pub author: String,
    /// The authored date, `YYYY-MM-DD`, as the edge formatted it.
    pub date: String,
}

/// What the editor's border says about the cursor's line.
#[derive(Debug, Clone, PartialEq, Eq)]
pub enum Authorship {
    Committed(Authored),
    /// A line the working tree has changed, and every line of a file the
    /// commit has no copy of.
    NotCommittedYet,
}

/// What the patch says of new line `k`: the old line of the last of its lines
/// that names `k` in the new text, or nothing where none does.
pub open spec fn named_in_patch(lines: Seq<(Option<u32>, Option<u32>)>, k: int) -> Option<Option<u32>>
    decreases lines.len(),
{
    if lines.len() == 0 {
        None
    } else if lines.last().0 == Some(k as u32) && 0 <= k <= u32::MAX {
        Some(lines.last().1)
    } else {
        named_in_patch(lines.drop_last(), k)
    }
}

/// The offset the nearest line at or above `k` the patch names, and names an
/// old line for, leaves behind: the lines after a hunk carry the difference
/// between its last context line's two numbers.
pub open spec fn offset_at_or_above(lines: Seq<(Option<u32>, Option<u32>)>, k: int) -> int
    decreases k + 1,
{
    if k < 0 {
        0
    } else {
        match named_in_patch(lines, k) {
            Some(Some(old)) => old - k,
            _ => offset_at_or_above(lines, k - 1),
        }
    }
}

/// Which committed line new line `line` came from, through the patch's lines:
/// a line the patch touches is answered by the patch, a context line naming
/// its committed line and an added line none; any other by the offset the
/// nearest touched line above it left.
pub open spec fn traced_line(lines: Seq<(Option<u32>, Option<u32>)>, line: int) -> Option<usize> {
    match named_in_patch(lines, line) {
        Some(found) => match found {
            Some(old) => Some(old as usize),
            None => None,
        },
        None => {
            let v = line + offset_at_or_above(lines, line - 1);
            if 0 <= v <= usize::MAX { Some(v as usize) } else { None }
        },
    }
}

/// Which committed line each line of `shown` came from, one entry per line
/// and nothing for a line the commit does not hold; nothing at all for a
/// file the commit has no copy of, and no line held where the two could not
/// be diffed.
pub open spec fn traced_spec(committed: Option<Seq<char>>, shown: Seq<char>) -> Seq<Option<usize>> {
    match committed {
        None => Seq::empty(),
        Some(c) => {
            let count = split_lines(shown).len();
            match hunk_lines(c, shown) {
                None => Seq::new(count, |i: int| None),
                Some(lines) => Seq::new(count, |i: int| traced_line(lines, i + 1)),
            }
        },
    }
}

fn named(lines: &Vec<(Option<u32>, Option<u32>)>, k: usize) -> (r: Option<Option<u32>>)
    ensures
        r == named_in_patch(lines@, k as int),
{
    let mut n = lines.len();
    assert(lines@.take(n as int) == lines@);
    while n > 0
        invariant
            n <= lines.len(),
            named_in_patch(lines@, k as int) == named_in_patch(lines@.take(n as int), k as int),
        decreases n,
    {
        assert(lines@.take(n as int).drop_last() == lines@.take(n - 1));
        assert(lines@.take(n as int).last() == lines@[n - 1]);
        let (new, old) = lines[n - 1];
        if k <= u32::MAX as usize && new == Some(k as u32) {
            return Some(old);
        }
        n = n - 1;
    }
    None
}

/// Which committed line new line `line` came from, given the patch's lines.
pub fn traced_through(lines: &Vec<(Option<u32>, Option<u32>)>, line: usize) -> (r: Option<usize>)
    ensures
        r == traced_line(lines@, line as int),
{
    if let Some(found) = named(lines, line) {
        return match found {
            Some(old) => Some(old as usize),
            None => None,
        };
    }
    let mut k = line;
    let mut offset: i128 = 0;
    let mut done = false;
    while k > 0 && !done
        invariant
            k <= line,
            !done ==> offset_at_or_above(lines@, line - 1) == offset_at_or_above(lines@, k - 1),
            done ==> offset_at_or_above(lines@, line - 1) == offset as int,
            !done ==> offset == 0,
            -0x1_0000_0000_0000_0000 <= offset <= 0x1_0000_0000_0000_0000,
        decreases k + if done { 0int } else { 1int },
    {
        match named(lines, k - 1) {
            Some(Some(old)) => {
                offset = old as i128 - (k - 1) as i128;
                done = true;
            },
            _ => {
                k = k - 1;
            },
        }
    }
    let moved: i128 = line as i128 + offset;
    if moved >= 0 && moved <= usize::MAX as i128 {
        Some(moved as usize)
    } else {
        None
    }
}

/// Which line of the file as the commit holds it each buffer line came from,
/// one entry per line of `shown` and `None` for a line the commit does not
/// hold. The one diff of the two sides: the Authorship indexes the commit's
/// blame through it, and the Change bar bars exactly the lines it answers
/// `None` for. Nothing at all for a file the commit has no copy of.
pub fn traced(committed: Option<&str>, shown: &str) -> (r: Vec<Option<usize>>)
    ensures
        r@ == traced_spec(
            match committed {
                Some(c) => Some(c@),
                None => None,
            },
            shown@,
        ),
{
    let committed = match committed {
        Some(c) => c,
        None => return Vec::new(),
    };
    let chars = chars_of(shown);
    let count = split_text(&chars).len();
    let patch = context_lines(committed, shown);
    let mut r: Vec<Option<usize>> = Vec::new();
    let mut i: usize = 0;
    while i < count
        invariant
            i <= count,
            count == split_lines(shown@).len(),
            r@ == (match hunk_lines(committed@, shown@) {
                None => Seq::new(i as nat, |k: int| None),
                Some(lines) => Seq::new(i as nat, |k: int| traced_line(lines, k + 1)),
            }),
            match patch {
                Some(l) => hunk_lines(committed@, shown@) == Some(l@),
                None => hunk_lines(committed@, shown@) is None,
            },
        decreases count - i,
    {
        let at = match &patch {
            Some(lines) => traced_through(lines, i + 1),
            None => None,
        };
        r.push(at);
        proof {
            match hunk_lines(committed@, shown@) {
                None => {
                    assert(r@ =~= Seq::new((i + 1) as nat, |k: int| None::<usize>));
                },
                Some(lines) => {
                    assert(r@ =~= Seq::new((i + 1) as nat, |k: int| traced_line(lines, k + 1)));
                },
            }
        }
        i = i + 1;
    }
    r
}


fn copy_authored(a: &Authored) -> (copy: Authored)
    ensures
        copy == *a,
{
    Authored { author: a.author.clone(), date: a.date.clone() }
}

/// What the border says of a line traced to committed line `at`: who wrote
/// it, where the blame names that line, and otherwise that it is not
/// committed yet.
pub open spec fn authorship_of(at: Option<usize>, authors: Seq<Authored>) -> Authorship {
    match at {
        Some(a) => if 1 <= a <= authors.len() {
            Authorship::Committed(authors[a - 1])
        } else {
            Authorship::NotCommittedYet
        },
        None => Authorship::NotCommittedYet,
    }
}

/// The Authorship of buffer line `line` (1-based), read through `traced` —
/// the trace for the buffer on screen, or nothing while the edge has not
/// told one — and the committed file's blame, `authors`. Nothing to say
/// without a trace, or for line 0; a line the trace does not reach is not
/// committed yet.
pub fn at_cursor(line: usize, traced: Option<&[Option<usize>]>, authors: &[Authored]) -> (said: Option<Authorship>)
    ensures
        said == match traced {
            None => None,
            Some(t) => if line == 0 {
                None
            } else {
                Some(authorship_of(if line - 1 < t@.len() { t@[line - 1] } else { None }, authors@))
            },
        },
{
    let lines = match traced {
        Some(t) => t,
        None => return None,
    };
    if line == 0 {
        return None;
    }
    let at = if line - 1 < lines.len() { lines[line - 1] } else { None };
    match at {
        Some(a) => if a >= 1 && a - 1 < authors.len() {
            Some(Authorship::Committed(copy_authored(&authors[a - 1])))
        } else {
            Some(Authorship::NotCommittedYet)
        },
        None => Some(Authorship::NotCommittedYet),
    }
}

pub open spec fn traced_lines_spec<'a>(
    traced: Option<(&str, u64, &'a [Option<usize>])>,
    current: Option<(&str, u64)>,
) -> Option<&'a [Option<usize>]> {
    match (traced, current) {
        (Some((path, revision, t)), Some((here, now))) => if path@ == here@ && revision == now {
            Some(t)
        } else {
            None
        },
        _ => None,
    }
}

/// The trace for the buffer on screen, as the edge last told it: `traced`
/// names the buffer and revision it was taken of, `current` the buffer on
/// screen and its revision. Nothing while the two differ, since after an
/// edit that added or removed a line every entry past it names the wrong
/// line.
pub fn traced_lines<'a>(
    traced: Option<(&str, u64, &'a [Option<usize>])>,
    current: Option<(&str, u64)>,
) -> (lines: Option<&'a [Option<usize>]>)
    ensures
        lines == traced_lines_spec(traced, current),
{
    match (traced, current) {
        (Some((path, revision, t)), Some((here, now))) => if crate::text::same_text(path, here) && revision == now {
            Some(t)
        } else {
            None
        },
        _ => None,
    }
}


/// The lines (1-based) a trace has no committed line for.
pub open spec fn untraced(lines: Seq<Option<usize>>) -> Seq<usize>
    decreases lines.len(),
{
    if lines.len() == 0 {
        Seq::empty()
    } else if lines.last() is None {
        untraced(lines.drop_last()).push(lines.len() as usize)
    } else {
        untraced(lines.drop_last())
    }
}

/// The lines the Change bar marks: those of the buffer on screen that the
/// trace the edge last told has no committed line for — read off that trace
/// and never diffed here, and nothing for a trace of another buffer or of
/// another revision.
pub fn changed_lines(traced: Option<(&str, u64, &[Option<usize>])>, current: Option<(&str, u64)>) -> (marked: Vec<usize>)
    ensures
        marked@ == match traced_lines_spec(traced, current) {
            Some(t) => untraced(t@),
            None => Seq::<usize>::empty(),
        },
{
    let lines = match traced_lines(traced, current) {
        Some(t) => t,
        None => return Vec::new(),
    };
    let mut marked: Vec<usize> = Vec::new();
    let mut i: usize = 0;
    while i < lines.len()
        invariant
            i <= lines.len(),
            marked@ == untraced(lines@.take(i as int)),
        decreases lines.len() - i,
    {
        assert(lines@.take(i + 1).drop_last() == lines@.take(i as int));
        assert(lines@.take(i + 1).last() == lines@[i as int]);
        if lines[i].is_none() {
            marked.push(i + 1);
        }
        i = i + 1;
    }
    assert(lines@.take(lines.len() as int) == lines@);
    marked
}


proof fn lemma_untraced(lines: Seq<Option<usize>>, k: int)
    requires
        lines.len() <= usize::MAX,
        0 <= k < untraced(lines).len(),
    ensures
        1 <= untraced(lines)[k] <= lines.len(),
        lines[untraced(lines)[k] - 1] is None,
    decreases lines.len(),
{
    if lines.len() > 0 {
        let rest = untraced(lines.drop_last());
        if k < rest.len() {
            lemma_untraced(lines.drop_last(), k);
            assert(untraced(lines)[k] == rest[k]);
            assert(lines[rest[k] - 1] == lines.drop_last()[rest[k] - 1]);
        } else {
            assert(untraced(lines)[k] == lines.len());
        }
    }
}

/// The gutter and the border never disagree: a line the Change bar marks is
/// one the border credits to nobody, whoever the blame names.
pub proof fn law_a_marked_line_is_credited_to_nobody(lines: Seq<Option<usize>>, authors: Seq<Authored>, k: int)
    requires
        lines.len() <= usize::MAX,
        0 <= k < untraced(lines).len(),
    ensures
        ({
            let n = untraced(lines)[k];
            authorship_of(if n - 1 < lines.len() { lines[n - 1] } else { None }, authors) == Authorship::NotCommittedYet
        }),
{
    lemma_untraced(lines, k);
}

} // verus!
