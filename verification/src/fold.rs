//! Folding a block of code away.
//!
//! A block is derived from the indentation the file already carries rather than
//! from a brace matcher: a matcher has to be written per language, while
//! indentation is what every one of them agrees on — and the same rule folds
//! Python, YAML and Rust.

use crate::text::{blank, chars_of, is_blank, leading_count, leading_end, split_lines, split_text};
use crate::editor::{Buffer, Model};
use crate::Place;
use vstd::prelude::*;

verus! {

/// A foldable block: the line that opens it and the last line it covers, both
/// 1-based. The opening line stays on screen while the block is folded.
#[derive(Debug, Clone, Copy, PartialEq, Eq, Structural)]
pub struct Block {
    pub from: usize,
    pub to: usize,
}

/// Which way the toggle in a line's gutter is pointing.
#[derive(Debug, Clone, Copy, PartialEq, Eq, Structural)]
pub enum Toggle {
    Open,
    Folded,
}

/// A line's indentation in characters, or nothing for a line with nothing on
/// it: a blank line opens no block and ends none.
pub open spec fn indent_spec(line: Seq<char>) -> Option<int> {
    if blank(line) {
        None
    } else {
        Some(leading_count(line, 0))
    }
}

pub open spec fn indents_of(lines: Seq<Seq<char>>) -> Seq<Option<int>> {
    lines.map_values(|l: Seq<char>| indent_spec(l))
}

/// The last line (1-based) of the run of lines from index `j` on that sit
/// deeper than `depth`, blank lines belonging to whatever follows them — or
/// nothing when the run holds no deeper line before one that is not deeper.
pub open spec fn reach(ind: Seq<Option<int>>, depth: int, j: int) -> Option<int>
    decreases ind.len() - j,
{
    if j < 0 || j >= ind.len() {
        None
    } else {
        match ind[j] {
            None => reach(ind, depth, j + 1),
            Some(d) => if d > depth {
                match reach(ind, depth, j + 1) {
                    Some(later) => Some(later),
                    None => Some(j + 1),
                }
            } else {
                None
            },
        }
    }
}

/// The blocks opened by lines `i` onwards, in order.
pub open spec fn blocks_from(ind: Seq<Option<int>>, i: int) -> Seq<Block>
    decreases ind.len() - i,
{
    if i < 0 || i >= ind.len() {
        Seq::empty()
    } else {
        let here: Seq<Block> = match ind[i] {
            None => Seq::empty(),
            Some(depth) => match reach(ind, depth, i + 1) {
                Some(to) => seq![Block { from: (i + 1) as usize, to: to as usize }],
                None => Seq::empty(),
            },
        };
        here + blocks_from(ind, i + 1)
    }
}

/// Every block a text holds, in the order of the lines that open them: a line
/// opens a block when the lines under it are indented deeper than it is, and
/// the block runs to the last of them.
pub open spec fn blocks_spec(source: Seq<char>) -> Seq<Block> {
    blocks_from(indents_of(split_lines(source)), 0)
}

fn indent(line: &Vec<char>) -> (r: Option<usize>)
    ensures
        match r {
            Some(d) => indent_spec(line@) == Some(d as int),
            None => indent_spec(line@) is None,
        },
{
    if is_blank(line) {
        None
    } else {
        Some(leading_end(line, 0))
    }
}

proof fn lemma_reach_bounds(ind: Seq<Option<int>>, depth: int, j: int)
    requires
        0 <= j,
    ensures
        match reach(ind, depth, j) {
            Some(to) => j < to <= ind.len(),
            None => true,
        },
    decreases ind.len() - j,
{
    if 0 <= j < ind.len() {
        lemma_reach_bounds(ind, depth, j + 1);
    }
}

/// Every block `source` holds, outermost first at each level. A blank line
/// belongs to whatever follows it rather than ending the block, and trailing
/// blanks fall outside it.
pub fn blocks(source: &str) -> (found: Vec<Block>)
    ensures
        found@ == blocks_spec(source@),
{
    let text = chars_of(source);
    let lines = split_text(&text);
    let ghost view = lines.deep_view();
    let mut indents: Vec<Option<usize>> = Vec::new();
    let mut k: usize = 0;
    while k < lines.len()
        invariant
            k <= lines.len(),
            view == lines.deep_view(),
            indents.len() == k,
            forall|i: int| 0 <= i < k ==> (match #[trigger] indents@[i] {
                Some(d) => indents_of(view)[i] == Some(d as int),
                None => indents_of(view)[i] is None,
            }),
        decreases lines.len() - k,
    {
        assert(lines@[k as int]@ == view[k as int]);
        indents.push(indent(&lines[k]));
        k = k + 1;
    }
    let ghost ind = indents_of(view);
    assert(view == split_lines(source@));
    let mut found: Vec<Block> = Vec::new();
    let mut index: usize = 0;
    while index < indents.len()
        invariant
            index <= indents.len() == ind.len(),
            ind == indents_of(split_lines(source@)),
            forall|i: int| 0 <= i < indents.len() ==> (match #[trigger] indents@[i] {
                Some(d) => ind[i] == Some(d as int),
                None => ind[i] is None,
            }),
            found@ + blocks_from(ind, index as int) == blocks_from(ind, 0),
        decreases indents.len() - index,
    {
        let ghost rest = blocks_from(ind, index + 1);
        if let Some(depth) = indents[index] {
            let mut last: Option<usize> = None;
            let mut below = index + 1;
            // Scanned back to front would be the same answer; the scan runs
            // down, as a reader does, stopping at the first line no deeper.
            let ghost answer = reach(ind, depth as int, index + 1);
            while below < indents.len()
                invariant
                    index < below <= indents.len() == ind.len(),
                    forall|i: int| 0 <= i < indents.len() ==> (match #[trigger] indents@[i] {
                        Some(d) => ind[i] == Some(d as int),
                        None => ind[i] is None,
                    }),
                    answer == reach(ind, depth as int, index + 1),
                    answer == (match reach(ind, depth as int, below as int) {
                        Some(later) => Some(later),
                        None => match last {
                            Some(l) => Some(l as int),
                            None => None,
                        },
                    }),
                    match last {
                        Some(l) => l <= below,
                        None => true,
                    },
                ensures
                    answer == (match last {
                        Some(l) => Some(l as int),
                        None => None,
                    }),
                decreases indents.len() - below,
            {
                match indents[below] {
                    None => {},
                    Some(deeper) => {
                        if deeper > depth {
                            last = Some(below + 1);
                        } else {
                            break;
                        }
                    },
                }
                below = below + 1;
            }
            let ghost before = found@;
            if let Some(to) = last {
                found.push(Block { from: index + 1, to });
            }
            assert(found@ + rest =~= before + blocks_from(ind, index as int));
        } else {
            assert(blocks_from(ind, index as int) =~= rest);
        }
        index = index + 1;
    }
    found
}

proof fn lemma_blocks_from_within(ind: Seq<Option<int>>, i: int)
    requires
        0 <= i,
        ind.len() <= usize::MAX,
    ensures
        forall|k: int| 0 <= k < blocks_from(ind, i).len() ==> 1 <= #[trigger] blocks_from(ind, i)[k].from
            < blocks_from(ind, i)[k].to <= ind.len(),
    decreases ind.len() - i,
{
    if 0 <= i < ind.len() {
        lemma_blocks_from_within(ind, i + 1);
        if let Some(depth) = ind[i] {
            lemma_reach_bounds(ind, depth, i + 1);
        }
        let here: Seq<Block> = match ind[i] {
            None => Seq::empty(),
            Some(depth) => match reach(ind, depth, i + 1) {
                Some(to) => seq![Block { from: (i + 1) as usize, to: to as usize }],
                None => Seq::empty(),
            },
        };
        assert(blocks_from(ind, i) == here + blocks_from(ind, i + 1));
        assert forall|k: int| 0 <= k < blocks_from(ind, i).len() implies 1 <= #[trigger] blocks_from(ind, i)[k].from
            < blocks_from(ind, i)[k].to <= ind.len() by {
            if k >= here.len() {
                assert(blocks_from(ind, i)[k] == blocks_from(ind, i + 1)[k - here.len()]);
            }
        }
    }
}

/// Every block opens on a line of the text and ends on a later one.
pub proof fn lemma_blocks_within(source: Seq<char>)
    requires
        source.len() < usize::MAX,
    ensures
        forall|b: Block| #[trigger] blocks_spec(source).contains(b) ==> 1 <= b.from < b.to <= split_lines(source).len(),
{
    crate::text::lemma_split_count(source);
    lemma_blocks_from_within(indents_of(split_lines(source)), 0);
}

/// The innermost block holding a line: of those that open at or above it and
/// still cover it, the one that opens last.
pub open spec fn innermost_around(blocks: Seq<Block>, line: int) -> Option<Block>
    decreases blocks.len(),
{
    if blocks.len() == 0 {
        None
    } else {
        let rest = innermost_around(blocks.drop_last(), line);
        let b = blocks.last();
        if b.from <= line <= b.to && (match rest {
            Some(r) => r.from <= b.from,
            None => true,
        }) {
            Some(b)
        } else {
            rest
        }
    }
}

/// `:toggle` — the block the caret is in, folded or opened, the caret put on
/// the line a new fold leaves showing — and `:toggle!`, every block at once,
/// or every one open again if any is folded.
pub open spec fn toggled(m: Model, all: bool) -> Model {
    let found = blocks_spec(m.text());
    if all {
        Model {
            folded: if m.folded.len() == 0 { found.map_values(|b: Block| b.from) } else { Seq::empty() },
            ..m
        }
    } else {
        match innermost_around(found, m.line as int) {
            None => m,
            Some(b) => if m.folded.contains(b.from) {
                Model { folded: m.folded.filter(|f: usize| f != b.from), ..m }
            } else {
                Model { folded: m.folded.push(b.from), ..m }.placed(Place { line: b.from, column: 1 })
            },
        }
    }
}

/// `:toggle` and `:toggle!` on a buffer.
pub fn toggle(buffer: &mut Buffer, all: bool)
    ensures
        final(buffer)@ == toggled(old(buffer)@, all),
{
    let found = blocks(buffer.shown());
    if all {
        if buffer.folded.len() == 0 {
            let mut opening: Vec<usize> = Vec::new();
            let mut i: usize = 0;
            while i < found.len()
                invariant
                    i <= found.len(),
                    opening@ == found@.take(i as int).map_values(|b: Block| b.from),
                decreases found.len() - i,
            {
                opening.push(found[i].from);
                assert(found@.take(i + 1).map_values(|b: Block| b.from) =~= found@.take(i as int).map_values(|b: Block| b.from).push(found@[i as int].from));
                i = i + 1;
            }
            assert(found@.take(found.len() as int) == found@);
            buffer.folded = opening;
        } else {
            buffer.folded = Vec::new();
        }
        assert(buffer@ =~= toggled(old(buffer)@, all));
        return;
    }
    let line = buffer.line;
    let mut best: Option<Block> = None;
    let mut i: usize = 0;
    while i < found.len()
        invariant
            i <= found.len(),
            best == innermost_around(found@.take(i as int), line as int),
        decreases found.len() - i,
    {
        let b = found[i];
        assert(found@.take(i + 1).drop_last() == found@.take(i as int));
        assert(found@.take(i + 1).last() == b);
        if b.from <= line && line <= b.to && (match best {
            Some(r) => r.from <= b.from,
            None => true,
        }) {
            best = Some(b);
        }
        i = i + 1;
    }
    assert(found@.take(found.len() as int) == found@);
    let block = match best {
        Some(b) => b,
        None => return,
    };
    let mut held = false;
    let mut kept: Vec<usize> = Vec::new();
    let mut k: usize = 0;
    while k < buffer.folded.len()
        invariant
            k <= buffer.folded.len(),
            buffer.folded@ == old(buffer).folded@,
            held == buffer.folded@.take(k as int).contains(block.from),
            kept@ == buffer.folded@.take(k as int).filter(|f: usize| f != block.from),
        decreases buffer.folded.len() - k,
    {
        let f = buffer.folded[k];
        proof {
            let before = buffer.folded@.take(k as int);
            assert(buffer.folded@.take(k + 1) == before.push(f));
            reveal(Seq::filter);
            assert(before.push(f).drop_last() == before);
            if !held && f != block.from {
                assert(!before.push(f).contains(block.from)) by {
                    if before.push(f).contains(block.from) {
                        let j = choose|j: int| 0 <= j < before.push(f).len() && before.push(f)[j] == block.from;
                        if j < before.len() {
                            assert(before.contains(block.from));
                        }
                    }
                }
            }
            if held {
                let j = choose|j: int| 0 <= j < before.len() && before[j] == block.from;
                assert(before.push(f)[j] == block.from);
            }
            if f == block.from {
                assert(before.push(f)[before.len() as int] == block.from);
            }
        }
        if f == block.from {
            held = true;
        } else {
            kept.push(f);
        }
        k = k + 1;
    }
    assert(buffer.folded@.take(buffer.folded.len() as int) == buffer.folded@);
    if held {
        buffer.folded = kept;
        assert(buffer@ =~= toggled(old(buffer)@, all));
        return;
    }
    buffer.folded.push(block.from);
    buffer.go_to_place(Place { line: block.from, column: 1 });
}

/// `:toggle!` answers for the whole file, and a second press takes back the
/// first: from nothing folded, two presses leave nothing folded, whatever
/// the file holds; and with anything folded, one press opens every block.
pub proof fn law_a_second_toggle_all_opens_what_the_first_folded(m: Model)
    ensures
        m.folded.len() == 0 ==> toggled(toggled(m, true), true).folded.len() == 0,
        m.folded.len() > 0 ==> toggled(m, true).folded.len() == 0,
        toggled(m, true).text() == m.text(),
{
    if m.folded.len() == 0 {
        let once = toggled(m, true);
        assert(once.text() == m.text());
        if blocks_spec(m.text()).len() == 0 {
            assert(once.folded =~= Seq::<usize>::empty());
        }
    }
}


/// The lines a block covers below the line that opens it.
pub open spec fn body_of(b: Block) -> Set<usize> {
    Set::new(|l: usize| b.from < l <= b.to)
}

/// The lines hidden by the folded ones among `found`.
pub open spec fn hidden_in(found: Seq<Block>, folded: Seq<usize>) -> Set<usize>
    decreases found.len(),
{
    if found.len() == 0 {
        Set::empty()
    } else {
        let before = hidden_in(found.drop_last(), folded);
        if folded.contains(found.last().from) {
            before.union(body_of(found.last()))
        } else {
            before
        }
    }
}

/// The lines the editor does not draw, 1-based: the body of every folded
/// block in `buffer`, the buffer whose folds are showing.
pub fn hidden(buffer: &Buffer) -> (lines: std::collections::BTreeSet<usize>)
    ensures
        lines@ == if buffer.folded@.len() == 0 {
            Set::<usize>::empty()
        } else {
            hidden_in(blocks_spec(buffer@.text()), buffer.folded@)
        },
{
    let mut lines: std::collections::BTreeSet<usize> = std::collections::BTreeSet::new();
    if buffer.folded.len() == 0 {
        return lines;
    }
    let found = blocks(buffer.shown());
    let mut i: usize = 0;
    while i < found.len()
        invariant
            i <= found.len(),
            lines@ == hidden_in(found@.take(i as int), buffer.folded@),
        decreases found.len() - i,
    {
        let b = found[i];
        assert(found@.take(i + 1).drop_last() == found@.take(i as int));
        assert(found@.take(i + 1).last() == b);
        let mut held = false;
        let mut k: usize = 0;
        while k < buffer.folded.len()
            invariant
                k <= buffer.folded.len(),
                held == (exists|j: int| 0 <= j < k && buffer.folded@[j] == b.from),
            decreases buffer.folded.len() - k,
        {
            if buffer.folded[k] == b.from {
                held = true;
            }
            k = k + 1;
        }
        assert(held == buffer.folded@.contains(b.from));
        if held {
            let ghost start = lines@;
            let mut l = b.from;
            while l < b.to
                invariant
                    b.from <= l,
                    l <= b.to || l == b.from,
                    lines@ == start.union(Set::new(|x: usize| b.from < x <= l)),
                decreases b.to - l,
            {
                l = l + 1;
                lines.insert(l);
                assert(lines@ =~= start.union(Set::new(|x: usize| b.from < x <= l)));
            }
            assert(lines@ =~= start.union(body_of(b)));
        }
        i = i + 1;
    }
    assert(found@.take(found.len() as int) == found@);
    lines
}

/// The depth of the first line with anything on it from index `j` on.
pub open spec fn next_indent(ind: Seq<Option<int>>, j: int) -> Option<int>
    decreases ind.len() - j,
{
    if j < 0 || j >= ind.len() {
        None
    } else {
        match ind[j] {
            None => next_indent(ind, j + 1),
            Some(d) => Some(d),
        }
    }
}

/// Whether the line at index `i` opens a block: it has something on it, and
/// the next line that does is indented deeper.
pub open spec fn opens_block(ind: Seq<Option<int>>, i: int) -> bool {
    &&& 0 <= i < ind.len()
    &&& ind[i] matches Some(d)
    &&& next_indent(ind, i + 1) matches Some(e)
    &&& e > ind[i]->0
}

/// The toggle each line from `first` to `last` (1-based, both included)
/// that opens a block carries, keyed by that line: folded where the buffer
/// has it folded, open otherwise.
pub open spec fn toggles_spec(source: Seq<char>, folded: Seq<usize>, first: int, last: int) -> Map<usize, Toggle> {
    Map::new(
        |n: usize| first <= n <= last && n >= 1 && opens_block(indents_of(split_lines(source)), n - 1),
        |n: usize| if folded.contains(n) { Toggle::Folded } else { Toggle::Open },
    )
}

fn next_depth(lines: &Vec<Vec<char>>, from: usize) -> (r: Option<usize>)
    ensures
        match r {
            Some(d) => next_indent(indents_of(lines.deep_view()), from as int) == Some(d as int),
            None => next_indent(indents_of(lines.deep_view()), from as int) is None,
        },
    decreases lines.len() - from,
{
    if from >= lines.len() {
        return None;
    }
    assert(lines.deep_view()[from as int] == lines@[from as int]@);
    assert(indents_of(lines.deep_view())[from as int] == indent_spec(lines@[from as int]@));
    match indent(&lines[from]) {
        Some(d) => Some(d),
        None => next_depth(lines, from + 1),
    }
}

/// The toggle each line from `first` to `last` (1-based, both included)
/// that opens a block carries, keyed by that line. A line that opens nothing
/// carries none. Read off the lines themselves, each against the next line
/// with anything on it, rather than off every block in the file.
pub fn toggles(buffer: &Buffer, first: usize, last: usize) -> (shown: std::collections::BTreeMap<usize, Toggle>)
    ensures
        shown@ == toggles_spec(buffer@.text(), buffer.folded@, first as int, last as int),
{
    let text = chars_of(buffer.shown());
    let lines = split_text(&text);
    let ghost ind = indents_of(lines.deep_view());
    let mut shown: std::collections::BTreeMap<usize, Toggle> = std::collections::BTreeMap::new();
    let low = if first >= 1 { first } else { 1 };
    let end = if last < lines.len() { last } else { lines.len() };
    let mut i = low - 1;
    assert(ind.len() == lines.len());
    while i < end
        invariant
            low >= 1,
            low - 1 <= i,
            end <= lines.len(),
            end <= last,
            low <= i + 1 || i == low - 1,
            i <= end || i == low - 1,
            ind == indents_of(lines.deep_view()),
            ind.len() == lines.len(),
            lines.deep_view() == split_lines(buffer@.text()),
            shown@ == Map::new(
                |n: usize| low <= n <= i && opens_block(ind, n - 1),
                |n: usize| if buffer.folded@.contains(n) { Toggle::Folded } else { Toggle::Open },
            ),
        decreases end - i,
    {
        assert(lines.deep_view()[i as int] == lines@[i as int]@);
        assert(ind[i as int] == indent_spec(lines@[i as int]@));
        match indent(&lines[i]) {
            Some(depth) => {
                match next_depth(&lines, i + 1) {
                    Some(deeper) => {
                        if deeper > depth {
                            let mut held = false;
                            let mut k: usize = 0;
                            while k < buffer.folded.len()
                                invariant
                                    i < end,
                                    end <= lines.len(),
                                    k <= buffer.folded.len(),
                                    held == (exists|j: int| 0 <= j < k && buffer.folded@[j] == i + 1),
                                decreases buffer.folded.len() - k,
                            {
                                if buffer.folded[k] == i + 1 {
                                    held = true;
                                }
                                k = k + 1;
                            }
                            assert(held == buffer.folded@.contains((i + 1) as usize));
                            shown.insert(i + 1, if held { Toggle::Folded } else { Toggle::Open });
                        }
                    },
                    None => {},
                }
            },
            None => {},
        }
        i = i + 1;
        assert(shown@ =~= Map::new(
            |n: usize| low <= n <= i && opens_block(ind, n - 1),
            |n: usize| if buffer.folded@.contains(n) { Toggle::Folded } else { Toggle::Open },
        ));
    }
    assert(shown@ =~= toggles_spec(buffer@.text(), buffer.folded@, first as int, last as int));
    shown
}


proof fn lemma_reach_next(ind: Seq<Option<int>>, depth: int, j: int)
    requires
        0 <= j,
    ensures
        (reach(ind, depth, j) is Some) <==> (next_indent(ind, j) matches Some(e) && e > depth),
    decreases ind.len() - j,
{
    if j < ind.len() {
        lemma_reach_next(ind, depth, j + 1);
    }
}

proof fn lemma_blocks_from_opens(ind: Seq<Option<int>>, i: int, n: usize)
    requires
        0 <= i,
        ind.len() < usize::MAX,
        n >= 1,
    ensures
        (exists|k: int| 0 <= k < blocks_from(ind, i).len() && #[trigger] blocks_from(ind, i)[k].from == n)
            <==> (i + 1 <= n && opens_block(ind, n - 1)),
    decreases ind.len() - i,
{
    if i < ind.len() {
        lemma_blocks_from_opens(ind, i + 1, n);
        let rest = blocks_from(ind, i + 1);
        let here: Seq<Block> = match ind[i] {
            None => Seq::empty(),
            Some(depth) => match reach(ind, depth, i + 1) {
                Some(to) => seq![Block { from: (i + 1) as usize, to: to as usize }],
                None => Seq::empty(),
            },
        };
        let all = blocks_from(ind, i);
        assert(all == here + rest);
        match ind[i] {
            Some(depth) => lemma_reach_next(ind, depth, i + 1),
            None => {},
        }
        if i + 1 == n && opens_block(ind, n - 1) {
            assert(all[0].from == n);
        }
        if exists|k: int| 0 <= k < all.len() && #[trigger] all[k].from == n {
            let k = choose|k: int| 0 <= k < all.len() && #[trigger] all[k].from == n;
            if k >= here.len() {
                assert(rest[k - here.len()].from == n);
            }
        }
        if i + 2 <= n && opens_block(ind, n - 1) {
            let k = choose|k: int| 0 <= k < rest.len() && #[trigger] rest[k].from == n;
            assert(all[here.len() + k].from == n);
        }
    }
}

/// A line carries a toggle exactly where a block opens: read off the lines
/// one at a time, the toggles name the same lines `blocks` lays out.
pub proof fn law_a_toggle_stands_where_a_block_opens(source: Seq<char>, folded: Seq<usize>, first: int, last: int, n: usize)
    requires
        split_lines(source).len() < usize::MAX,
        first <= n <= last,
        n >= 1,
    ensures
        toggles_spec(source, folded, first, last).contains_key(n) <==> exists|k: int|
            0 <= k < blocks_spec(source).len() && #[trigger] blocks_spec(source)[k].from == n,
{
    let ind = indents_of(split_lines(source));
    assert(ind.len() == split_lines(source).len());
    lemma_blocks_from_opens(ind, 0, n);
    assert(blocks_spec(source) == blocks_from(ind, 0));
    assert(toggles_spec(source, folded, first, last).dom().contains(n) == opens_block(ind, n - 1));
}


proof fn lemma_innermost(blocks: Seq<Block>, line: int)
    ensures
        innermost_around(blocks, line) is None <==> !(exists|c: Block| blocks.contains(c) && c.from <= line <= c.to),
        innermost_around(blocks, line) matches Some(b) ==> {
            &&& blocks.contains(b)
            &&& b.from <= line <= b.to
            &&& forall|c: Block| blocks.contains(c) && c.from <= line <= c.to ==> c.from <= b.from
        },
    decreases blocks.len(),
{
    if blocks.len() > 0 {
        let rest = blocks.drop_last();
        lemma_innermost(rest, line);
        let last = blocks.last();
        assert(blocks.contains(last));
        assert forall|c: Block| blocks.contains(c) implies rest.contains(c) || c == last by {
            let k = choose|k: int| 0 <= k < blocks.len() && blocks[k] == c;
            if k < blocks.len() - 1 {
                assert(rest[k] == c);
            }
        }
        assert forall|c: Block| rest.contains(c) implies blocks.contains(c) by {
            let k = choose|k: int| 0 <= k < rest.len() && rest[k] == c;
            assert(blocks[k] == c);
        }
    }
}

/// `:toggle` acts on the innermost block the caret is in: the block it folds
/// or opens covers the caret's line, and no other block covering that line
/// opens below it; where no block covers the line, nothing changes.
pub proof fn law_toggle_takes_the_innermost_block(m: Model, b: Block)
    ensures
        ({
            let found = blocks_spec(m.text());
            let l = m.line as int;
            !(exists|c: Block| found.contains(c) && c.from <= l <= c.to) ==> toggled(m, false) == m
        }),
        ({
            let found = blocks_spec(m.text());
            let l = m.line as int;
            found.contains(b) && b.from <= l <= b.to && (forall|c: Block| found.contains(c) && c.from <= l <= c.to ==> c.from <= b.from)
                ==> toggled(m, false).folded == (if m.folded.contains(b.from) {
                    m.folded.filter(|f: usize| f != b.from)
                } else {
                    m.folded.push(b.from)
                })
        }),
{
    let found = blocks_spec(m.text());
    lemma_innermost(found, m.line as int);
}

/// The block the caret's line picks: one that covers the line, and no block
/// covering it opens below it.
pub proof fn law_the_innermost_block_covers_the_line_and_opens_last(blocks: Seq<Block>, line: int)
    ensures
        innermost_around(blocks, line) is None <==> !(exists|c: Block| blocks.contains(c) && c.from <= line <= c.to),
        innermost_around(blocks, line) matches Some(b) ==> {
            &&& blocks.contains(b)
            &&& b.from <= line <= b.to
            &&& forall|c: Block| blocks.contains(c) && c.from <= line <= c.to ==> c.from <= b.from
        },
{
    lemma_innermost(blocks, line);
}

} // verus!
