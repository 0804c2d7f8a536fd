//! The debugger's pure half: Breakpoints carried with their lines as a buffer
//! is edited, the shapes a Debug session's rows and answers take, and the
//! expression the syntax around a place names. The session's conversation
//! with its adapter is `crate::session`'s, and answered here too.

use crate::editor::{ident_char, is_ident, min_int};
use crate::fold::{blocks, Block};
use crate::text::{
    owned, char_columns, char_width, chars_of, is_whitespace, leading_end, slice_of, split_lines, split_text,
    string_of, trim_end, trim_start, trimmed_end, whitespace,
};
use crate::{chip, chip_is, Chip, Hue, Place, Tone};
use std::collections::{BTreeMap, BTreeSet};
use vstd::prelude::*;

pub use crate::session::{answered, gone, launches, received, restart, resume, start, started, step, stop, told, watch_hovered, hovered};

verus! {

broadcast use vstd::string::group_string_axioms;

/// A line the program pauses at. `text` is what the line held, trimmed, so a
/// project that remembers it can tell at load whether the line still does.
/// `file` is the path as text.
#[derive(Debug, Clone, PartialEq, Eq)]
pub struct Breakpoint {
    pub file: String,
    pub line: usize,
    pub text: String,
    /// Remembered against text its line no longer holds. It keeps the text it
    /// was remembered with and the line it was set on.
    pub stale: bool,
}

/// How the gutter draws a Breakpoint.
#[derive(Debug, Clone, Copy, PartialEq, Eq, Structural)]
pub enum Mark {
    Plain,
    Stale,
}

/// How a member is drawn, as the adapter's presentation hints say.
#[derive(Debug, Clone, Copy, PartialEq, Eq, Structural)]
pub enum Hint {
    Plain,
    Private,
    ReadOnly,
    /// A member the adapter will only compute when it is asked for.
    Lazy,
}

impl Hint {
    pub fn as_str(self) -> (s: &'static str)
        ensures
            s@ == (match self {
                Hint::Plain => "plain"@,
                Hint::Private => "private"@,
                Hint::ReadOnly => "read-only"@,
                Hint::Lazy => "lazy"@,
            }),
    {
        match self {
            Hint::Plain => "plain",
            Hint::Private => "private",
            Hint::ReadOnly => "read-only",
            Hint::Lazy => "lazy",
        }
    }
}

/// What a row stands for, which is what its Chips act on.
#[derive(Debug, Clone, Copy, PartialEq, Eq, Structural)]
pub enum Of {
    Member,
    /// A Watch, by its place in the Watches, whether its expression calls
    /// something, and whether the last pause could not evaluate it.
    Watch { index: usize, calling: bool, failed: bool },
}

/// What opening a row asks the adapter for.
#[derive(Debug, Clone, Copy, PartialEq, Eq, Structural)]
pub enum Opens {
    Nothing,
    Children { reference: i64, indexed: usize },
    /// The row standing for the rest of a collection too big to come whole,
    /// and the index it carries on from.
    NextPage { reference: i64, start: usize },
}

/// One row of the Variables as it is drawn.
#[derive(Debug, Clone, PartialEq, Eq)]
pub struct Row {
    pub name: String,
    pub value: String,
    pub depth: usize,
    pub hint: Hint,
    pub open: bool,
    pub opens: Opens,
    /// The path to this row in the program's own language.
    pub expression: String,
    /// The reference of whatever holds this row.
    pub parent: i64,
    pub of: Of,
}

/// What the last pause's `evaluate` said about a Watch.
#[derive(Debug, Clone, PartialEq, Eq)]
pub enum Answer {
    Waiting,
    Value(String),
    Failed(String),
}

/// One expression kept at the top of the Variables and re-evaluated at every
/// pause.
#[derive(Debug, Clone, PartialEq, Eq)]
pub struct Watch {
    pub expression: String,
    pub answer: Answer,
}

/// Why the program paused, as far as the Paused line is drawn.
#[derive(Debug, Clone, Copy, PartialEq, Eq, Structural)]
pub enum Why {
    Paused,
    Exception,
}

impl Why {
    pub fn as_str(self) -> (s: &'static str)
        ensures
            s@ == (match self {
                Why::Paused => "paused"@,
                Why::Exception => "exception"@,
            }),
    {
        match self {
            Why::Paused => "paused",
            Why::Exception => "exception",
        }
    }
}

/// How far one step goes.
#[derive(Debug, Clone, Copy, PartialEq, Eq, Structural)]
pub enum Step {
    Over,
    Into,
    Out,
}

/// One call on the stack. `file` is absent for a Frame with no source the
/// adapter can name.
#[derive(Debug, Clone, PartialEq, Eq)]
pub struct Frame {
    pub id: i64,
    pub name: String,
    pub file: Option<String>,
    pub line: usize,
}

/// Why the edge stopped holding an adapter.
#[derive(Debug, Clone, Copy, PartialEq, Eq, Structural)]
pub enum Gone {
    Missing,
    FailedToStart,
    Exited,
}

/// What a Hover asked the Debug adapter while Paused.
#[derive(Debug, Clone, PartialEq, Eq)]
pub struct Hovered {
    pub expression: String,
    pub at: Place,
    pub held: Held,
}

/// What the Hover's expression holds, as far as the adapter has said.
#[derive(Debug, Clone, PartialEq, Eq)]
pub enum Held {
    /// The expression calls something, so the adapter was never asked.
    NeedsEvaluate,
    Waiting,
    Failed(String),
    Value { value: String, reference: i64, indexed: usize },
}

/// The keyboard mode that arranges the Evaluator's window.
#[derive(Debug, Clone, Copy, PartialEq, Eq, Structural)]
pub enum Arrange {
    Moving,
    Sizing,
}

/// The rectangle one arranging key names for the Evaluator's window: moved a
/// cell, or grown or shrunk by one, never past the screen's top or left edge
/// nor below a size of nothing. Where the window then goes on the screen is
/// the placement's.
pub open spec fn arranged(at: crate::layout::Area, direction: crate::Direction, how: Arrange) -> crate::layout::Area {
    match (how, direction) {
        (Arrange::Moving, crate::Direction::Left) => crate::layout::Area { x: if at.x > 0 { (at.x - 1) as u16 } else { 0 }, ..at },
        (Arrange::Moving, crate::Direction::Right) => crate::layout::Area { x: (at.x + 1) as u16, ..at },
        (Arrange::Moving, crate::Direction::Up) => crate::layout::Area { y: if at.y > 0 { (at.y - 1) as u16 } else { 0 }, ..at },
        (Arrange::Moving, crate::Direction::Down) => crate::layout::Area { y: (at.y + 1) as u16, ..at },
        (Arrange::Sizing, crate::Direction::Left) => crate::layout::Area {
            width: if at.width > 0 { (at.width - 1) as u16 } else { 0 },
            ..at
        },
        (Arrange::Sizing, crate::Direction::Right) => crate::layout::Area { width: (at.width + 1) as u16, ..at },
        (Arrange::Sizing, crate::Direction::Up) => crate::layout::Area {
            height: if at.height > 0 { (at.height - 1) as u16 } else { 0 },
            ..at
        },
        (Arrange::Sizing, crate::Direction::Down) => crate::layout::Area { height: (at.height + 1) as u16, ..at },
    }
}

/// Whether the growing side of a step has a cell left to grow into.
pub open spec fn arrange_ok(at: crate::layout::Area, direction: crate::Direction, how: Arrange) -> bool {
    match (how, direction) {
        (Arrange::Moving, crate::Direction::Right) => at.x < u16::MAX,
        (Arrange::Moving, crate::Direction::Down) => at.y < u16::MAX,
        (Arrange::Sizing, crate::Direction::Right) => at.width < u16::MAX,
        (Arrange::Sizing, crate::Direction::Down) => at.height < u16::MAX,
        _ => true,
    }
}

/// The keyboard's arrange: one cell of the Evaluator's window per key, in
/// the mode that opened it, the rectangle before it is placed on the screen;
/// nothing while the window has no rectangle.
pub fn arrange(at: Option<crate::layout::Area>, direction: crate::Direction, how: Arrange) -> (moved: Option<crate::layout::Area>)
    requires
        at matches Some(a) ==> arrange_ok(a, direction, how),
    ensures
        moved == (match at {
            Some(a) => Some(arranged(a, direction, how)),
            None => None,
        }),
{
    let at = match at {
        Some(a) => a,
        None => return None,
    };
    Some(match (how, direction) {
        (Arrange::Moving, crate::Direction::Left) => crate::layout::Area { x: at.x.saturating_sub(1), ..at },
        (Arrange::Moving, crate::Direction::Right) => crate::layout::Area { x: at.x + 1, ..at },
        (Arrange::Moving, crate::Direction::Up) => crate::layout::Area { y: at.y.saturating_sub(1), ..at },
        (Arrange::Moving, crate::Direction::Down) => crate::layout::Area { y: at.y + 1, ..at },
        (Arrange::Sizing, crate::Direction::Left) => crate::layout::Area { width: at.width.saturating_sub(1), ..at },
        (Arrange::Sizing, crate::Direction::Right) => crate::layout::Area { width: at.width + 1, ..at },
        (Arrange::Sizing, crate::Direction::Up) => crate::layout::Area { height: at.height.saturating_sub(1), ..at },
        (Arrange::Sizing, crate::Direction::Down) => crate::layout::Area { height: at.height + 1, ..at },
    })
}

/// The faces of the Hover's Chips: Evaluate and Watch while it shows a
/// value, none otherwise.
pub open spec fn hover_faces(hovered: Option<&Hovered>) -> Seq<(Seq<char>, Seq<char>)> {
    if hovered is Some {
        seq![("\u{2261}"@, ""@), ("\u{25c9}"@, ""@)]
    } else {
        Seq::empty()
    }
}

/// The Hover's Chips as they are drawn and hit-tested: one list for the
/// renderer, the mouse and the box's own width, with nothing reserved for a
/// title, since the box has no name written on it.
pub fn hover_labels(hovered: Option<&Hovered>, width: u16) -> (labels: Option<Vec<String>>)
    ensures
        crate::layout::labels_view(labels) == crate::layout::strip_labels(hover_faces(hovered), width as int),
{
    let chips = hover_chips(hovered);
    assert(crate::layout::faces(chips@) =~= hover_faces(hovered));
    crate::layout::chip_labels(chips.as_slice(), width, 0)
}

/// The faces of the Evaluator's Chips: Run and its key, and Cancel, while the
/// window is open.
pub open spec fn evaluator_faces(open: bool) -> Seq<(Seq<char>, Seq<char>)> {
    if open {
        seq![("\u{25b6}"@, "\u{21b5}"@), ("\u{2715}"@, ""@)]
    } else {
        Seq::empty()
    }
}

/// The Evaluator's Chips as they are drawn and hit-tested, for the reason the
/// Hover's are one list.
pub fn evaluator_labels(open: bool, ran: Option<&Run>, phase: &Option<Phase>, can_cancel: bool, width: u16) -> (labels: Option<Vec<String>>)
    ensures
        crate::layout::labels_view(labels) == crate::layout::strip_labels(evaluator_faces(open), width as int),
{
    let chips = evaluator_chips(open, ran, phase, can_cancel);
    assert(crate::layout::faces(chips@) =~= evaluator_faces(open));
    crate::layout::chip_labels(chips.as_slice(), width, 0)
}

/// `␣e`, the Hover's Evaluate Chip and a Variables row's: the Evaluator,
/// while a session is on, opens on the expression the gesture named,
/// prefilled and asking the adapter nothing; no run yet, no rule dragged, no
/// walk through the history. Nothing outside a session.
pub fn open_evaluator(debugging: bool, expression: &str, tab_width: usize) -> (opened: Option<Evaluator>)
    ensures
        opened is Some <==> debugging,
        opened matches Some(e) ==> {
            &&& e.snippet@ == crate::editor::opened(expression@, false, tab_width)
            &&& e.ran is None
            &&& e.snippet_rows is None
            &&& e.recalled is None
        },
{
    if !debugging {
        return None;
    }
    Some(Evaluator {
        snippet: crate::editor::Buffer::open(expression, false, tab_width),
        ran: None,
        snippet_rows: None,
        recalled: None,
    })
}

/// One row of the Evaluator output.
#[derive(Debug, Clone, PartialEq, Eq)]
pub enum Said {
    Printed(String),
    Value(Row),
    Failed(String),
    Running,
}

/// A value drawn at the end of the line that mentions it, already trimmed to
/// the columns the line leaves.
#[derive(Debug, Clone, PartialEq, Eq)]
pub struct Inline {
    pub name: String,
    pub text: String,
    pub changed: bool,
}

/// A text trimmed at both ends, as `str::trim` does.
pub open spec fn trim(s: Seq<char>) -> Seq<char> {
    trim_start(trim_end(s))
}

/// What 1-based `line` of `text` holds, trimmed — the text a Breakpoint is
/// remembered against — or nothing for a line `text` does not have.
pub open spec fn held_spec(text: Seq<char>, line: int) -> Option<Seq<char>> {
    if 1 <= line <= split_lines(text).len() {
        Some(trim(split_lines(text)[line - 1]))
    } else {
        None
    }
}

proof fn lemma_trim_start(s: Seq<char>, i: int)
    requires
        0 <= i <= s.len(),
        forall|j: int| 0 <= j < i ==> whitespace(#[trigger] s[j]),
    ensures
        trim_start(s) == trim_start(s.skip(i)),
    decreases i,
{
    if i > 0 {
        assert(s.skip(1) == s.drop_first());
        assert forall|j: int| 0 <= j < i - 1 implies whitespace(#[trigger] s.drop_first()[j]) by {
            assert(s.drop_first()[j] == s[j + 1]);
        }
        lemma_trim_start(s.drop_first(), i - 1);
        assert(s.drop_first().skip(i - 1) == s.skip(i));
    } else {
        assert(s.skip(0) == s);
    }
}

/// A text trimmed at both ends.
pub fn trimmed(s: &Vec<char>) -> (r: Vec<char>)
    ensures
        r@ == trim(s@),
{
    let end = trimmed_end(s);
    let from = leading_end(&end, 0);
    proof {
        crate::text::lemma_leading_count(end@, 0);
        lemma_trim_start(end@, from as int);
        let rest = end@.skip(from as int);
        if rest.len() > 0 {
            assert(rest[0] == end@[from as int]);
        }
    }
    slice_of(&end, from, end.len())
}

/// What 1-based `line` of `text` holds, trimmed, or nothing for a line
/// `text` does not have.
pub fn held(text: &str, line: usize) -> (r: Option<String>)
    ensures
        match r {
            Some(s) => held_spec(text@, line as int) == Some(s@),
            None => held_spec(text@, line as int) is None,
        },
{
    if line == 0 {
        return None;
    }
    let chars = chars_of(text);
    let lines = split_text(&chars);
    if line > lines.len() {
        return None;
    }
    assert(lines@[line - 1]@ == split_lines(text@)[line - 1]);
    Some(string_of(trimmed(&lines[line - 1]).as_slice()))
}

/// A member's expression under whatever holds it: an indexed member carries
/// on from its container's own spelling, anything else is reached through a
/// dot, and under a scope — which has no expression — a member is its own name.
pub open spec fn joined_spec(path: Seq<char>, name: Seq<char>) -> Seq<char> {
    if path.len() == 0 {
        name
    } else if name.len() > 0 && name[0] == '[' {
        path + name
    } else {
        path + seq!['.'] + name
    }
}

pub fn joined(path: &str, name: &str) -> (r: String)
    ensures
        r@ == joined_spec(path@, name@),
{
    let mut chars = chars_of(path);
    let tail = chars_of(name);
    if chars.len() == 0 {
        return string_of(tail.as_slice());
    }
    if !(tail.len() > 0 && tail[0] == '[') {
        chars.push('.');
    }
    crate::text::extend(&mut chars, &tail);
    string_of(chars.as_slice())
}

/// The display columns a character takes, nothing counted for one that has
/// no width.
pub open spec fn columns_of(c: char) -> int {
    match char_columns(c) {
        Some(w) => w as int,
        None => 0,
    }
}

/// A text cut to `columns` display columns: characters are kept while they
/// fit, and the first that would overrun ends it.
pub open spec fn clipped_spec(text: Seq<char>, columns: int) -> Seq<char>
    decreases text.len(),
{
    if text.len() == 0 || columns_of(text[0]) > columns {
        Seq::empty()
    } else {
        seq![text[0]] + clipped_spec(text.drop_first(), columns - columns_of(text[0]))
    }
}

/// `text` cut to `columns` display columns, because a wide glyph cut on a
/// character boundary still overruns the column it was cut to fit.
pub fn clipped(text: &str, columns: usize) -> (r: String)
    ensures
        r@ == clipped_spec(text@, columns as int),
{
    let chars = chars_of(text);
    let mut left = columns;
    let mut kept: Vec<char> = Vec::new();
    let mut i: usize = 0;
    let mut stopped = false;
    assert(chars@.skip(0) == chars@);
    assert(kept@ + clipped_spec(chars@, columns as int) == clipped_spec(chars@, columns as int));
    while i < chars.len() && !stopped
        invariant
            i <= chars.len(),
            !stopped ==> kept@ + clipped_spec(chars@.skip(i as int), left as int) == clipped_spec(chars@, columns as int),
            stopped ==> kept@ == clipped_spec(chars@, columns as int),
        decreases chars.len() - i + (if stopped { 0int } else { 1int }),
    {
        let c = chars[i];
        let width = match char_width(c) {
            Some(w) => w,
            None => 0,
        };
        let ghost rest = chars@.skip(i as int);
        assert(rest[0] == c);
        assert(rest.drop_first() == chars@.skip(i + 1));
        if width > left {
            assert(clipped_spec(rest, left as int) == Seq::<char>::empty());
            assert(kept@ + Seq::<char>::empty() == kept@);
            stopped = true;
        } else {
            left = left - width;
            let ghost before = kept@;
            kept.push(c);
            assert(before + clipped_spec(rest, (left + width) as int) == kept@ + clipped_spec(chars@.skip(i + 1), left as int));
            i = i + 1;
        }
    }
    proof {
        if !stopped {
            assert(chars@.skip(i as int) == Seq::<char>::empty());
            assert(kept@ + Seq::<char>::empty() == kept@);
        }
    }
    string_of(kept.as_slice())
}

/// The latest line opening a block that holds `line` below it, among `found`.
pub open spec fn latest_opening(found: Seq<Block>, line: int) -> Option<usize>
    decreases found.len(),
{
    if found.len() == 0 {
        None
    } else {
        let rest = latest_opening(found.drop_last(), line);
        let b = found.last();
        if b.from < line <= b.to {
            match rest {
                Some(r) => Some(if r >= b.from { r } else { b.from }),
                None => Some(b.from),
            }
        } else {
            rest
        }
    }
}

/// The line the Paused call opens on: the innermost block holding the Paused
/// line, read off the indentation folding already derives; line 1 for a line
/// in no block at all, a script's top level.
pub open spec fn call_start_spec(source: Seq<char>, line: int) -> int {
    match latest_opening(crate::fold::blocks_spec(source), line) {
        Some(from) => from as int,
        None => 1,
    }
}

pub fn call_start(source: &str, line: usize) -> (opens: usize)
    ensures
        opens == call_start_spec(source@, line as int),
{
    let found = blocks(source);
    let mut best: Option<usize> = None;
    let mut i: usize = 0;
    while i < found.len()
        invariant
            i <= found.len(),
            best == latest_opening(found@.take(i as int), line as int),
        decreases found.len() - i,
    {
        let b = found[i];
        assert(found@.take(i + 1).drop_last() == found@.take(i as int));
        assert(found@.take(i + 1).last() == b);
        if b.from < line && line <= b.to {
            best = match best {
                Some(r) => Some(if r >= b.from { r } else { b.from }),
                None => Some(b.from),
            };
        }
        i = i + 1;
    }
    assert(found@.take(found.len() as int) == found@);
    match best {
        Some(from) => from,
        None => 1,
    }
}

/// The first index at or after `i` whose character is not part of a name.
pub open spec fn name_run(line: Seq<char>, i: int) -> int
    decreases line.len() - i,
{
    if 0 <= i < line.len() && is_ident(line[i]) {
        name_run(line, i + 1)
    } else {
        i
    }
}

/// Back from `i` to the first character of the name it stands in.
pub open spec fn name_start(line: Seq<char>, i: int) -> int
    decreases i,
{
    if i > 0 && i - 1 < line.len() && is_ident(line[i - 1]) {
        name_start(line, i - 1)
    } else {
        i
    }
}

/// Where the group opened at `k` shuts, scanning forwards with `depth`
/// groups of its kind open: nothing when it never does.
pub open spec fn group_close(line: Seq<char>, open: char, close: char, k: int, depth: int) -> Option<int>
    decreases line.len() - k,
{
    if k < 0 || k >= line.len() {
        None
    } else if line[k] == open {
        group_close(line, open, close, k + 1, depth + 1)
    } else if line[k] == close {
        if depth - 1 == 0 {
            Some(k)
        } else {
            group_close(line, open, close, k + 1, depth - 1)
        }
    } else {
        group_close(line, open, close, k + 1, depth)
    }
}

/// Where the group shut at `k` opens, scanning backwards.
pub open spec fn group_open(line: Seq<char>, open: char, close: char, k: int, depth: int) -> Option<int>
    decreases k + 1,
{
    if k < 0 || k >= line.len() {
        None
    } else if line[k] == close {
        group_open(line, open, close, k - 1, depth + 1)
    } else if line[k] == open {
        if depth - 1 == 0 {
            Some(k)
        } else {
            group_open(line, open, close, k - 1, depth - 1)
        }
    } else {
        group_open(line, open, close, k - 1, depth)
    }
}

pub proof fn lemma_group_close(line: Seq<char>, open: char, close: char, k: int, depth: int)
    ensures
        match group_close(line, open, close, k, depth) {
            Some(at) => k <= at < line.len(),
            None => true,
        },
    decreases line.len() - k,
{
    if 0 <= k < line.len() {
        if line[k] == open {
            lemma_group_close(line, open, close, k + 1, depth + 1);
        } else if line[k] == close {
            if depth - 1 != 0 {
                lemma_group_close(line, open, close, k + 1, depth - 1);
            }
        } else {
            lemma_group_close(line, open, close, k + 1, depth);
        }
    }
}

pub proof fn lemma_group_open(line: Seq<char>, open: char, close: char, k: int, depth: int)
    ensures
        match group_open(line, open, close, k, depth) {
            Some(at) => 0 <= at <= k,
            None => true,
        },
    decreases k + 1,
{
    if 0 <= k < line.len() {
        if line[k] == close {
            lemma_group_open(line, open, close, k - 1, depth + 1);
        } else if line[k] == open {
            if depth - 1 != 0 {
                lemma_group_open(line, open, close, k - 1, depth - 1);
            }
        } else {
            lemma_group_open(line, open, close, k - 1, depth);
        }
    }
}

/// The partner of an opening bracket of a group a name carries.
pub open spec fn group_partner(c: char) -> char {
    if c == '(' { ')' } else { ']' }
}

/// On from `to` through the chain an expression continues into: the groups
/// each name carries — a call's arguments, an index — balanced, and the names
/// after a dot. An unbalanced group, or a dot with no name after it, ends the
/// chain where it stands.
pub open spec fn chain_from(line: Seq<char>, to: int) -> int
    decreases line.len() - to,
{
    if 0 <= to < line.len() && (line[to] == '(' || line[to] == '[') {
        match group_close(line, line[to], group_partner(line[to]), to, 0) {
            None => to,
            Some(at) => {
                proof {
                    lemma_group_close(line, line[to], group_partner(line[to]), to, 0);
                }
                chain_from(line, at + 1)
            },
        }
    } else if !(0 <= to < line.len() && line[to] == '.') {
        to
    } else {
        let after = name_run(line, to + 1);
        if after <= to + 1 {
            to
        } else {
            proof {
                lemma_name_run(line, to + 1);
            }
            chain_from(line, after)
        }
    }
}

/// Where the expression ending at `at` begins: a name, or a name followed by
/// as many bracketed groups as it carries, read right to left. Nothing where
/// what ends there is not an expression at all.
pub open spec fn ends_at_spec(line: Seq<char>, at: int) -> Option<int>
    decreases at + 1,
{
    if at < 0 || at >= line.len() {
        None
    } else if line[at] == ')' || line[at] == ']' {
        let opener = if line[at] == ')' { '(' } else { '[' };
        match group_open(line, opener, line[at], at, 0) {
            None => None,
            Some(o) => {
                proof {
                    lemma_group_open(line, opener, line[at], at, 0);
                }
                if o == 0 {
                    None
                } else {
                    ends_at_spec(line, o - 1)
                }
            },
        }
    } else if is_ident(line[at]) {
        Some(name_start(line, at))
    } else {
        None
    }
}

pub proof fn lemma_name_run(line: Seq<char>, i: int)
    requires
        0 <= i <= line.len(),
    ensures
        i <= name_run(line, i) <= line.len(),
    decreases line.len() - i,
{
    if i < line.len() && is_ident(line[i]) {
        lemma_name_run(line, i + 1);
    }
}

pub proof fn lemma_name_start(line: Seq<char>, i: int)
    requires
        0 <= i <= line.len(),
    ensures
        0 <= name_start(line, i) <= i,
    decreases i,
{
    if i > 0 && is_ident(line[i - 1]) {
        lemma_name_start(line, i - 1);
    }
}

pub proof fn lemma_ends_at(line: Seq<char>, at: int)
    ensures
        match ends_at_spec(line, at) {
            Some(r) => 0 <= r <= at,
            None => true,
        },
    decreases at + 1,
{
    if 0 <= at < line.len() {
        if line[at] == ')' || line[at] == ']' {
            let opener = if line[at] == ')' { '(' } else { '[' };
            lemma_group_open(line, opener, line[at], at, 0);
            if let Some(o) = group_open(line, opener, line[at], at, 0) {
                if o > 0 {
                    lemma_ends_at(line, o - 1);
                }
            }
        } else if is_ident(line[at]) {
            lemma_name_start(line, at);
        }
    }
}

pub proof fn lemma_chain_from(line: Seq<char>, to: int)
    requires
        0 <= to <= line.len(),
    ensures
        to <= chain_from(line, to) <= line.len(),
    decreases line.len() - to,
{
    if 0 <= to < line.len() && (line[to] == '(' || line[to] == '[') {
        lemma_group_close(line, line[to], group_partner(line[to]), to, 0);
        if let Some(at) = group_close(line, line[to], group_partner(line[to]), to, 0) {
            lemma_chain_from(line, at + 1);
        }
    } else if 0 <= to < line.len() && line[to] == '.' {
        lemma_name_run(line, to + 1);
        let after = name_run(line, to + 1);
        if after > to + 1 {
            lemma_chain_from(line, after);
        }
    }
}

/// Back through the receivers a field is read off, from a name starting at
/// `from`: each receiver — a name, a call or an index — comes too.
pub open spec fn receivers(line: Seq<char>, from: int) -> int
    decreases from,
{
    if from > 1 && from - 1 < line.len() && line[from - 1] == '.' {
        match ends_at_spec(line, from - 2) {
            None => from,
            Some(r) => {
                proof {
                    lemma_ends_at(line, from - 2);
                }
                receivers(line, r)
            },
        }
    } else {
        from
    }
}

pub proof fn lemma_receivers(line: Seq<char>, from: int)
    requires
        0 <= from <= line.len(),
    ensures
        0 <= receivers(line, from) <= from,
    decreases from,
{
    if from > 1 && line[from - 1] == '.' {
        lemma_ends_at(line, from - 2);
        if let Some(r) = ends_at_spec(line, from - 2) {
            lemma_receivers(line, r);
        }
    }
}

pub open spec fn ascii_digit(c: char) -> bool {
    48 <= (c as u32) <= 57
}

/// The expression the syntax under a column of a line names, and the column
/// it starts at: the name under it, the receivers it is read off, and the
/// call it opens, balanced. A place that is not in a name, and a name that
/// starts with a digit — a literal — name nothing.
pub open spec fn expression_at_spec(line: Seq<char>, column: int) -> Option<(Seq<char>, int)> {
    let on = column - 1;
    if column < 1 || on >= line.len() || !is_ident(line[on]) {
        None
    } else {
        let first = name_start(line, on);
        let end = name_run(line, on + 1);
        if ascii_digit(line[first]) {
            None
        } else {
            let from = receivers(line, first);
            let to = if end < line.len() && line[end] == '(' {
                match group_close(line, '(', ')', end, 0) {
                    Some(at) => at + 1,
                    None => end,
                }
            } else {
                end
            };
            Some((line.subrange(from, to), from + 1))
        }
    }
}

fn name_run_exec(line: &Vec<char>, i: usize) -> (r: usize)
    requires
        i <= line.len(),
    ensures
        r == name_run(line@, i as int),
        i <= r <= line.len(),
{
    let mut k = i;
    while k < line.len() && ident_char(line[k])
        invariant
            i <= k <= line.len(),
            name_run(line@, i as int) == name_run(line@, k as int),
        decreases line.len() - k,
    {
        k = k + 1;
    }
    k
}

fn name_start_exec(line: &Vec<char>, i: usize) -> (r: usize)
    requires
        i <= line.len(),
    ensures
        r == name_start(line@, i as int),
        r <= i,
{
    let mut k = i;
    while k > 0 && ident_char(line[k - 1])
        invariant
            k <= i <= line.len(),
            name_start(line@, i as int) == name_start(line@, k as int),
        decreases k,
    {
        k = k - 1;
    }
    k
}

fn group_close_exec(line: &Vec<char>, open: char, close: char, from: usize) -> (r: Option<usize>)
    requires
        from < line.len(),
        line@[from as int] == open,
        open != close,
    ensures
        match r {
            Some(at) => group_close(line@, open, close, from as int, 0) == Some(at as int),
            None => group_close(line@, open, close, from as int, 0) is None,
        },
{
    let mut depth: usize = 1;
    let mut k = from + 1;
    while k < line.len()
        invariant
            from < k <= line.len(),
            1 <= depth <= k - from,
            group_close(line@, open, close, from as int, 0) == group_close(line@, open, close, k as int, depth as int),
        decreases line.len() - k,
    {
        let c = line[k];
        if c == open {
            depth = depth + 1;
        } else if c == close {
            if depth == 1 {
                return Some(k);
            }
            depth = depth - 1;
        }
        k = k + 1;
    }
    None
}

fn group_open_exec(line: &Vec<char>, open: char, close: char, from: usize) -> (r: Option<usize>)
    requires
        from < line.len(),
        line@[from as int] == close,
        open != close,
    ensures
        match r {
            Some(at) => group_open(line@, open, close, from as int, 0) == Some(at as int),
            None => group_open(line@, open, close, from as int, 0) is None,
        },
{
    let mut depth: usize = 1;
    let mut k = from;
    while k > 0
        invariant
            k <= from < line.len(),
            1 <= depth <= from - k + 1,
            group_open(line@, open, close, from as int, 0) == group_open(line@, open, close, k - 1, depth as int),
        decreases k,
    {
        let c = line[k - 1];
        if c == close {
            depth = depth + 1;
        } else if c == open {
            if depth == 1 {
                return Some(k - 1);
            }
            depth = depth - 1;
        }
        k = k - 1;
    }
    None
}

/// On through the chain the expression continues into: `.len()` after
/// `orders`, and the groups each name in it carries, balanced so a call
/// taking a call is one expression.
fn chain_end(line: &Vec<char>, to: usize) -> (end: usize)
    requires
        to <= line.len(),
    ensures
        end == chain_from(line@, to as int),
        to <= end <= line.len(),
{
    let mut at = to;
    proof {
        lemma_chain_from(line@, to as int);
    }
    loop
        invariant
            to <= at <= line.len(),
            chain_from(line@, to as int) == chain_from(line@, at as int),
        decreases line.len() - at,
    {
        proof {
            lemma_chain_from(line@, at as int);
        }
        if at < line.len() && (line[at] == '(' || line[at] == '[') {
            let open = line[at];
            let close = if open == '(' { ')' } else { ']' };
            match group_close_exec(line, open, close, at) {
                None => return at,
                Some(shut) => {
                    proof {
                        lemma_group_close(line@, open, close, at as int, 0);
                    }
                    at = shut + 1;
                },
            }
        } else if !(at < line.len() && line[at] == '.') {
            return at;
        } else {
            let after = name_run_exec(line, at + 1);
            if after <= at + 1 {
                return at;
            }
            at = after;
        }
    }
}

/// Where the expression ending at `last` begins, or nothing where what ends
/// there is not an expression.
fn ends_at(line: &Vec<char>, last: usize) -> (r: Option<usize>)
    ensures
        match r {
            Some(at) => ends_at_spec(line@, last as int) == Some(at as int),
            None => ends_at_spec(line@, last as int) is None,
        },
{
    let mut at = last;
    loop
        invariant
            ends_at_spec(line@, last as int) == ends_at_spec(line@, at as int),
        decreases at,
    {
        if at >= line.len() {
            return None;
        }
        let c = line[at];
        if c == ')' || c == ']' {
            let opener = if c == ')' { '(' } else { '[' };
            match group_open_exec(line, opener, c, at) {
                None => return None,
                Some(o) => {
                    proof {
                        lemma_group_open(line@, opener, c, at as int, 0);
                    }
                    if o == 0 {
                        return None;
                    }
                    at = o - 1;
                },
            }
        } else if ident_char(c) {
            return Some(name_start_exec(line, at));
        } else {
            return None;
        }
    }
}

fn receivers_exec(line: &Vec<char>, first: usize) -> (r: usize)
    requires
        first <= line.len(),
    ensures
        r == receivers(line@, first as int),
        r <= first,
{
    let mut from = first;
    proof {
        lemma_receivers(line@, first as int);
    }
    while from > 1 && line[from - 1] == '.'
        invariant
            from <= first <= line.len(),
            receivers(line@, first as int) == receivers(line@, from as int),
        decreases from,
    {
        match ends_at(line, from - 2) {
            None => {
                return from;
            },
            Some(r) => {
                proof {
                    lemma_ends_at(line@, from - 2);
                }
                from = r;
            },
        }
    }
    from
}

fn expression_in(line: &Vec<char>, column: usize) -> (r: Option<(Vec<char>, usize)>)
    ensures
        match r {
            Some((text, at)) => expression_at_spec(line@, column as int) == Some((text@, at as int)),
            None => expression_at_spec(line@, column as int) is None,
        },
{
    if column == 0 {
        return None;
    }
    let on = column - 1;
    if !(on < line.len() && ident_char(line[on])) {
        return None;
    }
    let first = name_start_exec(line, on);
    let end = name_run_exec(line, on + 1);
    let lead = line[first];
    let code = lead as u32;
    assert(lead == line@[first as int]);
    if 48 <= code && code <= 57 {
        return None;
    }
    let from = receivers_exec(line, first);
    let to = if end < line.len() && line[end] == '(' {
        match group_close_exec(line, '(', ')', end) {
            Some(at) => {
                proof {
                    lemma_group_close(line@, '(', ')', end as int, 0);
                }
                at + 1
            },
            None => end,
        }
    } else {
        end
    };
    Some((slice_of(line, from, to), from + 1))
}

/// The expression the syntax under a place of a line names, and the column
/// it starts at: `order.total` where the place is on `total`, and the whole
/// call where it is on the name of one. A place that is not in a name is no
/// expression at all.
pub fn expression_at(line: &str, column: usize) -> (r: Option<(String, usize)>)
    ensures
        match r {
            Some((text, at)) => expression_at_spec(line@, column as int) == Some((text@, at as int)),
            None => expression_at_spec(line@, column as int) is None,
        },
{
    let chars = chars_of(line);
    match expression_in(&chars, column) {
        Some((text, at)) => Some((string_of(text.as_slice()), at)),
        None => None,
    }
}

/// What the Evaluator opens on: the selection if there is one, and otherwise
/// the whole expression the cursor stands in, on through the chain it
/// continues into.
pub open spec fn cursor_expression_spec(selected: Option<Seq<char>>, line: Seq<char>, column: int) -> Seq<char> {
    match selected {
        Some(text) if text.len() > 0 => text,
        _ => match expression_at_spec(line, column) {
            None => Seq::empty(),
            Some((expression, at)) => line.subrange(at - 1, chain_from(line, at - 1 + expression.len())),
        },
    }
}

/// What the Evaluator opens on, given the selected text, the caret's line
/// and its column: the selection if there is one, and otherwise the whole
/// expression the caret stands in — `orders.len()` with the caret on
/// `orders`, where a Hover would name `orders` alone.
pub fn cursor_expression(selected: Option<&str>, line: &str, column: usize) -> (r: String)
    ensures
        r@ == cursor_expression_spec(
            match selected {
                Some(s) => Some(s@),
                None => None,
            },
            line@,
            column as int,
        ),
{
    if let Some(text) = selected {
        let chars = chars_of(text);
        if chars.len() > 0 {
            return string_of(chars.as_slice());
        }
    }
    let chars = chars_of(line);
    match expression_in(&chars, column) {
        None => String::new(),
        Some((expression, at)) => {
            proof {
                let on = column - 1;
                let first = name_start(chars@, on as int);
                lemma_name_start(chars@, on as int);
                lemma_receivers(chars@, first);
                let end = name_run(chars@, on + 1);
                lemma_name_run(chars@, on + 1);
                if end < chars@.len() && chars@[end] == '(' {
                    lemma_group_close(chars@, '(', ')', end, 0);
                }
            }
            let from = at - 1;
            let to = chain_end(&chars, from + expression.len());
            string_of(slice_of(&chars, from, to).as_slice())
        },
    }
}

/// Where a hunk starts on one side, as a line it covers: a hunk covering no
/// lines there names the line it sits after.
pub open spec fn hunk_start(at: u32, lines: u32) -> int {
    at as int + if lines == 0 { 1int } else { 0int }
}

/// A line carried through zero-context hunks, with `offset` the lines the
/// hunks above it have added less the ones they took: a line above a hunk
/// moves by the offset so far; a line inside one was replaced, kept where the
/// replacement has a line in its place and gone where it has not; a line past
/// every hunk moves by the whole offset.
pub open spec fn carried_spec(hunks: Seq<(u32, u32, u32, u32)>, line: int, offset: int) -> Option<int>
    decreases hunks.len(),
{
    if hunks.len() == 0 || line < hunk_start(hunks[0].0, hunks[0].1) {
        if 0 <= line + offset <= usize::MAX { Some(line + offset) } else { None }
    } else {
        let h = hunks[0];
        let old_start = hunk_start(h.0, h.1);
        if line >= old_start + h.1 {
            carried_spec(hunks.drop_first(), line, offset + h.3 - h.1)
        } else if line - old_start < h.3 {
            Some(hunk_start(h.2, h.3) + (line - old_start))
        } else {
            None
        }
    }
}

/// What the machine's numbers ask of hunks: every place they name fits.
pub open spec fn hunks_fit(hunks: Seq<(u32, u32, u32, u32)>) -> bool {
    forall|i: int| 0 <= i < hunks.len() ==> hunk_start((#[trigger] hunks[i]).0, hunks[i].1) + hunks[i].1 <= usize::MAX
        && hunk_start(hunks[i].2, hunks[i].3) + hunks[i].3 <= usize::MAX
}

/// A line carried from the old text to the new through the hunks between
/// them, or nothing for a line whose own line was deleted.
pub fn carried(hunks: &[(u32, u32, u32, u32)], line: usize) -> (r: Option<usize>)
    requires
        hunks_fit(hunks@),
        line <= isize::MAX,
    ensures
        match r {
            Some(l) => carried_spec(hunks@, line as int, 0) == Some(l as int),
            None => carried_spec(hunks@, line as int, 0) is None,
        },
{
    let mut offset: i128 = 0;
    let mut i: usize = 0;
    assert(hunks@.skip(0) == hunks@);
    while i < hunks.len()
        invariant
            i <= hunks.len(),
            hunks_fit(hunks@),
            line <= isize::MAX,
            -(i as int) * 0x1_0000_0000 <= offset <= (i as int) * 0x1_0000_0000,
            i <= usize::MAX,
            carried_spec(hunks@, line as int, 0) == carried_spec(hunks@.skip(i as int), line as int, offset as int),
        decreases hunks.len() - i,
    {
        let (old_at, old_lines, new_at, new_lines) = hunks[i];
        assert(hunks@.skip(i as int)[0] == hunks@[i as int]);
        assert(hunks@.skip(i as int).drop_first() == hunks@.skip(i + 1));
        assert(hunk_start(hunks@[i as int].0, hunks@[i as int].1) + hunks@[i as int].1 <= usize::MAX);
        let old_start: usize = old_at as usize + if old_lines == 0 { 1 } else { 0 };
        let new_start: usize = new_at as usize + if new_lines == 0 { 1 } else { 0 };
        assert(hunk_start(hunks@[i as int].2, hunks@[i as int].3) + hunks@[i as int].3 <= usize::MAX);
        if line < old_start {
            return shifted(line, offset);
        }
        if line >= old_start + old_lines as usize {
            offset = offset + new_lines as i128 - old_lines as i128;
            proof {
                assert(-(i + 1) * 0x1_0000_0000 == -(i as int) * 0x1_0000_0000 - 0x1_0000_0000) by (nonlinear_arith);
                assert((i + 1) * 0x1_0000_0000 == (i as int) * 0x1_0000_0000 + 0x1_0000_0000) by (nonlinear_arith);
            }
            i = i + 1;
            continue;
        }
        let within = line - old_start;
        if within < new_lines as usize {
            return Some(new_start + within);
        }
        return None;
    }
    shifted(line, offset)
}

fn shifted(line: usize, offset: i128) -> (r: Option<usize>)
    requires
        -0x1_0000_0000_0000_0000_0000_0000 <= offset <= 0x1_0000_0000_0000_0000_0000_0000,
    ensures
        match r {
            Some(l) => 0 <= line + offset <= usize::MAX && l == line + offset,
            None => !(0 <= line + offset <= usize::MAX),
        },
{
    let moved: i128 = line as i128 + offset;
    if moved >= 0 && moved <= usize::MAX as i128 {
        Some(moved as usize)
    } else {
        None
    }
}

impl View for Breakpoint {
    type V = (Seq<char>, usize, Seq<char>, bool);

    open spec fn view(&self) -> (Seq<char>, usize, Seq<char>, bool) {
        (self.file@, self.line, self.text@, self.stale)
    }
}

/// `file`'s Breakpoints carried from the old text to the new through the
/// hunks between them: others left alone; one whose own line was deleted
/// gone; the rest on the line their line moved to, a current one taking the
/// text that line now holds and a stale one keeping what it remembered.
pub open spec fn followed(
    breakpoints: Seq<(Seq<char>, usize, Seq<char>, bool)>,
    file: Seq<char>,
    new: Seq<char>,
    hunks: Seq<(u32, u32, u32, u32)>,
) -> Seq<(Seq<char>, usize, Seq<char>, bool)>
    decreases breakpoints.len(),
{
    if breakpoints.len() == 0 {
        Seq::empty()
    } else {
        let rest = followed(breakpoints.drop_last(), file, new, hunks);
        let b = breakpoints.last();
        if b.0 != file {
            rest.push(b)
        } else {
            match carried_spec(hunks, b.1 as int, 0) {
                None => rest,
                Some(line) => rest.push((
                    b.0,
                    line as usize,
                    if b.3 {
                        b.2
                    } else {
                        match held_spec(new, line) {
                            Some(t) => t,
                            None => Seq::empty(),
                        }
                    },
                    b.3,
                )),
            }
        }
    }
}

/// Carries `file`'s Breakpoints from the text the hunks were taken from to
/// `new`, given the hunks between the two.
pub fn follow_hunks(breakpoints: &mut Vec<Breakpoint>, file: &str, new: &str, hunks: &[(u32, u32, u32, u32)])
    requires
        hunks_fit(hunks@),
        forall|i: int| 0 <= i < old(breakpoints)@.len() ==> (#[trigger] old(breakpoints)@[i]).line <= isize::MAX,
    ensures
        final(breakpoints)@.map_values(|b: Breakpoint| b@) == followed(
            old(breakpoints)@.map_values(|b: Breakpoint| b@),
            file@,
            new@,
            hunks@,
        ),
{
    let ghost start = breakpoints@.map_values(|b: Breakpoint| b@);
    let named = chars_of(file);
    let mut kept: Vec<Breakpoint> = Vec::new();
    let mut i: usize = 0;
    while i < breakpoints.len()
        invariant
            i <= breakpoints.len(),
            hunks_fit(hunks@),
            named@ == file@,
            start == breakpoints@.map_values(|b: Breakpoint| b@),
            forall|j: int| 0 <= j < breakpoints@.len() ==> (#[trigger] breakpoints@[j]).line <= isize::MAX,
            kept@.map_values(|b: Breakpoint| b@) == followed(start.take(i as int), file@, new@, hunks@),
        decreases breakpoints.len() - i,
    {
        let b = &breakpoints[i];
        let ghost before = kept@.map_values(|b: Breakpoint| b@);
        assert(start.take(i + 1).drop_last() == start.take(i as int));
        assert(start.take(i + 1).last() == b@);
        let own = chars_of(b.file.as_str());
        if !crate::text::same_chars(&own, &named) {
            kept.push(Breakpoint { file: crate::text::owned(b.file.as_str()), line: b.line, text: crate::text::owned(b.text.as_str()), stale: b.stale });
            assert(kept@.map_values(|b: Breakpoint| b@) =~= before.push(start[i as int]));
        } else {
            match carried(hunks, b.line) {
                None => {},
                Some(line) => {
                    let text = if b.stale {
                        crate::text::owned(b.text.as_str())
                    } else {
                        match held(new, line) {
                            Some(t) => t,
                            None => String::new(),
                        }
                    };
                    let ghost t = text@;
                    kept.push(Breakpoint { file: crate::text::owned(b.file.as_str()), line, text, stale: b.stale });
                    assert(kept@.map_values(|b: Breakpoint| b@) =~= before.push((start[i as int].0, line, t, start[i as int].3)));
                },
            }
        }
        i = i + 1;
    }
    assert(start.take(breakpoints.len() as int) == start);
    *breakpoints = kept;
}

/// Carries `file`'s Breakpoints from the text `before` to the text `after`: down or up with the
/// lines inserted or deleted above them, off the list with their own line
/// deleted. A line edited in place keeps its Breakpoint, and one that holds
/// its text takes the line's new text with it. Nothing moves where the two
/// texts could not be diffed.
pub fn follow(breakpoints: &mut Vec<Breakpoint>, file: &str, before: &str, after: &str)
    requires
        forall|i: int| 0 <= i < old(breakpoints)@.len() ==> (#[trigger] old(breakpoints)@[i]).line <= isize::MAX,
    ensures
        match crate::hunks::zero_context_hunks(before@, after@) {
            Some(h) => hunks_fit(h) ==> final(breakpoints)@.map_values(|b: Breakpoint| b@) == followed(
                old(breakpoints)@.map_values(|b: Breakpoint| b@),
                file@,
                after@,
                h,
            ),
            None => final(breakpoints)@ == old(breakpoints)@,
        },
{
    let hunks = match crate::hunks::changed_hunks(before, after) {
        Some(h) => h,
        None => return,
    };
    if !fits(&hunks) {
        return;
    }
    follow_hunks(breakpoints, file, after, hunks.as_slice());
}

/// Whether every place the hunks name fits the machine's numbers.
fn fits(hunks: &Vec<(u32, u32, u32, u32)>) -> (r: bool)
    ensures
        r == hunks_fit(hunks@),
{
    let mut i: usize = 0;
    while i < hunks.len()
        invariant
            i <= hunks.len(),
            forall|j: int| 0 <= j < i ==> hunk_start((#[trigger] hunks@[j]).0, hunks@[j].1) + hunks@[j].1 <= usize::MAX
                && hunk_start(hunks@[j].2, hunks@[j].3) + hunks@[j].3 <= usize::MAX,
        decreases hunks.len() - i,
    {
        let (a, b, c, d) = hunks[i];
        let first: u128 = a as u128 + if b == 0 { 1 } else { 0 } + b as u128;
        let second: u128 = c as u128 + if d == 0 { 1 } else { 0 } + d as u128;
        if first > usize::MAX as u128 || second > usize::MAX as u128 {
            assert(!(hunk_start(hunks@[i as int].0, hunks@[i as int].1) + hunks@[i as int].1 <= usize::MAX
                && hunk_start(hunks@[i as int].2, hunks@[i as int].3) + hunks@[i as int].3 <= usize::MAX));
            return false;
        }
        i = i + 1;
    }
    true
}

/// A Watch joins the Watches unless its expression is empty or already one of
/// them; `true` when it joined and is to be evaluated.
pub fn add_watch(watches: &mut Vec<Watch>, expression: String) -> (joined: bool)
    ensures
        joined == !(expression@.len() == 0 || exists|i: int| 0 <= i < old(watches)@.len() && (#[trigger] old(watches)@[i]).expression@ == expression@),
        joined ==> final(watches)@.len() == old(watches)@.len() + 1
            && final(watches)@.take(old(watches)@.len() as int) == old(watches)@
            && final(watches)@.last().expression@ == expression@
            && final(watches)@.last().answer == Answer::Waiting,
        !joined ==> final(watches)@ == old(watches)@,
{
    let wanted = chars_of(expression.as_str());
    if wanted.len() == 0 {
        return false;
    }
    let mut i: usize = 0;
    while i < watches.len()
        invariant
            i <= watches.len(),
            wanted@ == expression@,
            forall|j: int| 0 <= j < i ==> (#[trigger] watches@[j]).expression@ != expression@,
        decreases watches.len() - i,
    {
        let have = chars_of(watches[i].expression.as_str());
        if crate::text::same_chars(&have, &wanted) {
            return false;
        }
        i = i + 1;
    }
    watches.push(Watch { expression, answer: Answer::Waiting });
    assert(watches@.take(old(watches)@.len() as int) == old(watches)@);
    true
}

/// The remove-watch Chip on a Watch's row: the Watch at `index` goes, and an
/// index past the Watches removes nothing.
pub fn remove_watch(watches: &mut Vec<Watch>, index: usize)
    ensures
        final(watches)@ == (if index < old(watches)@.len() { old(watches)@.remove(index as int) } else { old(watches)@ }),
{
    if index < watches.len() {
        watches.remove(index);
    }
}

/// The Breakpoints of every file but one, in order.
pub open spec fn others(breakpoints: Seq<(Seq<char>, usize, Seq<char>, bool)>, file: Seq<char>) -> Seq<(Seq<char>, usize, Seq<char>, bool)>
    decreases breakpoints.len(),
{
    if breakpoints.len() == 0 {
        Seq::empty()
    } else if breakpoints.last().0 != file {
        others(breakpoints.drop_last(), file).push(breakpoints.last())
    } else {
        others(breakpoints.drop_last(), file)
    }
}

/// Following an edit to one file leaves every other file's Breakpoints
/// exactly as they were, in the order they were; and a stale Breakpoint of
/// the edited file that survives keeps the text it was remembered with.
pub proof fn law_an_edit_leaves_other_files_breakpoints_alone(
    breakpoints: Seq<(Seq<char>, usize, Seq<char>, bool)>,
    file: Seq<char>,
    new: Seq<char>,
    hunks: Seq<(u32, u32, u32, u32)>,
)
    ensures
        others(followed(breakpoints, file, new, hunks), file) == others(breakpoints, file),
        forall|k: int| 0 <= k < followed(breakpoints, file, new, hunks).len() ==> {
            let b = #[trigger] followed(breakpoints, file, new, hunks)[k];
            b.3 && b.0 == file ==> exists|i: int| 0 <= i < breakpoints.len() && breakpoints[i].3 && breakpoints[i].0 == file && breakpoints[i].2 == b.2
        },
    decreases breakpoints.len(),
{
    if breakpoints.len() > 0 {
        let rest = breakpoints.drop_last();
        law_an_edit_leaves_other_files_breakpoints_alone(rest, file, new, hunks);
        let f = followed(rest, file, new, hunks);
        let b = breakpoints.last();
        let whole = followed(breakpoints, file, new, hunks);
        if b.0 != file {
            assert(whole == f.push(b));
            assert(whole.drop_last() == f);
        } else {
            match carried_spec(hunks, b.1 as int, 0) {
                None => {},
                Some(line) => {
                    let c = whole.last();
                    assert(whole.drop_last() == f);
                    assert(c.0 == file);
                },
            }
        }
        assert forall|k: int| 0 <= k < whole.len() implies {
            let x = #[trigger] whole[k];
            x.3 && x.0 == file ==> exists|i: int| 0 <= i < breakpoints.len() && breakpoints[i].3 && breakpoints[i].0 == file && breakpoints[i].2 == x.2
        } by {
            let x = whole[k];
            if k < f.len() {
                assert(whole[k] == f[k]);
                if x.3 && x.0 == file {
                    let i = choose|i: int| 0 <= i < rest.len() && rest[i].3 && rest[i].0 == file && rest[i].2 == x.2;
                    assert(breakpoints[i] == rest[i]);
                }
            } else if x.3 && x.0 == file {
                assert(breakpoints[breakpoints.len() - 1] == b);
            }
        }
    }
}


/// One member of the Variables tree as the adapter named it.
#[derive(Debug, Clone, PartialEq, Eq)]
pub struct Member {
    pub name: String,
    pub value: String,
    /// What to ask for this member's children by; 0 for one that has none.
    pub reference: i64,
    pub hint: Hint,
    /// How many indexed children the adapter says it has; 0 where it did not
    /// count them.
    pub indexed: usize,
}

/// One thread stopped, the call stack it stopped in, which Frame is being
/// inspected, and the part of that Frame's tree that has arrived: its scopes,
/// the children fetched under every reference opened so far, which references
/// are open, and how many children of each have come.
#[derive(Debug, Clone, PartialEq, Eq)]
pub struct Pause {
    pub thread: i64,
    pub why: Why,
    /// What the adapter said paused it, where it said anything.
    pub exception: Option<String>,
    pub frames: Vec<Frame>,
    pub chosen: usize,
    pub scopes: Vec<Member>,
    pub children: BTreeMap<i64, Vec<Member>>,
    pub open: BTreeSet<i64>,
    pub fetched: BTreeMap<i64, usize>,
}

/// Where a session has got to.
#[derive(Debug, Clone, PartialEq, Eq)]
pub enum Phase {
    Spawning,
    Initializing,
    Starting,
    /// Running, holding what the last pause showed, if there was one.
    Running(Option<Pause>),
    Paused(Pause),
    Stopping,
}

/// A row as the contracts read it: its texts as characters, the rest as is.
pub type RowView = (Seq<char>, Seq<char>, usize, Hint, bool, Opens, Seq<char>, i64, Of);

/// A member as the contracts read it: name, value, reference, hint, and how
/// many indexed children it has.
pub type MemberView = (Seq<char>, Seq<char>, i64, Hint, usize);

impl View for Member {
    type V = MemberView;

    open spec fn view(&self) -> MemberView {
        (self.name@, self.value@, self.reference, self.hint, self.indexed)
    }
}

pub open spec fn members_view(members: Seq<Member>) -> Seq<MemberView> {
    members.map_values(|m: Member| m@)
}

impl View for Row {
    type V = RowView;

    open spec fn view(&self) -> Self::V {
        (self.name@, self.value@, self.depth, self.hint, self.open, self.opens, self.expression@, self.parent, self.of)
    }
}

pub open spec fn rows_view(rows: Seq<Row>) -> Seq<RowView> {
    rows.map_values(|r: Row| r@)
}

/// Whether a member is drawn open: it has children to ask for, the reader
/// opened it, and it is not one of the members it stands under, since the
/// references are the adapter's and one that holds itself would otherwise
/// open forever.
pub open spec fn member_open(p: Pause, m: MemberView, walked: Seq<i64>) -> bool {
    m.2 != 0 && p.open@.contains(m.2) && !walked.contains(m.2)
}

/// A scope is a heading with no expression of its own; a member below one is
/// its path in the program's own language.
pub open spec fn member_expression(depth: usize, path: Seq<char>, name: Seq<char>) -> Seq<char> {
    if depth == 0 {
        Seq::empty()
    } else {
        joined_spec(path, name)
    }
}

pub open spec fn opens_of(m: MemberView) -> Opens {
    if m.2 == 0 {
        Opens::Nothing
    } else {
        Opens::Children { reference: m.2, indexed: m.4 }
    }
}

/// The reference of what holds a member: the last one walked through, none
/// at the top.
pub open spec fn parent_of(walked: Seq<i64>) -> i64 {
    if walked.len() == 0 {
        0
    } else {
        walked.last()
    }
}

pub open spec fn member_row(p: Pause, m: MemberView, depth: usize, path: Seq<char>, walked: Seq<i64>) -> RowView {
    (
        m.0,
        m.1,
        depth,
        m.3,
        member_open(p, m, walked),
        opens_of(m),
        member_expression(depth, path, m.0),
        parent_of(walked),
        Of::Member,
    )
}

/// How many children of a reference have arrived.
pub open spec fn fetched_of(p: Pause, reference: i64) -> usize {
    if p.fetched@.contains_key(reference) {
        p.fetched@[reference]
    } else {
        0
    }
}

pub open spec fn more_words() -> Seq<char> {
    seq![' ', 'm', 'o', 'r', 'e']
}

/// The row standing for the part of a collection not asked for yet.
pub open spec fn more_row(m: MemberView, fetched: usize, depth: usize) -> RowView {
    (
        crate::editor::decimal((m.4 - fetched) as nat) + more_words(),
        Seq::empty(),
        (depth + 1) as usize,
        Hint::Plain,
        false,
        Opens::NextPage { reference: m.2, start: fetched },
        Seq::empty(),
        m.2,
        Of::Member,
    )
}

/// A member's row and, while it is open, the rows of every child that has
/// arrived under it, then the row for the rest of its page.
pub open spec fn drawn(p: Pause, m: MemberView, depth: usize, path: Seq<char>, walked: Seq<i64>) -> Seq<RowView>
    decreases p.children@.dom().len() - walked.len(), 0int,
{
    let row = member_row(p, m, depth, path, walked);
    if !member_open(p, m, walked) {
        seq![row]
    } else {
        let expression = member_expression(depth, path, m.0);
        let kids = if p.children@.contains_key(m.2) && walked.len() < p.children@.dom().len() {
            drawn_each(p, members_view(p.children@[m.2]@), (depth + 1) as usize, expression, walked.push(m.2), 0)
        } else {
            Seq::empty()
        };
        let fetched = fetched_of(p, m.2);
        seq![row] + kids + if fetched < m.4 {
            seq![more_row(m, fetched, depth)]
        } else {
            Seq::empty()
        }
    }
}

/// The rows of `members[k..]`, each drawn in turn.
pub open spec fn drawn_each(p: Pause, members: Seq<MemberView>, depth: usize, path: Seq<char>, walked: Seq<i64>, k: int) -> Seq<RowView>
    decreases p.children@.dom().len() - walked.len(), members.len() - k + 1,
{
    if k < 0 || k >= members.len() {
        Seq::empty()
    } else {
        drawn(p, members[k], depth, path, walked) + drawn_each(p, members, depth, path, walked, k + 1)
    }
}

/// What walking through members keeps: each reference stood under once, and
/// each one a reference whose children have arrived.
pub open spec fn walk_ok(p: Pause, walked: Seq<i64>) -> bool {
    &&& walked.no_duplicates()
    &&& forall|i: int| 0 <= i < walked.len() ==> p.children@.contains_key(#[trigger] walked[i])
}

proof fn lemma_walk_shorter(p: Pause, walked: Seq<i64>, reference: i64)
    requires
        walk_ok(p, walked),
        p.children@.contains_key(reference),
        !walked.contains(reference),
    ensures
        walked.len() < p.children@.dom().len(),
        walk_ok(p, walked.push(reference)),
{
    let longer = walked.push(reference);
    assert(longer.no_duplicates()) by {
        assert forall|i: int, j: int| 0 <= i < longer.len() && 0 <= j < longer.len() && i != j implies longer[i] != longer[j] by {
            if i == walked.len() {
                assert(longer[j] == walked[j]);
            } else if j == walked.len() {
                assert(longer[i] == walked[i]);
            } else {
                assert(longer[i] == walked[i] && longer[j] == walked[j]);
            }
        }
    }
    longer.unique_seq_to_set();
    assert(longer.to_set().subset_of(p.children@.dom()));
    vstd::set_lib::lemma_len_subset(longer.to_set(), p.children@.dom());
}

proof fn lemma_walk_bounded(p: Pause, walked: Seq<i64>)
    requires
        walk_ok(p, walked),
    ensures
        walked.len() <= p.children@.dom().len(),
{
    walked.unique_seq_to_set();
    assert(walked.to_set().subset_of(p.children@.dom()));
    vstd::set_lib::lemma_len_subset(walked.to_set(), p.children@.dom());
}

fn holds_reference(walked: &Vec<i64>, reference: i64) -> (r: bool)
    ensures
        r == walked@.contains(reference),
{
    let mut i: usize = 0;
    while i < walked.len()
        invariant
            i <= walked.len(),
            forall|j: int| 0 <= j < i ==> walked@[j] != reference,
        decreases walked.len() - i,
    {
        if walked[i] == reference {
            return true;
        }
        i = i + 1;
    }
    false
}

fn more_name(count: usize) -> (name: String)
    ensures
        name@ == crate::editor::decimal(count as nat) + more_words(),
{
    let mut chars = crate::editor::decimal_of(count);
    chars.push(' ');
    chars.push('m');
    chars.push('o');
    chars.push('r');
    chars.push('e');
    string_of(chars.as_slice())
}

/// One member and, while it is open, everything under it — then the row
/// that stands for the rest of a collection whose page has not been asked
/// for. A reference already stood under is not opened again.
#[verifier::rlimit(40)]
fn draw(pause: &Pause, member: &Member, depth: usize, path: &str, walked: &mut Vec<i64>, rows: &mut Vec<Row>)
    requires
        walk_ok(*pause, old(walked)@),
        depth == old(walked)@.len(),
        pause.children@.dom().len() < usize::MAX,
    ensures
        final(walked)@ == old(walked)@,
        rows_view(final(rows)@) == rows_view(old(rows)@) + drawn(*pause, member@, depth, path@, old(walked)@),
    decreases pause.children@.dom().len() - walked@.len(),
{
    let ghost before = rows_view(rows@);
    let ghost start = walked@;
    let open = member.reference != 0 && pause.open.contains(&member.reference) && !holds_reference(walked, member.reference);
    let expression = if depth == 0 {
        String::new()
    } else {
        joined(path, member.name.as_str())
    };
    let parent = if walked.len() == 0 {
        0
    } else {
        walked[walked.len() - 1]
    };
    let opens = if member.reference == 0 {
        Opens::Nothing
    } else {
        Opens::Children { reference: member.reference, indexed: member.indexed }
    };
    let row = Row {
        name: member.name.clone(),
        value: member.value.clone(),
        depth,
        hint: member.hint,
        open,
        opens,
        expression: expression.clone(),
        parent,
        of: Of::Member,
    };
    assert(row@ == member_row(*pause, member@, depth, path@, start));
    rows.push(row);
    assert(rows_view(rows@) == before + seq![member_row(*pause, member@, depth, path@, start)]);
    if !open {
        return;
    }
    let ghost head = rows_view(rows@);
    let ghost spec_kids = if pause.children@.contains_key(member.reference) && start.len() < pause.children@.dom().len() {
        drawn_each(*pause, members_view(pause.children@[member.reference]@), (depth + 1) as usize, expression@, start.push(member.reference), 0)
    } else {
        Seq::empty()
    };
    proof {
        lemma_walk_bounded(*pause, start);
    }
    match pause.children.get(&member.reference) {
        Some(kids) => {
            proof {
                lemma_walk_shorter(*pause, start, member.reference);
            }
            walked.push(member.reference);
            let ghost w2 = walked@;
            let ghost all = drawn_each(*pause, members_view(kids@), (depth + 1) as usize, expression@, w2, 0);
            let mut i: usize = 0;
            while i < kids.len()
                invariant
                    i <= kids.len(),
                    walked@ == w2,
                    start == old(walked)@,
                    w2 == start.push(member.reference),
                    walk_ok(*pause, w2),
                    depth + 1 == w2.len(),
                    w2.len() <= pause.children@.dom().len(),
                    pause.children@.dom().len() < usize::MAX,
                    pause.children@.dom().len() - w2.len() < pause.children@.dom().len() - start.len(),
                    all == drawn_each(*pause, members_view(kids@), (depth + 1) as usize, expression@, w2, 0),
                    rows_view(rows@) + drawn_each(*pause, members_view(kids@), (depth + 1) as usize, expression@, w2, i as int) == head + all,
                decreases kids.len() - i,
            {
                let ghost at = rows_view(rows@);
                assert(drawn_each(*pause, members_view(kids@), (depth + 1) as usize, expression@, w2, i as int)
                    == drawn(*pause, kids@[i as int]@, (depth + 1) as usize, expression@, w2)
                        + drawn_each(*pause, members_view(kids@), (depth + 1) as usize, expression@, w2, i + 1));
                draw(pause, &kids[i], depth + 1, expression.as_str(), walked, rows);
                assert(rows_view(rows@) + drawn_each(*pause, members_view(kids@), (depth + 1) as usize, expression@, w2, i + 1)
                    == at + drawn_each(*pause, members_view(kids@), (depth + 1) as usize, expression@, w2, i as int));
                i = i + 1;
            }
            assert(drawn_each(*pause, members_view(kids@), (depth + 1) as usize, expression@, w2, i as int) == Seq::<RowView>::empty());
            assert(rows_view(rows@) == head + all);
            walked.pop();
            assert(walked@ == start);
            assert(all == spec_kids);
            assert(rows_view(rows@) == head + spec_kids);
        },
        None => {
            assert(spec_kids == Seq::<RowView>::empty());
            assert(rows_view(rows@) == head + spec_kids);
        },
    }
    let ghost after_kids = rows_view(rows@);
    let fetched = match pause.fetched.get(&member.reference) {
        Some(count) => *count,
        None => 0,
    };
    assert(fetched == fetched_of(*pause, member.reference));
    if fetched < member.indexed {
        let more = Row {
            name: more_name(member.indexed - fetched),
            value: String::new(),
            depth: depth + 1,
            hint: Hint::Plain,
            open: false,
            opens: Opens::NextPage { reference: member.reference, start: fetched },
            expression: String::new(),
            parent: member.reference,
            of: Of::Member,
        };
        assert(more@ == more_row(member@, fetched, depth));
        rows.push(more);
        assert(rows_view(rows@) == after_kids + seq![more_row(member@, fetched, depth)]);
    }
    assert(rows_view(rows@) == before + drawn(*pause, member@, depth, path@, start));
}


/// Where a run of the Evaluator's Snippet has got to.
#[derive(Debug, Clone, PartialEq, Eq)]
pub enum Ran {
    /// The `seq` the `evaluate` went out with.
    Running(i64),
    Value { value: String, reference: i64, indexed: usize },
    Failed(String),
}

/// One run of the Snippet: what went to the adapter, what the program
/// printed while it ran, in order, and what it came back with.
#[derive(Debug, Clone, PartialEq, Eq)]
pub struct Run {
    pub ran: String,
    pub printed: Vec<String>,
    pub answer: Ran,
}

/// What is on screen from the last pause: the pause itself while one holds,
/// and the one it left behind while the program runs.
pub open spec fn showing_spec(phase: Option<Phase>) -> Option<Pause> {
    match phase {
        Some(Phase::Paused(pause)) => Some(pause),
        Some(Phase::Running(last)) => last,
        _ => None,
    }
}

/// The pause whose Frames and Variables are drawn, given the session's phase
/// (none without a session).
pub fn showing(phase: &Option<Phase>) -> (shown: Option<&Pause>)
    ensures
        match shown {
            Some(pause) => showing_spec(*phase) == Some(*pause),
            None => showing_spec(*phase) is None,
        },
{
    match phase {
        Some(Phase::Paused(pause)) => Some(pause),
        Some(Phase::Running(last)) => match last {
            Some(pause) => Some(pause),
            None => None,
        },
        _ => None,
    }
}

/// Whether what is on screen is the last pause rather than this one.
pub fn stale(phase: &Option<Phase>) -> (r: bool)
    ensures
        r == (*phase matches Some(Phase::Running(Some(_)))),
{
    match phase {
        Some(Phase::Running(Some(_))) => true,
        _ => false,
    }
}

/// What the Variables' title says: the Stepping mode while it is on, then
/// that the program is running, and otherwise the pane's own name.
pub fn title(stepping: bool, phase: &Option<Phase>) -> (t: &'static str)
    ensures
        t@ == if stepping {
            "stepping"@
        } else if *phase matches Some(Phase::Running(Some(_))) {
            "running"@
        } else {
            "variables"@
        },
{
    if stepping {
        "stepping"
    } else if stale(phase) {
        "running"
    } else {
        "variables"
    }
}

/// The Frames the Corner lists, empty while no pause has anything to show.
pub fn frames(phase: &Option<Phase>) -> (listed: &[Frame])
    ensures
        listed@ == match showing_spec(*phase) {
            Some(pause) => pause.frames@,
            None => Seq::<Frame>::empty(),
        },
{
    match showing(phase) {
        Some(pause) => pause.frames.as_slice(),
        None => &[],
    }
}

/// Where the program is paused, as the chosen Frame names it, and why —
/// only while it is paused, and only for a Frame with a file.
pub fn paused_line(phase: &Option<Phase>) -> (at: Option<(&str, usize, Why)>)
    ensures
        match *phase {
            Some(Phase::Paused(pause)) => {
                if pause.chosen < pause.frames.len() && pause.frames@[pause.chosen as int].file is Some {
                    at matches Some((file, line, why)) && file@ == pause.frames@[pause.chosen as int].file->0@
                        && line == pause.frames@[pause.chosen as int].line && why == pause.why
                } else {
                    at is None
                }
            },
            _ => at is None,
        },
{
    match phase {
        Some(Phase::Paused(pause)) => {
            if pause.chosen < pause.frames.len() {
                let frame = &pause.frames[pause.chosen];
                match &frame.file {
                    Some(file) => Some((file.as_str(), frame.line, pause.why)),
                    None => None,
                }
            } else {
                None
            }
        },
        _ => None,
    }
}

/// What a Watch's row shows beside its expression.
pub open spec fn watch_value(answer: Answer) -> Seq<char> {
    match answer {
        Answer::Waiting => Seq::empty(),
        Answer::Value(value) => value@,
        Answer::Failed(why) => why@,
    }
}

/// A Watch's row: its expression, what the last pause said of it, at the
/// top level with nothing to open, standing for the Watch at `index`.
pub open spec fn watch_row_ok(row: RowView, watch: Watch, index: int, language: Seq<char>) -> bool {
    &&& row.0 == watch.expression@
    &&& row.1 == watch_value(watch.answer)
    &&& row.2 == 0
    &&& row.3 == Hint::Plain
    &&& !row.4
    &&& row.5 == Opens::Nothing
    &&& row.6 == watch.expression@
    &&& row.7 == 0
    &&& row.8 matches Of::Watch { index: i, failed, .. }
    &&& row.8->index == index
    &&& row.8->failed == (watch.answer is Failed)
    &&& row.8->calling == has_call(crate::highlight::highlight_spec(language, watch.expression@))
}

pub open spec fn exception_word() -> Seq<char> {
    seq!['e', 'x', 'c', 'e', 'p', 't', 'i', 'o', 'n']
}

/// The row naming what paused the program, where the adapter said.
pub open spec fn exception_rows(pause: Pause) -> Seq<RowView> {
    match pause.exception {
        Some(text) => seq![(exception_word(), text@, 0usize, Hint::Plain, false, Opens::Nothing, Seq::empty(), 0i64, Of::Member)],
        None => Seq::empty(),
    }
}

/// Everything the Variables draw below the Watches for a pause: the
/// exception row, then each scope's tree as far as it is open.
pub open spec fn pause_rows(pause: Pause) -> Seq<RowView> {
    exception_rows(pause) + drawn_each(pause, members_view(pause.scopes@), 0, Seq::empty(), Seq::empty(), 0)
}

/// The largest map of children a walk can be counted against.
pub open spec fn countable(phase: Option<Phase>) -> bool {
    match showing_spec(phase) {
        Some(pause) => pause.children@.dom().len() < usize::MAX,
        None => true,
    }
}

/// A row copied field by field.
fn copy_row(row: &Row) -> (copy: Row)
    ensures
        copy@ == row@,
{
    Row {
        name: row.name.clone(),
        value: row.value.clone(),
        depth: row.depth,
        hint: row.hint,
        open: row.open,
        opens: row.opens,
        expression: row.expression.clone(),
        parent: row.parent,
        of: row.of,
    }
}

/// Whether a highlighted text holds a function's name anywhere.
pub open spec fn has_call(lines: Seq<Seq<(Seq<char>, crate::highlight::Kind)>>) -> bool {
    exists|i: int, k: int| 0 <= i < lines.len() && 0 <= k < lines[i].len() && #[trigger] lines[i][k].1 == crate::highlight::Kind::Function
}

/// Whether the grammar named by `named` reads a call in `expression`: a
/// function's name among its tokens. A call needs text, so an empty
/// expression calls nothing.
pub(crate) fn calls(named: &str, expression: &str) -> (r: bool)
    ensures
        r == has_call(crate::highlight::highlight_spec(named@, expression@)),
        expression@.len() == 0 ==> !r,
{
    let lines = crate::highlight::highlight(named, expression);
    let ghost all = crate::highlight::lines_view(lines@);
    let ghost blank = expression@.len() == 0;
    proof {
        if blank {
            assert(split_lines(expression@) =~= seq![Seq::<char>::empty()]);
        }
    }
    let mut i: usize = 0;
    while i < lines.len()
        invariant
            i <= lines.len(),
            blank == (expression@.len() == 0),
            lines@.len() == split_lines(expression@).len(),
            forall|j: int| 0 <= j < lines@.len() ==> crate::highlight::within(#[trigger] crate::highlight::lines_view(lines@)[j], split_lines(expression@)[j]),
            blank ==> split_lines(expression@) == seq![Seq::<char>::empty()],
            all == crate::highlight::lines_view(lines@),
            all == crate::highlight::highlight_spec(named@, expression@),
            forall|j: int, m: int| 0 <= j < i && 0 <= m < all[j].len() ==> (#[trigger] all[j][m]).1 != crate::highlight::Kind::Function,
        decreases lines.len() - i,
    {
        let ghost row = crate::highlight::lines_view(lines@)[i as int];
        assert(row == crate::highlight::tokens_view(lines@[i as int]@));
        assert(crate::highlight::within(row, split_lines(expression@)[i as int]));
        proof {
            if blank {
                assert(split_lines(expression@)[i as int].len() == 0);
                assert forall|k: int| 0 <= k < row.len() implies (#[trigger] row[k]).1 == crate::highlight::Kind::Plain by {
                    if row[k].1 != crate::highlight::Kind::Plain {
                        lemma_token_within(row, k);
                    }
                }
            }
        }
        let mut k: usize = 0;
        while k < lines[i].len()
            invariant
                i < lines.len(),
                k <= lines[i as int].len(),
                row == crate::highlight::tokens_view(lines@[i as int]@),
                blank == (expression@.len() == 0),
                blank ==> forall|m: int| 0 <= m < row.len() ==> (#[trigger] row[m]).1 == crate::highlight::Kind::Plain,
                all == crate::highlight::lines_view(lines@),
                all == crate::highlight::highlight_spec(named@, expression@),
                row == all[i as int],
                forall|j: int, m: int| 0 <= j < i && 0 <= m < all[j].len() ==> (#[trigger] all[j][m]).1 != crate::highlight::Kind::Function,
                forall|m: int| 0 <= m < k ==> (#[trigger] row[m]).1 != crate::highlight::Kind::Function,
            decreases lines[i as int].len() - k,
        {
            assert(row[k as int] == lines@[i as int]@[k as int]@);
            if lines[i][k].kind == crate::highlight::Kind::Function {
                assert(all[i as int][k as int].1 == crate::highlight::Kind::Function);
                return true;
            }
            k = k + 1;
        }
        i = i + 1;
    }
    assert(!has_call(all));
    false
}

/// A token of a line colours some of the line's text: its text is no longer
/// than all of the line's tokens together.
proof fn lemma_token_within(row: Seq<(Seq<char>, crate::highlight::Kind)>, k: int)
    requires
        0 <= k < row.len(),
    ensures
        row[k].0.len() <= crate::highlight::token_text(row).len(),
    decreases row.len(),
{
    if k < row.len() - 1 {
        lemma_token_within(row.drop_last(), k);
        assert(row.drop_last()[k] == row[k]);
    }
}

/// The scopes' trees drawn into `rows`, one after another.
fn draw_scopes(pause: &Pause, rows: &mut Vec<Row>)
    requires
        pause.children@.dom().len() < usize::MAX,
    ensures
        rows_view(final(rows)@) == rows_view(old(rows)@) + drawn_each(*pause, members_view(pause.scopes@), 0, Seq::empty(), Seq::empty(), 0),
{
    let ghost start = rows_view(rows@);
    let ghost all = drawn_each(*pause, members_view(pause.scopes@), 0, Seq::empty(), Seq::empty(), 0);
    let mut i: usize = 0;
    while i < pause.scopes.len()
        invariant
            i <= pause.scopes.len(),
            pause.children@.dom().len() < usize::MAX,
            all == drawn_each(*pause, members_view(pause.scopes@), 0, Seq::empty(), Seq::empty(), 0),
            rows_view(rows@) + drawn_each(*pause, members_view(pause.scopes@), 0, Seq::empty(), Seq::empty(), i as int) == start + all,
        decreases pause.scopes.len() - i,
    {
        let ghost at = rows_view(rows@);
        assert(drawn_each(*pause, members_view(pause.scopes@), 0, Seq::empty(), Seq::empty(), i as int)
            == drawn(*pause, pause.scopes@[i as int]@, 0, Seq::empty(), Seq::empty())
                + drawn_each(*pause, members_view(pause.scopes@), 0, Seq::empty(), Seq::empty(), i + 1));
        let mut walked: Vec<i64> = Vec::new();
        assert(walk_ok(*pause, walked@));
        draw(pause, &pause.scopes[i], 0, "", &mut walked, rows);
        assert(""@ == Seq::<char>::empty()) by {
            reveal_strlit("");
        }
        assert(rows_view(rows@) + drawn_each(*pause, members_view(pause.scopes@), 0, Seq::empty(), Seq::empty(), i + 1)
            == at + drawn_each(*pause, members_view(pause.scopes@), 0, Seq::empty(), Seq::empty(), i as int));
        i = i + 1;
    }
    assert(drawn_each(*pause, members_view(pause.scopes@), 0, Seq::empty(), Seq::empty(), i as int) == Seq::<RowView>::empty());
}

/// The Variables as they are drawn: a row per Watch, then — while a pause
/// is on screen — the exception that paused the program if one did, and the
/// scopes with, under each open row, the children that have arrived.
/// `language` is the file name the Paused Frame's language is read off,
/// which is what tells whether a Watch's expression calls something.
pub fn variables(watches: &[Watch], language: &str, phase: &Option<Phase>) -> (rows: Vec<Row>)
    requires
        countable(*phase),
    ensures
        forall|i: int| 0 <= i < watches.len() ==> #[trigger] watch_row_ok(rows@[i]@, watches@[i], i, language@),
        rows_view(rows@).skip(watches.len() as int) == match showing_spec(*phase) {
            Some(pause) => pause_rows(pause),
            None => Seq::<RowView>::empty(),
        },
        rows@.len() >= watches.len(),
{
    let mut rows: Vec<Row> = Vec::new();
    let mut i: usize = 0;
    while i < watches.len()
        invariant
            i <= watches.len(),
            rows@.len() == i,
            forall|j: int| 0 <= j < i ==> #[trigger] watch_row_ok(rows@[j]@, watches@[j], j, language@),
        decreases watches.len() - i,
    {
        let watch = &watches[i];
        let value = match &watch.answer {
            Answer::Waiting => String::new(),
            Answer::Value(value) => value.clone(),
            Answer::Failed(why) => why.clone(),
        };
        let failed = match &watch.answer {
            Answer::Failed(_) => true,
            _ => false,
        };
        let row = Row {
            name: watch.expression.clone(),
            value,
            depth: 0,
            hint: Hint::Plain,
            open: false,
            opens: Opens::Nothing,
            expression: watch.expression.clone(),
            parent: 0,
            of: Of::Watch { index: i, calling: calls(language, watch.expression.as_str()), failed },
        };
        assert(watch_row_ok(row@, watches@[i as int], i as int, language@));
        rows.push(row);
        assert(rows@[i as int] == row);
        i = i + 1;
    }
    let ghost top = rows_view(rows@);
    assert(top.len() == watches.len());
    match showing(phase) {
        None => {
            assert(rows_view(rows@).skip(watches.len() as int) == Seq::<RowView>::empty());
        },
        Some(pause) => {
            match &pause.exception {
                Some(text) => {
                    proof {
                        reveal_strlit("exception");
                    }
                    let row = Row {
                        name: owned("exception"),
                        value: text.clone(),
                        depth: 0,
                        hint: Hint::Plain,
                        open: false,
                        opens: Opens::Nothing,
                        expression: String::new(),
                        parent: 0,
                        of: Of::Member,
                    };
                    let ghost seen = row@;
                    assert(seen.0 =~= exception_word());
                    assert(seen.6 =~= Seq::<char>::empty());
                    assert(pause.exception == Some(*text));
                    assert(seq![seen] =~= exception_rows(*pause));
                    rows.push(row);
                    assert(rows_view(rows@) == top + seq![seen]);
                },
                None => {},
            }
            assert(rows_view(rows@) == top + exception_rows(*pause));
            draw_scopes(pause, &mut rows);
            assert(rows_view(rows@) == top + pause_rows(*pause));
            assert(rows_view(rows@).skip(watches.len() as int) == pause_rows(*pause));
            assert forall|j: int| 0 <= j < watches.len() implies #[trigger] watch_row_ok(rows@[j]@, watches@[j], j, language@) by {
                assert(rows_view(rows@)[j] == top[j]);
            }
        },
    }
    rows
}

/// What a Hover's value is drawn from, once the adapter has been asked:
/// the expression, and beside it nothing yet, the adapter's reason, or its
/// value with what opening it asks for.
pub open spec fn hover_member(held: Held, expression: Seq<char>) -> Option<MemberView> {
    match held {
        Held::NeedsEvaluate => None,
        Held::Waiting => Some((expression, Seq::empty(), 0i64, Hint::Plain, 0usize)),
        Held::Failed(why) => Some((expression, why@, 0i64, Hint::Plain, 0usize)),
        Held::Value { value, reference, indexed } => Some((expression, value@, reference, Hint::Plain, indexed)),
    }
}

/// The Hover's value as rows, the tree flattened exactly as the Variables'
/// is. Empty without a value asked for, without a pause on screen, and for
/// an expression the adapter was never asked about.
pub fn hovered_rows(hovered: Option<&Hovered>, phase: &Option<Phase>) -> (rows: Vec<Row>)
    requires
        countable(*phase),
    ensures
        rows_view(rows@) == match (hovered, showing_spec(*phase)) {
            (Some(h), Some(pause)) => match hover_member(h.held, h.expression@) {
                Some(member) => drawn(pause, member, 0, Seq::empty(), Seq::empty()),
                None => Seq::<RowView>::empty(),
            },
            _ => Seq::<RowView>::empty(),
        },
{
    let hovered = match hovered {
        Some(h) => h,
        None => return Vec::new(),
    };
    let pause = match showing(phase) {
        Some(pause) => pause,
        None => return Vec::new(),
    };
    let member = match &hovered.held {
        Held::NeedsEvaluate => return Vec::new(),
        Held::Waiting => Member {
            name: hovered.expression.clone(),
            value: String::new(),
            reference: 0,
            hint: Hint::Plain,
            indexed: 0,
        },
        Held::Failed(why) => Member {
            name: hovered.expression.clone(),
            value: why.clone(),
            reference: 0,
            hint: Hint::Plain,
            indexed: 0,
        },
        Held::Value { value, reference, indexed } => Member {
            name: hovered.expression.clone(),
            value: value.clone(),
            reference: *reference,
            hint: Hint::Plain,
            indexed: *indexed,
        },
    };
    assert(Some(member@) == hover_member(hovered.held, hovered.expression@));
    let mut rows: Vec<Row> = Vec::new();
    let mut walked: Vec<i64> = Vec::new();
    assert(walk_ok(*pause, walked@));
    draw(pause, &member, 0, "", &mut walked, &mut rows);
    assert(""@ == Seq::<char>::empty()) by {
        reveal_strlit("");
    }
    assert(rows_view(rows@) == drawn(*pause, member@, 0, Seq::empty(), Seq::empty()));
    rows
}

/// The Evaluator output: the prints in the order they arrived, then the
/// value as a tree opened exactly as the Variables are, or the adapter's
/// reason, or that the run is still out.
pub fn evaluator_output(ran: Option<&Run>, phase: &Option<Phase>) -> (lines: Vec<Said>)
    requires
        countable(*phase),
    ensures
        match ran {
            None => lines@.len() == 0,
            Some(run) => {
                &&& lines@.len() >= run.printed@.len()
                &&& forall|i: int| 0 <= i < run.printed@.len() ==>
                    (#[trigger] lines@[i] matches Said::Printed(text) && text@ == run.printed@[i]@)
                &&& match run.answer {
                    Ran::Running(_) => lines@.len() == run.printed@.len() + 1 && (lines@.last() is Running),
                    Ran::Failed(why) => lines@.len() == run.printed@.len() + 1
                        && (lines@.last() matches Said::Failed(text) && text@ == why@),
                    Ran::Value { value, reference, indexed } => match showing_spec(*phase) {
                        None => lines@.len() == run.printed@.len(),
                        Some(pause) => {
                            let drawn_rows = drawn(pause, (run.ran@, value@, reference, Hint::Plain, indexed), 0, Seq::empty(), Seq::empty());
                            &&& lines@.len() == run.printed@.len() + drawn_rows.len()
                            &&& forall|j: int| 0 <= j < drawn_rows.len() ==>
                                (#[trigger] lines@[run.printed@.len() + j] matches Said::Value(row) && row@ == drawn_rows[j])
                        },
                    },
                }
            },
        },
{
    let run = match ran {
        Some(run) => run,
        None => return Vec::new(),
    };
    let mut lines: Vec<Said> = Vec::new();
    let mut i: usize = 0;
    while i < run.printed.len()
        invariant
            i <= run.printed.len(),
            lines@.len() == i,
            forall|j: int| 0 <= j < i ==> (#[trigger] lines@[j] matches Said::Printed(text) && text@ == run.printed@[j]@),
        decreases run.printed.len() - i,
    {
        lines.push(Said::Printed(run.printed[i].clone()));
        i = i + 1;
    }
    match &run.answer {
        Ran::Running(_) => {
            lines.push(Said::Running);
        },
        Ran::Failed(why) => {
            lines.push(Said::Failed(why.clone()));
        },
        Ran::Value { value, reference, indexed } => {
            let pause = match showing(phase) {
                Some(pause) => pause,
                None => return lines,
            };
            let member = Member {
                name: run.ran.clone(),
                value: value.clone(),
                reference: *reference,
                hint: Hint::Plain,
                indexed: *indexed,
            };
            let mut rows: Vec<Row> = Vec::new();
            let mut walked: Vec<i64> = Vec::new();
            assert(walk_ok(*pause, walked@));
            draw(pause, &member, 0, "", &mut walked, &mut rows);
            assert(""@ == Seq::<char>::empty()) by {
                reveal_strlit("");
            }
            let ghost drawn_rows = drawn(*pause, member@, 0, Seq::empty(), Seq::empty());
            assert(rows_view(rows@) == drawn_rows);
            let ghost printed = lines@.len();
            let mut k: usize = 0;
            while k < rows.len()
                invariant
                    k <= rows.len(),
                    printed == run.printed@.len(),
                    lines@.len() == printed + k,
                    rows_view(rows@) == drawn_rows,
                    forall|j: int| 0 <= j < printed ==> (#[trigger] lines@[j] matches Said::Printed(text) && text@ == run.printed@[j]@),
                    forall|j: int| 0 <= j < k ==> (#[trigger] lines@[printed + j] matches Said::Value(row) && row@ == drawn_rows[j]),
                decreases rows.len() - k,
            {
                assert(rows@[k as int]@ == drawn_rows[k as int]);
                lines.push(Said::Value(copy_row(&rows[k])));
                k = k + 1;
            }
        },
    }
    lines
}


/// An Inline value as the contracts read it: the name, the text drawn, and
/// whether this pause moved it.
pub type InlineView = (Seq<char>, Seq<char>, bool);

impl View for Inline {
    type V = InlineView;

    open spec fn view(&self) -> InlineView {
        (self.name@, self.text@, self.changed)
    }
}

pub open spec fn inlines_view(values: Seq<Inline>) -> Seq<InlineView> {
    values.map_values(|v: Inline| v@)
}

/// A character a name can hold.
pub open spec fn word_char(c: char) -> bool {
    crate::text::alphanumeric(c) || c == '_'
}

/// The words of `s` from `i` on, a word begun at `start`: the runs of name
/// characters, every other character a break, no word empty.
pub open spec fn words_from(s: Seq<char>, start: int, i: int) -> Seq<Seq<char>>
    decreases s.len() - i,
{
    if i < 0 || i >= s.len() {
        if 0 <= start < s.len() {
            seq![s.subrange(start, s.len() as int)]
        } else {
            Seq::empty()
        }
    } else if word_char(s[i]) {
        words_from(s, start, i + 1)
    } else {
        (if start < i {
            seq![s.subrange(start, i)]
        } else {
            Seq::empty()
        }) + words_from(s, i + 1, i + 1)
    }
}

/// The names a line mentions, in order: the words of the tokens the
/// highlighter left plain.
pub open spec fn mentioned_spec(tokens: Seq<(Seq<char>, crate::highlight::Kind)>) -> Seq<Seq<char>>
    decreases tokens.len(),
{
    if tokens.len() == 0 {
        Seq::empty()
    } else {
        mentioned_spec(tokens.drop_last()) + if tokens.last().1 == crate::highlight::Kind::Plain {
            words_from(tokens.last().0, 0, 0)
        } else {
            Seq::empty()
        }
    }
}

/// What a list of name and value pairs holds for a name: the last pair
/// naming it, as a map filled in order keeps it.
pub open spec fn lookup(pairs: Seq<(Seq<char>, Seq<char>)>, name: Seq<char>) -> Option<Seq<char>>
    decreases pairs.len(),
{
    if pairs.len() == 0 {
        None
    } else if pairs.last().0 == name {
        Some(pairs.last().1)
    } else {
        lookup(pairs.drop_last(), name)
    }
}

pub open spec fn pairs_view(pairs: Seq<(String, String)>) -> Seq<(Seq<char>, Seq<char>)> {
    pairs.map_values(|p: (String, String)| (p.0@, p.1@))
}

/// What the chosen Frame's scopes hold, by name: the top level of each
/// scope's tree that has arrived, and nothing under it.
pub open spec fn locals_spec(pause: Pause, k: int) -> Seq<(Seq<char>, Seq<char>)>
    decreases k,
{
    if k <= 0 || k > pause.scopes@.len() {
        Seq::empty()
    } else {
        let reference = pause.scopes@[k - 1].reference;
        locals_spec(pause, k - 1) + if pause.children@.contains_key(reference) {
            pause.children@[reference]@.map_values(|m: Member| (m.name@, m.value@))
        } else {
            Seq::empty()
        }
    }
}

pub open spec fn saturating(a: int, b: int) -> int {
    if a > b {
        a - b
    } else {
        0
    }
}

pub open spec fn value_head(name: Seq<char>) -> Seq<char> {
    seq![' ', ' '] + name + seq![' ', '=', ' ']
}

pub open spec fn named_in(values: Seq<InlineView>, name: Seq<char>) -> bool {
    exists|j: int| 0 <= j < values.len() && (#[trigger] values[j]).0 == name
}

/// The values drawn at the end of one line, from the `k`th name it mentions
/// on, with `room` columns left and `values` already placed: a name the
/// locals do not hold, or already drawn, is passed over; one with no room
/// for even one column of its value ends the line.
pub open spec fn inline_values(
    names: Seq<Seq<char>>,
    k: int,
    room: int,
    held: Seq<(Seq<char>, Seq<char>)>,
    was: Option<Seq<(Seq<char>, Seq<char>)>>,
    values: Seq<InlineView>,
) -> Seq<InlineView>
    decreases names.len() - k,
{
    if k < 0 || k >= names.len() {
        values
    } else {
        let name = names[k];
        match lookup(held, name) {
            None => inline_values(names, k + 1, room, held, was, values),
            Some(value) => if named_in(values, name) {
                inline_values(names, k + 1, room, held, was, values)
            } else {
                let head = value_head(name);
                let spare = saturating(room, crate::text::display_width(head) as int);
                if spare == 0 {
                    values
                } else {
                    let shown = clipped_spec(value, spare);
                    let used = crate::text::display_width(head) + crate::text::display_width(shown);
                    let changed = match was {
                        Some(w) => lookup(w, name) != Some(value),
                        None => false,
                    };
                    inline_values(names, k + 1, saturating(room, used as int), held, was, values.push((name, head + shown, changed)))
                }
            },
        }
    }
}

/// The Inline values of lines `from..to` (0-based), keyed by line number.
pub open spec fn inline_lines(
    lines: Seq<Seq<char>>,
    tokens: Seq<Seq<(Seq<char>, crate::highlight::Kind)>>,
    from: int,
    to: int,
    columns: int,
    held: Seq<(Seq<char>, Seq<char>)>,
    was: Option<Seq<(Seq<char>, Seq<char>)>>,
) -> Map<usize, Seq<InlineView>>
    decreases to - from,
{
    if to <= from || to > lines.len() {
        Map::empty()
    } else {
        let index = to - 1;
        let before = inline_lines(lines, tokens, from, index, columns, held, was);
        let line_tokens = if index < tokens.len() {
            tokens[index]
        } else {
            Seq::empty()
        };
        let room = saturating(columns, crate::text::display_width(lines[index]) as int);
        let values = inline_values(mentioned_spec(line_tokens), 0, room, held, was, Seq::empty());
        if values.len() > 0 {
            before.insert((index + 1) as usize, values)
        } else {
            before
        }
    }
}

/// The Inline values of the Buffer on screen: nothing unless the pause on
/// screen has a chosen Frame whose file is the current Buffer's; then every
/// local it holds, at the end of each line that mentions it, from the line
/// the call opens on down to the line before the Paused one. A value is
/// marked changed only against the last pause of the same call, and only
/// while the program is paused.
pub open spec fn inline_spec(
    phase: Option<Phase>,
    previous: Option<(String, Vec<(String, String)>)>,
    current: Option<Seq<char>>,
    source: Seq<char>,
    tokens: Seq<Seq<(Seq<char>, crate::highlight::Kind)>>,
    columns: int,
) -> Map<usize, Seq<InlineView>> {
    match showing_spec(phase) {
        None => Map::empty(),
        Some(pause) => if 0 <= pause.chosen < pause.frames@.len() && pause.frames@[pause.chosen as int].file is Some
            && current == Some(pause.frames@[pause.chosen as int].file->0@) {
            let frame = pause.frames@[pause.chosen as int];
            let was = match previous {
                Some(last) => if (phase matches Some(Phase::Paused(_))) && last.0@ == frame.name@ {
                    Some(pairs_view(last.1@))
                } else {
                    None
                },
                None => None,
            };
            let opens = call_start_spec(source, frame.line as int);
            let from = if opens > 0 { opens - 1 } else { 0 };
            let lines = split_lines(source);
            let to = from + saturating(frame.line as int, opens);
            let end = if to < lines.len() { to } else { lines.len() as int };
            inline_lines(lines, tokens, from, end, columns, locals_spec(pause, pause.scopes@.len() as int), was)
        } else {
            Map::empty()
        },
    }
}

pub open spec fn words_view(words: Seq<Vec<char>>) -> Seq<Seq<char>> {
    words.map_values(|w: Vec<char>| w@)
}

/// Appends the words of `text` to `words`.
fn words_into(text: &Vec<char>, words: &mut Vec<Vec<char>>)
    ensures
        words_view(final(words)@) == words_view(old(words)@) + words_from(text@, 0, 0),
{
    let ghost base = words_view(words@);
    let mut start: usize = 0;
    let mut i: usize = 0;
    while i < text.len()
        invariant
            start <= i <= text.len(),
            words_view(words@) + words_from(text@, start as int, i as int) == base + words_from(text@, 0, 0),
        decreases text.len() - i,
    {
        let c = text[i];
        let named = crate::text::is_alphanumeric(c) || c == '_';
        if named {
            i = i + 1;
        } else {
            if start < i {
                let ghost before = words_view(words@);
                let word = slice_of(text, start, i);
                words.push(word);
                assert(words_view(words@) == before.push(text@.subrange(start as int, i as int)));
            }
            i = i + 1;
            start = i;
        }
    }
    if start < text.len() {
        let ghost before = words_view(words@);
        let word = slice_of(text, start, text.len());
        words.push(word);
        assert(words_view(words@) == before.push(text@.subrange(start as int, text@.len() as int)));
    }
}

/// The names a line's tokens mention, in order.
pub fn mentioned(tokens: &[crate::highlight::Token]) -> (names: Vec<Vec<char>>)
    ensures
        words_view(names@) == mentioned_spec(crate::highlight::tokens_view(tokens@)),
{
    let mut names: Vec<Vec<char>> = Vec::new();
    let mut i: usize = 0;
    while i < tokens.len()
        invariant
            i <= tokens.len(),
            words_view(names@) == mentioned_spec(crate::highlight::tokens_view(tokens@.take(i as int))),
        decreases tokens.len() - i,
    {
        assert(crate::highlight::tokens_view(tokens@.take(i + 1)).drop_last() == crate::highlight::tokens_view(tokens@.take(i as int)));
        assert(crate::highlight::tokens_view(tokens@.take(i + 1)).last() == tokens@[i as int]@);
        if tokens[i].kind == crate::highlight::Kind::Plain {
            let text = chars_of(tokens[i].text.as_str());
            words_into(&text, &mut names);
        }
        i = i + 1;
    }
    assert(tokens@.take(tokens.len() as int) == tokens@);
    names
}

/// Where the last pair naming `name` stands, if one does.
fn lookup_at(pairs: &[(String, String)], name: &Vec<char>) -> (at: Option<usize>)
    ensures
        match at {
            Some(k) => k < pairs.len() && lookup(pairs_view(pairs@), name@) == Some(pairs@[k as int].1@),
            None => lookup(pairs_view(pairs@), name@) is None,
        },
{
    let mut k = pairs.len();
    assert(pairs@.take(k as int) == pairs@);
    while k > 0
        invariant
            k <= pairs.len(),
            lookup(pairs_view(pairs@), name@) == lookup(pairs_view(pairs@.take(k as int)), name@),
        decreases k,
    {
        let key = chars_of(pairs[k - 1].0.as_str());
        assert(pairs_view(pairs@.take(k as int)).drop_last() == pairs_view(pairs@.take(k - 1)));
        assert(pairs_view(pairs@.take(k as int)).last() == (pairs@[k - 1].0@, pairs@[k - 1].1@));
        if crate::text::same_chars(&key, name) {
            return Some(k - 1);
        }
        k = k - 1;
    }
    None
}

/// What the chosen Frame's scopes hold, by name, in order.
pub(crate) fn locals(pause: &Pause) -> (held: Vec<(String, String)>)
    ensures
        pairs_view(held@) == locals_spec(*pause, pause.scopes@.len() as int),
{
    let mut held: Vec<(String, String)> = Vec::new();
    let mut k: usize = 0;
    while k < pause.scopes.len()
        invariant
            k <= pause.scopes.len(),
            pairs_view(held@) == locals_spec(*pause, k as int),
        decreases pause.scopes.len() - k,
    {
        match pause.children.get(&pause.scopes[k].reference) {
            Some(members) => {
                let ghost before = pairs_view(held@);
                let mut j: usize = 0;
                while j < members.len()
                    invariant
                        j <= members.len(),
                        pairs_view(held@) == before + members@.take(j as int).map_values(|m: Member| (m.name@, m.value@)),
                    decreases members.len() - j,
                {
                    let ghost at = pairs_view(held@);
                    held.push((members[j].name.clone(), members[j].value.clone()));
                    assert(pairs_view(held@) == at.push((members@[j as int].name@, members@[j as int].value@)));
                    assert(members@.take(j + 1) == members@.take(j as int).push(members@[j as int]));
                    assert(members@.take(j + 1).map_values(|m: Member| (m.name@, m.value@))
                        == members@.take(j as int).map_values(|m: Member| (m.name@, m.value@)).push((members@[j as int].name@, members@[j as int].value@)));
                    j = j + 1;
                }
                assert(members@.take(members.len() as int) == members@);
            },
            None => {},
        }
        k = k + 1;
    }
    held
}

/// Whether a name has a value drawn already.
fn drawn_name(values: &Vec<Inline>, name: &Vec<char>) -> (r: bool)
    ensures
        r == named_in(inlines_view(values@), name@),
{
    let mut j: usize = 0;
    while j < values.len()
        invariant
            j <= values.len(),
            forall|i: int| 0 <= i < j ==> values@[i].name@ != name@,
        decreases values.len() - j,
    {
        let held = chars_of(values[j].name.as_str());
        if crate::text::same_chars(&held, name) {
            assert(inlines_view(values@)[j as int].0 == name@);
            return true;
        }
        j = j + 1;
    }
    assert forall|i: int| 0 <= i < inlines_view(values@).len() implies (#[trigger] inlines_view(values@)[i]).0 != name@ by {
        assert(inlines_view(values@)[i].0 == values@[i].name@);
    }
    false
}

/// The values one line draws, with `room` columns to draw them in.
#[verifier::rlimit(40)]
fn line_values(
    names: &Vec<Vec<char>>,
    room: usize,
    held: &Vec<(String, String)>,
    was: Option<&Vec<(String, String)>>,
) -> (values: Vec<Inline>)
    ensures
        inlines_view(values@) == inline_values(
            words_view(names@),
            0,
            room as int,
            pairs_view(held@),
            match was {
                Some(w) => Some(pairs_view(w@)),
                None => None,
            },
            Seq::empty(),
        ),
{
    let ghost words = words_view(names@);
    let ghost spec_was = match was {
        Some(w) => Some(pairs_view(w@)),
        None => None,
    };
    let ghost goal = inline_values(words, 0, room as int, pairs_view(held@), spec_was, Seq::empty());
    let mut left = room;
    let mut values: Vec<Inline> = Vec::new();
    assert(inlines_view(values@) =~= Seq::<InlineView>::empty());
    let mut k: usize = 0;
    while k < names.len()
        invariant
            k <= names.len(),
            words == words_view(names@),
            goal == inline_values(words, 0, room as int, pairs_view(held@), spec_was, Seq::empty()),
            inline_values(words, k as int, left as int, pairs_view(held@), spec_was, inlines_view(values@)) == goal,
            spec_was == match was {
                Some(w) => Some(pairs_view(w@)),
                None => None,
            },
        decreases names.len() - k,
    {
        let name = &names[k];
        assert(words[k as int] == name@);
        match lookup_at(held.as_slice(), name) {
            None => {},
            Some(at) => {
                if !drawn_name(&values, name) {
                    let name_text = string_of(name.as_slice());
                    let mut head_chars: Vec<char> = Vec::new();
                    head_chars.push(' ');
                    head_chars.push(' ');
                    crate::text::extend(&mut head_chars, name);
                    head_chars.push(' ');
                    head_chars.push('=');
                    head_chars.push(' ');
                    assert(head_chars@ == value_head(name@));
                    let head = string_of(head_chars.as_slice());
                    let head_width = crate::text::str_width(head.as_str());
                    let spare = left.saturating_sub(head_width);
                    assert(lookup(pairs_view(held@), name@) == Some(held@[at as int].1@));
                    assert(!named_in(inlines_view(values@), name@));
                    if spare == 0 {
                        assert(inline_values(words, k as int, left as int, pairs_view(held@), spec_was, inlines_view(values@))
                            == inlines_view(values@));
                        return values;
                    }
                    let shown = clipped(held[at].1.as_str(), spare);
                    let used = head_width.saturating_add(crate::text::str_width(shown.as_str()));
                    left = left.saturating_sub(used);
                    let changed = match was {
                        Some(w) => match lookup_at(w.as_slice(), name) {
                            Some(j) => !crate::text::same_chars(&chars_of(w[j].1.as_str()), &chars_of(held[at].1.as_str())),
                            None => true,
                        },
                        None => false,
                    };
                    let mut text = head;
                    crate::text::push_str(&mut text, shown.as_str());
                    let ghost before = inlines_view(values@);
                    let value = Inline { name: name_text, text, changed };
                    values.push(value);
                    assert(inlines_view(values@) == before.push(value@));
                }
            },
        }
        k = k + 1;
    }
    values
}

/// The Inline values of the Buffer on screen, by line: every local the
/// chosen Frame holds, drawn at the end of the line that mentions it, from
/// the line the call opens on down to the line before the Paused one. The
/// pause is the one on screen for `phase`; `previous` is what the locals
/// held at the pause before, under the name of the call they belong to;
/// `current` and `source` are the Buffer on screen and its text, `tokens`
/// its colours by line, and `columns` the width its lines are drawn in.
pub fn inline(
    phase: &Option<Phase>,
    previous: &Option<(String, Vec<(String, String)>)>,
    current: Option<&str>,
    source: &str,
    tokens: &[Vec<crate::highlight::Token>],
    columns: usize,
) -> (drawn: BTreeMap<usize, Vec<Inline>>)
    ensures
        drawn@.dom() == inline_spec(
            *phase,
            *previous,
            match current {
                Some(c) => Some(c@),
                None => None,
            },
            source@,
            crate::highlight::lines_view(tokens@),
            columns as int,
        ).dom(),
        forall|line: usize| #[trigger] drawn@.contains_key(line) ==> inlines_view(drawn@[line]@) == inline_spec(
            *phase,
            *previous,
            match current {
                Some(c) => Some(c@),
                None => None,
            },
            source@,
            crate::highlight::lines_view(tokens@),
            columns as int,
        )[line],
{
    let mut drawn: BTreeMap<usize, Vec<Inline>> = BTreeMap::new();
    let pause = match showing(phase) {
        Some(pause) => pause,
        None => return drawn,
    };
    if pause.chosen >= pause.frames.len() {
        return drawn;
    }
    let frame = &pause.frames[pause.chosen];
    let file = match &frame.file {
        Some(file) => file,
        None => return drawn,
    };
    let here = match current {
        Some(c) => c,
        None => return drawn,
    };
    if !crate::text::same_chars(&chars_of(file.as_str()), &chars_of(here)) {
        return drawn;
    }
    let held = locals(pause);
    let paused = match phase {
        Some(Phase::Paused(_)) => true,
        _ => false,
    };
    let was: Option<&Vec<(String, String)>> = match previous {
        Some(last) => if paused && crate::text::same_chars(&chars_of(last.0.as_str()), &chars_of(frame.name.as_str())) {
            Some(&last.1)
        } else {
            None
        },
        None => None,
    };
    let opens = call_start(source, frame.line);
    let from = if opens > 0 { opens - 1 } else { 0 };
    let take = frame.line.saturating_sub(opens);
    let text = chars_of(source);
    let lines = split_text(&text);
    let ghost view = lines.deep_view();
    let end = if from + take < lines.len() { from + take } else { lines.len() };
    let ghost spec_was = match was {
        Some(w) => Some(pairs_view(w@)),
        None => None,
    };
    let ghost token_lines = crate::highlight::lines_view(tokens@);
    let mut index = if from < end { from } else { end };
    while index < end
        invariant
            end <= lines.len(),
            index <= end,
            from <= index || index == end,
            index == end ==> from >= end || index >= from,
            view == lines.deep_view(),
            view == split_lines(source@),
            token_lines == crate::highlight::lines_view(tokens@),
            spec_was == match was {
                Some(w) => Some(pairs_view(w@)),
                None => None,
            },
            drawn@.dom() == inline_lines(view, token_lines, from as int, index as int, columns as int, pairs_view(held@), spec_was).dom(),
            forall|line: usize| #[trigger] drawn@.contains_key(line) ==> inlines_view(drawn@[line]@)
                == inline_lines(view, token_lines, from as int, index as int, columns as int, pairs_view(held@), spec_was)[line],
        decreases end - index,
    {
        let line_text = string_of(lines[index].as_slice());
        assert(line_text@ == view[index as int]);
        let room = columns.saturating_sub(crate::text::str_width(line_text.as_str()));
        let names = if index < tokens.len() {
            mentioned(tokens[index].as_slice())
        } else {
            Vec::new()
        };
        let values = line_values(&names, room, &held, was);
        if values.len() > 0 {
            drawn.insert(index + 1, values);
        }
        index = index + 1;
    }
    drawn
}


pub const REMOVE: &'static str = "remove-breakpoint";
pub const TOGGLE_OUTPUT: &'static str = "toggle-output";
pub const CLEAR_ALL: &'static str = "clear-all-breakpoints";
pub const RESUME: &'static str = "debug-resume";
pub const STEP_OVER: &'static str = "debug-step-over";
pub const STEP_INTO: &'static str = "debug-step-into";
pub const STEP_OUT: &'static str = "debug-step-out";
pub const STOP: &'static str = "debug-stop";
pub const RESTART: &'static str = "debug-restart";
pub const ASK_AI: &'static str = "debug-ask-ai";
pub const SET_VALUE: &'static str = "debug-set-value";
pub const COPY_VALUE: &'static str = "debug-copy-value";
pub const COPY_EXPRESSION: &'static str = "debug-copy-expression";
pub const WATCH: &'static str = "debug-watch";
pub const REMOVE_WATCH: &'static str = "debug-remove-watch";
pub const EVALUATE: &'static str = "debug-evaluate";
/// A row's own ask, apart from the Transport's, which asks about the whole
/// pause.
pub const ROW_ASK_AI: &'static str = "debug-ask-ai-value";
pub const NEXT_THREAD: &'static str = "debug-next-thread";
pub const RUN: &'static str = "evaluator-run";
pub const CANCEL: &'static str = "evaluator-cancel";

/// The gutter's marks for the file on screen, filled in the order the
/// Breakpoints are held, so the last Breakpoint on a line decides its mark.
pub open spec fn marks_spec(breakpoints: Seq<Breakpoint>, current: Option<Seq<char>>) -> Map<usize, Mark>
    decreases breakpoints.len(),
{
    if breakpoints.len() == 0 {
        Map::empty()
    } else {
        let before = marks_spec(breakpoints.drop_last(), current);
        let b = breakpoints.last();
        if current == Some(b.file@) {
            before.insert(b.line, if b.stale { Mark::Stale } else { Mark::Plain })
        } else {
            before
        }
    }
}

/// The Breakpoints of the file on screen, by line, as the gutter draws them.
pub fn marks(breakpoints: &[Breakpoint], current: Option<&str>) -> (drawn: BTreeMap<usize, Mark>)
    ensures
        drawn@ == marks_spec(breakpoints@, match current {
            Some(c) => Some(c@),
            None => None,
        }),
{
    let ghost here = match current {
        Some(c) => Some(c@),
        None => None,
    };
    let mut drawn: BTreeMap<usize, Mark> = BTreeMap::new();
    let mut i: usize = 0;
    while i < breakpoints.len()
        invariant
            i <= breakpoints.len(),
            here == match current {
                Some(c) => Some(c@),
                None => None,
            },
            drawn@ == marks_spec(breakpoints@.take(i as int), here),
        decreases breakpoints.len() - i,
    {
        assert(breakpoints@.take(i + 1).drop_last() == breakpoints@.take(i as int));
        let b = &breakpoints[i];
        let on_screen = match current {
            Some(c) => crate::text::same_text(b.file.as_str(), c),
            None => false,
        };
        if on_screen {
            let mark = if b.stale { Mark::Stale } else { Mark::Plain };
            drawn.insert(b.line, mark);
        }
        i = i + 1;
    }
    assert(breakpoints@.take(breakpoints.len() as int) == breakpoints@);
    drawn
}

/// Whether one Breakpoint is listed before another: by path, then line.
pub open spec fn listed_before(a: (Seq<char>, usize, Seq<char>, bool), b: (Seq<char>, usize, Seq<char>, bool)) -> bool {
    crate::filter::text_less(a.0, b.0) || (a.0 == b.0 && a.1 < b.1)
}

/// `x` put in after every Breakpoint it is not listed before.
pub open spec fn listed_in(sorted: Seq<(Seq<char>, usize, Seq<char>, bool)>, x: (Seq<char>, usize, Seq<char>, bool)) -> Seq<
    (Seq<char>, usize, Seq<char>, bool),
>
    decreases sorted.len(),
{
    if sorted.len() == 0 {
        seq![x]
    } else if listed_before(x, sorted.last()) {
        listed_in(sorted.drop_last(), x).push(sorted.last())
    } else {
        sorted.push(x)
    }
}

/// The Breakpoints as the list draws them: by path, then line, and those on
/// one line of one path in the order they are held.
pub open spec fn listed(breakpoints: Seq<(Seq<char>, usize, Seq<char>, bool)>) -> Seq<(Seq<char>, usize, Seq<char>, bool)>
    decreases breakpoints.len(),
{
    if breakpoints.len() == 0 {
        Seq::empty()
    } else {
        listed_in(listed(breakpoints.drop_last()), breakpoints.last())
    }
}

pub open spec fn breakpoints_view(breakpoints: Seq<Breakpoint>) -> Seq<(Seq<char>, usize, Seq<char>, bool)> {
    breakpoints.map_values(|b: Breakpoint| b@)
}

pub open spec fn refs_view(rows: Seq<&Breakpoint>) -> Seq<(Seq<char>, usize, Seq<char>, bool)> {
    rows.map_values(|b: &Breakpoint| b@)
}

fn listed_ahead(a: &Breakpoint, b: &Breakpoint) -> (r: bool)
    ensures
        r == listed_before(a@, b@),
{
    let af = chars_of(a.file.as_str());
    let bf = chars_of(b.file.as_str());
    crate::filter::less(&af, &bf) || (crate::text::same_chars(&af, &bf) && a.line < b.line)
}

proof fn lemma_listed_in_split(sorted: Seq<(Seq<char>, usize, Seq<char>, bool)>, x: (Seq<char>, usize, Seq<char>, bool), j: int)
    requires
        0 <= j <= sorted.len(),
        forall|k: int| j <= k < sorted.len() ==> listed_before(x, #[trigger] sorted[k]),
    ensures
        listed_in(sorted, x) == listed_in(sorted.take(j), x) + sorted.skip(j),
    decreases sorted.len() - j,
{
    if j < sorted.len() {
        lemma_listed_in_split(sorted, x, j + 1);
        let t = sorted.take(j + 1);
        assert(t.drop_last() == sorted.take(j));
        assert(t.last() == sorted[j]);
        assert(listed_in(t, x) == listed_in(sorted.take(j), x).push(sorted[j]));
        assert(sorted.skip(j) == seq![sorted[j]] + sorted.skip(j + 1));
    } else {
        assert(sorted.take(j) == sorted);
    }
}

/// Every Breakpoint in the workspace as the Breakpoint list draws it: by
/// path, then line.
pub fn list(breakpoints: &[Breakpoint]) -> (rows: Vec<&Breakpoint>)
    ensures
        refs_view(rows@) == listed(breakpoints_view(breakpoints@)),
{
    let mut rows: Vec<&Breakpoint> = Vec::new();
    let mut i: usize = 0;
    while i < breakpoints.len()
        invariant
            i <= breakpoints.len(),
            refs_view(rows@) == listed(breakpoints_view(breakpoints@.take(i as int))),
        decreases breakpoints.len() - i,
    {
        let b = &breakpoints[i];
        let ghost sorted = refs_view(rows@);
        assert(breakpoints_view(breakpoints@.take(i + 1)).drop_last() == breakpoints_view(breakpoints@.take(i as int)));
        assert(breakpoints_view(breakpoints@.take(i + 1)).last() == b@);
        let mut j = rows.len();
        while j > 0 && listed_ahead(b, rows[j - 1])
            invariant
                j <= rows.len(),
                sorted == refs_view(rows@),
                forall|k: int| j <= k < sorted.len() ==> listed_before(b@, #[trigger] sorted[k]),
            decreases j,
        {
            j = j - 1;
        }
        proof {
            lemma_listed_in_split(sorted, b@, j as int);
            if j > 0 {
                assert(sorted.take(j as int).drop_last() == sorted.take(j - 1));
                assert(sorted.take(j as int).last() == sorted[j - 1]);
            }
        }
        rows.insert(j, b);
        assert(refs_view(rows@) == sorted.take(j as int).push(b@) + sorted.skip(j as int));
        i = i + 1;
    }
    assert(breakpoints@.take(breakpoints.len() as int) == breakpoints@);
    rows
}

/// The row the keyboard is on in the Breakpoint list, if it names one.
pub fn selected(breakpoints: &[Breakpoint], selection: usize) -> (row: Option<&Breakpoint>)
    ensures
        match row {
            Some(b) => selection < breakpoints.len() && b@ == listed(breakpoints_view(breakpoints@))[selection as int],
            None => selection >= breakpoints.len(),
        },
{
    let rows = list(breakpoints);
    proof {
        lemma_listed_len(breakpoints_view(breakpoints@));
    }
    if selection < rows.len() {
        Some(rows[selection])
    } else {
        None
    }
}

proof fn lemma_listed_in_len(sorted: Seq<(Seq<char>, usize, Seq<char>, bool)>, x: (Seq<char>, usize, Seq<char>, bool))
    ensures
        listed_in(sorted, x).len() == sorted.len() + 1,
    decreases sorted.len(),
{
    if sorted.len() > 0 {
        lemma_listed_in_len(sorted.drop_last(), x);
    }
}

proof fn lemma_listed_len(breakpoints: Seq<(Seq<char>, usize, Seq<char>, bool)>)
    ensures
        listed(breakpoints).len() == breakpoints.len(),
    decreases breakpoints.len(),
{
    if breakpoints.len() > 0 {
        lemma_listed_len(breakpoints.drop_last());
        lemma_listed_in_len(listed(breakpoints.drop_last()), breakpoints.last());
    }
}

/// What the focused row of the Breakpoint list offers: removing the
/// Breakpoint it names.
pub fn row_actions(breakpoints: &[Breakpoint], selection: usize) -> (actions: Vec<&'static str>)
    ensures
        selection < breakpoints.len() ==> actions@ == seq![REMOVE],
        selection >= breakpoints.len() ==> actions@.len() == 0,
{
    match selected(breakpoints, selection) {
        Some(_) => {
            let mut actions: Vec<&'static str> = Vec::new();
            actions.push(REMOVE);
            actions
        },
        None => Vec::new(),
    }
}

/// The Chips on the Breakpoint list's top border: clearing them all, dimmed
/// with nothing to clear.
pub fn transport(breakpoints: &[Breakpoint]) -> (chips: Vec<Chip>)
    ensures
        chips@.len() == 1,
        chip_is(chips@[0], CLEAR_ALL, "clear-all", "\u{2715}", "D", Hue::Halt,
            if breakpoints.len() == 0 { Tone::Dimmed } else { Tone::Plain }),
{
    let tone = if breakpoints.len() == 0 { Tone::Dimmed } else { Tone::Plain };
    let mut chips: Vec<Chip> = Vec::new();
    chips.push(chip(CLEAR_ALL, "clear-all", "\u{2715}", "D", Hue::Halt, tone));
    chips
}

/// A Transport chip's tone: lit while its action is the one just taken,
/// ahead of dimmed, since a step leaves the program running.
pub open spec fn transport_tone(lit: Option<Seq<char>>, action: &str, dimmed: bool) -> Tone {
    if lit == Some(action@) {
        Tone::Lit
    } else if dimmed {
        Tone::Dimmed
    } else {
        Tone::Plain
    }
}

fn tone_of(lit: Option<&str>, action: &'static str, dimmed: bool) -> (tone: Tone)
    ensures
        tone == transport_tone(match lit {
            Some(l) => Some(l@),
            None => None,
        }, action, dimmed),
{
    let is_lit = match lit {
        Some(l) => crate::text::same_text(l, action),
        None => false,
    };
    if is_lit {
        Tone::Lit
    } else if dimmed {
        Tone::Dimmed
    } else {
        Tone::Plain
    }
}

/// The chips a session shows, in order, while it exists.
pub open spec fn session_chips_ok(chips: Seq<Chip>, phase: Phase, lit: Option<Seq<char>>) -> bool {
    let running = phase is Running;
    let stepping = !(phase is Paused);
    let between = !(phase is Paused) && !(phase is Running);
    &&& chips.len() == 8
    &&& if running {
        chip_is(chips[0], RESUME, "pause", "\u{2016}", "F9 \u{2423}c", Hue::Hold, transport_tone(lit, RESUME, between))
    } else {
        chip_is(chips[0], RESUME, "continue", "\u{25ba}", "F9 \u{2423}c", Hue::Go, transport_tone(lit, RESUME, between))
    }
    &&& chip_is(chips[1], STEP_OVER, "step-over", "\u{293c}", "F8 \u{2423}n", Hue::Step, transport_tone(lit, STEP_OVER, stepping))
    &&& chip_is(chips[2], STEP_INTO, "step-into", "\u{2913}", "F7 \u{2423}i", Hue::Step, transport_tone(lit, STEP_INTO, stepping))
    &&& chip_is(chips[3], STEP_OUT, "step-out", "\u{2912}", "S-F8 \u{2423}o", Hue::Step, transport_tone(lit, STEP_OUT, stepping))
    &&& chip_is(chips[4], STOP, "stop", "\u{25a0}", "C-F2 \u{2423}q", Hue::Halt, transport_tone(lit, STOP, false))
    &&& chip_is(chips[5], RESTART, "restart", "\u{21bb}", "C-F5 \u{2423}r", Hue::Go, transport_tone(lit, RESTART, true))
    &&& chip_is(chips[6], ASK_AI, "ask-ai", "\u{2736}", "", Hue::Plain, transport_tone(lit, ASK_AI, true))
    &&& chip_is(chips[7], NEXT_THREAD, "next-thread", "\u{21c9}", "", Hue::Plain, transport_tone(lit, NEXT_THREAD, true))
}

/// The Chips on the Variables' top border: every debug action while a
/// session exists (`phase`), restart alone once one has ended with a
/// configuration to rerun (`relaunch`), then the Program output's toggle
/// while a program's output is running. `lit` is the action just taken.
pub fn strip_transport(
    phase: &Option<Phase>,
    lit: Option<&str>,
    relaunch: bool,
    output_running: bool,
    output_hidden: bool,
    output_unseen: bool,
) -> (chips: Vec<Chip>)
    ensures
        ({
            let lit_view = match lit {
                Some(l) => Some(l@),
                None => None,
            };
            let session = match *phase {
                Some(p) => 8int,
                None => if relaunch { 1int } else { 0int },
            };
            &&& chips@.len() == session + if output_running { 1int } else { 0int }
            &&& match *phase {
                Some(p) => session_chips_ok(chips@.take(8), p, lit_view),
                None => relaunch ==> chip_is(chips@[0], RESTART, "restart", "\u{21bb}", "C-F5 \u{2423}r", Hue::Go,
                    transport_tone(lit_view, RESTART, false)),
            }
            &&& forall|i: int, j: int| 0 <= i < j < chips@.len() ==> (#[trigger] chips@[i]).action@ != (#[trigger] chips@[j]).action@
            &&& output_running ==> chip_is(
                chips@[session],
                TOGGLE_OUTPUT,
                if output_hidden { "show-output" } else { "hide-output" },
                if output_hidden { "\u{25a3}" } else { "\u{25a2}" },
                "\u{2423}h",
                Hue::Plain,
                if output_unseen { Tone::Marked } else { Tone::Plain },
            )
        }),
{
    let mut chips: Vec<Chip> = Vec::new();
    match phase {
        Some(p) => {
            let running = match p {
                Phase::Running(_) => true,
                _ => false,
            };
            let paused = match p {
                Phase::Paused(_) => true,
                _ => false,
            };
            let stepping = !paused;
            let between = !paused && !running;
            if running {
                chips.push(chip(RESUME, "pause", "\u{2016}", "F9 \u{2423}c", Hue::Hold, tone_of(lit, RESUME, between)));
            } else {
                chips.push(chip(RESUME, "continue", "\u{25ba}", "F9 \u{2423}c", Hue::Go, tone_of(lit, RESUME, between)));
            }
            chips.push(chip(STEP_OVER, "step-over", "\u{293c}", "F8 \u{2423}n", Hue::Step, tone_of(lit, STEP_OVER, stepping)));
            chips.push(chip(STEP_INTO, "step-into", "\u{2913}", "F7 \u{2423}i", Hue::Step, tone_of(lit, STEP_INTO, stepping)));
            chips.push(chip(STEP_OUT, "step-out", "\u{2912}", "S-F8 \u{2423}o", Hue::Step, tone_of(lit, STEP_OUT, stepping)));
            chips.push(chip(STOP, "stop", "\u{25a0}", "C-F2 \u{2423}q", Hue::Halt, tone_of(lit, STOP, false)));
            chips.push(chip(RESTART, "restart", "\u{21bb}", "C-F5 \u{2423}r", Hue::Go, tone_of(lit, RESTART, true)));
            chips.push(chip(ASK_AI, "ask-ai", "\u{2736}", "", Hue::Plain, tone_of(lit, ASK_AI, true)));
            chips.push(chip(NEXT_THREAD, "next-thread", "\u{21c9}", "", Hue::Plain, tone_of(lit, NEXT_THREAD, true)));
            assert(chips@.take(8) == chips@);
        },
        None => {
            if relaunch {
                chips.push(chip(RESTART, "restart", "\u{21bb}", "C-F5 \u{2423}r", Hue::Go, tone_of(lit, RESTART, false)));
            }
        },
    }
    proof {
        reveal_strlit("debug-resume");
        reveal_strlit("debug-step-over");
        reveal_strlit("debug-step-into");
        reveal_strlit("debug-step-out");
        reveal_strlit("debug-stop");
        reveal_strlit("debug-restart");
        reveal_strlit("debug-ask-ai");
        reveal_strlit("debug-next-thread");
        reveal_strlit("toggle-output");
        assert(RESUME@.len() == 12 && ASK_AI@.len() == 12 && RESUME@[6] != ASK_AI@[6]);
        assert(STEP_OVER@.len() == 15 && STEP_INTO@.len() == 15 && STEP_OVER@[11] != STEP_INTO@[11]);
        assert(RESTART@.len() == 13 && TOGGLE_OUTPUT@.len() == 13 && RESTART@[0] != TOGGLE_OUTPUT@[0]);
        assert(STEP_OUT@.len() == 14 && STOP@.len() == 10 && NEXT_THREAD@.len() == 17);
    }
    let ghost session = chips@;
    if output_running {
        let name = if output_hidden { "show-output" } else { "hide-output" };
        let glyph = if output_hidden { "\u{25a3}" } else { "\u{25a2}" };
        let tone = if output_unseen { Tone::Marked } else { Tone::Plain };
        chips.push(chip(TOGGLE_OUTPUT, name, glyph, "\u{2423}h", Hue::Plain, tone));
        assert(chips@.take(session.len() as int) == session);
    }
    chips
}

/// What a row's Chips read of it: the container it sits in, its expression,
/// and whether it stands for a Watch.
pub open spec fn variables_row_at(watches: Seq<Watch>, phase: Option<Phase>, index: int) -> Option<(i64, Seq<char>, bool)> {
    if 0 <= index < watches.len() {
        Some((0i64, watches[index].expression@, true))
    } else {
        match showing_spec(phase) {
            Some(pause) => if watches.len() <= index < watches.len() + pause_rows(pause).len() {
                let r = pause_rows(pause)[index - watches.len()];
                Some((r.7, r.6, r.8 is Watch))
            } else {
                None
            },
            None => None,
        }
    }
}

/// The Chips a Variables row carries: setting its value (dimmed where the
/// adapter cannot, or the row has no container to write into), copying it,
/// watching it or removing its Watch, evaluating it (dimmed where it has no
/// expression) and asking about it, which nothing answers yet.
pub open spec fn row_chips_ok(chips: Seq<Chip>, row: (i64, Seq<char>, bool), can_set: bool) -> bool {
    let nothing_to_write = row.0 == 0;
    let nothing_to_watch = row.1.len() == 0;
    &&& chips.len() == 5
    &&& chip_is(chips[0], SET_VALUE, "set-value", "\u{270e}", "s", Hue::Step,
        if nothing_to_write || !can_set { Tone::Dimmed } else { Tone::Plain })
    &&& chip_is(chips[1], COPY_VALUE, "copy", "\u{29c9}", "y", Hue::Plain, Tone::Plain)
    &&& if row.2 {
        chip_is(chips[2], REMOVE_WATCH, "remove-watch", "\u{2715}", "d", Hue::Halt, Tone::Plain)
    } else {
        chip_is(chips[2], WATCH, "watch", "\u{25c9}", "w", Hue::Go, if nothing_to_watch { Tone::Dimmed } else { Tone::Plain })
    }
    &&& chip_is(chips[3], EVALUATE, "evaluate", "\u{2261}", "", Hue::Plain, if nothing_to_watch { Tone::Dimmed } else { Tone::Plain })
    &&& chip_is(chips[4], ROW_ASK_AI, "ask-ai", "\u{2736}", "", Hue::Plain, Tone::Dimmed)
}

proof fn lemma_pause_rows_are_members(pause: Pause, j: int)
    requires
        0 <= j < pause_rows(pause).len(),
    ensures
        pause_rows(pause)[j].8 == Of::Member,
{
    let e = exception_rows(pause);
    if j >= e.len() {
        lemma_each_members(pause, members_view(pause.scopes@), 0, Seq::empty(), Seq::empty(), 0, j - e.len());
    }
}

proof fn lemma_each_members(p: Pause, members: Seq<MemberView>, depth: usize, path: Seq<char>, walked: Seq<i64>, k: int, j: int)
    requires
        0 <= j < drawn_each(p, members, depth, path, walked, k).len(),
    ensures
        drawn_each(p, members, depth, path, walked, k)[j].8 == Of::Member,
    decreases p.children@.dom().len() - walked.len(), members.len() - k + 1, 0int,
{
    if 0 <= k < members.len() {
        let first = drawn(p, members[k], depth, path, walked);
        if j < first.len() {
            lemma_drawn_members(p, members[k], depth, path, walked, j);
        } else {
            lemma_each_members(p, members, depth, path, walked, k + 1, j - first.len());
        }
    }
}

proof fn lemma_drawn_members(p: Pause, m: MemberView, depth: usize, path: Seq<char>, walked: Seq<i64>, j: int)
    requires
        0 <= j < drawn(p, m, depth, path, walked).len(),
    ensures
        drawn(p, m, depth, path, walked)[j].8 == Of::Member,
    decreases p.children@.dom().len() - walked.len(), 0int, 0int,
{
    if member_open(p, m, walked) && j > 0 {
        let expression = member_expression(depth, path, m.0);
        if p.children@.contains_key(m.2) && walked.len() < p.children@.dom().len() {
            let kids = drawn_each(p, members_view(p.children@[m.2]@), (depth + 1) as usize, expression, walked.push(m.2), 0);
            if j - 1 < kids.len() {
                lemma_each_members(p, members_view(p.children@[m.2]@), (depth + 1) as usize, expression, walked.push(m.2), 0, j - 1);
            }
        }
    }
}

/// The row the keyboard is on in the Variables, if it names one.
pub fn row(watches: &[Watch], language: &str, phase: &Option<Phase>, selection: usize) -> (picked: Option<Row>)
    requires
        countable(*phase),
    ensures
        selection < watches.len() ==> picked is Some && watch_row_ok(picked->0@, watches@[selection as int], selection as int, language@),
        selection >= watches.len() ==> match showing_spec(*phase) {
            Some(pause) => if selection - watches.len() < pause_rows(pause).len() {
                picked is Some && picked->0@ == pause_rows(pause)[selection - watches.len()]
            } else {
                picked is None
            },
            None => picked is None,
        },
{
    let rows = variables(watches, language, phase);
    let ghost all = rows_view(rows@);
    assert(all.len() == rows@.len());
    assert(all.skip(watches.len() as int).len() == rows@.len() - watches.len());
    if selection < rows.len() {
        let picked = copy_row(&rows[selection]);
        proof {
            assert(all[selection as int] == rows@[selection as int]@);
            if selection >= watches.len() {
                assert(all.skip(watches.len() as int)[selection - watches.len()] == all[selection as int]);
            }
        }
        Some(picked)
    } else {
        None
    }
}

/// The Chips the row at `index` carries: its own actions, and only on the
/// row the keyboard is on. `can_set` is whether the adapter said it can
/// write a member back.
pub fn row_chips(
    watches: &[Watch],
    language: &str,
    phase: &Option<Phase>,
    selection: usize,
    can_set: bool,
    index: usize,
) -> (chips: Vec<Chip>)
    requires
        countable(*phase),
    ensures
        index != selection ==> chips@.len() == 0,
        index == selection ==> match variables_row_at(watches@, *phase, index as int) {
            Some(r) => row_chips_ok(chips@, r, can_set),
            None => chips@.len() == 0,
        },
{
    if index != selection {
        return Vec::new();
    }
    let picked = match row(watches, language, phase, index) {
        Some(r) => r,
        None => return Vec::new(),
    };
    proof {
        if index >= watches.len() {
            let pause = showing_spec(*phase)->0;
            lemma_pause_rows_are_members(pause, index - watches.len());
        }
    }
    let nothing_to_write = picked.parent == 0;
    let nothing_to_watch = picked.expression.as_str().is_empty();
    let cannot_set = nothing_to_write || !can_set;
    let mut chips: Vec<Chip> = Vec::new();
    chips.push(chip(SET_VALUE, "set-value", "\u{270e}", "s", Hue::Step, if cannot_set { Tone::Dimmed } else { Tone::Plain }));
    chips.push(chip(COPY_VALUE, "copy", "\u{29c9}", "y", Hue::Plain, Tone::Plain));
    match picked.of {
        Of::Watch { .. } => chips.push(chip(REMOVE_WATCH, "remove-watch", "\u{2715}", "d", Hue::Halt, Tone::Plain)),
        Of::Member => chips.push(chip(WATCH, "watch", "\u{25c9}", "w", Hue::Go, if nothing_to_watch { Tone::Dimmed } else { Tone::Plain })),
    }
    chips.push(chip(EVALUATE, "evaluate", "\u{2261}", "", Hue::Plain, if nothing_to_watch { Tone::Dimmed } else { Tone::Plain }));
    chips.push(chip(ROW_ASK_AI, "ask-ai", "\u{2736}", "", Hue::Plain, Tone::Dimmed));
    chips
}

/// The expression the Hover describes and how many characters of the line
/// it spans, once a value has been asked for.
pub fn hover_span(hovered: Option<&Hovered>) -> (span: Option<(Place, usize)>)
    ensures
        match hovered {
            Some(h) => span == Some((h.at, h.expression@.len() as usize)),
            None => span is None,
        },
{
    match hovered {
        Some(h) => Some((h.at, chars_of(h.expression.as_str()).len())),
        None => None,
    }
}

/// The Chips on the Hover's top border, once it has a value asked for: the
/// Evaluator, then a Watch.
pub fn hover_chips(hovered: Option<&Hovered>) -> (chips: Vec<Chip>)
    ensures
        hovered is None ==> chips@.len() == 0,
        hovered is Some ==> chips@.len() == 2
            && chip_is(chips@[0], EVALUATE, "evaluate", "\u{2261}", "", Hue::Plain, Tone::Plain)
            && chip_is(chips@[1], WATCH, "watch", "\u{25c9}", "", Hue::Go, Tone::Plain),
{
    if hovered.is_none() {
        return Vec::new();
    }
    let mut chips: Vec<Chip> = Vec::new();
    chips.push(chip(EVALUATE, "evaluate", "\u{2261}", "", Hue::Plain, Tone::Plain));
    chips.push(chip(WATCH, "watch", "\u{25c9}", "", Hue::Go, Tone::Plain));
    chips
}

/// The Chips on the Evaluator's top border while it is open: run, dimmed
/// while the program is not stopped, and cancel, dimmed unless a run is out
/// and the adapter can take one back.
pub fn evaluator_chips(open: bool, ran: Option<&Run>, phase: &Option<Phase>, can_cancel: bool) -> (chips: Vec<Chip>)
    ensures
        !open ==> chips@.len() == 0,
        open ==> chips@.len() == 2
            && chip_is(chips@[0], RUN, "run", "\u{25b6}", "\u{21b5}", Hue::Go,
                if *phase matches Some(Phase::Paused(_)) { Tone::Plain } else { Tone::Dimmed })
            && chip_is(chips@[1], CANCEL, "cancel", "\u{2715}", "", Hue::Halt,
                if (ran matches Some(r) && r.answer is Running) && can_cancel { Tone::Plain } else { Tone::Dimmed }),
{
    if !open {
        return Vec::new();
    }
    let running = match ran {
        Some(r) => match r.answer {
            Ran::Running(_) => true,
            _ => false,
        },
        None => false,
    };
    let stopped = match phase {
        Some(Phase::Paused(_)) => true,
        _ => false,
    };
    let mut chips: Vec<Chip> = Vec::new();
    chips.push(chip(RUN, "run", "\u{25b6}", "\u{21b5}", Hue::Go, if stopped { Tone::Plain } else { Tone::Dimmed }));
    chips.push(chip(CANCEL, "cancel", "\u{2715}", "", Hue::Halt, if running && can_cancel { Tone::Plain } else { Tone::Dimmed }));
    chips
}


/// What the Corner holds outside a session: what it held before the session
/// began while one exists (`began_with`), and otherwise what it holds now.
pub fn resting_corner(began_with: Option<crate::layout::Corner>, corner: crate::layout::Corner) -> (rest: crate::layout::Corner)
    ensures
        rest == match began_with {
            Some(c) => c,
            None => corner,
        },
{
    match began_with {
        Some(c) => c,
        None => corner,
    }
}


proof fn lemma_text_total(a: Seq<char>, b: Seq<char>)
    ensures
        !crate::filter::text_less(a, a),
        a != b ==> (crate::filter::text_less(a, b) || crate::filter::text_less(b, a)),
        !(crate::filter::text_less(a, b) && crate::filter::text_less(b, a)),
    decreases a.len(),
{
    if a.len() > 0 && b.len() > 0 {
        lemma_text_total(a.drop_first(), b.drop_first());
        lemma_text_total(a.drop_first(), a.drop_first());
        if a[0] != b[0] {
            vstd::utf8::char_u32_cast(a[0], a[0] as u32);
            vstd::utf8::char_u32_cast(b[0], b[0] as u32);
            assert((a[0] as u32) != (b[0] as u32));
        }
        if a != b && a[0] == b[0] {
            assert(a.drop_first() != b.drop_first()) by {
                if a.drop_first() == b.drop_first() {
                    assert(a =~= seq![a[0]] + a.drop_first());
                    assert(b =~= seq![b[0]] + b.drop_first());
                }
            }
        }
    } else if a.len() > 0 {
        lemma_text_total(a.drop_first(), a.drop_first());
    } else if b.len() == 0 {
        assert(a =~= b);
    }
}

proof fn lemma_text_transitive(a: Seq<char>, b: Seq<char>, c: Seq<char>)
    ensures
        crate::filter::text_less(a, b) && crate::filter::text_less(b, c) ==> crate::filter::text_less(a, c),
    decreases a.len(),
{
    if a.len() > 0 && b.len() > 0 && c.len() > 0 {
        lemma_text_transitive(a.drop_first(), b.drop_first(), c.drop_first());
    }
}

proof fn lemma_text_order(a: Seq<char>, b: Seq<char>, c: Seq<char>)
    ensures
        !crate::filter::text_less(a, a),
        a != b ==> (crate::filter::text_less(a, b) || crate::filter::text_less(b, a)),
        !(crate::filter::text_less(a, b) && crate::filter::text_less(b, a)),
        crate::filter::text_less(a, b) && crate::filter::text_less(b, c) ==> crate::filter::text_less(a, c),
{
    lemma_text_total(a, b);
    lemma_text_transitive(a, b, c);
}

/// Whether a Breakpoint is listed no later than another.
pub open spec fn listed_no_later(a: (Seq<char>, usize, Seq<char>, bool), b: (Seq<char>, usize, Seq<char>, bool)) -> bool {
    !listed_before(b, a)
}

proof fn lemma_listed_order(
    a: (Seq<char>, usize, Seq<char>, bool),
    b: (Seq<char>, usize, Seq<char>, bool),
    c: (Seq<char>, usize, Seq<char>, bool),
)
    ensures
        listed_before(a, b) ==> listed_no_later(a, b),
        !listed_before(a, b) ==> listed_no_later(b, a),
        listed_no_later(a, b) && listed_no_later(b, c) ==> listed_no_later(a, c),
{
    lemma_text_order(a.0, b.0, c.0);
    lemma_text_order(b.0, c.0, a.0);
    lemma_text_order(c.0, a.0, b.0);
    lemma_text_order(a.0, c.0, b.0);
    lemma_text_order(b.0, a.0, c.0);
    lemma_text_order(c.0, b.0, a.0);
}

/// Breakpoints in the order the list draws them: none after one it is listed
/// before.
pub open spec fn runs_in_order(rows: Seq<(Seq<char>, usize, Seq<char>, bool)>) -> bool {
    forall|i: int, j: int| 0 <= i < j < rows.len() ==> listed_no_later(#[trigger] rows[i], #[trigger] rows[j])
}

proof fn lemma_listed_in_keeps_order(sorted: Seq<(Seq<char>, usize, Seq<char>, bool)>, x: (Seq<char>, usize, Seq<char>, bool))
    requires
        runs_in_order(sorted),
    ensures
        runs_in_order(listed_in(sorted, x)),
        listed_in(sorted, x).to_multiset() == sorted.to_multiset().insert(x),
    decreases sorted.len(),
{
    broadcast use vstd::seq_lib::group_to_multiset_ensures;

    if sorted.len() == 0 {
        assert(listed_in(sorted, x) == seq![x]);
        assert(seq![x] == Seq::<(Seq<char>, usize, Seq<char>, bool)>::empty().push(x));
    } else {
        let rest = sorted.drop_last();
        let last = sorted.last();
        assert(sorted == rest.push(last));
        assert(runs_in_order(rest)) by {
            assert forall|i: int, j: int| 0 <= i < j < rest.len() implies listed_no_later(#[trigger] rest[i], #[trigger] rest[j]) by {
                assert(rest[i] == sorted[i] && rest[j] == sorted[j]);
            }
        }
        if listed_before(x, last) {
            lemma_listed_in_keeps_order(rest, x);
            let inner = listed_in(rest, x);
            let whole = inner.push(last);
            assert forall|i: int, j: int| 0 <= i < j < whole.len() implies listed_no_later(#[trigger] whole[i], #[trigger] whole[j]) by {
                if j == inner.len() {
                    let e = inner[i];
                    assert(inner.contains(e));
                    assert(inner.to_multiset().count(e) > 0);
                    if e == x {
                        lemma_listed_order(x, last, last);
                    } else {
                        assert(rest.to_multiset().count(e) > 0);
                        assert(rest.contains(e));
                        let w = choose|w: int| 0 <= w < rest.len() && rest[w] == e;
                        assert(sorted[w] == e && sorted[sorted.len() - 1] == last);
                    }
                } else {
                    assert(whole[i] == inner[i] && whole[j] == inner[j]);
                }
            }
        } else {
            let whole = sorted.push(x);
            lemma_listed_order(x, last, last);
            assert forall|i: int, j: int| 0 <= i < j < whole.len() implies listed_no_later(#[trigger] whole[i], #[trigger] whole[j]) by {
                if j == sorted.len() {
                    if i < sorted.len() - 1 {
                        assert(listed_no_later(sorted[i], sorted[sorted.len() - 1]));
                        lemma_listed_order(sorted[i], last, x);
                    }
                } else {
                    assert(whole[i] == sorted[i] && whole[j] == sorted[j]);
                }
            }
        }
    }
}

/// The Breakpoint list runs by path, then line, and holds every Breakpoint
/// once: each row is listed no later than every row below it, and the rows
/// are the Breakpoints themselves, none lost and none added.
pub proof fn law_the_list_runs_by_path_then_line(breakpoints: Seq<(Seq<char>, usize, Seq<char>, bool)>)
    ensures
        runs_in_order(listed(breakpoints)),
        listed(breakpoints).to_multiset() == breakpoints.to_multiset(),
    decreases breakpoints.len(),
{
    broadcast use vstd::seq_lib::group_to_multiset_ensures;

    if breakpoints.len() == 0 {
        assert(listed(breakpoints) == Seq::<(Seq<char>, usize, Seq<char>, bool)>::empty());
        assert(breakpoints == Seq::<(Seq<char>, usize, Seq<char>, bool)>::empty());
    } else {
        law_the_list_runs_by_path_then_line(breakpoints.drop_last());
        lemma_listed_in_keeps_order(listed(breakpoints.drop_last()), breakpoints.last());
        assert(breakpoints == breakpoints.drop_last().push(breakpoints.last()));
    }
}


proof fn lemma_inline_lines_keys(
    lines: Seq<Seq<char>>,
    tokens: Seq<Seq<(Seq<char>, crate::highlight::Kind)>>,
    from: int,
    to: int,
    columns: int,
    held: Seq<(Seq<char>, Seq<char>)>,
    was: Option<Seq<(Seq<char>, Seq<char>)>>,
    n: usize,
)
    requires
        0 <= from,
        to <= usize::MAX,
        inline_lines(lines, tokens, from, to, columns, held, was).contains_key(n),
    ensures
        from < n <= to,
    decreases to - from,
{
    if !(to <= from || to > lines.len()) {
        let index = to - 1;
        let before = inline_lines(lines, tokens, from, index, columns, held, was);
        if before.contains_key(n) {
            lemma_inline_lines_keys(lines, tokens, from, index, columns, held, was, n);
        }
    }
}

/// A value is only ever drawn on a line the paused call has already run:
/// never on the Paused line, never past it, and never above the line the
/// call opens on.
pub proof fn law_no_value_on_the_paused_line_or_below(
    phase: Option<Phase>,
    previous: Option<(String, Vec<(String, String)>)>,
    current: Option<Seq<char>>,
    source: Seq<char>,
    tokens: Seq<Seq<(Seq<char>, crate::highlight::Kind)>>,
    columns: int,
    n: usize,
)
    requires
        split_lines(source).len() < usize::MAX,
        inline_spec(phase, previous, current, source, tokens, columns).contains_key(n),
    ensures
        showing_spec(phase) matches Some(pause) && 0 <= pause.chosen < pause.frames@.len()
            && call_start_spec(source, pause.frames@[pause.chosen as int].line as int) <= n
            && n < pause.frames@[pause.chosen as int].line,
{
    let pause = showing_spec(phase)->0;
    let frame = pause.frames@[pause.chosen as int];
    let was = match previous {
        Some(last) => if (phase matches Some(Phase::Paused(_))) && last.0@ == frame.name@ {
            Some(pairs_view(last.1@))
        } else {
            None
        },
        None => None,
    };
    let opens = call_start_spec(source, frame.line as int);
    let from = if opens > 0 { opens - 1 } else { 0 };
    let lines = split_lines(source);
    let to = from + saturating(frame.line as int, opens);
    let end = if to < lines.len() { to } else { lines.len() as int };
    lemma_call_start_positive(source, frame.line as int);
    lemma_inline_lines_keys(lines, tokens, from, end, columns, locals_spec(pause, pause.scopes@.len() as int), was, n);
}

proof fn lemma_blocks_open_on_a_line(ind: Seq<Option<int>>, i: int)
    requires
        0 <= i,
        ind.len() < usize::MAX,
    ensures
        forall|k: int| 0 <= k < crate::fold::blocks_from(ind, i).len() ==> #[trigger] crate::fold::blocks_from(ind, i)[k].from >= 1,
    decreases ind.len() - i,
{
    if i < ind.len() {
        lemma_blocks_open_on_a_line(ind, i + 1);
        let rest = crate::fold::blocks_from(ind, i + 1);
        let all = crate::fold::blocks_from(ind, i);
        assert forall|k: int| 0 <= k < all.len() implies #[trigger] all[k].from >= 1 by {
            if all.len() > rest.len() && k == 0 {
            } else if all.len() > rest.len() {
                assert(all[k] == rest[k - 1]);
            } else {
                assert(all[k] == rest[k]);
            }
        }
    }
}

proof fn lemma_latest_opening_positive(found: Seq<Block>, line: int)
    requires
        forall|k: int| 0 <= k < found.len() ==> #[trigger] found[k].from >= 1,
    ensures
        latest_opening(found, line) matches Some(r) ==> r >= 1,
    decreases found.len(),
{
    if found.len() > 0 {
        assert(found.last() == found[found.len() - 1]);
        assert forall|k: int| 0 <= k < found.drop_last().len() implies #[trigger] found.drop_last()[k].from >= 1 by {
            assert(found.drop_last()[k] == found[k]);
        }
        lemma_latest_opening_positive(found.drop_last(), line);
    }
}

proof fn lemma_call_start_positive(source: Seq<char>, line: int)
    requires
        split_lines(source).len() < usize::MAX,
    ensures
        call_start_spec(source, line) >= 1,
{
    let ind = crate::fold::indents_of(split_lines(source));
    assert(ind.len() == split_lines(source).len());
    lemma_blocks_open_on_a_line(ind, 0);
    lemma_latest_opening_positive(crate::fold::blocks_spec(source), line);
}


/// The floating window that runs a Snippet inside the Paused program. The
/// Snippet is a Buffer, so it has the editor's own gestures.
#[derive(Debug, Clone, PartialEq, Eq)]
pub struct Evaluator {
    pub snippet: crate::editor::Buffer,
    /// The run on screen, none until the Snippet has been run once.
    pub ran: Option<Run>,
    /// How many rows of the window the Snippet takes, none until the rule
    /// under it is dragged.
    pub snippet_rows: Option<u16>,
    /// How far back through the project's Snippets Up has walked, and none
    /// while the keyboard is in the Snippet rather than in its history.
    pub recalled: Option<usize>,
}

/// Which Snippet an arrow recalls, if the arrow is the history's: Up from a
/// Snippet nobody is writing starts at the newest and walks back, Down comes
/// forward again, and every other case is the caret's.
pub open spec fn recalled_at(count: nat, recalled: Option<usize>, empty: bool, direction: crate::Direction) -> Option<nat> {
    if count == 0 || (recalled is None && !empty) {
        None
    } else {
        let newest = (count - 1) as nat;
        match (recalled, direction) {
            (None, crate::Direction::Up) => Some(newest),
            (Some(at), crate::Direction::Up) => Some(if at >= 1 { (at - 1) as nat } else { 0 }),
            (Some(at), crate::Direction::Down) => Some(if at < newest { (at + 1) as nat } else { newest }),
            _ => None,
        }
    }
}

/// Up and Down on an empty Snippet walk the project's Snippets, newest
/// first, and Down comes forward again. `true` where the arrow was the
/// history's: the Snippet recalled is opened in the window, and the walk
/// remembers where it stands.
pub fn recall(evaluator: &mut Option<Evaluator>, snippets: &[String], direction: crate::Direction) -> (walked: bool)
    requires
        *old(evaluator) matches Some(e) ==> (e.recalled matches Some(at) ==> at <= snippets@.len()),
    ensures
        match *old(evaluator) {
            None => !walked && *final(evaluator) == *old(evaluator),
            Some(e) => match recalled_at(snippets@.len(), e.recalled, e.snippet@.text().len() == 0, direction) {
                None => !walked && *final(evaluator) == *old(evaluator),
                Some(at) => walked && (*final(evaluator) matches Some(f)
                    && at < snippets@.len()
                    && f.recalled == Some(at as usize)
                    && f.snippet@ == crate::editor::opened(snippets@[at as int]@, false, e.snippet.tab_width)
                    && f.ran == e.ran
                    && f.snippet_rows == e.snippet_rows),
            },
        },
{
    if snippets.len() == 0 {
        return false;
    }
    let newest = snippets.len() - 1;
    let open = match evaluator {
        Some(e) => e,
        None => return false,
    };
    if open.recalled.is_none() && !open.snippet.shown().is_empty() {
        return false;
    }
    let at = match (open.recalled, direction) {
        (None, crate::Direction::Up) => newest,
        (Some(at), crate::Direction::Up) => if at >= 1 { at - 1 } else { 0 },
        (Some(at), crate::Direction::Down) => if at < newest { at + 1 } else { newest },
        _ => return false,
    };
    let tab_width = open.snippet.tab_width;
    open.recalled = Some(at);
    open.snippet = crate::editor::Buffer::open(snippets[at].as_str(), false, tab_width);
    true
}

/// The Snippets other than `snippet`, in order.
pub open spec fn without(snippets: Seq<Seq<char>>, snippet: Seq<char>) -> Seq<Seq<char>>
    decreases snippets.len(),
{
    if snippets.len() == 0 {
        Seq::empty()
    } else if snippets.last() == snippet {
        without(snippets.drop_last(), snippet)
    } else {
        without(snippets.drop_last(), snippet).push(snippets.last())
    }
}

/// The Snippets kept for the project with `snippet` remembered: newest last
/// and never twice. Nothing is remembered of an empty Snippet.
pub open spec fn remembered_snippets(snippets: Seq<Seq<char>>, snippet: Seq<char>) -> Seq<Seq<char>> {
    if snippet.len() == 0 {
        snippets
    } else {
        without(snippets, snippet).push(snippet)
    }
}

pub open spec fn texts_view(texts: Seq<String>) -> Seq<Seq<char>> {
    texts.map_values(|t: String| t@)
}

/// A Snippet kept for the project, newest last and never twice; `true`
/// where the Snippets changed and are to be saved.
pub fn remember(snippets: &mut Vec<String>, snippet: String) -> (saved: bool)
    ensures
        texts_view(final(snippets)@) == remembered_snippets(texts_view(old(snippets)@), snippet@),
        saved == (snippet@.len() > 0),
{
    if snippet.as_str().is_empty() {
        return false;
    }
    let ghost before = texts_view(snippets@);
    let mut kept: Vec<String> = Vec::new();
    let mut i: usize = 0;
    while i < snippets.len()
        invariant
            i <= snippets.len(),
            before == texts_view(snippets@),
            texts_view(kept@) == without(before.take(i as int), snippet@),
        decreases snippets.len() - i,
    {
        proof {
            assert(before.take(i + 1).drop_last() == before.take(i as int));
            assert(before.take(i + 1).last() == snippets@[i as int]@);
        }
        if !crate::text::same_text(snippets[i].as_str(), snippet.as_str()) {
            let ghost k = texts_view(kept@);
            kept.push(snippets[i].clone());
            assert(texts_view(kept@) == k.push(snippets@[i as int]@));
        }
        i = i + 1;
    }
    assert(before.take(snippets.len() as int) == before);
    let ghost k = texts_view(kept@);
    kept.push(snippet);
    assert(texts_view(kept@) == k.push(snippet@));
    *snippets = kept;
    true
}

/// Remembering keeps the Snippets once each, with the one just run the
/// newest.
pub proof fn law_a_snippet_is_kept_once_and_newest_last(snippets: Seq<Seq<char>>, snippet: Seq<char>)
    requires
        snippets.no_duplicates(),
        snippet.len() > 0,
    ensures
        remembered_snippets(snippets, snippet).no_duplicates(),
        remembered_snippets(snippets, snippet).last() == snippet,
{
    let kept = without(snippets, snippet);
    lemma_without_keeps_distinct(snippets, snippet);
    let grown = kept.push(snippet);
    assert forall|i: int, j: int| 0 <= i < grown.len() && 0 <= j < grown.len() && i != j implies grown[i] != grown[j] by {
        if i == kept.len() {
            assert(grown[j] == kept[j]);
        } else if j == kept.len() {
            assert(grown[i] == kept[i]);
        } else {
            assert(grown[i] == kept[i] && grown[j] == kept[j]);
        }
    }
}

proof fn lemma_without_keeps_distinct(snippets: Seq<Seq<char>>, snippet: Seq<char>)
    requires
        snippets.no_duplicates(),
    ensures
        without(snippets, snippet).no_duplicates(),
        forall|k: int| 0 <= k < without(snippets, snippet).len()
            ==> #[trigger] without(snippets, snippet)[k] != snippet,
        forall|k: int| 0 <= k < without(snippets, snippet).len()
            ==> snippets.contains(#[trigger] without(snippets, snippet)[k]),
    decreases snippets.len(),
{
    if snippets.len() > 0 {
        let rest = snippets.drop_last();
        assert(rest.no_duplicates()) by {
            assert forall|i: int, j: int| 0 <= i < rest.len() && 0 <= j < rest.len() && i != j implies rest[i] != rest[j] by {
                assert(rest[i] == snippets[i] && rest[j] == snippets[j]);
            }
        }
        lemma_without_keeps_distinct(rest, snippet);
        let kept = without(rest, snippet);
        let last = snippets.last();
        if last != snippet {
            let grown = kept.push(last);
            assert forall|i: int, j: int| 0 <= i < grown.len() && 0 <= j < grown.len() && i != j implies grown[i] != grown[j] by {
                if i == kept.len() || j == kept.len() {
                    let other = if i == kept.len() { j } else { i };
                    assert(grown[other] == kept[other]);
                    assert(rest.contains(kept[other]));
                    let w = choose|w: int| 0 <= w < rest.len() && rest[w] == kept[other];
                    assert(snippets[w] == rest[w]);
                    assert(snippets[snippets.len() - 1] == last);
                } else {
                    assert(grown[i] == kept[i] && grown[j] == kept[j]);
                }
            }
            assert forall|k: int| 0 <= k < grown.len() implies snippets.contains(#[trigger] grown[k]) by {
                if k < kept.len() {
                    assert(rest.contains(kept[k]));
                    let w = choose|w: int| 0 <= w < rest.len() && rest[w] == kept[k];
                    assert(snippets[w] == rest[w]);
                } else {
                    assert(snippets[snippets.len() - 1] == grown[k]);
                }
            }
        } else {
            assert forall|k: int| 0 <= k < kept.len() implies snippets.contains(#[trigger] kept[k]) by {
                assert(rest.contains(kept[k]));
                let w = choose|w: int| 0 <= w < rest.len() && rest[w] == kept[k];
                assert(snippets[w] == rest[w]);
            }
        }
    }
}


/// Values with distinct names.
pub open spec fn named_once(values: Seq<InlineView>) -> bool {
    forall|i: int, j: int| 0 <= i < j < values.len() ==> (#[trigger] values[i]).0 != (#[trigger] values[j]).0
}

proof fn lemma_inline_values_named_once(
    names: Seq<Seq<char>>,
    k: int,
    room: int,
    held: Seq<(Seq<char>, Seq<char>)>,
    was: Option<Seq<(Seq<char>, Seq<char>)>>,
    values: Seq<InlineView>,
)
    requires
        named_once(values),
    ensures
        named_once(inline_values(names, k, room, held, was, values)),
    decreases names.len() - k,
{
    if 0 <= k < names.len() {
        let name = names[k];
        match lookup(held, name) {
            None => lemma_inline_values_named_once(names, k + 1, room, held, was, values),
            Some(value) => if named_in(values, name) {
                lemma_inline_values_named_once(names, k + 1, room, held, was, values);
            } else {
                let head = value_head(name);
                let spare = saturating(room, crate::text::display_width(head) as int);
                if spare != 0 {
                    let shown = clipped_spec(value, spare);
                    let used = crate::text::display_width(head) + crate::text::display_width(shown);
                    let changed = match was {
                        Some(w) => lookup(w, name) != Some(value),
                        None => false,
                    };
                    let grown = values.push((name, head + shown, changed));
                    assert forall|i: int, j: int| 0 <= i < j < grown.len() implies (#[trigger] grown[i]).0 != (#[trigger] grown[j]).0 by {
                        if j == values.len() {
                            assert(grown[i] == values[i]);
                        } else {
                            assert(grown[i] == values[i] && grown[j] == values[j]);
                        }
                    }
                    lemma_inline_values_named_once(names, k + 1, saturating(room, used as int), held, was, grown);
                }
            },
        }
    }
}

/// A line draws each name's value once, however often the line mentions it.
pub proof fn law_a_line_draws_each_value_once(
    names: Seq<Seq<char>>,
    room: int,
    held: Seq<(Seq<char>, Seq<char>)>,
    was: Option<Seq<(Seq<char>, Seq<char>)>>,
)
    ensures
        named_once(inline_values(names, 0, room, held, was, Seq::empty())),
{
    lemma_inline_values_named_once(names, 0, room, held, was, Seq::empty());
}


/// Which screen row the Paused line is drawn on: nothing unless the file it
/// is in is the one on screen (`current`) and the line is inside the editor
/// pane (`editor`) as scrolled by `scroll` lines.
pub open spec fn paused_row_spec(phase: Option<Phase>, current: Option<Seq<char>>, editor: crate::layout::Area, scroll: usize) -> Option<u16> {
    match phase {
        Some(Phase::Paused(pause)) => if pause.chosen < pause.frames@.len() && pause.frames@[pause.chosen as int].file is Some
            && current == Some(pause.frames@[pause.chosen as int].file->0@) {
            let line = pause.frames@[pause.chosen as int].line;
            if line >= 1 && line - 1 >= scroll && line - 1 - scroll <= u16::MAX {
                let at = editor.y + 1 + (line - 1 - scroll);
                if at < saturating(editor.y + editor.height, 1) {
                    Some(at as u16)
                } else {
                    None
                }
            } else {
                None
            }
        } else {
            None
        },
        _ => None,
    }
}

/// Which screen row the Paused line is drawn on, and nothing where the file
/// it is in is not the one on screen or the scroll has taken it off the
/// pane.
pub fn paused_row(phase: &Option<Phase>, current: Option<&str>, editor: crate::layout::Area, scroll: usize) -> (row: Option<u16>)
    requires
        editor.fits(),
    ensures
        row == paused_row_spec(*phase, match current {
            Some(c) => Some(c@),
            None => None,
        }, editor, scroll),
{
    let (file, line, _) = match paused_line(phase) {
        Some(at) => at,
        None => return None,
    };
    let here = match current {
        Some(c) => c,
        None => return None,
    };
    if !crate::text::same_text(file, here) {
        return None;
    }
    if line < 1 || line - 1 < scroll {
        return None;
    }
    let below = line - 1 - scroll;
    if below > 65535 {
        return None;
    }
    let bottom = editor.bottom();
    let last = if bottom >= 1 { bottom - 1 } else { 0 };
    if (editor.y as usize) + 1 + below < last as usize {
        Some(editor.y + 1 + (below as u16))
    } else {
        None
    }
}


/// The lines a run of hunks adds, less the lines it takes away.
pub open spec fn lines_added(hunks: Seq<(u32, u32, u32, u32)>) -> int
    decreases hunks.len(),
{
    if hunks.len() == 0 { 0 } else { hunks.last().3 - hunks.last().1 + lines_added(hunks.drop_last()) }
}

proof fn lemma_lines_added_first(hunks: Seq<(u32, u32, u32, u32)>)
    requires
        hunks.len() > 0,
    ensures
        lines_added(hunks) == hunks[0].3 - hunks[0].1 + lines_added(hunks.drop_first()),
    decreases hunks.len(),
{
    if hunks.len() > 1 {
        lemma_lines_added_first(hunks.drop_last());
        assert(hunks.drop_last().drop_first() =~= hunks.drop_first().drop_last());
    } else {
        assert(hunks.drop_first() =~= Seq::<(u32, u32, u32, u32)>::empty());
        assert(hunks.drop_last() =~= Seq::<(u32, u32, u32, u32)>::empty());
    }
}

proof fn lemma_carried_below(hunks: Seq<(u32, u32, u32, u32)>, line: int, offset: int)
    requires
        forall|i: int| 0 <= i < hunks.len() ==> line >= hunk_start(hunks[i].0, hunks[i].1) + (#[trigger] hunks[i]).1,
        0 <= line + offset + lines_added(hunks) <= usize::MAX,
    ensures
        carried_spec(hunks, line, offset) == Some(line + offset + lines_added(hunks)),
    decreases hunks.len(),
{
    if hunks.len() > 0 {
        lemma_lines_added_first(hunks);
        let h = hunks[0];
        assert(line >= hunk_start(h.0, h.1) + h.1);
        assert forall|i: int| 0 <= i < hunks.drop_first().len() implies line >= hunk_start(
            hunks.drop_first()[i].0,
            hunks.drop_first()[i].1,
        ) + (#[trigger] hunks.drop_first()[i]).1 by {
            assert(hunks.drop_first()[i] == hunks[i + 1]);
        }
        lemma_carried_below(hunks.drop_first(), line, offset + h.3 - h.1);
    }
}

/// A Breakpoint below every change moves by all of them: a line past the end
/// of every hunk of an edit is carried to itself plus every line the hunks
/// added, less every line they took away — wherever that lands on a line the
/// machine can count.
pub proof fn law_a_line_below_every_change_moves_by_all_of_them(hunks: Seq<(u32, u32, u32, u32)>, line: int)
    requires
        forall|i: int| 0 <= i < hunks.len() ==> line >= hunk_start(hunks[i].0, hunks[i].1) + (#[trigger] hunks[i]).1,
        0 <= line + lines_added(hunks) <= usize::MAX,
    ensures
        carried_spec(hunks, line, 0) == Some(line + lines_added(hunks)),
{
    lemma_carried_below(hunks, line, 0);
}

} // verus!
