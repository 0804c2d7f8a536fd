//! Where the panes are.
//!
//! One source of truth: the renderer derives its rectangles from this and the
//! mouse hit-tests against it, so drawing and clicking cannot disagree about
//! where a pane sits.

use crate::text::{display_width, owned, push_str, str_width};
use crate::{Chip, Pane};
use vstd::prelude::*;

verus! {

/// A rectangle of terminal cells.
#[derive(Debug, Clone, Copy, PartialEq, Eq, Default, Structural)]
pub struct Area {
    pub x: u16,
    pub y: u16,
    pub width: u16,
    pub height: u16,
}

impl Area {
    /// The rectangle fits on a screen addressed by `u16`.
    pub open spec fn fits(self) -> bool {
        self.x + self.width <= u16::MAX && self.y + self.height <= u16::MAX
    }

    pub open spec fn covers(self, column: int, row: int) -> bool {
        self.x <= column < self.x + self.width && self.y <= row < self.y + self.height
    }

    pub fn right(&self) -> (r: u16)
        requires
            self.x + self.width <= u16::MAX,
        ensures
            r == self.x + self.width,
    {
        self.x + self.width
    }

    pub fn bottom(&self) -> (r: u16)
        requires
            self.y + self.height <= u16::MAX,
        ensures
            r == self.y + self.height,
    {
        self.y + self.height
    }

    pub fn holds(&self, column: u16, row: u16) -> (r: bool)
        requires
            self.fits(),
        ensures
            r == self.covers(column as int, row as int),
    {
        column >= self.x && column < self.right() && row >= self.y && row < self.bottom()
    }
}

/// The columns one label of a strip takes: its measured width, then a space.
pub open spec fn label_columns(label: Seq<char>) -> int {
    display_width(label) as int + 1
}

/// The columns a whole strip of labels takes.
pub open spec fn strip_columns(labels: Seq<Seq<char>>) -> int
    decreases labels.len(),
{
    if labels.len() == 0 {
        0
    } else {
        strip_columns(labels.drop_last()) + label_columns(labels.last())
    }
}

pub open spec fn strings_view(labels: Seq<String>) -> Seq<Seq<char>> {
    labels.map_values(|label: String| label@)
}

proof fn lemma_strip_columns_prefix(labels: Seq<Seq<char>>, i: int)
    requires
        0 <= i <= labels.len(),
    ensures
        0 <= strip_columns(labels.take(i)) <= strip_columns(labels),
    decreases labels.len(),
{
    if i < labels.len() {
        assert(labels.drop_last().take(i) == labels.take(i));
        lemma_strip_columns_prefix(labels.drop_last(), i);
    } else {
        assert(labels.take(i) == labels);
    }
    if labels.len() > 0 {
        lemma_strip_columns_prefix(labels.drop_last(), labels.len() - 1);
    }
}

/// Where a strip of right-aligned labels on a pane's top border sits, and how
/// wide it is: each label followed by one space, the last space landing on the
/// column before the corner. Measured with `unicode-width`, never by counting
/// characters: a glyph a font draws two columns wide is two columns.
pub fn strip_width(labels: &[String]) -> (w: u16)
    requires
        strip_columns(strings_view(labels@)) <= u16::MAX,
    ensures
        w == strip_columns(strings_view(labels@)),
{
    let ghost all = strings_view(labels@);
    let mut total: u16 = 0;
    let mut i: usize = 0;
    while i < labels.len()
        invariant
            i <= labels.len(),
            all == strings_view(labels@),
            strip_columns(all) <= u16::MAX,
            total == strip_columns(all.take(i as int)),
        decreases labels.len() - i,
    {
        proof {
            lemma_strip_columns_prefix(all, i + 1);
            assert(all.take(i + 1).drop_last() == all.take(i as int));
        }
        let width = str_width(labels[i].as_str());
        assert(labels@[i as int]@ == all[i as int]);
        total = total + (width as u16 + 1);
        i = i + 1;
    }
    assert(all.take(labels.len() as int) == all);
    total
}

/// The label of a strip starting at column `at` that a column falls on, as an
/// index into the labels.
pub open spec fn strip_find(labels: Seq<Seq<char>>, at: int, column: int) -> Option<int>
    decreases labels.len(),
{
    if labels.len() == 0 {
        None
    } else {
        let width = label_columns(labels[0]) - 1;
        if at <= column < at + width {
            Some(0)
        } else {
            match strip_find(labels.drop_first(), at + width + 1, column) {
                Some(i) => Some(i + 1),
                None => None,
            }
        }
    }
}

proof fn lemma_strip_columns_front(labels: Seq<Seq<char>>)
    requires
        labels.len() > 0,
    ensures
        strip_columns(labels) == label_columns(labels[0]) + strip_columns(labels.drop_first()),
    decreases labels.len(),
{
    let front = labels.drop_last();
    let rest = labels.drop_first();
    assert(strip_columns(labels) == strip_columns(front) + label_columns(labels.last()));
    if labels.len() > 1 {
        lemma_strip_columns_front(front);
        assert(front.drop_first() =~= rest.drop_last());
        assert(rest.last() == labels.last());
        assert(front[0] == labels[0]);
        assert(strip_columns(rest) == strip_columns(rest.drop_last()) + label_columns(rest.last()));
    } else {
        assert(rest.len() == 0);
        assert(front.len() == 0);
        assert(labels.last() == labels[0]);
        assert(strip_columns(front) == 0);
        assert(strip_columns(rest) == 0);
    }
}

/// The label under a column of a strip right-aligned in `area`: the strip's
/// last space lands on the column before the corner, and a strip wider than
/// the pane has no columns to offer.
pub open spec fn strip_hit(area: Area, labels: Seq<Seq<char>>, column: int) -> Option<int> {
    let end = area.x + (if area.width >= 1 { area.width - 1 } else { 0 });
    if end < strip_columns(labels) {
        None
    } else {
        strip_find(labels, end - strip_columns(labels), column)
    }
}

/// Which label of that strip is under a column, if any.
pub fn strip_at(area: Area, labels: &[String], column: u16) -> (hit: Option<usize>)
    requires
        strip_columns(strings_view(labels@)) <= u16::MAX,
        area.x + area.width <= u16::MAX,
    ensures
        match hit {
            Some(h) => strip_hit(area, strings_view(labels@), column as int) == Some(h as int),
            None => strip_hit(area, strings_view(labels@), column as int) is None,
        },
{
    let ghost all = strings_view(labels@);
    let end = area.x + area.width.saturating_sub(1);
    let total = strip_width(labels);
    if end < total {
        return None;
    }
    let mut at: u16 = end - total;
    let ghost start = at as int;
    assert(all.skip(0) =~= all);
    let mut i: usize = 0;
    while i < labels.len()
        invariant
            i <= labels.len(),
            all == strings_view(labels@),
            strip_columns(all) <= u16::MAX,
            at as int + strip_columns(all.skip(i as int)) <= end,
            end <= u16::MAX,
            start == end - strip_columns(all),
            strip_columns(all) <= end,
            end == area.x + (if area.width >= 1 { area.width - 1 } else { 0 }),
            strip_find(all, start, column as int) == (match strip_find(
                all.skip(i as int),
                at as int,
                column as int,
            ) {
                Some(k) => Some(k + i),
                None => None,
            }),
        decreases labels.len() - i,
    {
        proof {
            lemma_strip_columns_front(all.skip(i as int));
            assert(all.skip(i as int).drop_first() == all.skip(i + 1));
            assert(all.skip(i as int)[0] == all[i as int]);
            lemma_strip_columns_prefix(all.skip(i + 1), 0);
        }
        let measured = str_width(labels[i].as_str());
        assert(labels@[i as int]@ == all[i as int]);
        assert(all.skip(i as int)[0] == all[i as int]);
        let width = measured as u16;
        if column >= at && column < at + width {
            assert(strip_find(all.skip(i as int), at as int, column as int) == Some(0int));
            assert(strip_find(all, start, column as int) == Some(i as int));
            assert(start == end - strip_columns(all));
            return Some(i);
        }
        assert(strip_find(all.skip(i as int), at as int, column as int) == (match strip_find(
            all.skip(i + 1), at + width + 1, column as int) {
                Some(k) => Some(k + 1),
                None => None,
            }));
        at = at + width + 1;
        i = i + 1;
    }
    None
}

/// The columns of the editor's top border its Transport leaves to the
/// filename and the Authorship before its Chips show their keys.
pub const EDITOR_TITLE: u16 = 34;

/// How wide the editor's line-number gutter is, between its border and its
/// text: four columns of number, the bar, the fold toggle and two of air.
pub const GUTTER: u16 = 8;

/// Which gutter column the fold toggle sits in.
pub const TOGGLE_COLUMN: u16 = 5;

/// How wide the step-menu is while walking a Story.
pub const STEP_MENU_WIDTH: u16 = 20;

/// The two columns a diff spends saying which side a row came from.
pub const MARKER: u16 = 2;

/// A Chip as its glyph and keys, padded a column each side.
pub open spec fn whole_label(glyph: Seq<char>, keys: Seq<char>) -> Seq<char> {
    seq![' '] + glyph + seq![' '] + keys + seq![' ']
}

/// A Chip as its glyph alone, padded a column each side.
pub open spec fn bare_label(glyph: Seq<char>) -> Seq<char> {
    seq![' '] + glyph + seq![' ']
}

fn padded(glyph: &str, keys: Option<&str>) -> (label: String)
    ensures
        label@ == (match keys {
            Some(keys) => whole_label(glyph@, keys@),
            None => bare_label(glyph@),
        }),
{
    let mut label = owned(" ");
    push_str(&mut label, glyph);
    push_str(&mut label, " ");
    proof {
        reveal_strlit(" ");
    }
    if let Some(keys) = keys {
        push_str(&mut label, keys);
        push_str(&mut label, " ");
    }
    label
}

/// Each Chip's glyph and keys, padded a column each side.
fn whole_labels(chips: &[Chip]) -> (whole: Vec<String>)
    ensures
        strings_view(whole@) == chips@.map_values(|chip: Chip| whole_label(chip.glyph@, chip.keys@)),
{
    let ghost whole_view = chips@.map_values(|chip: Chip| whole_label(chip.glyph@, chip.keys@));
    let mut whole: Vec<String> = Vec::new();
    let mut i: usize = 0;
    while i < chips.len()
        invariant
            i <= chips.len(),
            whole.len() == i,
            whole_view == chips@.map_values(|chip: Chip| whole_label(chip.glyph@, chip.keys@)),
            forall|k: int| 0 <= k < i ==> #[trigger] whole@[k]@ == whole_view[k],
        decreases chips.len() - i,
    {
        whole.push(padded(chips[i].glyph.as_str(), Some(chips[i].keys)));
        i = i + 1;
    }
    assert(strings_view(whole@) =~= whole_view);
    whole
}

/// How wide a strip of labels is, where that fits the columns a row can
/// count; `None` where it does not.
pub fn measured_strip(labels: &[String]) -> (w: Option<u16>)
    ensures
        w is Some <==> strip_columns(strings_view(labels@)) <= u16::MAX,
        w matches Some(columns) ==> columns == strip_columns(strings_view(labels@)),
{
    let ghost all = strings_view(labels@);
    let mut total: u16 = 0;
    let mut i: usize = 0;
    while i < labels.len()
        invariant
            i <= labels.len(),
            all == strings_view(labels@),
            total == strip_columns(all.take(i as int)),
        decreases labels.len() - i,
    {
        proof {
            assert(all.take(i + 1).drop_last() == all.take(i as int));
            lemma_strip_columns_prefix(all, i + 1);
        }
        let width = str_width(labels[i].as_str());
        assert(labels@[i as int]@ == all[i as int]);
        if width >= 0xFFFF || total as usize + width + 1 > 0xFFFF {
            return None;
        }
        total = total + (width as u16 + 1);
        i = i + 1;
    }
    assert(all.take(labels.len() as int) == all);
    Some(total)
}

/// The editor's Transport's labels: each Chip its glyph and keys, padded a
/// column each side, or — when the whole strip would not fit in `width` less
/// [`EDITOR_TITLE`] — every Chip its glyph alone. All at once, never one by
/// one, so the row has one shape at a given width.
pub fn editor_chip_labels(chips: &[Chip], width: u16) -> (labels: Vec<String>)
    requires
        strip_columns(chips@.map_values(|chip: Chip| whole_label(chip.glyph@, chip.keys@)))
            <= u16::MAX,
    ensures
        labels.len() == chips.len(),
        ({
            let whole = chips@.map_values(|chip: Chip| whole_label(chip.glyph@, chip.keys@));
            let fits = strip_columns(whole) <= (if width >= EDITOR_TITLE { width - EDITOR_TITLE } else { 0 });
            forall|i: int| 0 <= i < chips.len() ==> #[trigger] labels@[i]@ == (if fits {
                whole[i]
            } else {
                bare_label(chips@[i].glyph@)
            })
        }),
{
    let whole = whole_labels(chips);
    if strip_width(&whole) <= width.saturating_sub(EDITOR_TITLE) {
        assert forall|i: int| 0 <= i < chips.len() implies #[trigger] whole@[i]@
            == chips@.map_values(|chip: Chip| whole_label(chip.glyph@, chip.keys@))[i] by {
            assert(strings_view(whole@)[i] == whole@[i]@);
        }
        return whole;
    }
    let mut bare: Vec<String> = Vec::new();
    let mut i: usize = 0;
    while i < chips.len()
        invariant
            i <= chips.len(),
            bare.len() == i,
            forall|k: int| 0 <= k < i ==> #[trigger] bare@[k]@ == bare_label(chips@[k].glyph@),
        decreases chips.len() - i,
    {
        bare.push(padded(chips[i].glyph.as_str(), None));
        i = i + 1;
    }
    bare
}

/// The editor's Transport's labels as [`editor_chip_labels`] lays them out,
/// where the strip of whole labels can be measured at all; `None` where its
/// columns run past what a row can count.
pub fn transport_labels(chips: &[Chip], width: u16) -> (labels: Option<Vec<String>>)
    ensures
        labels is Some <==> strip_columns(chips@.map_values(|chip: Chip| whole_label(chip.glyph@, chip.keys@))) <= u16::MAX,
        labels matches Some(labels) ==> labels.len() == chips.len() && ({
            let whole = chips@.map_values(|chip: Chip| whole_label(chip.glyph@, chip.keys@));
            let fits = strip_columns(whole) <= (if width >= EDITOR_TITLE { width - EDITOR_TITLE } else { 0 });
            forall|i: int| 0 <= i < chips.len() ==> #[trigger] labels@[i]@ == (if fits {
                whole[i]
            } else {
                bare_label(chips@[i].glyph@)
            })
        }),
{
    let whole = whole_labels(chips);
    match measured_strip(&whole) {
        Some(_) => Some(editor_chip_labels(chips, width)),
        None => None,
    }
}

fn bare_labels(chips: &[Chip]) -> (bare: Vec<String>)
    ensures
        bare.len() == chips.len(),
        forall|k: int| 0 <= k < chips.len() ==> #[trigger] bare@[k]@ == bare_label(chips@[k].glyph@),
{
    let mut bare: Vec<String> = Vec::new();
    let mut i: usize = 0;
    while i < chips.len()
        invariant
            i <= chips.len(),
            bare.len() == i,
            forall|k: int| 0 <= k < i ==> #[trigger] bare@[k]@ == bare_label(chips@[k].glyph@),
        decreases chips.len() - i,
    {
        bare.push(padded(chips[i].glyph.as_str(), None));
        i = i + 1;
    }
    bare
}

/// A Chip's face: its glyph and its keys.
pub open spec fn faces(chips: Seq<Chip>) -> Seq<(Seq<char>, Seq<char>)> {
    chips.map_values(|chip: Chip| (chip.glyph@, chip.keys@))
}

/// A strip of Chips' labels in `room` columns: each Chip its glyph and keys,
/// padded a column each side, or — when the whole strip would not fit —
/// every Chip its glyph alone; nothing where the whole strip's columns run
/// past what a row can count.
pub open spec fn strip_labels(faces: Seq<(Seq<char>, Seq<char>)>, room: int) -> Option<Seq<Seq<char>>> {
    if strip_columns(wholes(faces)) > u16::MAX {
        None
    } else if strip_columns(wholes(faces)) <= room {
        Some(wholes(faces))
    } else {
        Some(bares(faces))
    }
}

/// Each face as its whole label.
pub open spec fn wholes(faces: Seq<(Seq<char>, Seq<char>)>) -> Seq<Seq<char>> {
    faces.map_values(|face: (Seq<char>, Seq<char>)| whole_label(face.0, face.1))
}

/// Each face as its glyph alone.
pub open spec fn bares(faces: Seq<(Seq<char>, Seq<char>)>) -> Seq<Seq<char>> {
    faces.map_values(|face: (Seq<char>, Seq<char>)| bare_label(face.0))
}

pub open spec fn labels_view(labels: Option<Vec<String>>) -> Option<Seq<Seq<char>>> {
    match labels {
        Some(l) => Some(strings_view(l@)),
        None => None,
    }
}

/// A strip of Chips' labels on a border that keeps `reserved` of its `width`
/// columns for itself.
pub fn chip_labels(chips: &[Chip], width: u16, reserved: u16) -> (labels: Option<Vec<String>>)
    ensures
        labels_view(labels) == strip_labels(faces(chips@), if width >= reserved { width - reserved } else { 0 }),
{
    let ghost f = faces(chips@);
    let ghost room: int = if width >= reserved { width - reserved } else { 0 };
    let whole = whole_labels(chips);
    assert(strings_view(whole@) =~= wholes(f));
    let measured = measured_strip(&whole);
    if measured.is_none() {
        let none: Option<Vec<String>> = None;
        assert(labels_view(none) == strip_labels(f, room));
        return none;
    }
    let columns = measured.unwrap();
    if columns <= width.saturating_sub(reserved) {
        let kept = Some(whole);
        assert(labels_view(kept) == strip_labels(f, room));
        kept
    } else {
        let bare = bare_labels(chips);
        assert(strings_view(bare@) =~= bares(f));
        let shed = Some(bare);
        assert(labels_view(shed) == strip_labels(f, room));
        shed
    }
}

/// What the editor pane draws between its border and its text.
pub enum Gutter {
    /// Source and Story view's code: the line number.
    Numbers,
    /// Review's diff: the line number, and the marker for the side.
    NumbersAndMarker,
    /// A Preview: none. (Named `Bare`: `None` is a word of Verus's prelude.)
    Bare,
}

/// How wide that strip is.
pub fn gutter(shows: Gutter) -> (w: u16)
    ensures
        w == (match shows {
            Gutter::Numbers => GUTTER,
            Gutter::NumbersAndMarker => (GUTTER + MARKER) as u16,
            Gutter::Bare => 0u16,
        }),
{
    match shows {
        Gutter::Numbers => GUTTER,
        Gutter::NumbersAndMarker => GUTTER + MARKER,
        Gutter::Bare => 0,
    }
}

/// Where the AI pane sits: beside the editor above the terminal, or the whole
/// height down the right-hand edge.
#[derive(Debug, Clone, Copy, PartialEq, Eq, Default, Structural)]
pub enum AiPane {
    #[default]
    Beside,
    Tall,
}

/// Which pane is in the corner beneath the tree, or none at all.
#[derive(Debug, Clone, Copy, PartialEq, Eq, Default, Structural)]
pub enum Corner {
    #[default]
    Hidden,
    Risk,
    Buffers,
    History,
}

pub open spec fn corner_pane(corner: Corner) -> Option<Pane> {
    match corner {
        Corner::Hidden => None,
        Corner::Risk => Some(Pane::Risk),
        Corner::Buffers => Some(Pane::Buffers),
        Corner::History => Some(Pane::History),
    }
}

impl Corner {
    /// Which pane the corner is holding, or none at all.
    pub fn pane(self) -> (p: Option<Pane>)
        ensures
            p == corner_pane(self),
    {
        match self {
            Corner::Hidden => None,
            Corner::Risk => Some(Pane::Risk),
            Corner::Buffers => Some(Pane::Buffers),
            Corner::History => Some(Pane::History),
        }
    }
}

/// The two panes that take their columns out of the shell, one from each side.
#[derive(Debug, Clone, Copy, PartialEq, Eq, Default, Structural)]
pub struct Shapes {
    pub ai: AiPane,
    pub corner: Corner,
}

pub open spec fn min_int(a: int, b: int) -> int {
    if a <= b { a } else { b }
}

pub open spec fn max_int(a: int, b: int) -> int {
    if a >= b { a } else { b }
}

/// `a - b`, or nothing below zero.
pub open spec fn less(a: int, b: int) -> int {
    if a >= b { a - b } else { 0 }
}

pub open spec fn viewport_spec(offset: int, focus: int, rows: int, fits: int) -> int {
    let fits = max_int(fits, 1);
    let offset = min_int(offset, less(rows, fits));
    if focus < offset {
        focus
    } else if focus >= offset + fits {
        focus + 1 - fits
    } else {
        offset
    }
}

/// The first content row a pane shows: where the wheel left it, pulled back so
/// the row you are on stays visible, and never further than the last
/// screenful. `focus` and the result are 0-based; `fits` is how many rows the
/// pane shows.
pub fn viewport(offset: usize, focus: usize, rows: usize, fits: usize) -> (first: usize)
    ensures
        first == viewport_spec(offset as int, focus as int, rows as int, fits as int),
        first <= focus < first + max_int(fits as int, 1),
{
    let fits = if fits >= 1 { fits } else { 1 };
    let last = rows.saturating_sub(fits);
    let offset = if offset <= last { offset } else { last };
    if focus < offset {
        return focus;
    }
    if focus - offset >= fits {
        return focus - (fits - 1);
    }
    offset
}

/// How many rows of context a framed range keeps above it.
pub const CONTEXT: usize = 2;

pub open spec fn frame_spec(first: int, last: int, fits: int) -> int {
    let height = less(last, first) + 1;
    less(first, min_int(CONTEXT as int, less(max_int(fits, 1), height)))
}

/// The first content row a pane shows so that a whole range is on screen,
/// with a little context above it when there are rows to spare. A range
/// taller than the pane is framed from its top.
pub fn frame(first: usize, last: usize, fits: usize) -> (top: usize)
    ensures
        top == frame_spec(first as int, last as int, fits as int),
        top <= first,
{
    let fits = if fits >= 1 { fits } else { 1 };
    // `fits - (last - first + 1)`, kept from running past `usize::MAX`.
    let spare = (fits - 1).saturating_sub(last.saturating_sub(first));
    let context = if CONTEXT <= spare { CONTEXT } else { spare };
    first.saturating_sub(context)
}

/// The clamp leaves a framed range alone: a frame that [`viewport`] would
/// move is a frame nobody sees. Holds whenever the framed offset leaves a
/// screenful of rows under it and the range starts inside the text.
pub proof fn law_viewport_keeps_a_frame(first: usize, last: usize, rows: usize, fits: usize)
    requires
        frame_spec(first as int, last as int, fits as int) + max_int(fits as int, 1) <= rows,
    ensures
        viewport_spec(
            frame_spec(first as int, last as int, fits as int),
            first as int,
            rows as int,
            fits as int,
        ) == frame_spec(first as int, last as int, fits as int),
{
}

/// Every rectangle of the screen.
#[derive(Debug, Clone, Copy, PartialEq, Eq, Default, Structural)]
pub struct Layout {
    pub tree: Area,
    pub editor: Area,
    pub ai: Area,
    pub terminal: Area,
    /// The narration band, directly under the editor. Zero height whenever
    /// no band was asked for.
    pub band: Area,
    /// The step-menu, directly left of the editor. Zero width whenever no
    /// step-menu was asked for.
    pub step_menu: Area,
    /// The corner beneath the tree, beside the shell. Zero width whenever
    /// nothing occupies it.
    pub corner: Area,
    /// Which pane that rectangle belongs to.
    pub occupant: Corner,
}

pub open spec fn terminal_rows(height: int) -> int {
    min_int((height * 3 + 5) / 10, less(height, 5))
}

pub open spec fn tree_columns(width: int, divider: int) -> int {
    min_int(divider, width)
}

pub open spec fn ai_columns(width: int, divider: int, ai_width: Option<u16>) -> int {
    let room = width - tree_columns(width, divider);
    let share = (width * 3 + 5) / 10;
    let asked = match ai_width {
        Some(w) => w as int,
        None => share,
    };
    min_int(asked, less(room, 20))
}

pub open spec fn menu_columns(width: int, divider: int, ai_width: Option<u16>, menu: int) -> int {
    let room = width - tree_columns(width, divider);
    min_int(menu, less(less(room, ai_columns(width, divider, ai_width)), 20))
}

pub open spec fn shell_columns(width: int, divider: int, ai_width: Option<u16>, shapes: Shapes) -> int {
    match shapes.ai {
        AiPane::Beside => width,
        AiPane::Tall => less(width, ai_columns(width, divider, ai_width)),
    }
}

pub open spec fn corner_columns(width: int, divider: int, ai_width: Option<u16>, shapes: Shapes) -> int {
    match shapes.corner {
        Corner::Hidden => 0,
        _ => min_int(
            tree_columns(width, divider),
            less(shell_columns(width, divider, ai_width, shapes), 1),
        ),
    }
}

/// The rectangles `panes` lays out, stated field by field.
pub open spec fn laid_out(
    l: Layout,
    width: int,
    height: int,
    divider: int,
    ai_width: Option<u16>,
    band: int,
    menu: int,
    shapes: Shapes,
) -> bool {
    let th = terminal_rows(height);
    let top = height - th;
    let tw = tree_columns(width, divider);
    let aw = ai_columns(width, divider, ai_width);
    let mw = menu_columns(width, divider, ai_width, menu);
    let ew = width - tw - aw - mw;
    let bh = min_int(band, top);
    let eh = top - bh;
    let cw = corner_columns(width, divider, ai_width, shapes);
    let shell = shell_columns(width, divider, ai_width, shapes);
    &&& l.tree == Area { x: 0, y: 0, width: tw as u16, height: top as u16 }
    &&& l.editor == Area { x: (tw + mw) as u16, y: 0, width: ew as u16, height: eh as u16 }
    &&& l.step_menu == Area { x: tw as u16, y: 0, width: mw as u16, height: top as u16 }
    &&& l.ai == Area {
        x: (tw + mw + ew) as u16,
        y: 0,
        width: aw as u16,
        height: (match shapes.ai {
            AiPane::Beside => top,
            AiPane::Tall => height,
        }) as u16,
    }
    &&& l.terminal == Area {
        x: cw as u16,
        y: top as u16,
        width: max_int(shell - cw, 1) as u16,
        height: th as u16,
    }
    &&& l.corner == Area { x: 0, y: top as u16, width: cw as u16, height: th as u16 }
    &&& l.occupant == shapes.corner
    &&& l.band == Area { x: (tw + mw) as u16, y: eh as u16, width: ew as u16, height: bh as u16 }
}

/// What a laid-out screen promises: every rectangle fits, the panes across
/// the top tile the width in order, the top and the terminal tile the height,
/// and the corner and the shell tile the bottom row.
pub open spec fn tiles(layout: Layout, width: int, height: int) -> bool {
    &&& layout.tree.fits() && layout.editor.fits() && layout.ai.fits() && layout.terminal.fits()
        && layout.band.fits() && layout.step_menu.fits() && layout.corner.fits()
    &&& layout.tree.x + layout.tree.width == layout.step_menu.x
    &&& layout.step_menu.x + layout.step_menu.width == layout.editor.x
    &&& layout.editor.x + layout.editor.width == layout.ai.x
    &&& layout.ai.x + layout.ai.width == width
    &&& layout.tree.y + layout.tree.height == layout.terminal.y
    &&& layout.terminal.y + layout.terminal.height == height
    &&& layout.editor.y + layout.editor.height == layout.band.y
    &&& layout.band.y + layout.band.height == layout.tree.height
    &&& layout.corner.x + layout.corner.width == layout.terminal.x
}

proof fn lemma_laid_out_tiles(
    layout: Layout,
    width: u16,
    height: u16,
    divider: u16,
    ai_width: Option<u16>,
    band: u16,
    menu: u16,
    shapes: Shapes,
)
    requires
        laid_out(layout, width as int, height as int, divider as int, ai_width, band as int, menu as int, shapes),
    ensures
        tiles(layout, width as int, height as int),
{
}

/// Tree, editor and AI across the top; terminal beneath. The terminal takes
/// 30% of the height and the AI pane 30% of the width, except that the editor
/// keeps at least 20 columns and the top keeps at least 5 rows. The band and
/// the step-menu come out of the editor's own rectangle; a tall AI pane and
/// the corner come out of the shell's columns.
#[verifier::rlimit(40)]
pub fn panes(
    width: u16,
    height: u16,
    tree_divider: u16,
    ai_width: Option<u16>,
    band_height: u16,
    step_menu_width: u16,
    shapes: Shapes,
) -> (layout: Layout)
    ensures
        laid_out(
            layout,
            width as int,
            height as int,
            tree_divider as int,
            ai_width,
            band_height as int,
            step_menu_width as int,
            shapes,
        ),
        tiles(layout, width as int, height as int),
{
    let share: u32 = (height as u32 * 3 + 5) / 10;
    let floor: u32 = height.saturating_sub(5) as u32;
    let terminal_height: u16 = if share <= floor { share as u16 } else { floor as u16 };
    assert(terminal_height == terminal_rows(height as int));
    let top = height - terminal_height;
    let tree_width = if tree_divider <= width { tree_divider } else { width };
    let room = width - tree_width;
    let share: u16 = ((width as u32 * 3 + 5) / 10) as u16;
    let asked = match ai_width {
        Some(w) => w,
        None => share,
    };
    let ai_cap = room.saturating_sub(20);
    let ai_width_now = if asked <= ai_cap { asked } else { ai_cap };
    assert(ai_width_now == ai_columns(width as int, tree_divider as int, ai_width));
    let menu_cap = (room - ai_width_now).saturating_sub(20);
    let menu_width = if step_menu_width <= menu_cap { step_menu_width } else { menu_cap };
    assert(menu_width == menu_columns(width as int, tree_divider as int, ai_width, step_menu_width as int));
    let editor_width = room - ai_width_now - menu_width;
    let band = if band_height <= top { band_height } else { top };
    let editor_height = top - band;
    let (ai_height, shell_room) = match shapes.ai {
        AiPane::Beside => (top, width),
        AiPane::Tall => (height, width - ai_width_now),
    };
    assert(shell_room == shell_columns(width as int, tree_divider as int, ai_width, shapes));
    let corner_width = match shapes.corner {
        Corner::Hidden => 0,
        _ => {
            let cap = shell_room.saturating_sub(1);
            if tree_width <= cap { tree_width } else { cap }
        },
    };
    assert(corner_width == corner_columns(width as int, tree_divider as int, ai_width, shapes));
    let rest = shell_room - corner_width;
    let terminal_width = if rest >= 1 { rest } else { 1 };
    let layout = Layout {
        tree: Area { x: 0, y: 0, width: tree_width, height: top },
        editor: Area { x: tree_width + menu_width, y: 0, width: editor_width, height: editor_height },
        step_menu: Area { x: tree_width, y: 0, width: menu_width, height: top },
        ai: Area {
            x: tree_width + menu_width + editor_width,
            y: 0,
            width: ai_width_now,
            height: ai_height,
        },
        terminal: Area { x: corner_width, y: top, width: terminal_width, height: terminal_height },
        corner: Area { x: 0, y: top, width: corner_width, height: terminal_height },
        occupant: shapes.corner,
        band: Area { x: tree_width + menu_width, y: editor_height, width: editor_width, height: band },
    };
    proof {
        lemma_laid_out_tiles(layout, width, height, tree_divider, ai_width, band_height, step_menu_width, shapes);
    }
    layout
}

/// The pane a cell belongs to, by the same priority `pane_at` asks in.
pub open spec fn pane_of(layout: Layout, column: int, row: int) -> Option<Pane> {
    if layout.corner.covers(column, row) {
        corner_pane(layout.occupant)
    } else if layout.tree.covers(column, row) {
        Some(Pane::Tree)
    } else if layout.editor.covers(column, row) || layout.band.covers(column, row) {
        Some(Pane::Editor)
    } else if layout.ai.covers(column, row) {
        Some(Pane::Ai)
    } else if layout.terminal.covers(column, row) {
        Some(Pane::Terminal)
    } else {
        None
    }
}

/// The pane under a cell, or none.
pub fn pane_at(layout: &Layout, column: u16, row: u16) -> (pane: Option<Pane>)
    requires
        layout.tree.fits() && layout.editor.fits() && layout.ai.fits() && layout.terminal.fits()
            && layout.band.fits() && layout.corner.fits(),
    ensures
        pane == pane_of(*layout, column as int, row as int),
{
    if layout.corner.holds(column, row) {
        layout.occupant.pane()
    } else if layout.tree.holds(column, row) {
        Some(Pane::Tree)
    } else if layout.editor.holds(column, row) || layout.band.holds(column, row) {
        Some(Pane::Editor)
    } else if layout.ai.holds(column, row) {
        Some(Pane::Ai)
    } else if layout.terminal.holds(column, row) {
        Some(Pane::Terminal)
    } else {
        None
    }
}

/// Every cell of the screen belongs to a pane once no step-menu is asked for:
/// the panes tile the screen without a gap, whichever shape the AI pane and
/// the corner take.
pub proof fn law_every_cell_belongs_to_a_pane(
    layout: Layout,
    width: u16,
    height: u16,
    divider: u16,
    ai_width: Option<u16>,
    band: u16,
    shapes: Shapes,
    column: u16,
    row: u16,
)
    requires
        laid_out(layout, width as int, height as int, divider as int, ai_width, band as int, 0, shapes),
        column < width,
        row < height,
    ensures
        pane_of(layout, column as int, row as int) is Some,
{
}

/// A centred overlay box sized to its content.
pub fn overlay(width: u16, height: u16, lines: u16, widest: u16) -> (area: Area)
    requires
        widest + 4 <= u16::MAX,
        lines + 2 <= u16::MAX,
    ensures
        area.width == (if widest + 4 < 24 { 24 } else { min_int(widest + 4, max_int(width as int, 24)) }),
        area.height == min_int(lines + 2, height as int),
        area.x == less(width as int, area.width as int) / 2,
        area.y == less(height as int, area.height as int) / 2,
{
    let wanted = widest + 4;
    let most = if width >= 24 { width } else { 24 };
    let box_width = if wanted < 24 { 24 } else if wanted > most { most } else { wanted };
    let box_height = if lines + 2 <= height { lines + 2 } else { height };
    Area {
        x: width.saturating_sub(box_width) / 2,
        y: height.saturating_sub(box_height) / 2,
        width: box_width,
        height: box_height,
    }
}

/// A box inset from every edge, so what is behind it stays visible. Shrinks
/// the margin rather than the box on a small terminal.
pub fn inset(width: u16, height: u16, columns: u16, rows: u16) -> (area: Area)
    ensures
        area.x == min_int(columns as int, less(width as int, 40) / 2),
        area.y == min_int(rows as int, less(height as int, 10) / 2),
        area.width == width - 2 * area.x,
        area.height == height - 2 * area.y,
        area.fits(),
{
    let column_cap = width.saturating_sub(40) / 2;
    let columns = if columns <= column_cap { columns } else { column_cap };
    let row_cap = height.saturating_sub(10) / 2;
    let rows = if rows <= row_cap { rows } else { row_cap };
    Area { x: columns, y: rows, width: width - columns * 2, height: height - rows * 2 }
}

/// The rows above the project search's results: the query, its count, and
/// the row naming the box's own keys.
pub const SEARCH_HEADER: u16 = 3;

/// Where the project search's results box is.
pub fn search_box(width: u16, height: u16) -> (area: Area)
    ensures
        area.x == min_int(8, less(width as int, 40) / 2),
        area.y == min_int(3, less(height as int, 10) / 2),
        area.width == width - 2 * area.x,
        area.height == height - 2 * area.y,
        area.fits(),
{
    inset(width, height, 8, 3)
}

/// How many rows of results the search box shows: its height less its two
/// borders and the header.
pub fn search_hit_rows(width: u16, height: u16) -> (rows: usize)
    ensures
        rows == less(height - 2 * min_int(3, less(height as int, 10) / 2), 2 + SEARCH_HEADER),
{
    search_box(width, height).height.saturating_sub(2 + SEARCH_HEADER) as usize
}

pub open spec fn split_spec(strip: Area, n: int, k: int) -> Area {
    let n = if n < 1 { 1 } else if n > u16::MAX { u16::MAX as int } else { n };
    let k = min_int(k, n - 1);
    let each = (strip.width as int) / n;
    let x = strip.x + each * k;
    Area {
        x: x as u16,
        y: strip.y,
        width: (if k + 1 == n { strip.x + strip.width - x } else { each }) as u16,
        height: strip.height,
    }
}

/// The `k`-th of `n` shells side by side in the terminal strip. Even columns,
/// the last taking the remainder, so the splits tile the strip exactly.
pub fn split(strip: Area, n: usize, k: usize) -> (area: Area)
    requires
        strip.x + strip.width <= u16::MAX,
    ensures
        area == split_spec(strip, n as int, k as int),
        area.x + area.width <= u16::MAX,
{
    let n: u16 = if n < 1 { 1 } else if n > 65535 { 65535 } else { n as u16 };
    let k: u16 = if k <= (n - 1) as usize { k as u16 } else { n - 1 };
    let each = strip.width / n;
    proof {
        assert(each * k <= each * n) by (nonlinear_arith)
            requires k < n, each >= 0;
        assert(each * n <= strip.width) by (nonlinear_arith)
            requires each == strip.width / n, n >= 1;
        assert(each * (k + 1) <= each * n) by (nonlinear_arith)
            requires k < n, each >= 0;
        assert(each * (k + 1) == each * k + each) by (nonlinear_arith);
    }
    let x = strip.x + each * k;
    Area {
        x,
        y: strip.y,
        width: if k + 1 == n { strip.right() - x } else { each },
        height: strip.height,
    }
}

/// Two splits of one strip sit side by side: each starts where the one
/// before it ends, and the last ends where the strip does.
pub proof fn law_splits_tile(strip: Area, n: usize, k: usize)
    requires
        strip.x + strip.width <= u16::MAX,
        1 <= n <= u16::MAX,
        k + 1 < n,
    ensures
        split_spec(strip, n as int, k as int).x + split_spec(strip, n as int, k as int).width
            == split_spec(strip, n as int, k + 1).x,
        split_spec(strip, n as int, n - 1).x + split_spec(strip, n as int, n - 1).width
            == strip.x + strip.width,
{
    let each = (strip.width as int) / (n as int);
    assert(each * (k + 1) == each * k + each) by (nonlinear_arith);
    assert(each * (n - 1) <= each * n) by (nonlinear_arith)
        requires each >= 0, n >= 1;
    assert(each * (k + 2) <= each * n) by (nonlinear_arith)
        requires each >= 0, k + 2 <= n;
    assert(each * (k + 2) == each * (k + 1) + each) by (nonlinear_arith);
    assert(each * n <= strip.width) by (nonlinear_arith)
        requires each == (strip.width as int) / (n as int), n >= 1;
}

/// Which of `n` splits holds `column` — the last one whose left edge is at or
/// before it, so the remainder the last split takes is its own.
pub fn split_at(strip: Area, n: usize, column: u16) -> (k: usize)
    requires
        strip.x + strip.width <= u16::MAX,
    ensures
        k < (if n >= 1 { n } else { 1 }),
        k == 0 || split_spec(strip, n as int, k as int).x <= column,
        forall|j: int| k < j < (if n >= 1 { n } else { 1 }) ==> split_spec(strip, n as int, j).x > column,
{
    let count = if n >= 1 { n } else { 1 };
    let mut k = count;
    while k > 0
        invariant
            k <= count,
            count == (if n >= 1 { n } else { 1 }),
            strip.x + strip.width <= u16::MAX,
            forall|j: int| k <= j < count ==> split_spec(strip, n as int, j).x > column,
        decreases k,
    {
        if split(strip, n, k - 1).x <= column {
            return k - 1;
        }
        k = k - 1;
    }
    0
}

} // verus!
