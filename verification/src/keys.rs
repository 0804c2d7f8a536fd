//! The keyboard: what its routing keeps between keystrokes, and the tables
//! the cheatsheet and the Chord hint draw.

use crate::highlight::{begins, index_from};
use crate::text::whitespace;
use crate::Direction;
use vstd::prelude::*;

verus! {

/// Half-typed input the edge collects on the core's behalf: a filename, a `:`
/// command, an AI command, a filter, a comment type.
#[derive(Debug, Default, Clone, PartialEq, Eq)]
pub struct Drafts {
    pub name: String,
    pub command: Option<String>,
    pub ai: String,
    pub filter: Option<String>,
    pub comment_kind: String,
}

/// Whether a hosted pane's child asked to be told that a paste is a paste
/// (bracketed paste mode); a child that never asked reads a paste as typing.
#[derive(Debug, Clone, Copy, Default, PartialEq, Eq, Structural)]
pub enum Paste {
    #[default]
    Bare,
    Bracketed,
}

/// The three views a key can answer in: Edit, Review and Story.
#[derive(Debug, Clone, Copy, PartialEq, Eq, Structural)]
pub enum Surface {
    Edit,
    Review,
    Story,
}

pub open spec fn row_view(row: (&'static str, &'static str, Vec<Surface>)) -> (Seq<char>, Seq<char>, Seq<Surface>) {
    (row.0@, row.1@, row.2@)
}

pub open spec fn rows_view(rows: Seq<(&'static str, &'static str, Vec<Surface>)>) -> Seq<(Seq<char>, Seq<char>, Seq<Surface>)> {
    rows.map_values(|row: (&'static str, &'static str, Vec<Surface>)| row_view(row))
}

/// The reminder in the editor's corner: the keys, what each does, and the
/// views a row applies to, most-needed first within a view, since the box
/// truncates from the bottom.
pub open spec fn cheatsheet_rows_spec() -> Seq<(Seq<char>, Seq<char>, Seq<Surface>)> {
    seq![
        ("i a o O x"@, "edit"@, seq![Surface::Edit]),
        ("w b e"@, "word"@, seq![Surface::Edit]),
        ("gg G"@, "file ends"@, seq![Surface::Edit]),
        ("S-arr W B"@, "extend"@, seq![Surface::Edit]),
        ("dd dG db yy p"@, "cut yank put"@, seq![Surface::Edit]),
        ("V"@, "select lines"@, seq![Surface::Edit]),
        ("C-c D-c C-v D-v"@, "copy / paste"@, seq![Surface::Edit, Surface::Review, Surface::Story]),
        ("/ n N"@, "find"@, seq![Surface::Edit]),
        ("gt gT"@, "buffer"@, seq![Surface::Edit]),
        ("C-p C-n gp gn"@, "jump back / forward"@, seq![Surface::Edit]),
        ("C-p C-n"@, "jump back / forward"@, seq![Surface::Review, Surface::Story]),
        ("* gr"@, "project"@, seq![Surface::Edit]),
        ("u"@, "undo"@, seq![Surface::Edit]),
        ("K K"@, "what is this / read it"@, seq![Surface::Edit]),
        ("gd"@, "definition"@, seq![Surface::Edit]),
        ("C-space Esc Esc"@, "palette"@, seq![Surface::Edit, Surface::Review, Surface::Story]),
        (":format"@, "lay the file out"@, seq![Surface::Edit]),
        ("Enter Esc"@, "candidates"@, seq![Surface::Edit]),
        ("Tab"@, "indent / next blank"@, seq![Surface::Edit]),
        ("C-d gm"@, "same word again"@, seq![Surface::Edit]),
        ("j k V c"@, "select comment"@, seq![Surface::Review]),
        ("h l 0"@, "slide sideways"@, seq![Surface::Review, Surface::Story]),
        ("e"@, "edit the file"@, seq![Surface::Review, Surface::Story]),
        (":submit"@, "send the review"@, seq![Surface::Review, Surface::Story]),
        ("n p"@, "step"@, seq![Surface::Story]),
        ("j k"@, "scroll"@, seq![Surface::Story]),
        ("d"@, "show the diff"@, seq![Surface::Story]),
        ("D"@, "step detail"@, seq![Surface::Story]),
        ("g"@, "jump to citation"@, seq![Surface::Story]),
        ("c"@, "comment"@, seq![Surface::Story]),
        ("Esc"@, "back to spine"@, seq![Surface::Story]),
        ("t"@, "spine / files"@, seq![Surface::Story]),
        ("M-h M-j M-k M-l"@, "focus"@, seq![Surface::Edit, Surface::Review, Surface::Story]),
        ("0 $"@, "line ends"@, seq![Surface::Edit]),
        (":preview"@, "read / edit markdown"@, seq![Surface::Edit]),
        (":read :pause :next :prev :stop :speed"@, "read the selection aloud"@, seq![Surface::Edit]),
        (":dim"@, "darker editor"@, seq![Surface::Edit]),
        (":minimap"@, "mirror of the file"@, seq![Surface::Edit]),
        ("C-f"@, "project"@, seq![Surface::Edit, Surface::Review, Surface::Story]),
        ("D"@, "diverged from disk"@, seq![Surface::Edit]),
        (":w :q :qa"@, "write quit close all"@, seq![Surface::Edit]),
        (":story? :story"@, "story a branch / this change"@, seq![Surface::Edit, Surface::Story]),
        ("C-space v"@, "tools"@, seq![Surface::Edit, Surface::Review, Surface::Story]),
    ]
}

/// What a tapped Space can be followed by, spelled as the chord.
pub open spec fn chords_spec() -> Seq<(Seq<char>, Seq<char>, Seq<Surface>)> {
    seq![("\u{2423}b"@, "breakpoint"@, seq![Surface::Edit])]
}

fn surfaces(first: Surface, second: Option<Surface>, third: Option<Surface>) -> (v: Vec<Surface>)
    ensures
        v@ == seq![first] + (match second { Some(s) => seq![s], None => Seq::empty() })
            + (match third { Some(s) => seq![s], None => Seq::empty() }),
{
    let mut v: Vec<Surface> = Vec::new();
    v.push(first);
    if let Some(s) = second {
        v.push(s);
    }
    if let Some(s) = third {
        v.push(s);
    }
    assert(v@ =~= seq![first] + (match second { Some(s) => seq![s], None => Seq::empty() })
        + (match third { Some(s) => seq![s], None => Seq::empty() }));
    v
}

/// The rows of the cheatsheet proper.
pub fn cheatsheet_rows() -> (rows: Vec<(&'static str, &'static str, Vec<Surface>)>)
    ensures
        rows_view(rows@) == cheatsheet_rows_spec(),
{
    let mut rows: Vec<(&'static str, &'static str, Vec<Surface>)> = Vec::new();
    rows.push(("i a o O x", "edit", surfaces(Surface::Edit, None, None)));
    rows.push(("w b e", "word", surfaces(Surface::Edit, None, None)));
    rows.push(("gg G", "file ends", surfaces(Surface::Edit, None, None)));
    rows.push(("S-arr W B", "extend", surfaces(Surface::Edit, None, None)));
    rows.push(("dd dG db yy p", "cut yank put", surfaces(Surface::Edit, None, None)));
    rows.push(("V", "select lines", surfaces(Surface::Edit, None, None)));
    rows.push(("C-c D-c C-v D-v", "copy / paste", surfaces(Surface::Edit, Some(Surface::Review), Some(Surface::Story))));
    rows.push(("/ n N", "find", surfaces(Surface::Edit, None, None)));
    rows.push(("gt gT", "buffer", surfaces(Surface::Edit, None, None)));
    rows.push(("C-p C-n gp gn", "jump back / forward", surfaces(Surface::Edit, None, None)));
    rows.push(("C-p C-n", "jump back / forward", surfaces(Surface::Review, Some(Surface::Story), None)));
    rows.push(("* gr", "project", surfaces(Surface::Edit, None, None)));
    rows.push(("u", "undo", surfaces(Surface::Edit, None, None)));
    rows.push(("K K", "what is this / read it", surfaces(Surface::Edit, None, None)));
    rows.push(("gd", "definition", surfaces(Surface::Edit, None, None)));
    rows.push(("C-space Esc Esc", "palette", surfaces(Surface::Edit, Some(Surface::Review), Some(Surface::Story))));
    rows.push((":format", "lay the file out", surfaces(Surface::Edit, None, None)));
    rows.push(("Enter Esc", "candidates", surfaces(Surface::Edit, None, None)));
    rows.push(("Tab", "indent / next blank", surfaces(Surface::Edit, None, None)));
    rows.push(("C-d gm", "same word again", surfaces(Surface::Edit, None, None)));
    rows.push(("j k V c", "select comment", surfaces(Surface::Review, None, None)));
    rows.push(("h l 0", "slide sideways", surfaces(Surface::Review, Some(Surface::Story), None)));
    rows.push(("e", "edit the file", surfaces(Surface::Review, Some(Surface::Story), None)));
    rows.push((":submit", "send the review", surfaces(Surface::Review, Some(Surface::Story), None)));
    rows.push(("n p", "step", surfaces(Surface::Story, None, None)));
    rows.push(("j k", "scroll", surfaces(Surface::Story, None, None)));
    rows.push(("d", "show the diff", surfaces(Surface::Story, None, None)));
    rows.push(("D", "step detail", surfaces(Surface::Story, None, None)));
    rows.push(("g", "jump to citation", surfaces(Surface::Story, None, None)));
    rows.push(("c", "comment", surfaces(Surface::Story, None, None)));
    rows.push(("Esc", "back to spine", surfaces(Surface::Story, None, None)));
    rows.push(("t", "spine / files", surfaces(Surface::Story, None, None)));
    rows.push(("M-h M-j M-k M-l", "focus", surfaces(Surface::Edit, Some(Surface::Review), Some(Surface::Story))));
    rows.push(("0 $", "line ends", surfaces(Surface::Edit, None, None)));
    rows.push((":preview", "read / edit markdown", surfaces(Surface::Edit, None, None)));
    rows.push((":read :pause :next :prev :stop :speed", "read the selection aloud", surfaces(Surface::Edit, None, None)));
    rows.push((":dim", "darker editor", surfaces(Surface::Edit, None, None)));
    rows.push((":minimap", "mirror of the file", surfaces(Surface::Edit, None, None)));
    rows.push(("C-f", "project", surfaces(Surface::Edit, Some(Surface::Review), Some(Surface::Story))));
    rows.push(("D", "diverged from disk", surfaces(Surface::Edit, None, None)));
    rows.push((":w :q :qa", "write quit close all", surfaces(Surface::Edit, None, None)));
    rows.push((":story? :story", "story a branch / this change", surfaces(Surface::Edit, Some(Surface::Story), None)));
    rows.push(("C-space v", "tools", surfaces(Surface::Edit, Some(Surface::Review), Some(Surface::Story))));
    assert(rows_view(rows@) =~~= cheatsheet_rows_spec());
    rows
}

/// The chords a tapped Space offers.
pub fn chords() -> (rows: Vec<(&'static str, &'static str, Vec<Surface>)>)
    ensures
        rows_view(rows@) == chords_spec(),
{
    let mut rows: Vec<(&'static str, &'static str, Vec<Surface>)> = Vec::new();
    rows.push(("\u{2423}b", "breakpoint", surfaces(Surface::Edit, None, None)));
    assert(rows_view(rows@) =~= chords_spec());
    rows
}

/// The cheatsheet as drawn: its own rows, then the chords.
pub fn cheatsheet() -> (rows: Vec<(&'static str, &'static str, Vec<Surface>)>)
    ensures
        rows_view(rows@) == cheatsheet_rows_spec() + chords_spec(),
{
    let mut rows = cheatsheet_rows();
    let mut more = chords();
    let ghost (a, b) = (rows@, more@);
    rows.append(&mut more);
    assert(rows@ == a + b);
    assert(rows_view(rows@) =~= rows_view(a) + rows_view(b));
    rows
}

/// One chord's row of the Chord hint: the key after Space, and the label
/// naming it; nothing for a spelling with no second character.
pub open spec fn chord_row(keys: Seq<char>, what: Seq<char>) -> Option<(Option<char>, Seq<char>)> {
    if keys.len() >= 2 {
        Some((Some(keys[1]), "   ("@ + seq![keys[1]] + ") "@ + what))
    } else {
        None
    }
}

pub open spec fn chord_rows_from(chords: Seq<(Seq<char>, Seq<char>, Seq<Surface>)>) -> Seq<(Option<char>, Seq<char>)>
    decreases chords.len(),
{
    if chords.len() == 0 {
        Seq::empty()
    } else {
        let rest = chord_rows_from(chords.drop_last());
        match chord_row(chords.last().0, chords.last().1) {
            Some(row) => rest.push(row),
            None => rest,
        }
    }
}

/// The Chord hint as drawn: a row per chord carrying the key it offers, then
/// the way out, which carries none.
pub fn chord_rows() -> (rows: Vec<(Option<char>, String)>)
    ensures
        rows@.map_values(|r: (Option<char>, String)| (r.0, r.1@))
            == chord_rows_from(chords_spec()).push((None, "   Esc  cancel"@)),
{
    let table = chords();
    let ghost spec = rows_view(table@);
    let mut rows: Vec<(Option<char>, String)> = Vec::new();
    let mut i: usize = 0;
    while i < table.len()
        invariant
            i <= table.len(),
            spec == rows_view(table@),
            spec == chords_spec(),
            rows@.map_values(|r: (Option<char>, String)| (r.0, r.1@)) == chord_rows_from(spec.take(i as int)),
        decreases table.len() - i,
    {
        let ghost before = rows@.map_values(|r: (Option<char>, String)| (r.0, r.1@));
        assert(spec.take(i + 1).drop_last() =~= spec.take(i as int));
        assert(spec.take(i + 1).last() == row_view(table@[i as int]));
        let keys = crate::text::chars_of(table[i].0);
        if keys.len() >= 2 {
            let key = keys[1];
            let mut label = crate::text::owned("   (");
            crate::text::push_char(&mut label, key);
            crate::text::push_str(&mut label, ") ");
            crate::text::push_str(&mut label, table[i].1);
            assert(label@ =~= "   ("@ + seq![keys@[1]] + ") "@ + table@[i as int].1@);
            rows.push((Some(key), label));
            assert(rows@.map_values(|r: (Option<char>, String)| (r.0, r.1@)) =~= before.push((Some(key), label@)));
        } else {
            assert(rows@.map_values(|r: (Option<char>, String)| (r.0, r.1@)) =~= before);
        }
        i = i + 1;
    }
    assert(spec.take(table.len() as int) =~= spec);
    let ghost before = rows@.map_values(|r: (Option<char>, String)| (r.0, r.1@));
    let way_out = crate::text::owned("   Esc  cancel");
    rows.push((None, way_out));
    assert(rows@.map_values(|r: (Option<char>, String)| (r.0, r.1@)) =~= before.push((None, "   Esc  cancel"@)));
    rows
}

/// Whether a row of the cheatsheet names this view.
pub fn applies_to(views: &[Surface], view: Surface) -> (r: bool)
    ensures
        r == views@.contains(view),
{
    let mut i: usize = 0;
    while i < views.len()
        invariant
            i <= views.len(),
            forall|j: int| 0 <= j < i ==> views@[j] != view,
        decreases views.len() - i,
    {
        if views[i] == view {
            assert(views@[i as int] == view);
            return true;
        }
        i = i + 1;
    }
    false
}


/// A key as the routing reads it, whatever terminal reported it.
#[derive(Debug, Clone, Copy, PartialEq, Eq, Structural)]
pub enum KeyCode {
    Char(char),
    Enter,
    Esc,
    Backspace,
    Tab,
    Up,
    Down,
    Left,
    Right,
    Home,
    End,
    PageUp,
    PageDown,
    Delete,
    /// A function key, by its number.
    F(u8),
    /// Any key the routing gives no meaning to.
    Other,
}

/// One keypress: the key, and the modifiers held with it.
#[derive(Debug, Clone, Copy, PartialEq, Eq, Structural)]
pub struct Key {
    pub code: KeyCode,
    pub shift: bool,
    pub alt: bool,
    pub control: bool,
}

/// What Shift makes of a character on terminals that report the base key
/// plus Shift: the punctuation a US keyboard puts over it, and a letter's
/// capital.
pub open spec fn shifted_char(c: char) -> char {
    if c == ';' {
        ':'
    } else if c == '\'' {
        '"'
    } else if c == '1' {
        '!'
    } else if c == '/' {
        '?'
    } else if c == '.' {
        '>'
    } else if c == ',' {
        '<'
    } else if 'a' <= c && c <= 'z' {
        ((c as u32) - 32) as char
    } else {
        c
    }
}

pub open spec fn shifted_spec(key: Key) -> Key {
    if key.shift {
        match key.code {
            KeyCode::Char(c) => Key { code: KeyCode::Char(shifted_char(c)), ..key },
            _ => key,
        }
    } else {
        key
    }
}

/// The character the user typed, read once on the way in, so that every
/// binding reads `:` and `N` rather than `;` and `n` with Shift.
pub fn shifted(key: Key) -> (k: Key)
    ensures
        k == shifted_spec(key),
{
    if !key.shift {
        return key;
    }
    match key.code {
        KeyCode::Char(c) => {
            let d = if c == ';' {
                ':'
            } else if c == '\'' {
                '"'
            } else if c == '1' {
                '!'
            } else if c == '/' {
                '?'
            } else if c == '.' {
                '>'
            } else if c == ',' {
                '<'
            } else if 'a' <= c && c <= 'z' {
                let upper = (c as u32) - 32;
                assert(0x41 <= upper <= 0x5a);
                char_of(upper)
            } else {
                c
            };
            Key { code: KeyCode::Char(d), ..key }
        },
        _ => key,
    }
}

fn char_of(code: u32) -> (c: char)
    requires
        0x41 <= code <= 0x5a,
    ensures
        c == code as char,
{
    if code == 0x41 { 'A' } else if code == 0x42 { 'B' } else if code == 0x43 { 'C' } else if code == 0x44 { 'D' }
    else if code == 0x45 { 'E' } else if code == 0x46 { 'F' } else if code == 0x47 { 'G' } else if code == 0x48 { 'H' }
    else if code == 0x49 { 'I' } else if code == 0x4a { 'J' } else if code == 0x4b { 'K' } else if code == 0x4c { 'L' }
    else if code == 0x4d { 'M' } else if code == 0x4e { 'N' } else if code == 0x4f { 'O' } else if code == 0x50 { 'P' }
    else if code == 0x51 { 'Q' } else if code == 0x52 { 'R' } else if code == 0x53 { 'S' } else if code == 0x54 { 'T' }
    else if code == 0x55 { 'U' } else if code == 0x56 { 'V' } else if code == 0x57 { 'W' } else if code == 0x58 { 'X' }
    else if code == 0x59 { 'Y' } else { 'Z' }
}

/// The character a keypress types, if it types one: Ctrl and Alt make a
/// key something other than the character on it.
pub open spec fn typed_spec(key: Key) -> Option<char> {
    match key.code {
        KeyCode::Char(c) => if !key.control && !key.alt { Some(c) } else { None },
        _ => None,
    }
}

pub fn typed(key: Key) -> (c: Option<char>)
    ensures
        c == typed_spec(key),
{
    match key.code {
        KeyCode::Char(c) => if !key.control && !key.alt { Some(c) } else { None },
        _ => None,
    }
}

/// The way an arrow key points.
pub open spec fn arrow_spec(code: KeyCode) -> Option<crate::Direction> {
    match code {
        KeyCode::Left => Some(crate::Direction::Left),
        KeyCode::Right => Some(crate::Direction::Right),
        KeyCode::Up => Some(crate::Direction::Up),
        KeyCode::Down => Some(crate::Direction::Down),
        _ => None,
    }
}

pub fn arrow(code: KeyCode) -> (d: Option<crate::Direction>)
    ensures
        d == arrow_spec(code),
{
    match code {
        KeyCode::Left => Some(crate::Direction::Left),
        KeyCode::Right => Some(crate::Direction::Right),
        KeyCode::Up => Some(crate::Direction::Up),
        KeyCode::Down => Some(crate::Direction::Down),
        _ => None,
    }
}

/// The modals that are answered rather than typed through.
#[derive(Debug, Clone, Copy, PartialEq, Eq, Structural)]
pub enum Question {
    ConfirmSubmit,
    Diverged,
    StepDetail,
    ConfirmStory,
    Prediction,
    Restart,
}

/// How a buffer that diverged from the disk is settled.
#[derive(Debug, Clone, Copy, PartialEq, Eq, Structural)]
pub enum Resolution {
    Reload,
    Overwrite,
    Merge,
}

/// What answering a question does.
#[derive(Debug, Clone, Copy, PartialEq, Eq, Structural)]
pub enum Reply {
    /// The question goes, undecided.
    Cancel,
    ConfirmSubmit,
    ConfirmStory,
    Restart,
    Resolve(Resolution),
    /// The key goes on as itself: stepping the walk, or a pick.
    Key(char),
}

/// Yes or no, reachable two ways each: Enter or `y` for the act, Escape or
/// `n` for the refusal; an unrelated key leaves the question standing.
pub open spec fn yes_no_spec(yes: Reply, key: Key) -> Seq<Reply> {
    match key.code {
        KeyCode::Enter => seq![yes],
        KeyCode::Esc => seq![Reply::Cancel],
        _ => match typed_spec(key) {
            Some(c) => if c == 'y' || c == 'Y' {
                seq![yes]
            } else if c == 'n' || c == 'N' {
                seq![Reply::Cancel]
            } else {
                Seq::empty()
            },
            None => Seq::empty(),
        },
    }
}

/// A question answered by a key: a yes or no, three named ways to settle a
/// divergence, `D` toggling the step detail shut, or a pick and the walk's
/// steps for a prediction; Escape leaves each, and an unrelated key leaves
/// the question standing.
pub open spec fn answered_spec(question: Question, key: Key) -> Seq<Reply> {
    match question {
        Question::ConfirmSubmit => yes_no_spec(Reply::ConfirmSubmit, key),
        Question::ConfirmStory => yes_no_spec(Reply::ConfirmStory, key),
        Question::Restart => yes_no_spec(Reply::Restart, key),
        Question::Diverged => match key.code {
            KeyCode::Esc => seq![Reply::Cancel],
            _ => match typed_spec(key) {
                Some(c) => if c == 'r' {
                    seq![Reply::Resolve(Resolution::Reload)]
                } else if c == 'w' {
                    seq![Reply::Resolve(Resolution::Overwrite)]
                } else if c == 'm' {
                    seq![Reply::Resolve(Resolution::Merge)]
                } else {
                    Seq::empty()
                },
                None => Seq::empty(),
            },
        },
        Question::StepDetail => match key.code {
            KeyCode::Esc => seq![Reply::Cancel],
            _ => if typed_spec(key) == Some('D') { seq![Reply::Key('D')] } else { Seq::empty() },
        },
        Question::Prediction => match key.code {
            KeyCode::Esc => seq![Reply::Cancel],
            _ => match typed_spec(key) {
                Some(c) => if c == 'n' || c == 'p' || c == '1' || c == '2' || c == '3' { seq![Reply::Key(c)] } else { Seq::empty() },
                None => Seq::empty(),
            },
        },
    }
}

fn one(reply: Reply) -> (v: Vec<Reply>)
    ensures
        v@ == seq![reply],
{
    let mut v: Vec<Reply> = Vec::new();
    v.push(reply);
    assert(v@ =~= seq![reply]);
    v
}

fn yes_no(yes: Reply, key: Key) -> (replies: Vec<Reply>)
    ensures
        replies@ == yes_no_spec(yes, key),
{
    match key.code {
        KeyCode::Enter => one(yes),
        KeyCode::Esc => one(Reply::Cancel),
        _ => match typed(key) {
            Some(c) => if c == 'y' || c == 'Y' {
                one(yes)
            } else if c == 'n' || c == 'N' {
                one(Reply::Cancel)
            } else {
                Vec::new()
            },
            None => Vec::new(),
        },
    }
}

/// A question is answered, not typed through.
pub fn answered(question: Question, key: Key) -> (replies: Vec<Reply>)
    ensures
        replies@ == answered_spec(question, key),
{
    match question {
        Question::ConfirmSubmit => yes_no(Reply::ConfirmSubmit, key),
        Question::ConfirmStory => yes_no(Reply::ConfirmStory, key),
        Question::Restart => yes_no(Reply::Restart, key),
        Question::Diverged => match key.code {
            KeyCode::Esc => one(Reply::Cancel),
            _ => match typed(key) {
                Some(c) => if c == 'r' {
                    one(Reply::Resolve(Resolution::Reload))
                } else if c == 'w' {
                    one(Reply::Resolve(Resolution::Overwrite))
                } else if c == 'm' {
                    one(Reply::Resolve(Resolution::Merge))
                } else {
                    Vec::new()
                },
                None => Vec::new(),
            },
        },
        Question::StepDetail => match key.code {
            KeyCode::Esc => one(Reply::Cancel),
            _ => match typed(key) {
                Some(c) => if c == 'D' { one(Reply::Key('D')) } else { Vec::new() },
                None => Vec::new(),
            },
        },
        Question::Prediction => match key.code {
            KeyCode::Esc => one(Reply::Cancel),
            _ => match typed(key) {
                Some(c) => if c == 'n' || c == 'p' || c == '1' || c == '2' || c == '3' { one(Reply::Key(c)) } else { Vec::new() },
                None => Vec::new(),
            },
        },
    }
}


/// The modal open over the panes, as the keyboard routing reads it. The
/// questions are the ones [`answered`] settles; the branch picker carries
/// the text typed into it.
#[derive(Debug, Clone, PartialEq, Eq)]
pub enum Modal {
    /// No modal is open.
    Clear,
    Palette,
    Tools,
    Branches { filter: String },
    Chord,
    Comment,
    NameBox,
    Candidates,
    Stops,
    ConfirmSubmit,
    Diverged,
    StepDetail,
    ConfirmStory,
    Prediction,
    Restart,
}

/// What a key asks of the core while a modal is open, its text carried as
/// `T`: a `String` where an event is sent, its characters where a contract
/// speaks of it.
#[derive(Debug, Clone, PartialEq, Eq)]
pub enum Event<T> {
    Cancel,
    /// The key goes on as itself: a palette's query, a chord's second key,
    /// stepping a walk or a pick.
    Key(char),
    MoveToolRow(Direction),
    InstallTool,
    RecheckTool,
    MoveBranchRow(Direction),
    ChooseBranch,
    /// The branch picker's filter, as it now reads.
    FilterBranches(T),
    NextStop,
    ScrollHover(Direction),
    MoveCandidate(Direction),
    AcceptCandidate,
    ConfirmSubmit,
    ConfirmStory,
    Restart,
    Resolve(Resolution),
    EditorEscape,
    EditorKey(char),
    EditorUndo,
    EditorWord(Direction),
    EditorDeleteWord,
    EditorBackspace,
    EditorArrow(Direction),
    /// The comment box's body filed, under the type picked for it.
    FileComment { kind: T },
    /// The name typed into the name box.
    EnterName(T),
    WriteBuffer,
    ReloadBuffer,
    CloseBuffer { force: bool },
    CloseAllBuffers { force: bool },
    SubmitReview,
    Rebuild,
    ToggleTallAi,
    SplitTerminal,
    TogglePreview,
    FormatBuffer,
    ToggleFold { all: bool },
    StartReading,
    PlayPause,
    NextUtterance,
    PreviousUtterance,
    StopReading,
    ToggleCheatsheet,
    ToggleField,
    ToggleMinimap,
    /// The AI pane started, on the command after the word if one was given;
    /// forced, it replaces whatever is running.
    StartAi { command: Option<T>, force: bool },
    /// The branch picker, over the repository whose URL follows the word,
    /// or this folder's.
    PickBranch(Option<T>),
    /// A Story authored, of what follows the word if anything does.
    Story { explicit: Option<T>, force: bool },
    /// A reading pace, as typed: the edge reads it as a number and refuses
    /// one that is not a positive, finite multiplier.
    SetSpeed(T),
    MoveHit(Direction),
    MoveHitFile(Direction),
    CloseSearch,
    OpenHit,
    OpenEveryHit,
    CompleteSearch,
    /// The project search's query, as it now reads.
    SearchQuery(T),
    CloseFind,
    AcceptFind,
    /// The in-file find's query, as it now reads.
    FindQuery(T),
    JumpBack,
    JumpForward,
    MoveFocus(Direction),
    MoveSelection(Direction),
    MoveAction(Direction),
    Copy,
    PasteFromClipboard,
    Activate,
    /// The tree's filter, as it now reads.
    Filter(T),
    AcceptFilter,
    EditorExtend(Direction),
    EditorExtendWord(Direction),
    EditorNextOccurrence,
    EditorIndent(Direction),
    /// Text put into the buffer as one paste: a Tab's worth of spaces.
    EditorPaste(T),
}

pub open spec fn text_view(t: Option<String>) -> Option<Seq<char>> {
    match t {
        Some(s) => Some(s@),
        None => None,
    }
}

impl View for Event<String> {
    type V = Event<Seq<char>>;

    open spec fn view(&self) -> Event<Seq<char>> {
        match self {
            Event::Cancel => Event::Cancel,
            Event::Key(c) => Event::Key(*c),
            Event::MoveToolRow(d) => Event::MoveToolRow(*d),
            Event::InstallTool => Event::InstallTool,
            Event::RecheckTool => Event::RecheckTool,
            Event::MoveBranchRow(d) => Event::MoveBranchRow(*d),
            Event::ChooseBranch => Event::ChooseBranch,
            Event::FilterBranches(t) => Event::FilterBranches(t@),
            Event::NextStop => Event::NextStop,
            Event::ScrollHover(d) => Event::ScrollHover(*d),
            Event::MoveCandidate(d) => Event::MoveCandidate(*d),
            Event::AcceptCandidate => Event::AcceptCandidate,
            Event::ConfirmSubmit => Event::ConfirmSubmit,
            Event::ConfirmStory => Event::ConfirmStory,
            Event::Restart => Event::Restart,
            Event::Resolve(r) => Event::Resolve(*r),
            Event::EditorEscape => Event::EditorEscape,
            Event::EditorKey(c) => Event::EditorKey(*c),
            Event::EditorUndo => Event::EditorUndo,
            Event::EditorWord(d) => Event::EditorWord(*d),
            Event::EditorDeleteWord => Event::EditorDeleteWord,
            Event::EditorBackspace => Event::EditorBackspace,
            Event::EditorArrow(d) => Event::EditorArrow(*d),
            Event::FileComment { kind } => Event::FileComment { kind: kind@ },
            Event::EnterName(t) => Event::EnterName(t@),
            Event::WriteBuffer => Event::WriteBuffer,
            Event::ReloadBuffer => Event::ReloadBuffer,
            Event::CloseBuffer { force } => Event::CloseBuffer { force: *force },
            Event::CloseAllBuffers { force } => Event::CloseAllBuffers { force: *force },
            Event::SubmitReview => Event::SubmitReview,
            Event::Rebuild => Event::Rebuild,
            Event::ToggleTallAi => Event::ToggleTallAi,
            Event::SplitTerminal => Event::SplitTerminal,
            Event::TogglePreview => Event::TogglePreview,
            Event::FormatBuffer => Event::FormatBuffer,
            Event::ToggleFold { all } => Event::ToggleFold { all: *all },
            Event::StartReading => Event::StartReading,
            Event::PlayPause => Event::PlayPause,
            Event::NextUtterance => Event::NextUtterance,
            Event::PreviousUtterance => Event::PreviousUtterance,
            Event::StopReading => Event::StopReading,
            Event::ToggleCheatsheet => Event::ToggleCheatsheet,
            Event::ToggleField => Event::ToggleField,
            Event::ToggleMinimap => Event::ToggleMinimap,
            Event::StartAi { command, force } => Event::StartAi { command: text_view(*command), force: *force },
            Event::PickBranch(url) => Event::PickBranch(text_view(*url)),
            Event::Story { explicit, force } => Event::Story { explicit: text_view(*explicit), force: *force },
            Event::SetSpeed(t) => Event::SetSpeed(t@),
            Event::MoveHit(d) => Event::MoveHit(*d),
            Event::MoveHitFile(d) => Event::MoveHitFile(*d),
            Event::CloseSearch => Event::CloseSearch,
            Event::OpenHit => Event::OpenHit,
            Event::OpenEveryHit => Event::OpenEveryHit,
            Event::CompleteSearch => Event::CompleteSearch,
            Event::SearchQuery(t) => Event::SearchQuery(t@),
            Event::CloseFind => Event::CloseFind,
            Event::AcceptFind => Event::AcceptFind,
            Event::FindQuery(t) => Event::FindQuery(t@),
            Event::JumpBack => Event::JumpBack,
            Event::JumpForward => Event::JumpForward,
            Event::MoveFocus(d) => Event::MoveFocus(*d),
            Event::MoveSelection(d) => Event::MoveSelection(*d),
            Event::MoveAction(d) => Event::MoveAction(*d),
            Event::Copy => Event::Copy,
            Event::PasteFromClipboard => Event::PasteFromClipboard,
            Event::Activate => Event::Activate,
            Event::Filter(t) => Event::Filter(t@),
            Event::AcceptFilter => Event::AcceptFilter,
            Event::EditorExtend(d) => Event::EditorExtend(*d),
            Event::EditorExtendWord(d) => Event::EditorExtendWord(*d),
            Event::EditorNextOccurrence => Event::EditorNextOccurrence,
            Event::EditorIndent(d) => Event::EditorIndent(*d),
            Event::EditorPaste(t) => Event::EditorPaste(t@),
        }
    }
}

pub open spec fn events_view(events: Seq<Event<String>>) -> Seq<Event<Seq<char>>> {
    events.map_values(|e: Event<String>| e@)
}

/// What the routing beneath makes of a key the modal leaves alone: `None`
/// where the modal passes the key on.
pub open spec fn sent(events: Option<Vec<Event<String>>>) -> Option<Seq<Event<Seq<char>>>> {
    match events {
        Some(v) => Some(events_view(v@)),
        None => None,
    }
}

pub open spec fn reply_event(reply: Reply) -> Event<Seq<char>> {
    match reply {
        Reply::Cancel => Event::Cancel,
        Reply::ConfirmSubmit => Event::ConfirmSubmit,
        Reply::ConfirmStory => Event::ConfirmStory,
        Reply::Restart => Event::Restart,
        Reply::Resolve(r) => Event::Resolve(r),
        Reply::Key(c) => Event::Key(c),
    }
}

/// The question a modal asks, where it is one.
pub open spec fn question_of(modal: Modal) -> Option<Question> {
    match modal {
        Modal::ConfirmSubmit => Some(Question::ConfirmSubmit),
        Modal::Diverged => Some(Question::Diverged),
        Modal::StepDetail => Some(Question::StepDetail),
        Modal::ConfirmStory => Some(Question::ConfirmStory),
        Modal::Prediction => Some(Question::Prediction),
        Modal::Restart => Some(Question::Restart),
        _ => None,
    }
}

/// The type a letter picks for a comment.
pub open spec fn comment_kind_spec(c: char) -> Option<Seq<char>> {
    if c == 'i' {
        Some("ISSUE"@)
    } else if c == 'n' {
        Some("NOTE"@)
    } else if c == 's' {
        Some("SUGGESTION"@)
    } else if c == 'c' {
        Some("COMMENT"@)
    } else {
        None
    }
}

/// A key in the comment box, with the type picked so far: until one is
/// picked only Escape and the four letters mean anything; after it, the
/// body takes the editor's gestures, Ctrl-S files it and Escape drops it.
pub open spec fn comment_spec(kind: Seq<char>, key: Key) -> (Seq<Event<Seq<char>>>, Seq<char>) {
    if kind.len() == 0 {
        match key.code {
            KeyCode::Esc => (seq![Event::EditorEscape], kind),
            _ => match typed_spec(key) {
                Some(c) => match comment_kind_spec(c) {
                    Some(k) => (Seq::empty(), k),
                    None => (Seq::empty(), kind),
                },
                None => (Seq::empty(), kind),
            },
        }
    } else if key.control && key.code == KeyCode::Char('s') {
        (seq![Event::FileComment { kind }], Seq::empty())
    } else if key.control && key.code == KeyCode::Char('z') {
        (seq![Event::EditorUndo], kind)
    } else if key.alt && !key.control && key.code == KeyCode::Char('b') {
        (seq![Event::EditorWord(Direction::Left)], kind)
    } else if key.alt && !key.control && key.code == KeyCode::Char('f') {
        (seq![Event::EditorWord(Direction::Right)], kind)
    } else {
        match key.code {
            KeyCode::Esc => (seq![Event::EditorEscape], Seq::empty()),
            KeyCode::Enter => (seq![Event::EditorKey('\n')], kind),
            KeyCode::Backspace => if key.alt { (seq![Event::EditorDeleteWord], kind) } else { (seq![Event::EditorBackspace], kind) },
            KeyCode::Left => if key.alt { (seq![Event::EditorWord(Direction::Left)], kind) } else { (seq![Event::EditorArrow(Direction::Left)], kind) },
            KeyCode::Right => if key.alt { (seq![Event::EditorWord(Direction::Right)], kind) } else { (seq![Event::EditorArrow(Direction::Right)], kind) },
            KeyCode::Up => (seq![Event::EditorArrow(Direction::Up)], kind),
            KeyCode::Down => (seq![Event::EditorArrow(Direction::Down)], kind),
            _ => match typed_spec(key) {
                Some(c) => (seq![Event::EditorKey(c)], kind),
                None => (Seq::empty(), kind),
            },
        }
    }
}

/// A key in the name box, with the name typed so far: Escape drops the name,
/// Enter sends it, Backspace takes its last character, and a typed one is
/// added.
pub open spec fn name_spec(name: Seq<char>, key: Key) -> (Seq<Event<Seq<char>>>, Seq<char>) {
    match key.code {
        KeyCode::Esc => (seq![Event::Cancel], Seq::empty()),
        KeyCode::Enter => (seq![Event::EnterName(name)], Seq::empty()),
        KeyCode::Backspace => (Seq::empty(), if name.len() > 0 { name.drop_last() } else { name }),
        _ => match typed_spec(key) {
            Some(c) => (Seq::empty(), name.push(c)),
            None => (Seq::empty(), name),
        },
    }
}

/// What a key does while `modal` is open: the events it sends, or `None`
/// where the modal passes it on to the panes beneath, with the name box's
/// name and the comment box's type as it leaves them. Every modal but the
/// candidate list, the tab stops and a Hover without focus swallows what it
/// does not recognise.
pub open spec fn modal_claim_spec(modal: Modal, hover_focused: bool, name: Seq<char>, kind: Seq<char>, key: Key) -> (
    Option<Seq<Event<Seq<char>>>>,
    Seq<char>,
    Seq<char>,
) {
    match modal {
        Modal::Palette => (Some(match key.code {
            KeyCode::Esc => seq![Event::Cancel],
            _ => match typed_spec(key) {
                Some(c) => seq![Event::Key(c)],
                None => Seq::empty(),
            },
        }), name, kind),
        Modal::Tools => (Some(match key.code {
            KeyCode::Esc => seq![Event::Cancel],
            KeyCode::Up => seq![Event::MoveToolRow(Direction::Up)],
            KeyCode::Down => seq![Event::MoveToolRow(Direction::Down)],
            _ => if typed_spec(key) == Some('i') {
                seq![Event::InstallTool]
            } else if typed_spec(key) == Some('r') {
                seq![Event::RecheckTool]
            } else {
                Seq::empty()
            },
        }), name, kind),
        Modal::Branches { filter } => (Some(match key.code {
            KeyCode::Esc => seq![Event::Cancel],
            KeyCode::Up => seq![Event::MoveBranchRow(Direction::Up)],
            KeyCode::Down => seq![Event::MoveBranchRow(Direction::Down)],
            KeyCode::Enter => seq![Event::ChooseBranch],
            KeyCode::Backspace => seq![Event::FilterBranches(if filter@.len() > 0 { filter@.drop_last() } else { filter@ })],
            _ => match typed_spec(key) {
                Some(c) => seq![Event::FilterBranches(filter@.push(c))],
                None => Seq::empty(),
            },
        }), name, kind),
        Modal::Chord => (Some(match typed_spec(key) {
            Some(c) => seq![Event::Key(c)],
            None => seq![Event::Cancel],
        }), name, kind),
        Modal::Comment => {
            let r = comment_spec(kind, key);
            (Some(r.0), name, r.1)
        },
        Modal::NameBox => {
            let r = name_spec(name, key);
            (Some(r.0), r.1, kind)
        },
        Modal::Candidates => (if key.shift || key.alt || key.control {
            None
        } else {
            match key.code {
                KeyCode::Up => Some(seq![Event::MoveCandidate(Direction::Up)]),
                KeyCode::Down => Some(seq![Event::MoveCandidate(Direction::Down)]),
                KeyCode::Enter => Some(seq![Event::AcceptCandidate]),
                KeyCode::Esc => Some(seq![Event::Cancel]),
                _ => None,
            }
        }, name, kind),
        Modal::Stops => (match key.code {
            KeyCode::Tab => Some(seq![Event::NextStop]),
            KeyCode::Esc => Some(seq![Event::Cancel]),
            _ => None,
        }, name, kind),
        Modal::Clear => (if hover_focused {
            Some(if key.code == KeyCode::Esc {
                seq![Event::Cancel]
            } else if typed_spec(key) == Some('j') {
                seq![Event::ScrollHover(Direction::Down)]
            } else if typed_spec(key) == Some('k') {
                seq![Event::ScrollHover(Direction::Up)]
            } else {
                Seq::empty()
            })
        } else {
            None
        }, name, kind),
        _ => (Some(answered_spec(question_of(modal)->0, key).map_values(|r: Reply| reply_event(r))), name, kind),
    }
}

fn sole(event: Event<String>) -> (v: Vec<Event<String>>)
    ensures
        events_view(v@) == seq![event@],
{
    let mut v: Vec<Event<String>> = Vec::new();
    v.push(event);
    assert(events_view(v@) =~= seq![event@]);
    v
}

fn none_sent() -> (v: Vec<Event<String>>)
    ensures
        events_view(v@) == Seq::<Event<Seq<char>>>::empty(),
{
    let v: Vec<Event<String>> = Vec::new();
    assert(events_view(v@) =~= Seq::<Event<Seq<char>>>::empty());
    v
}

fn reply_as_event(reply: Reply) -> (e: Event<String>)
    ensures
        e@ == reply_event(reply),
{
    match reply {
        Reply::Cancel => Event::Cancel,
        Reply::ConfirmSubmit => Event::ConfirmSubmit,
        Reply::ConfirmStory => Event::ConfirmStory,
        Reply::Restart => Event::Restart,
        Reply::Resolve(r) => Event::Resolve(r),
        Reply::Key(c) => Event::Key(c),
    }
}

fn question_events(question: Question, key: Key) -> (v: Vec<Event<String>>)
    ensures
        events_view(v@) == answered_spec(question, key).map_values(|r: Reply| reply_event(r)),
{
    let replies = answered(question, key);
    let mut v: Vec<Event<String>> = Vec::new();
    let mut i: usize = 0;
    while i < replies.len()
        invariant
            i <= replies.len(),
            replies@ == answered_spec(question, key),
            events_view(v@) == replies@.take(i as int).map_values(|r: Reply| reply_event(r)),
        decreases replies.len() - i,
    {
        let e = reply_as_event(replies[i]);
        let ghost before = events_view(v@);
        v.push(e);
        assert(events_view(v@) =~= before.push(e@));
        assert(replies@.take(i + 1).map_values(|r: Reply| reply_event(r))
            =~= replies@.take(i as int).map_values(|r: Reply| reply_event(r)).push(reply_event(replies@[i as int])));
        i = i + 1;
    }
    assert(replies@.take(replies.len() as int) =~= replies@);
    v
}

fn kind_named(c: char) -> (kind: Option<String>)
    ensures
        match kind {
            Some(k) => comment_kind_spec(c) == Some(k@),
            None => comment_kind_spec(c) is None,
        },
{
    if c == 'i' {
        Some(crate::text::owned("ISSUE"))
    } else if c == 'n' {
        Some(crate::text::owned("NOTE"))
    } else if c == 's' {
        Some(crate::text::owned("SUGGESTION"))
    } else if c == 'c' {
        Some(crate::text::owned("COMMENT"))
    } else {
        None
    }
}

fn comment_box(kind: &mut String, key: Key) -> (events: Vec<Event<String>>)
    ensures
        (events_view(events@), final(kind)@) == comment_spec(old(kind)@, key),
{
    if kind.as_str().is_empty() {
        match key.code {
            KeyCode::Esc => sole(Event::EditorEscape),
            _ => {
                if let Some(c) = typed(key) {
                    if let Some(k) = kind_named(c) {
                        *kind = k;
                    }
                }
                none_sent()
            },
        }
    } else if key.control && key.code == KeyCode::Char('s') {
        let picked = kind.clone();
        *kind = String::new();
        sole(Event::FileComment { kind: picked })
    } else if key.control && key.code == KeyCode::Char('z') {
        sole(Event::EditorUndo)
    } else if key.alt && !key.control && key.code == KeyCode::Char('b') {
        sole(Event::EditorWord(Direction::Left))
    } else if key.alt && !key.control && key.code == KeyCode::Char('f') {
        sole(Event::EditorWord(Direction::Right))
    } else {
        match key.code {
            KeyCode::Esc => {
                *kind = String::new();
                sole(Event::EditorEscape)
            },
            KeyCode::Enter => sole(Event::EditorKey('\n')),
            KeyCode::Backspace => if key.alt { sole(Event::EditorDeleteWord) } else { sole(Event::EditorBackspace) },
            KeyCode::Left => if key.alt { sole(Event::EditorWord(Direction::Left)) } else { sole(Event::EditorArrow(Direction::Left)) },
            KeyCode::Right => if key.alt { sole(Event::EditorWord(Direction::Right)) } else { sole(Event::EditorArrow(Direction::Right)) },
            KeyCode::Up => sole(Event::EditorArrow(Direction::Up)),
            KeyCode::Down => sole(Event::EditorArrow(Direction::Down)),
            _ => match typed(key) {
                Some(c) => sole(Event::EditorKey(c)),
                None => none_sent(),
            },
        }
    }
}

fn without_last(text: &String) -> (r: String)
    ensures
        r@ == (if text@.len() > 0 { text@.drop_last() } else { text@ }),
{
    let mut chars = crate::text::chars_of(text.as_str());
    if chars.len() > 0 {
        chars.pop();
    }
    crate::text::string_of(chars.as_slice())
}

fn with_char(text: &String, c: char) -> (r: String)
    ensures
        r@ == text@.push(c),
{
    let mut chars = crate::text::chars_of(text.as_str());
    chars.push(c);
    crate::text::string_of(chars.as_slice())
}

fn name_box(name: &mut String, key: Key) -> (events: Vec<Event<String>>)
    ensures
        (events_view(events@), final(name)@) == name_spec(old(name)@, key),
{
    match key.code {
        KeyCode::Esc => {
            *name = String::new();
            sole(Event::Cancel)
        },
        KeyCode::Enter => {
            let typed_name = name.clone();
            *name = String::new();
            sole(Event::EnterName(typed_name))
        },
        KeyCode::Backspace => {
            *name = without_last(name);
            none_sent()
        },
        _ => {
            if let Some(c) = typed(key) {
                *name = with_char(name, c);
            }
            none_sent()
        },
    }
}

/// What a key does while `modal` is open, `hover_focused` saying whether a
/// Hover over the panes has the keyboard: the events it sends, or `None` where
/// the modal passes it on to the panes beneath. The name box and the comment
/// box keep what is typed into them in `drafts`; nothing else there changes.
pub fn modal_claim(modal: &Modal, hover_focused: bool, drafts: &mut Drafts, key: Key) -> (events: Option<Vec<Event<String>>>)
    ensures
        (sent(events), final(drafts).name@, final(drafts).comment_kind@)
            == modal_claim_spec(*modal, hover_focused, old(drafts).name@, old(drafts).comment_kind@, key),
        final(drafts).command == old(drafts).command,
        final(drafts).ai == old(drafts).ai,
        final(drafts).filter == old(drafts).filter,
{
    match modal {
        Modal::Palette => Some(match key.code {
            KeyCode::Esc => sole(Event::Cancel),
            _ => match typed(key) {
                Some(c) => sole(Event::Key(c)),
                None => none_sent(),
            },
        }),
        Modal::Tools => Some(match key.code {
            KeyCode::Esc => sole(Event::Cancel),
            KeyCode::Up => sole(Event::MoveToolRow(Direction::Up)),
            KeyCode::Down => sole(Event::MoveToolRow(Direction::Down)),
            _ => match typed(key) {
                Some(c) => if c == 'i' {
                    sole(Event::InstallTool)
                } else if c == 'r' {
                    sole(Event::RecheckTool)
                } else {
                    none_sent()
                },
                None => none_sent(),
            },
        }),
        Modal::Branches { filter } => Some(match key.code {
            KeyCode::Esc => sole(Event::Cancel),
            KeyCode::Up => sole(Event::MoveBranchRow(Direction::Up)),
            KeyCode::Down => sole(Event::MoveBranchRow(Direction::Down)),
            KeyCode::Enter => sole(Event::ChooseBranch),
            KeyCode::Backspace => sole(Event::FilterBranches(without_last(filter))),
            _ => match typed(key) {
                Some(c) => sole(Event::FilterBranches(with_char(filter, c))),
                None => none_sent(),
            },
        }),
        Modal::Chord => Some(match typed(key) {
            Some(c) => sole(Event::Key(c)),
            None => sole(Event::Cancel),
        }),
        Modal::Comment => Some(comment_box(&mut drafts.comment_kind, key)),
        Modal::NameBox => Some(name_box(&mut drafts.name, key)),
        Modal::Candidates => {
            if key.shift || key.alt || key.control {
                None
            } else {
                match key.code {
                    KeyCode::Up => Some(sole(Event::MoveCandidate(Direction::Up))),
                    KeyCode::Down => Some(sole(Event::MoveCandidate(Direction::Down))),
                    KeyCode::Enter => Some(sole(Event::AcceptCandidate)),
                    KeyCode::Esc => Some(sole(Event::Cancel)),
                    _ => None,
                }
            }
        },
        Modal::Stops => match key.code {
            KeyCode::Tab => Some(sole(Event::NextStop)),
            KeyCode::Esc => Some(sole(Event::Cancel)),
            _ => None,
        },
        Modal::Clear => {
            if hover_focused {
                Some(if key.code == KeyCode::Esc {
                    sole(Event::Cancel)
                } else if typed(key) == Some('j') {
                    sole(Event::ScrollHover(Direction::Down))
                } else if typed(key) == Some('k') {
                    sole(Event::ScrollHover(Direction::Up))
                } else {
                    none_sent()
                })
            } else {
                None
            }
        },
        Modal::ConfirmSubmit => Some(question_events(Question::ConfirmSubmit, key)),
        Modal::Diverged => Some(question_events(Question::Diverged, key)),
        Modal::StepDetail => Some(question_events(Question::StepDetail, key)),
        Modal::ConfirmStory => Some(question_events(Question::ConfirmStory, key)),
        Modal::Prediction => Some(question_events(Question::Prediction, key)),
        Modal::Restart => Some(question_events(Question::Restart, key)),
    }
}


/// A text with the whitespace at its start taken off.
pub open spec fn trim_start(s: Seq<char>) -> Seq<char>
    decreases s.len(),
{
    if s.len() > 0 && whitespace(s[0]) { trim_start(s.drop_first()) } else { s }
}

/// A text with the whitespace at its end taken off.
pub open spec fn trim_end(s: Seq<char>) -> Seq<char>
    decreases s.len(),
{
    if s.len() > 0 && whitespace(s.last()) { trim_end(s.drop_last()) } else { s }
}

/// A text with the whitespace at both ends taken off.
pub open spec fn trimmed(s: Seq<char>) -> Seq<char> {
    trim_end(trim_start(s))
}

/// What follows a command's first space, trimmed, where anything does.
pub open spec fn argument_spec(line: Seq<char>) -> Option<Seq<char>> {
    let space = index_from(line, ' ', 0);
    if space < line.len() && trimmed(line.skip(space + 1)).len() > 0 {
        Some(trimmed(line.skip(space + 1)))
    } else {
        None
    }
}

/// The word alone, the word with a `!`, or either followed by an argument.
pub open spec fn names_spec(line: Seq<char>, word: Seq<char>) -> bool {
    ||| line == word
    ||| line == word.push('!')
    ||| begins(line, word.push(' '))
    ||| begins(line, word.push('!').push(' '))
}

/// The commands about buffers: the one in front of you, and all of them.
pub open spec fn buffer_command_spec(line: Seq<char>) -> Option<Seq<Event<Seq<char>>>> {
    if line == "w"@ {
        Some(seq![Event::WriteBuffer])
    } else if line == "e"@ {
        Some(seq![Event::ReloadBuffer])
    } else if line == "q"@ {
        Some(seq![Event::CloseBuffer { force: false }])
    } else if line == "q!"@ {
        Some(seq![Event::CloseBuffer { force: true }])
    } else if line == "wq"@ {
        Some(seq![Event::WriteBuffer, Event::CloseBuffer { force: false }])
    } else if line == "qa"@ {
        Some(seq![Event::CloseAllBuffers { force: false }])
    } else if line == "qa!"@ {
        Some(seq![Event::CloseAllBuffers { force: true }])
    } else {
        None
    }
}

/// The commands about what is on screen, and the reading pace.
pub open spec fn view_command_spec(line: Seq<char>) -> Option<Seq<Event<Seq<char>>>> {
    if begins(line, "speed "@) {
        Some(seq![Event::SetSpeed(trimmed(line.skip("speed "@.len() as int)))])
    } else if line == "submit"@ {
        Some(seq![Event::SubmitReview])
    } else if line == "update"@ {
        Some(seq![Event::Rebuild])
    } else if line == "tall"@ {
        Some(seq![Event::ToggleTallAi])
    } else if line == "split"@ {
        Some(seq![Event::SplitTerminal])
    } else if line == "preview"@ {
        Some(seq![Event::TogglePreview])
    } else if line == "format"@ {
        Some(seq![Event::FormatBuffer])
    } else if line == "toggle"@ {
        Some(seq![Event::ToggleFold { all: false }])
    } else if line == "toggle!"@ {
        Some(seq![Event::ToggleFold { all: true }])
    } else if line == "read"@ {
        Some(seq![Event::StartReading])
    } else if line == "pause"@ {
        Some(seq![Event::PlayPause])
    } else if line == "next"@ {
        Some(seq![Event::NextUtterance])
    } else if line == "prev"@ {
        Some(seq![Event::PreviousUtterance])
    } else if line == "stop"@ {
        Some(seq![Event::StopReading])
    } else if line == "help"@ {
        Some(seq![Event::ToggleCheatsheet])
    } else if line == "dim"@ {
        Some(seq![Event::ToggleField])
    } else if line == "minimap"@ {
        Some(seq![Event::ToggleMinimap])
    } else {
        None
    }
}

/// The commands that take an argument after the word, and a `!` that
/// replaces whatever is already running.
pub open spec fn spawning_command_spec(line: Seq<char>) -> Seq<Event<Seq<char>>> {
    if names_spec(line, "ai"@) {
        seq![Event::StartAi { command: argument_spec(line), force: begins(line, "ai!"@) }]
    } else if begins(line, "story?"@) {
        let url = trimmed(line.skip("story?"@.len() as int));
        seq![Event::PickBranch(if url.len() > 0 { Some(url) } else { None })]
    } else if names_spec(line, "story"@) {
        seq![Event::Story { explicit: argument_spec(line), force: begins(line, "story!"@) }]
    } else {
        Seq::empty()
    }
}

/// What a `:` line asks for: a buffer command, a view command, or one that
/// spawns something; nothing for a line none of them is.
pub open spec fn command_spec(line: Seq<char>) -> Seq<Event<Seq<char>>> {
    match buffer_command_spec(line) {
        Some(events) => events,
        None => match view_command_spec(line) {
            Some(events) => events,
            None => spawning_command_spec(line),
        },
    }
}

fn is_text(v: &Vec<char>, word: &str) -> (r: bool)
    ensures
        r == (v@ == word@),
{
    let w = crate::text::chars_of(word);
    crate::text::same_chars(v, &w)
}

fn has_prefix(v: &Vec<char>, prefix: &str) -> (r: bool)
    ensures
        r == begins(v@, prefix@),
{
    let p = crate::text::chars_of(prefix);
    crate::editor::starts_with(v, &p)
}

/// The characters of `v` from `from` on, trimmed.
fn trim_from(v: &Vec<char>, from: usize) -> (r: Vec<char>)
    requires
        from <= v.len(),
    ensures
        r@ == trimmed(v@.skip(from as int)),
{
    let mut start = from;
    while start < v.len() && crate::text::is_whitespace(v[start])
        invariant
            from <= start <= v.len(),
            trim_start(v@.skip(from as int)) == trim_start(v@.skip(start as int)),
        decreases v.len() - start,
    {
        assert(v@.skip(start as int).drop_first() =~= v@.skip(start + 1));
        start = start + 1;
    }
    assert(trim_start(v@.skip(start as int)) == v@.skip(start as int));
    assert(v@.skip(start as int) =~= v@.subrange(start as int, v.len() as int));
    let mut end = v.len();
    while end > start && crate::text::is_whitespace(v[end - 1])
        invariant
            start <= end <= v.len(),
            trim_end(v@.subrange(start as int, v.len() as int)) == trim_end(v@.subrange(start as int, end as int)),
        decreases end - start,
    {
        assert(v@.subrange(start as int, end as int).drop_last() =~= v@.subrange(start as int, end - 1));
        end = end - 1;
    }
    crate::text::slice_of(v, start, end)
}

fn argument(v: &Vec<char>) -> (r: Option<String>)
    ensures
        text_view(r) == argument_spec(v@),
{
    let mut space: usize = 0;
    while space < v.len() && v[space] != ' '
        invariant
            space <= v.len(),
            index_from(v@, ' ', 0) == index_from(v@, ' ', space as int),
        decreases v.len() - space,
    {
        space = space + 1;
    }
    if space < v.len() {
        let rest = trim_from(v, space + 1);
        if rest.len() > 0 {
            return Some(crate::text::string_of(rest.as_slice()));
        }
    }
    None
}

fn names(v: &Vec<char>, word: &str) -> (r: bool)
    ensures
        r == names_spec(v@, word@),
{
    let alone = crate::text::chars_of(word);
    let mut bang = crate::text::chars_of(word);
    bang.push('!');
    let mut spaced = crate::text::chars_of(word);
    spaced.push(' ');
    let mut bang_spaced = crate::text::chars_of(word);
    bang_spaced.push('!');
    bang_spaced.push(' ');
    crate::text::same_chars(v, &alone) || crate::text::same_chars(v, &bang) || crate::editor::starts_with(v, &spaced)
        || crate::editor::starts_with(v, &bang_spaced)
}

fn pair(first: Event<String>, second: Event<String>) -> (v: Vec<Event<String>>)
    ensures
        events_view(v@) == seq![first@, second@],
{
    let mut v: Vec<Event<String>> = Vec::new();
    v.push(first);
    v.push(second);
    assert(events_view(v@) =~= seq![first@, second@]);
    v
}

fn buffer_command(v: &Vec<char>) -> (events: Option<Vec<Event<String>>>)
    ensures
        sent(events) == buffer_command_spec(v@),
{
    if is_text(v, "w") {
        Some(sole(Event::WriteBuffer))
    } else if is_text(v, "e") {
        Some(sole(Event::ReloadBuffer))
    } else if is_text(v, "q") {
        Some(sole(Event::CloseBuffer { force: false }))
    } else if is_text(v, "q!") {
        Some(sole(Event::CloseBuffer { force: true }))
    } else if is_text(v, "wq") {
        Some(pair(Event::WriteBuffer, Event::CloseBuffer { force: false }))
    } else if is_text(v, "qa") {
        Some(sole(Event::CloseAllBuffers { force: false }))
    } else if is_text(v, "qa!") {
        Some(sole(Event::CloseAllBuffers { force: true }))
    } else {
        None
    }
}

fn view_command(v: &Vec<char>) -> (events: Option<Vec<Event<String>>>)
    ensures
        sent(events) == view_command_spec(v@),
{
    if has_prefix(v, "speed ") {
        let prefix = crate::text::chars_of("speed ");
        let pace = trim_from(v, prefix.len());
        Some(sole(Event::SetSpeed(crate::text::string_of(pace.as_slice()))))
    } else if is_text(v, "submit") {
        Some(sole(Event::SubmitReview))
    } else if is_text(v, "update") {
        Some(sole(Event::Rebuild))
    } else if is_text(v, "tall") {
        Some(sole(Event::ToggleTallAi))
    } else if is_text(v, "split") {
        Some(sole(Event::SplitTerminal))
    } else if is_text(v, "preview") {
        Some(sole(Event::TogglePreview))
    } else if is_text(v, "format") {
        Some(sole(Event::FormatBuffer))
    } else if is_text(v, "toggle") {
        Some(sole(Event::ToggleFold { all: false }))
    } else if is_text(v, "toggle!") {
        Some(sole(Event::ToggleFold { all: true }))
    } else if is_text(v, "read") {
        Some(sole(Event::StartReading))
    } else if is_text(v, "pause") {
        Some(sole(Event::PlayPause))
    } else if is_text(v, "next") {
        Some(sole(Event::NextUtterance))
    } else if is_text(v, "prev") {
        Some(sole(Event::PreviousUtterance))
    } else if is_text(v, "stop") {
        Some(sole(Event::StopReading))
    } else if is_text(v, "help") {
        Some(sole(Event::ToggleCheatsheet))
    } else if is_text(v, "dim") {
        Some(sole(Event::ToggleField))
    } else if is_text(v, "minimap") {
        Some(sole(Event::ToggleMinimap))
    } else {
        None
    }
}

fn spawning_command(v: &Vec<char>) -> (events: Vec<Event<String>>)
    ensures
        events_view(events@) == spawning_command_spec(v@),
{
    if names(v, "ai") {
        let force = has_prefix(v, "ai!");
        sole(Event::StartAi { command: argument(v), force })
    } else if has_prefix(v, "story?") {
        let prefix = crate::text::chars_of("story?");
        let url = trim_from(v, prefix.len());
        let picked = if url.len() > 0 { Some(crate::text::string_of(url.as_slice())) } else { None };
        sole(Event::PickBranch(picked))
    } else if names(v, "story") {
        let force = has_prefix(v, "story!");
        sole(Event::Story { explicit: argument(v), force })
    } else {
        none_sent()
    }
}

/// `:` commands. `:q` closes the file, `:qa` closes them all; leaving the
/// editor is not on this line at all, so a mistyped clear-up cannot take the
/// session with it. A pace after `speed` is handed on as typed, for the edge
/// to read as a number.
pub fn command(line: &str) -> (events: Vec<Event<String>>)
    ensures
        events_view(events@) == command_spec(line@),
{
    let v = crate::text::chars_of(line);
    match buffer_command(&v) {
        Some(events) => events,
        None => match view_command(&v) {
            Some(events) => events,
            None => spawning_command(&v),
        },
    }
}


/// A key while the project search is showing, with its query: the arrows step
/// between hits (and with Shift or Alt mean nothing here), Ctrl-N and Ctrl-P
/// step file by file, Ctrl-O opens every hit, and every printable key is a
/// letter of the query.
pub open spec fn searching_spec(query: Seq<char>, key: Key) -> Seq<Event<Seq<char>>> {
    match arrow_spec(key.code) {
        Some(direction) => if key.shift || key.alt { Seq::empty() } else { seq![Event::MoveHit(direction)] },
        None => match key.code {
            KeyCode::Esc => seq![Event::CloseSearch],
            KeyCode::Enter => seq![Event::OpenHit],
            KeyCode::Char('o') if key.control => seq![Event::OpenEveryHit],
            KeyCode::Char('n') if key.control => seq![Event::MoveHitFile(Direction::Down)],
            KeyCode::Char('p') if key.control => seq![Event::MoveHitFile(Direction::Up)],
            KeyCode::Tab => seq![Event::CompleteSearch],
            KeyCode::Backspace => seq![Event::SearchQuery(if query.len() > 0 { query.drop_last() } else { query })],
            _ => match typed_spec(key) {
                Some(c) => seq![Event::SearchQuery(query.push(c))],
                None => Seq::empty(),
            },
        },
    }
}

/// What a key does while the project search is showing, over `query`.
pub fn searching(query: &String, key: Key) -> (events: Vec<Event<String>>)
    ensures
        events_view(events@) == searching_spec(query@, key),
{
    if let Some(direction) = arrow(key.code) {
        if key.shift || key.alt {
            return none_sent();
        }
        return sole(Event::MoveHit(direction));
    }
    match key.code {
        KeyCode::Esc => sole(Event::CloseSearch),
        KeyCode::Enter => sole(Event::OpenHit),
        KeyCode::Char('o') if key.control => sole(Event::OpenEveryHit),
        KeyCode::Char('n') if key.control => sole(Event::MoveHitFile(Direction::Down)),
        KeyCode::Char('p') if key.control => sole(Event::MoveHitFile(Direction::Up)),
        KeyCode::Tab => sole(Event::CompleteSearch),
        KeyCode::Backspace => sole(Event::SearchQuery(without_last(query))),
        _ => match typed(key) {
            Some(c) => sole(Event::SearchQuery(with_char(query, c))),
            None => none_sent(),
        },
    }
}


/// A text without its last character, where it has one.
pub open spec fn dropped(s: Seq<char>) -> Seq<char> {
    if s.len() > 0 { s.drop_last() } else { s }
}

/// A key while the in-file find is open, over its query.
pub open spec fn finding_spec(query: Seq<char>, key: Key) -> Seq<Event<Seq<char>>> {
    match key.code {
        KeyCode::Esc => seq![Event::CloseFind],
        KeyCode::Enter => seq![Event::AcceptFind],
        KeyCode::Backspace => seq![Event::FindQuery(dropped(query))],
        _ => match typed_spec(key) {
            Some(c) => seq![Event::FindQuery(query.push(c))],
            None => Seq::empty(),
        },
    }
}

/// `/` in the editor: what a key does to the find's query.
pub fn finding(query: &String, key: Key) -> (events: Vec<Event<String>>)
    ensures
        events_view(events@) == finding_spec(query@, key),
{
    match key.code {
        KeyCode::Esc => sole(Event::CloseFind),
        KeyCode::Enter => sole(Event::AcceptFind),
        KeyCode::Backspace => sole(Event::FindQuery(without_last(query))),
        _ => match typed(key) {
            Some(c) => sole(Event::FindQuery(with_char(query, c))),
            None => none_sent(),
        },
    }
}

/// A key on the `:` line, over what it holds: Escape drops the line, Enter
/// runs it as a command, and the line, while open, takes what is typed.
pub open spec fn command_line_spec(line: Option<Seq<char>>, key: Key) -> (Seq<Event<Seq<char>>>, Option<Seq<char>>) {
    match key.code {
        KeyCode::Esc => (Seq::empty(), None),
        KeyCode::Backspace => (Seq::empty(), match line {
            Some(d) => Some(dropped(d)),
            None => None,
        }),
        KeyCode::Enter => (command_spec(match line {
            Some(d) => d,
            None => Seq::empty(),
        }), None),
        _ => match (typed_spec(key), line) {
            (Some(c), Some(d)) => (Seq::empty(), Some(d.push(c))),
            _ => (Seq::empty(), line),
        },
    }
}

/// What a key does on the `:` line, kept in `drafts`.
pub fn command_line(drafts: &mut Drafts, key: Key) -> (events: Vec<Event<String>>)
    ensures
        (events_view(events@), text_view(final(drafts).command)) == command_line_spec(text_view(old(drafts).command), key),
        final(drafts).name == old(drafts).name,
        final(drafts).ai == old(drafts).ai,
        final(drafts).filter == old(drafts).filter,
        final(drafts).comment_kind == old(drafts).comment_kind,
{
    match key.code {
        KeyCode::Esc => {
            drafts.command = None;
            none_sent()
        },
        KeyCode::Backspace => {
            match &drafts.command {
                Some(draft) => {
                    drafts.command = Some(without_last(draft));
                },
                None => {},
            }
            none_sent()
        },
        KeyCode::Enter => {
            let line = match &drafts.command {
                Some(draft) => draft.clone(),
                None => String::new(),
            };
            drafts.command = None;
            command(line.as_str())
        },
        _ => {
            match (typed(key), &drafts.command) {
                (Some(c), Some(draft)) => {
                    drafts.command = Some(with_char(draft, c));
                },
                _ => {},
            }
            none_sent()
        },
    }
}

/// A key in the box that starts the AI pane on a command: Enter starts it on
/// the trimmed command, or on nothing at all for a blank one, and empties the
/// box either way.
pub open spec fn ai_box_spec(ai: Seq<char>, key: Key) -> (Seq<Event<Seq<char>>>, Seq<char>) {
    match key.code {
        KeyCode::Enter => (if trimmed(ai).len() == 0 {
            Seq::empty()
        } else {
            seq![Event::StartAi { command: Some(trimmed(ai)), force: false }]
        }, Seq::empty()),
        KeyCode::Backspace => (Seq::empty(), dropped(ai)),
        _ => match typed_spec(key) {
            Some(c) => (Seq::empty(), ai.push(c)),
            None => (Seq::empty(), ai),
        },
    }
}

/// What a key does in the AI command box, kept in `drafts`.
pub fn start_ai_box(drafts: &mut Drafts, key: Key) -> (events: Vec<Event<String>>)
    ensures
        (events_view(events@), final(drafts).ai@) == ai_box_spec(old(drafts).ai@, key),
        final(drafts).name == old(drafts).name,
        final(drafts).command == old(drafts).command,
        final(drafts).filter == old(drafts).filter,
        final(drafts).comment_kind == old(drafts).comment_kind,
{
    match key.code {
        KeyCode::Enter => {
            let typed_command = crate::text::chars_of(drafts.ai.as_str());
            drafts.ai = String::new();
            let trimmed_command = trim_from(&typed_command, 0);
            assert(typed_command@.skip(0) =~= typed_command@);
            if trimmed_command.len() == 0 {
                return none_sent();
            }
            sole(Event::StartAi { command: Some(crate::text::string_of(trimmed_command.as_slice())), force: false })
        },
        KeyCode::Backspace => {
            drafts.ai = without_last(&drafts.ai);
            none_sent()
        },
        _ => {
            if let Some(c) = typed(key) {
                drafts.ai = with_char(&drafts.ai, c);
            }
            none_sent()
        },
    }
}

/// Whether a key can reach the tree's filter box as it stands: an edit to
/// the filter needs the box open.
pub open spec fn filter_box_takes(filter: Option<Seq<char>>, key: Key) -> bool {
    ||| filter is Some
    ||| key.code == KeyCode::Esc
    ||| key.code == KeyCode::Enter
    ||| (key.code != KeyCode::Backspace && typed_spec(key) is None)
}

/// A key in the tree's filter box, over what it holds: Escape clears the
/// filter and closes the box, Enter keeps the filter and closes it, and an
/// edit sends the filter as it now reads.
pub open spec fn filter_box_spec(filter: Option<Seq<char>>, key: Key) -> (Seq<Event<Seq<char>>>, Option<Seq<char>>) {
    match key.code {
        KeyCode::Esc => (seq![Event::Filter(Seq::empty())], None),
        KeyCode::Enter => (seq![Event::AcceptFilter], None),
        KeyCode::Backspace => (seq![Event::Filter(dropped(filter->0))], Some(dropped(filter->0))),
        _ => match typed_spec(key) {
            Some(c) => (seq![Event::Filter(filter->0.push(c))], Some(filter->0.push(c))),
            None => (Seq::empty(), filter),
        },
    }
}

/// What a key does in the tree's filter box, kept in `drafts`.
pub fn filter_box(drafts: &mut Drafts, key: Key) -> (events: Vec<Event<String>>)
    requires
        filter_box_takes(text_view(old(drafts).filter), key),
    ensures
        (events_view(events@), text_view(final(drafts).filter)) == filter_box_spec(text_view(old(drafts).filter), key),
        final(drafts).name == old(drafts).name,
        final(drafts).command == old(drafts).command,
        final(drafts).ai == old(drafts).ai,
        final(drafts).comment_kind == old(drafts).comment_kind,
{
    match key.code {
        KeyCode::Esc => {
            drafts.filter = None;
            sole(Event::Filter(String::new()))
        },
        KeyCode::Enter => {
            drafts.filter = None;
            sole(Event::AcceptFilter)
        },
        KeyCode::Backspace => {
            let draft = match &drafts.filter {
                Some(draft) => without_last(draft),
                None => String::new(),
            };
            drafts.filter = Some(draft.clone());
            sole(Event::Filter(draft))
        },
        _ => match typed(key) {
            Some(c) => {
                let draft = match &drafts.filter {
                    Some(draft) => with_char(draft, c),
                    None => String::new(),
                };
                drafts.filter = Some(draft.clone());
                sole(Event::Filter(draft))
            },
            None => none_sent(),
        },
    }
}

/// Back and forward through the places left: Ctrl+Alt with an arrow, or
/// Ctrl with `p` and `n`; `None` for any other key.
pub open spec fn jump_alias_spec(key: Key) -> Option<Seq<Event<Seq<char>>>> {
    if key.alt && key.control && key.code == KeyCode::Left {
        Some(seq![Event::JumpBack])
    } else if key.alt && key.control && key.code == KeyCode::Right {
        Some(seq![Event::JumpForward])
    } else if !key.control {
        None
    } else if key.code == KeyCode::Char('p') {
        Some(seq![Event::JumpBack])
    } else if key.code == KeyCode::Char('n') {
        Some(seq![Event::JumpForward])
    } else {
        None
    }
}

pub fn jump_alias(key: Key) -> (events: Option<Vec<Event<String>>>)
    ensures
        sent(events) == jump_alias_spec(key),
{
    if key.alt && key.control && key.code == KeyCode::Left {
        Some(sole(Event::JumpBack))
    } else if key.alt && key.control && key.code == KeyCode::Right {
        Some(sole(Event::JumpForward))
    } else if !key.control {
        None
    } else if key.code == KeyCode::Char('p') {
        Some(sole(Event::JumpBack))
    } else if key.code == KeyCode::Char('n') {
        Some(sole(Event::JumpForward))
    } else {
        None
    }
}

/// Alt with `h`, `j`, `k` or `l` moves focus that way; Ctrl makes the key
/// something else entirely.
pub open spec fn focus_alias_spec(key: Key) -> Option<Seq<Event<Seq<char>>>> {
    if !(key.alt && !key.control) {
        None
    } else if key.code == KeyCode::Char('h') {
        Some(seq![Event::MoveFocus(Direction::Left)])
    } else if key.code == KeyCode::Char('l') {
        Some(seq![Event::MoveFocus(Direction::Right)])
    } else if key.code == KeyCode::Char('k') {
        Some(seq![Event::MoveFocus(Direction::Up)])
    } else if key.code == KeyCode::Char('j') {
        Some(seq![Event::MoveFocus(Direction::Down)])
    } else {
        None
    }
}

pub fn focus_alias(key: Key) -> (events: Option<Vec<Event<String>>>)
    ensures
        sent(events) == focus_alias_spec(key),
{
    if !(key.alt && !key.control) {
        None
    } else if key.code == KeyCode::Char('h') {
        Some(sole(Event::MoveFocus(Direction::Left)))
    } else if key.code == KeyCode::Char('l') {
        Some(sole(Event::MoveFocus(Direction::Right)))
    } else if key.code == KeyCode::Char('k') {
        Some(sole(Event::MoveFocus(Direction::Up)))
    } else if key.code == KeyCode::Char('j') {
        Some(sole(Event::MoveFocus(Direction::Down)))
    } else {
        None
    }
}

/// An arrow in a list: up and down move the selection, sideways moves
/// between a row's actions.
pub open spec fn list_arrow_spec(direction: Direction) -> Seq<Event<Seq<char>>> {
    match direction {
        Direction::Up | Direction::Down => seq![Event::MoveSelection(direction)],
        Direction::Left | Direction::Right => seq![Event::MoveAction(direction)],
    }
}

pub fn list_arrow(direction: Direction) -> (events: Vec<Event<String>>)
    ensures
        events_view(events@) == list_arrow_spec(direction),
{
    match direction {
        Direction::Up | Direction::Down => sole(Event::MoveSelection(direction)),
        Direction::Left | Direction::Right => sole(Event::MoveAction(direction)),
    }
}

/// A key the editor pane answers: copy and paste with Ctrl (or Command),
/// Escape, Home and End as `0` and `$`, Backspace, Enter as a newline, and
/// a typed character as itself.
pub open spec fn editor_pane_key_spec(key: Key) -> Seq<Event<Seq<char>>> {
    match key.code {
        KeyCode::Char('c') if key.control => seq![Event::Copy],
        KeyCode::Char('v') if key.control => seq![Event::PasteFromClipboard],
        KeyCode::Esc => seq![Event::EditorEscape],
        KeyCode::Home => seq![Event::EditorKey('0')],
        KeyCode::End => seq![Event::EditorKey('$')],
        KeyCode::Backspace => seq![Event::EditorBackspace],
        KeyCode::Enter => seq![Event::EditorKey('\n')],
        _ => match typed_spec(key) {
            Some(c) => seq![Event::EditorKey(c)],
            None => Seq::empty(),
        },
    }
}

pub fn editor_pane_key(key: Key) -> (events: Vec<Event<String>>)
    ensures
        events_view(events@) == editor_pane_key_spec(key),
{
    match key.code {
        KeyCode::Char('c') if key.control => sole(Event::Copy),
        KeyCode::Char('v') if key.control => sole(Event::PasteFromClipboard),
        KeyCode::Esc => sole(Event::EditorEscape),
        KeyCode::Home => sole(Event::EditorKey('0')),
        KeyCode::End => sole(Event::EditorKey('$')),
        KeyCode::Backspace => sole(Event::EditorBackspace),
        KeyCode::Enter => sole(Event::EditorKey('\n')),
        _ => match typed(key) {
            Some(c) => sole(Event::EditorKey(c)),
            None => none_sent(),
        },
    }
}

/// A key the tree answers: Escape, Enter, and a typed character as a
/// shortcut.
pub open spec fn tree_pane_key_spec(key: Key) -> Seq<Event<Seq<char>>> {
    match key.code {
        KeyCode::Esc => seq![Event::Cancel],
        KeyCode::Enter => seq![Event::Activate],
        _ => match typed_spec(key) {
            Some(c) => seq![Event::Key(c)],
            None => Seq::empty(),
        },
    }
}

pub fn tree_pane_key(key: Key) -> (events: Vec<Event<String>>)
    ensures
        events_view(events@) == tree_pane_key_spec(key),
{
    match key.code {
        KeyCode::Esc => sole(Event::Cancel),
        KeyCode::Enter => sole(Event::Activate),
        _ => match typed(key) {
            Some(c) => sole(Event::Key(c)),
            None => none_sent(),
        },
    }
}

/// A key a list pane answers: Enter, and a typed character as a shortcut.
pub open spec fn list_pane_key_spec(key: Key) -> Seq<Event<Seq<char>>> {
    match key.code {
        KeyCode::Enter => seq![Event::Activate],
        _ => match typed_spec(key) {
            Some(c) => seq![Event::Key(c)],
            None => Seq::empty(),
        },
    }
}

pub fn list_pane_key(key: Key) -> (events: Vec<Event<String>>)
    ensures
        events_view(events@) == list_pane_key_spec(key),
{
    match key.code {
        KeyCode::Enter => sole(Event::Activate),
        _ => match typed(key) {
            Some(c) => sole(Event::Key(c)),
            None => none_sent(),
        },
    }
}


/// What the keyboard routing reads of the editor around the key: where focus
/// is, the in-file find's query while it is open, whether the buffer is
/// inserting, whether the AI pane has a session, whether the tree has rows to
/// filter, whether a Hover over the panes has the keyboard, whether the
/// editor shows its own buffer (no diff, no walked Story) and is not
/// previewing it, whether a span of the buffer is selected, and how many
/// columns a Tab indents.
#[derive(Debug, Clone, PartialEq, Eq)]
pub struct Around {
    pub focus: crate::Pane,
    pub find_query: Option<String>,
    pub editor_inserting: bool,
    pub ai_running: bool,
    pub tree_filterable: bool,
    pub hover_focused: bool,
    pub source_in_editor: bool,
    pub previewing: bool,
    pub buffer_selected: bool,
    pub tab_width: usize,
}

/// Whether a `:` opens the command line here: the hosted panes keep theirs
/// for what runs there, and so does a buffer being typed into.
pub open spec fn claims_colon_spec(focus: crate::Pane, editor_inserting: bool) -> bool {
    match focus {
        crate::Pane::Editor => !editor_inserting,
        crate::Pane::Ai | crate::Pane::Terminal => false,
        _ => true,
    }
}

pub fn claims_colon(focus: crate::Pane, editor_inserting: bool) -> (r: bool)
    ensures
        r == claims_colon_spec(focus, editor_inserting),
{
    match focus {
        crate::Pane::Editor => !editor_inserting,
        crate::Pane::Ai | crate::Pane::Terminal => false,
        _ => true,
    }
}

/// An arrow in the pane with focus: the editor moves, or with Shift extends;
/// a list moves its selection and its actions, with Shift nothing; Alt makes
/// an arrow a word motion nothing here binds, and the hosted panes' arrows
/// went to their children. `None` for a key that is no arrow.
pub open spec fn arrow_event_spec(focus: crate::Pane, key: Key) -> Option<Seq<Event<Seq<char>>>> {
    match arrow_spec(key.code) {
        None => None,
        Some(direction) => Some(if key.alt {
            Seq::empty()
        } else {
            match focus {
                crate::Pane::Editor => if key.shift {
                    seq![Event::EditorExtend(direction)]
                } else {
                    seq![Event::EditorArrow(direction)]
                },
                crate::Pane::Ai | crate::Pane::Terminal => Seq::empty(),
                _ => if key.shift { Seq::empty() } else { list_arrow_spec(direction) },
            }
        }),
    }
}

pub fn arrow_event(focus: crate::Pane, key: Key) -> (events: Option<Vec<Event<String>>>)
    ensures
        sent(events) == arrow_event_spec(focus, key),
{
    match arrow(key.code) {
        None => None,
        Some(direction) => Some(if key.alt {
            none_sent()
        } else {
            match focus {
                crate::Pane::Editor => if key.shift {
                    sole(Event::EditorExtend(direction))
                } else {
                    sole(Event::EditorArrow(direction))
                },
                crate::Pane::Ai | crate::Pane::Terminal => none_sent(),
                _ => if key.shift { none_sent() } else { list_arrow(direction) },
            }
        }),
    }
}

/// A key the pane with focus answers once nothing ahead of it has: the
/// editor's, the tree's and the lists' own; nothing in a hosted pane, whose
/// keys went to its child.
pub open spec fn pane_key_spec(focus: crate::Pane, key: Key) -> Seq<Event<Seq<char>>> {
    match focus {
        crate::Pane::Editor => editor_pane_key_spec(key),
        crate::Pane::Tree => tree_pane_key_spec(key),
        crate::Pane::Ai | crate::Pane::Terminal => Seq::empty(),
        _ => list_pane_key_spec(key),
    }
}

pub fn pane_key(focus: crate::Pane, key: Key) -> (events: Vec<Event<String>>)
    ensures
        events_view(events@) == pane_key_spec(focus, key),
{
    match focus {
        crate::Pane::Editor => editor_pane_key(key),
        crate::Pane::Tree => tree_pane_key(key),
        crate::Pane::Ai | crate::Pane::Terminal => none_sent(),
        _ => list_pane_key(key),
    }
}

/// Whatever is collecting characters, and the keys that open one: the find,
/// the `:` line, the AI command box, the tree's filter. With the events a key
/// sends, or `None` where nothing is collecting it, and the `:` line, the AI
/// box and the filter as the key leaves them.
pub open spec fn collecting_spec(
    around: Around,
    command: Option<Seq<char>>,
    ai: Seq<char>,
    filter: Option<Seq<char>>,
    key: Key,
) -> (Option<Seq<Event<Seq<char>>>>, Option<Seq<char>>, Seq<char>, Option<Seq<char>>) {
    if around.find_query is Some {
        (Some(finding_spec(around.find_query->0@, key)), command, ai, filter)
    } else if command is Some {
        let r = command_line_spec(command, key);
        (Some(r.0), r.1, ai, filter)
    } else if typed_spec(key) == Some(':') && claims_colon_spec(around.focus, around.editor_inserting) {
        (Some(Seq::empty()), Some(Seq::empty()), ai, filter)
    } else if around.focus == crate::Pane::Ai && !around.ai_running {
        let r = ai_box_spec(ai, key);
        (Some(r.0), command, r.1, filter)
    } else if filter is Some {
        let r = filter_box_spec(filter, key);
        (Some(r.0), command, ai, r.1)
    } else if around.focus == crate::Pane::Tree && around.tree_filterable && typed_spec(key) == Some('/') {
        (Some(Seq::empty()), command, ai, Some(Seq::empty()))
    } else {
        (None, command, ai, filter)
    }
}

/// What a key does to whatever is collecting characters, kept in `drafts`.
pub fn collecting(around: &Around, drafts: &mut Drafts, key: Key) -> (events: Option<Vec<Event<String>>>)
    ensures
        (sent(events), text_view(final(drafts).command), final(drafts).ai@, text_view(final(drafts).filter))
            == collecting_spec(*around, text_view(old(drafts).command), old(drafts).ai@, text_view(old(drafts).filter), key),
        final(drafts).name == old(drafts).name,
        final(drafts).comment_kind == old(drafts).comment_kind,
{
    if let Some(query) = &around.find_query {
        return Some(finding(query, key));
    }
    if drafts.command.is_some() {
        return Some(command_line(drafts, key));
    }
    if typed(key) == Some(':') && claims_colon(around.focus, around.editor_inserting) {
        drafts.command = Some(String::new());
        return Some(none_sent());
    }
    if around.focus == crate::Pane::Ai && !around.ai_running {
        return Some(start_ai_box(drafts, key));
    }
    if drafts.filter.is_some() {
        return Some(filter_box(drafts, key));
    }
    if around.focus == crate::Pane::Tree && around.tree_filterable && typed(key) == Some('/') {
        drafts.filter = Some(String::new());
        return Some(none_sent());
    }
    None
}


/// Whether the buffer is what is being typed into: the editor's own buffer,
/// not previewed, in insert mode.
pub open spec fn typing_spec(around: Around) -> bool {
    around.focus == crate::Pane::Editor && around.source_in_editor && !around.previewing && around.editor_inserting
}

/// Alt with a sideways arrow moves by words in the editor, and with Shift
/// extends by them; Alt with `b` or `f`, what Option and an arrow send on
/// some terminals, moves by words too. Ctrl makes it another key.
pub open spec fn word_motion_alias_spec(around: Around, key: Key) -> Option<Seq<Event<Seq<char>>>> {
    if !(around.focus == crate::Pane::Editor && key.alt) {
        None
    } else if arrow_spec(key.code) is Some && key.control {
        None
    } else if key.code == KeyCode::Left || key.code == KeyCode::Right {
        let direction = arrow_spec(key.code)->0;
        Some(if key.shift { seq![Event::EditorExtendWord(direction)] } else { seq![Event::EditorWord(direction)] })
    } else if !key.control && key.code == KeyCode::Char('f') {
        Some(seq![Event::EditorWord(Direction::Right)])
    } else if !key.control && key.code == KeyCode::Char('b') {
        Some(seq![Event::EditorWord(Direction::Left)])
    } else {
        None
    }
}

pub fn word_motion_alias(around: &Around, key: Key) -> (events: Option<Vec<Event<String>>>)
    ensures
        sent(events) == word_motion_alias_spec(*around, key),
{
    if !(around.focus == crate::Pane::Editor && key.alt) {
        None
    } else if arrow(key.code).is_some() && key.control {
        None
    } else if key.code == KeyCode::Left || key.code == KeyCode::Right {
        let direction = if key.code == KeyCode::Left { Direction::Left } else { Direction::Right };
        Some(if key.shift { sole(Event::EditorExtendWord(direction)) } else { sole(Event::EditorWord(direction)) })
    } else if !key.control && key.code == KeyCode::Char('f') {
        Some(sole(Event::EditorWord(Direction::Right)))
    } else if !key.control && key.code == KeyCode::Char('b') {
        Some(sole(Event::EditorWord(Direction::Left)))
    } else {
        None
    }
}

/// Ctrl-D in the editor's own buffer: the next occurrence of what is picked
/// joins it.
pub open spec fn occurrence_alias_spec(around: Around, key: Key) -> Option<Seq<Event<Seq<char>>>> {
    if around.focus == crate::Pane::Editor && around.source_in_editor && key.control && key.code == KeyCode::Char('d') {
        Some(seq![Event::EditorNextOccurrence])
    } else {
        None
    }
}

pub fn occurrence_alias(around: &Around, key: Key) -> (events: Option<Vec<Event<String>>>)
    ensures
        sent(events) == occurrence_alias_spec(*around, key),
{
    if around.focus == crate::Pane::Editor && around.source_in_editor && key.control && key.code == KeyCode::Char('d') {
        Some(sole(Event::EditorNextOccurrence))
    } else {
        None
    }
}

/// Alt-Backspace while typing into the buffer takes the word behind the
/// caret.
pub open spec fn backspace_word_spec(around: Around, key: Key) -> Option<Seq<Event<Seq<char>>>> {
    if key.code == KeyCode::Backspace && key.alt && typing_spec(around) {
        Some(seq![Event::EditorDeleteWord])
    } else {
        None
    }
}

pub fn backspace_word(around: &Around, key: Key) -> (events: Option<Vec<Event<String>>>)
    ensures
        sent(events) == backspace_word_spec(*around, key),
{
    if key.code == KeyCode::Backspace && key.alt && around.focus == crate::Pane::Editor && around.source_in_editor
        && !around.previewing && around.editor_inserting {
        Some(sole(Event::EditorDeleteWord))
    } else {
        None
    }
}

/// Tab while typing into the buffer: over a selection it indents the lines,
/// or with Shift dedents them; otherwise it puts a Tab's worth of spaces in,
/// and a Tab of no width is nothing.
pub open spec fn tab_indent_spec(around: Around, key: Key) -> Option<Seq<Event<Seq<char>>>> {
    if !(key.code == KeyCode::Tab && typing_spec(around)) {
        None
    } else if around.buffer_selected {
        Some(seq![Event::EditorIndent(if key.shift { Direction::Left } else { Direction::Right })])
    } else if around.tab_width > 0 {
        Some(seq![Event::EditorPaste(Seq::new(around.tab_width as nat, |i: int| ' '))])
    } else {
        None
    }
}

fn spaces(n: usize) -> (s: String)
    ensures
        s@ == Seq::new(n as nat, |i: int| ' '),
{
    let mut v: Vec<char> = Vec::new();
    let mut i: usize = 0;
    while i < n
        invariant
            i <= n,
            v@ == Seq::new(i as nat, |k: int| ' '),
        decreases n - i,
    {
        v.push(' ');
        i = i + 1;
        assert(v@ =~= Seq::new(i as nat, |k: int| ' '));
    }
    crate::text::string_of(v.as_slice())
}

pub fn tab_indent(around: &Around, key: Key) -> (events: Option<Vec<Event<String>>>)
    ensures
        sent(events) == tab_indent_spec(*around, key),
{
    if !(key.code == KeyCode::Tab && around.focus == crate::Pane::Editor && around.source_in_editor && !around.previewing
        && around.editor_inserting) {
        None
    } else if around.buffer_selected {
        Some(sole(Event::EditorIndent(if key.shift { Direction::Left } else { Direction::Right })))
    } else if around.tab_width > 0 {
        Some(sole(Event::EditorPaste(spaces(around.tab_width))))
    } else {
        None
    }
}

/// The keys answered whatever pane has focus, once no modal claims them, in
/// the order they are asked: word motions, focus moves, whatever is
/// collecting characters, jumps, the next occurrence, arrows, Tab, Alt-
/// Backspace, and last the pane's own keys; with the `:` line, the AI box
/// and the filter as the key leaves them.
pub open spec fn routed_spec(
    around: Around,
    command: Option<Seq<char>>,
    ai: Seq<char>,
    filter: Option<Seq<char>>,
    key: Key,
) -> (Seq<Event<Seq<char>>>, Option<Seq<char>>, Seq<char>, Option<Seq<char>>) {
    let collected = collecting_spec(around, command, ai, filter, key);
    if word_motion_alias_spec(around, key) is Some {
        (word_motion_alias_spec(around, key)->0, command, ai, filter)
    } else if focus_alias_spec(key) is Some {
        (focus_alias_spec(key)->0, command, ai, filter)
    } else if collected.0 is Some {
        (collected.0->0, collected.1, collected.2, collected.3)
    } else if jump_alias_spec(key) is Some {
        (jump_alias_spec(key)->0, command, ai, filter)
    } else if occurrence_alias_spec(around, key) is Some {
        (occurrence_alias_spec(around, key)->0, command, ai, filter)
    } else if arrow_event_spec(around.focus, key) is Some {
        (arrow_event_spec(around.focus, key)->0, command, ai, filter)
    } else if tab_indent_spec(around, key) is Some {
        (tab_indent_spec(around, key)->0, command, ai, filter)
    } else if backspace_word_spec(around, key) is Some {
        (backspace_word_spec(around, key)->0, command, ai, filter)
    } else {
        (pane_key_spec(around.focus, key), command, ai, filter)
    }
}

/// What a key does once no modal claims it, with what is being collected
/// kept in `drafts`.
pub fn routed(around: &Around, drafts: &mut Drafts, key: Key) -> (events: Vec<Event<String>>)
    ensures
        (events_view(events@), text_view(final(drafts).command), final(drafts).ai@, text_view(final(drafts).filter))
            == routed_spec(*around, text_view(old(drafts).command), old(drafts).ai@, text_view(old(drafts).filter), key),
        final(drafts).name == old(drafts).name,
        final(drafts).comment_kind == old(drafts).comment_kind,
{
    if let Some(events) = word_motion_alias(around, key) {
        return events;
    }
    if let Some(events) = focus_alias(key) {
        return events;
    }
    if let Some(events) = collecting(around, drafts, key) {
        return events;
    }
    if let Some(events) = jump_alias(key) {
        return events;
    }
    if let Some(events) = occurrence_alias(around, key) {
        return events;
    }
    if let Some(events) = arrow_event(around.focus, key) {
        return events;
    }
    if let Some(events) = tab_indent(around, key) {
        return events;
    }
    if let Some(events) = backspace_word(around, key) {
        return events;
    }
    pane_key(around.focus, key)
}


/// The drafts as their characters: the name box's name, the `:` line, the
/// AI box, the tree's filter and the comment box's type.
pub open spec fn drafts_view(d: Drafts) -> (Seq<char>, Option<Seq<char>>, Seq<char>, Option<Seq<char>>, Seq<char>) {
    (d.name@, text_view(d.command), d.ai@, text_view(d.filter), d.comment_kind@)
}

/// What a key does with `modal` open over the editor `around` it: what the
/// modal claims, and where it passes the key on, what the routing beneath
/// makes of it; with the drafts as the key leaves them.
pub open spec fn modal_key_spec(
    modal: Modal,
    around: Around,
    drafts: (Seq<char>, Option<Seq<char>>, Seq<char>, Option<Seq<char>>, Seq<char>),
    key: Key,
) -> (Seq<Event<Seq<char>>>, (Seq<char>, Option<Seq<char>>, Seq<char>, Option<Seq<char>>, Seq<char>)) {
    let claimed = modal_claim_spec(modal, around.hover_focused, drafts.0, drafts.4, key);
    match claimed.0 {
        Some(events) => (events, (claimed.1, drafts.1, drafts.2, drafts.3, claimed.2)),
        None => {
            let beneath = routed_spec(around, drafts.1, drafts.2, drafts.3, key);
            (beneath.0, (drafts.0, beneath.1, beneath.2, beneath.3, drafts.4))
        },
    }
}

/// What a key does with `modal` open over the editor `around` it, the drafts
/// kept in `drafts`: a modal not claiming what belongs to it passes the key
/// on to the routing beneath.
pub fn modal_key(modal: &Modal, around: &Around, drafts: &mut Drafts, key: Key) -> (events: Vec<Event<String>>)
    ensures
        (events_view(events@), drafts_view(*final(drafts))) == modal_key_spec(*modal, *around, drafts_view(*old(drafts)), key),
{
    match modal_claim(modal, around.hover_focused, drafts, key) {
        Some(events) => events,
        None => routed(around, drafts, key),
    }
}


/// A modal is a question, and a question is answered rather than typed
/// through: every modal but the candidate list and the tab stops, which are
/// offered while typing, claims every key, and so does a Hover that has the
/// keyboard. And a modal that passes a key on leaves the drafts as they were.
pub proof fn law_only_what_is_offered_while_typing_passes_keys_on(
    modal: Modal,
    hover_focused: bool,
    name: Seq<char>,
    kind: Seq<char>,
    key: Key,
)
    ensures
        !(modal is Candidates) && !(modal is Stops) && (modal is Clear ==> hover_focused)
            ==> modal_claim_spec(modal, hover_focused, name, kind, key).0 is Some,
        modal_claim_spec(modal, hover_focused, name, kind, key).0 is None ==> modal_claim_spec(
            modal,
            hover_focused,
            name,
            kind,
            key,
        ).1 == name && modal_claim_spec(modal, hover_focused, name, kind, key).2 == kind,
{
}


/// `:toggle` and `:toggle!` differ in the one flag: a fold toggle comes only
/// from those two lines, and asks for every block exactly when the bang is
/// there; `:toggle` asks for the block under the caret, `:toggle!` for all.
pub proof fn law_only_the_bang_toggles_every_block(line: Seq<char>, all: bool)
    ensures
        command_spec(line).contains(Event::ToggleFold { all }) ==> (line == "toggle"@ && !all) || (line == "toggle!"@ && all),
        command_spec("toggle"@) == seq![Event::<Seq<char>>::ToggleFold { all: false }],
        command_spec("toggle!"@) == seq![Event::<Seq<char>>::ToggleFold { all: true }],
{
    reveal_strlit("toggle");
    reveal_strlit("toggle!");
    reveal_strlit("w");
    reveal_strlit("e");
    reveal_strlit("q");
    reveal_strlit("q!");
    reveal_strlit("wq");
    reveal_strlit("qa");
    reveal_strlit("qa!");
    reveal_strlit("speed ");
    reveal_strlit("submit");
    reveal_strlit("update");
    reveal_strlit("tall");
    reveal_strlit("split");
    reveal_strlit("preview");
    reveal_strlit("format");
    if command_spec(line).contains(Event::ToggleFold { all }) {
        let k = choose|k: int| 0 <= k < command_spec(line).len() && command_spec(line)[k] == Event::<Seq<char>>::ToggleFold { all };
        assert(command_spec(line)[k] == Event::<Seq<char>>::ToggleFold { all });
    }
    assert("toggle"@.take(6)[0] != "speed "@[0]);
    assert("toggle!"@.take(6)[0] != "speed "@[0]);
    assert(!begins("toggle"@, "speed "@));
    assert(!begins("toggle!"@, "speed "@));
}

} // verus!
