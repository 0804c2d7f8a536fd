//! The pure core of a terminal code editor: where the panes are, what a
//! buffer holds and how the keys edit it, which lines fold, and the small
//! decisions the debugger and the history pane make over plain text.

use vstd::prelude::*;

pub mod text;
pub mod layout;
pub mod words;
pub mod editor;
pub mod fold;
pub mod debug;
pub mod hunks;
pub mod format;
pub mod grammar;
pub mod highlight;
pub mod history;
pub mod filter;
pub mod authorship;
pub mod blame;
pub mod keys;
pub mod json;
pub mod session;

verus! {

/// A place in a text: a line and a column, both 1-based, the column counted
/// in characters.
#[derive(Debug, Clone, Copy, PartialEq, Eq, Structural)]
pub struct Place {
    pub line: usize,
    pub column: usize,
}

/// Which way an arrow points.
#[derive(Debug, Clone, Copy, PartialEq, Eq, Structural)]
pub enum Direction {
    Left,
    Right,
    Up,
    Down,
}

/// The panes a click can land in, and focus can rest on.
#[derive(Debug, Clone, Copy, PartialEq, Eq, Structural)]
pub enum Pane {
    Tree,
    Editor,
    Ai,
    Terminal,
    Risk,
    Buffers,
    History,
    Breakpoints,
}

/// The colour a chip's action is drawn in: what it does to the program.
#[derive(Debug, Clone, Copy, PartialEq, Eq, Structural)]
pub enum Hue {
    Plain,
    Go,
    Halt,
    Hold,
    Step,
}

/// How a chip is drawn: as it is, dimmed where it cannot act, lit while its
/// action is the one just taken, or marked where it has something unseen.
#[derive(Debug, Clone, Copy, PartialEq, Eq, Structural)]
pub enum Tone {
    Plain,
    Dimmed,
    Lit,
    Marked,
}

/// One action drawn on a pane's border: its glyph, and the keys that reach it.
#[derive(Debug, Clone)]
pub struct Chip {
    pub action: &'static str,
    pub name: &'static str,
    pub glyph: String,
    pub keys: &'static str,
    pub hue: Hue,
    pub tone: Tone,
}

/// `char::is_control`: the general category Cc, which is exactly the C0
/// controls and DEL through the C1 controls.
pub open spec fn control(c: char) -> bool {
    (c as u32) <= 0x1f || (0x7f <= (c as u32) && (c as u32) <= 0x9f)
}

/// Text with every control character taken out, so nothing in it can drive
/// the terminal it is drawn on.
pub open spec fn printable(text: Seq<char>) -> Seq<char>
    decreases text.len(),
{
    if text.len() == 0 {
        Seq::empty()
    } else {
        printable(text.drop_last()) + if control(text.last()) { Seq::empty() } else { seq![text.last()] }
    }
}

/// What the core asks of the edge in answer to an event.
#[derive(Debug, Clone, PartialEq, Eq)]
pub enum Effect {
    /// A notice in the status line, by its slug.
    Notify(&'static str),
    /// A notice naming something, the name stripped of control characters.
    NotifyAbout { slug: &'static str, about: String },
    /// Text typed into the terminal and left unrun.
    SetTerminalInput(String),
    /// One message to the Debug adapter, as the text the edge frames.
    DapSend { json: String },
    /// Run a Debug adapter: its command and arguments.
    StartDap { command: String, args: Vec<String> },
    /// Let the Debug adapter go.
    StopDap,
    /// The program being debugged, run in the Debug group's own terminal:
    /// its argv as it stands, where to run it, and its environment.
    RunProgram { argv: Vec<String>, cwd: Option<String>, env: Vec<(String, String)> },
}

impl Effect {
    /// A notice about `about`, with nothing left in it that could drive the
    /// terminal it is drawn on.
    pub fn notify_about(slug: &'static str, about: &str) -> (e: Effect)
        ensures
            e matches Effect::NotifyAbout { slug: s, about: a } && s == slug && a@ == printable(about@),
    {
        let chars = crate::text::chars_of(about);
        let mut kept: Vec<char> = Vec::new();
        let mut i: usize = 0;
        while i < chars.len()
            invariant
                i <= chars.len(),
                kept@ == printable(chars@.take(i as int)),
            decreases chars.len() - i,
        {
            let c = chars[i];
            assert(chars@.take(i + 1).drop_last() == chars@.take(i as int));
            assert(chars@.take(i + 1).last() == c);
            let code = c as u32;
            if !(code <= 0x1f || (0x7f <= code && code <= 0x9f)) {
                kept.push(c);
            }
            i = i + 1;
        }
        assert(chars@.take(chars.len() as int) == chars@);
        Effect::NotifyAbout { slug, about: crate::text::string_of(kept.as_slice()) }
    }
}

/// A chip holding exactly these: its action, name, glyph, keys, hue and tone.
pub open spec fn chip_is(chip: Chip, action: &str, name: &str, glyph: &str, keys: &str, hue: Hue, tone: Tone) -> bool {
    &&& chip.action@ == action@
    &&& chip.name@ == name@
    &&& chip.glyph@ == glyph@
    &&& chip.keys@ == keys@
    &&& chip.hue == hue
    &&& chip.tone == tone
}

/// The chip holding these.
pub(crate) fn chip(action: &'static str, name: &'static str, glyph: &str, keys: &'static str, hue: Hue, tone: Tone) -> (made: Chip)
    ensures
        chip_is(made, action, name, glyph, keys, hue, tone),
{
    Chip { action, name, glyph: crate::text::owned(glyph), keys, hue, tone }
}

} // verus!
