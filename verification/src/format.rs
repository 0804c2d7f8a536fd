//! Laying a file out with a command the project named: what the command made
//! of the text, put back as edits a buffer can apply.

use crate::hunks::{changed_hunks, zero_context_hunks};
use crate::text::{chars_of, extend, split_lines, split_text, string_of};
use crate::Place;
use vstd::prelude::*;

verus! {

/// What running a formatter came to, as only the edge can observe it.
#[derive(Debug, Clone, PartialEq, Eq)]
pub enum Answer {
    /// What it wrote on stdout, which is the whole file laid out.
    Done(String),
    /// The command is not on this process's `PATH`.
    Missing,
    /// It ran and refused, with what it said about why.
    Failed(String),
}

/// The new text's lines `from`..`to` (0-based, half-open, clamped to the
/// lines there are), each with its break — but the last line of the text,
/// which has none after it.
pub open spec fn lines_taken(lines: Seq<Seq<char>>, from: int, to: int) -> Seq<char>
    decreases to - from,
{
    if from >= to || from >= lines.len() || from < 0 {
        Seq::empty()
    } else {
        let line = if from + 1 == lines.len() { lines[from] } else { lines[from] + seq!['\n'] };
        line + lines_taken(lines, from + 1, to)
    }
}

/// Where an edit for a hunk starts in the old text: a hunk that replaces no
/// lines names the line it goes after.
pub open spec fn hunk_at(h: (u32, u32, u32, u32)) -> int {
    if h.1 == 0 { h.0 + 1 } else { h.0 as int }
}

/// The first line of the new text a hunk puts in, 0-based.
pub open spec fn hunk_from(h: (u32, u32, u32, u32)) -> int {
    h.2 - if h.3 > 0 { 1int } else { 0int }
}

/// One hunk as an edit: the old lines it covers, as the span from the start
/// of its first line to the start of the line after its last, and the new
/// lines that replace them.
pub open spec fn hunk_span(new: Seq<char>, h: (u32, u32, u32, u32)) -> (Place, Place, Seq<char>) {
    (
        Place { line: hunk_at(h) as usize, column: 1 },
        Place { line: (hunk_at(h) + h.1) as usize, column: 1 },
        lines_taken(split_lines(new), hunk_from(h), hunk_from(h) + h.3),
    )
}

/// Hunks an edit can be built from: each names lines counted from one and
/// places that fit the machine's numbers.
pub open spec fn spans_ok(hunks: Seq<(u32, u32, u32, u32)>) -> bool {
    forall|i: int| 0 <= i < hunks.len() ==> {
        &&& (#[trigger] hunks[i]).3 > 0 ==> hunks[i].2 >= 1
        &&& hunk_at(hunks[i]) + hunks[i].1 <= usize::MAX
        &&& hunk_from(hunks[i]) + hunks[i].3 <= usize::MAX
    }
}

pub open spec fn span_view(s: (Place, Place, String)) -> (Place, Place, Seq<char>) {
    (s.0, s.1, s.2@)
}

pub open spec fn spans_view(spans: Seq<(Place, Place, String)>) -> Seq<(Place, Place, Seq<char>)> {
    spans.map_values(|s: (Place, Place, String)| span_view(s))
}

/// The edits a diff's hunks make of the new text, hunk by hunk.
pub open spec fn hunk_spans(new: Seq<char>, hunks: Seq<(u32, u32, u32, u32)>) -> Seq<(Place, Place, Seq<char>)> {
    hunks.map_values(|h: (u32, u32, u32, u32)| hunk_span(new, h))
}

/// The new lines `from`..`to`, each with its break but the text's last.
fn taken(lines: &Vec<Vec<char>>, from: usize, to: usize) -> (r: Vec<char>)
    ensures
        r@ == lines_taken(lines.deep_view(), from as int, to as int),
{
    let ghost view = lines.deep_view();
    let end = if to <= lines.len() { to } else { lines.len() };
    let mut r: Vec<char> = Vec::new();
    if from >= end {
        return r;
    }
    let mut k = end;
    assert(lines_taken(view, end as int, to as int) == Seq::<char>::empty());
    while k > from
        invariant
            from <= k <= end <= lines.len(),
            end == (if to <= lines.len() { to } else { lines.len() }),
            view == lines.deep_view(),
            r@ == lines_taken(view, k as int, to as int),
        decreases k,
    {
        k = k - 1;
        let mut piece: Vec<char> = crate::text::slice_of(&lines[k], 0, lines[k].len());
        assert(piece@ == view[k as int]);
        if k + 1 != lines.len() {
            piece.push('\n');
        }
        extend(&mut piece, &r);
        r = piece;
    }
    r
}

/// The edits that turn `new`'s predecessor into `new`, given the hunks
/// between them: one per hunk, in the order the hunks come.
pub fn spans_over(new: &str, hunks: &[(u32, u32, u32, u32)]) -> (spans: Vec<(Place, Place, String)>)
    requires
        spans_ok(hunks@),
    ensures
        spans_view(spans@) == hunk_spans(new@, hunks@),
{
    let text = chars_of(new);
    let lines = split_text(&text);
    let mut spans: Vec<(Place, Place, String)> = Vec::new();
    let mut i: usize = 0;
    while i < hunks.len()
        invariant
            i <= hunks.len(),
            spans_ok(hunks@),
            lines.deep_view() == split_lines(new@),
            spans_view(spans@) == hunk_spans(new@, hunks@.take(i as int)),
        decreases hunks.len() - i,
    {
        let (old_start, old_lines, new_start, new_lines) = hunks[i];
        assert(hunks@[i as int] == (old_start, old_lines, new_start, new_lines));
        let at: usize = if old_lines == 0 { old_start as usize + 1 } else { old_start as usize };
        let from: usize = new_start as usize - if new_lines > 0 { 1 } else { 0 };
        let put = taken(&lines, from, from + new_lines as usize);
        let ghost before = spans_view(spans@);
        let piece = string_of(put.as_slice());
        spans.push((Place { line: at, column: 1 }, Place { line: at + old_lines as usize, column: 1 }, piece));
        assert(spans_view(spans@) =~= before.push(hunk_span(new@, hunks@[i as int])));
        assert(hunk_spans(new@, hunks@.take(i + 1))
            =~= hunk_spans(new@, hunks@.take(i as int)).push(hunk_span(new@, hunks@[i as int])));
        i = i + 1;
    }
    assert(hunks@.take(hunks.len() as int) == hunks@);
    spans
}

/// The command's answer as the edits that reach the buffer, hunk by hunk
/// rather than as one span over the whole file, so the cursor rides each
/// edit. Zero context, so a span is exactly the change; nothing where the
/// texts could not be diffed or the diff named places an edit cannot.
pub fn spans(old: &str, new: &str) -> (spans: Vec<(Place, Place, String)>)
    ensures
        match zero_context_hunks(old@, new@) {
            Some(h) => if spans_ok(h) {
                spans_view(spans@) == hunk_spans(new@, h)
            } else {
                spans@.len() == 0
            },
            None => spans@.len() == 0,
        },
{
    let hunks = match changed_hunks(old, new) {
        Some(h) => h,
        None => return Vec::new(),
    };
    if !usable(&hunks) {
        return Vec::new();
    }
    spans_over(new, hunks.as_slice())
}

fn usable(hunks: &Vec<(u32, u32, u32, u32)>) -> (r: bool)
    ensures
        r == spans_ok(hunks@),
{
    let mut i: usize = 0;
    while i < hunks.len()
        invariant
            i <= hunks.len(),
            forall|j: int| 0 <= j < i ==> {
                &&& (#[trigger] hunks@[j]).3 > 0 ==> hunks@[j].2 >= 1
                &&& hunk_at(hunks@[j]) + hunks@[j].1 <= usize::MAX
                &&& hunk_from(hunks@[j]) + hunks@[j].3 <= usize::MAX
            },
        decreases hunks.len() - i,
    {
        let (a, b, c, d) = hunks[i];
        let at: u128 = if b == 0 { a as u128 + 1 } else { a as u128 };
        let from: i128 = c as i128 - if d > 0 { 1 } else { 0 };
        if (d > 0 && c < 1) || at + b as u128 > usize::MAX as u128 || from + d as i128 > usize::MAX as i128 {
            return false;
        }
        i = i + 1;
    }
    true
}


/// The first line of a text, as `str::lines` cuts it: up to the first
/// break, a carriage return before it dropped.
pub open spec fn first_line(text: Seq<char>) -> Seq<char> {
    let line = split_lines(text)[0];
    if line.len() > 0 && line.last() == '\r' {
        line.drop_last()
    } else {
        line
    }
}

fn first_line_of(text: &str) -> (line: Vec<char>)
    ensures
        line@ == first_line(text@),
{
    let chars = chars_of(text);
    let lines = split_text(&chars);
    proof {
        crate::text::lemma_split_len(text@);
    }
    assert(lines.deep_view()[0] == lines@[0]@);
    let mut line = crate::text::slice_of(&lines[0], 0, lines[0].len());
    assert(line@ == lines@[0]@);
    if line.len() > 0 && line[line.len() - 1] == '\r' {
        line.pop();
    }
    line
}

/// Whether a buffer can take these edits: its caret and every place the
/// edits name count from one, and the text they make fits the machine.
fn fits(buffer: &crate::editor::Buffer, edits: &Vec<(Place, Place, String)>) -> (r: bool)
    ensures
        r == buffer@.reformat_ok(edits@),
{
    if buffer.line < 1 || buffer.column < 1 {
        return false;
    }
    let ghost rows = buffer@.rows();
    let mut total: usize = chars_of(buffer.shown()).len();
    let mut i: usize = 0;
    while i < edits.len()
        invariant
            i <= edits.len(),
            rows == buffer@.rows(),
            total == buffer@.text().len() + crate::editor::added(crate::editor::edit_spans(rows, edits@.take(i as int))),
            forall|j: int| 0 <= j < i ==> (#[trigger] edits@[j]).0.line >= 1 && edits@[j].0.column >= 1
                && edits@[j].1.line >= 1 && edits@[j].1.column >= 1,
        decreases edits.len() - i,
    {
        let (from, to, text) = &edits[i];
        if from.line < 1 || from.column < 1 || to.line < 1 || to.column < 1 {
            return false;
        }
        let n = chars_of(text.as_str()).len();
        assert(crate::editor::edit_spans(rows, edits@.take(i + 1)).drop_last() == crate::editor::edit_spans(rows, edits@.take(i as int)));
        assert(crate::editor::edit_spans(rows, edits@.take(i + 1)).last().2 == text@);
        if total > usize::MAX - n {
            proof {
                lemma_added_grows(rows, edits@, i as int + 1);
            }
            return false;
        }
        total = total + n;
        i = i + 1;
    }
    assert(edits@.take(edits.len() as int) == edits@);
    total < usize::MAX
}

proof fn lemma_added_grows(rows: Seq<Seq<char>>, edits: Seq<(Place, Place, String)>, k: int)
    requires
        0 <= k <= edits.len(),
    ensures
        crate::editor::added(crate::editor::edit_spans(rows, edits.take(k)))
            <= crate::editor::added(crate::editor::edit_spans(rows, edits)),
    decreases edits.len() - k,
{
    if k < edits.len() {
        lemma_added_grows(rows, edits, k + 1);
        assert(crate::editor::edit_spans(rows, edits.take(k + 1)).drop_last() == crate::editor::edit_spans(rows, edits.take(k)));
    } else {
        assert(edits.take(k) == edits);
    }
}

/// What the command made of a file, put back into the buffer it came out of
/// (`buffer`, where it is still open). `command` is the formatter the file's
/// language names, if one does, and `install` the command that installs it on
/// this machine, if its row has one. A buffer typed in since the command ran
/// (its revision is not `revision`) takes nothing; nothing written by a
/// command over a buffer with text in it is a failure; an answer that changes
/// nothing says so; and anything else is the edits that make the buffer the
/// command's text.
pub fn answered(
    buffer: &mut Option<crate::editor::Buffer>,
    command: Option<&str>,
    install: Option<&str>,
    revision: u64,
    answer: Answer,
) -> (effects: Vec<crate::Effect>)
    ensures
        match answer {
            Answer::Missing => {
                let named = match command {
                    Some(c) => c@,
                    None => Seq::<char>::empty(),
                };
                &&& effects@.len() == if install is Some { 2int } else { 1int }
                &&& install matches Some(i) ==> (effects@[0] matches crate::Effect::SetTerminalInput(t) && t@ == i@)
                &&& effects@.last() matches crate::Effect::NotifyAbout { slug, about }
                &&& effects@.last()->slug@ == "formatter-missing"@
                &&& effects@.last()->about@ == crate::printable(named)
            },
            Answer::Failed(why) => {
                &&& effects@.len() == 1
                &&& effects@[0] matches crate::Effect::NotifyAbout { slug, about }
                &&& effects@[0]->slug@ == "formatter-failed"@
                &&& effects@[0]->about@ == crate::printable(crate::debug::trim(first_line(why@)))
            },
            Answer::Done(text) => match *old(buffer) {
                None => effects@.len() == 0 && *final(buffer) == *old(buffer),
                Some(b) => *final(buffer) matches Some(after) && if b@.revision != revision {
                    effects@.len() == 0 && after@ == b@
                } else if text@.len() == 0 && crate::debug::trim(b@.text()).len() > 0 {
                    &&& after@ == b@
                    &&& effects@.len() == 1
                    &&& effects@[0] matches crate::Effect::NotifyAbout { slug, about }
                    &&& effects@[0]->slug@ == "formatter-failed"@
                    &&& effects@[0]->about@ == crate::printable(match command {
                        Some(c) => c@,
                        None => Seq::<char>::empty(),
                    })
                } else {
                    match zero_context_hunks(b@.text(), text@) {
                        Some(h) => if spans_ok(h) && h.len() > 0 {
                            let edits = hunk_spans(text@, h);
                            effects@.len() == 0 && exists|applied: Seq<(Place, Place, String)>|
                                spans_view(applied) == edits && if b@.reformat_ok(applied) {
                                    after@ == b@.reformatted(applied)
                                } else {
                                    after@ == b@
                                }
                        } else {
                            after@ == b@ && effects@.len() == 1 && effects@[0] == crate::Effect::Notify("nothing-to-format")
                        },
                        None => after@ == b@ && effects@.len() == 1 && effects@[0] == crate::Effect::Notify("nothing-to-format"),
                    }
                },
            },
        },
{
    match answer {
        Answer::Missing => {
            let mut effects: Vec<crate::Effect> = Vec::new();
            match install {
                Some(i) => effects.push(crate::Effect::SetTerminalInput(crate::text::owned(i))),
                None => {},
            }
            let named = match command {
                Some(c) => c,
                None => "",
            };
            proof {
                reveal_strlit("");
            }
            effects.push(crate::Effect::notify_about("formatter-missing", named));
            effects
        },
        Answer::Failed(why) => {
            let line = first_line_of(why.as_str());
            let said = string_of(crate::debug::trimmed(&line).as_slice());
            let mut effects: Vec<crate::Effect> = Vec::new();
            effects.push(crate::Effect::notify_about("formatter-failed", said.as_str()));
            effects
        },
        Answer::Done(text) => match buffer {
            None => Vec::new(),
            Some(buffer) => {
            if buffer.revision() != revision {
                return Vec::new();
            }
            let shown = chars_of(buffer.shown());
            if text.as_str().is_empty() && crate::debug::trimmed(&shown).len() > 0 {
                let named = match command {
                    Some(c) => c,
                    None => "",
                };
                proof {
                    reveal_strlit("");
                }
                let mut effects: Vec<crate::Effect> = Vec::new();
                effects.push(crate::Effect::notify_about("formatter-failed", named));
                return effects;
            }
            let edits = spans(buffer.shown(), text.as_str());
            assert(spans_view(edits@).len() == edits@.len());
            if edits.len() == 0 {
                let mut effects: Vec<crate::Effect> = Vec::new();
                effects.push(crate::Effect::Notify("nothing-to-format"));
                return effects;
            }
            if fits(buffer, &edits) {
                buffer.reformat(edits.as_slice());
            }
            Vec::new()
            },
        },
    }
}


/// Each edit a formatter's answer becomes covers exactly the old lines its
/// hunk replaces: it starts at the head of the hunk's first old line (after
/// the line a hunk that replaces nothing names), and ends at the head of the
/// line after its last, so its end line less its start line is the hunk's old
/// line count; the two edits' order is the hunks' order.
pub proof fn law_an_edit_covers_exactly_the_old_lines_of_its_hunk(new: Seq<char>, hunks: Seq<(u32, u32, u32, u32)>)
    requires
        spans_ok(hunks),
    ensures
        hunk_spans(new, hunks).len() == hunks.len(),
        forall|i: int| 0 <= i < hunks.len() ==> {
            let s = #[trigger] hunk_spans(new, hunks)[i];
            &&& s.0.column == 1 && s.1.column == 1
            &&& s.0.line == (if hunks[i].1 == 0 { hunks[i].0 + 1 } else { hunks[i].0 as int })
            &&& s.1.line - s.0.line == hunks[i].1
            &&& (hunks[i].3 == 0 ==> s.2.len() == 0)
        },
{
    assert forall|i: int| 0 <= i < hunks.len() implies {
        let s = #[trigger] hunk_spans(new, hunks)[i];
        &&& s.0.column == 1 && s.1.column == 1
        &&& s.0.line == (if hunks[i].1 == 0 { hunks[i].0 + 1 } else { hunks[i].0 as int })
        &&& s.1.line - s.0.line == hunks[i].1
        &&& (hunks[i].3 == 0 ==> s.2.len() == 0)
    } by {
        let h = hunks[i];
        assert(hunk_at(h) + h.1 <= usize::MAX);
        assert(hunk_at(h) >= 0);
    }
}

} // verus!
