//! Cursor history: where the cursor has been, and how a row names it.

use crate::text::{chars_of, extend, is_whitespace, string_of, whitespace};
use crate::Place;
use vstd::prelude::*;

verus! {

broadcast use vstd::string::group_string_axioms;

/// One place the cursor has been: where it was, and what the line held at the
/// time, so a row still says something about a file since edited or closed.
#[derive(Debug, Clone, PartialEq, Eq)]
pub struct Visit {
    /// Relative to the workspace root.
    pub file: String,
    pub line: usize,
    pub column: usize,
    /// The whole line, trimmed at its end.
    pub text: String,
}

/// What kind of jump an event is: into a file (and where, if the event says),
/// within the file on screen, one that carries the place it started from, or
/// none at all.
#[derive(Debug, Clone, PartialEq, Eq)]
pub enum Jump {
    ToFile { file: String, at: Option<Place> },
    InFile,
    From(Visit),
    No,
}

/// The most places worth keeping.
pub const CAP: usize = 100;

/// How many words of the line a row shows before the ellipsis.
pub const WORDS: usize = 3;

/// The one action a row offers.
pub const GO_TO: &'static str = "go-to-place";

/// Whether a landing in the file already on screen leaves the cursor where it
/// found it; a landing with no place of its own is a file merely opened,
/// which in its own file is nowhere at all.
pub fn went_nowhere(left: &Visit, at: Option<Place>) -> (r: bool)
    ensures
        r == (match at {
            Some(p) => p.line == left.line && p.column == left.column,
            None => true,
        }),
{
    match at {
        Some(p) => p.line == left.line && p.column == left.column,
        None => true,
    }
}

/// The first index at or after `i` that is whitespace, or the text's end.
pub open spec fn word_end(t: Seq<char>, i: int) -> int
    decreases t.len() - i,
{
    if 0 <= i < t.len() && !whitespace(t[i]) { word_end(t, i + 1) } else { i }
}

/// The words of a text from index `i`, each with the 1-based column it
/// starts at: the runs of characters between whitespace.
pub open spec fn words_from(t: Seq<char>, i: int) -> Seq<(int, Seq<char>)>
    decreases t.len() - i,
{
    if i < 0 || i >= t.len() {
        Seq::empty()
    } else if whitespace(t[i]) {
        words_from(t, i + 1)
    } else {
        let e = word_end(t, i);
        if e <= i {
            Seq::empty()
        } else {
            proof {
                lemma_word_end(t, i);
            }
            seq![(i + 1, t.subrange(i, e))] + words_from(t, e)
        }
    }
}

/// The last word starting at or before `column`, or the first when none does.
pub open spec fn word_under(found: Seq<(int, Seq<char>)>, column: int) -> int
    decreases found.len(),
{
    if found.len() == 0 {
        0
    } else if found.last().0 <= column {
        found.len() - 1
    } else {
        word_under(found.drop_last(), column)
    }
}

/// Words joined by single spaces.
pub open spec fn spaced(words: Seq<Seq<char>>) -> Seq<char>
    decreases words.len(),
{
    if words.len() == 0 {
        Seq::empty()
    } else if words.len() == 1 {
        words[0]
    } else {
        spaced(words.drop_last()) + seq![' '] + words.last()
    }
}

/// The word the cursor was on and the `words - 1` after it, then an ellipsis
/// if the line goes on. Leading indentation is no word, and a cursor past the
/// last word falls back to the last one.
pub open spec fn excerpt_spec(text: Seq<char>, column: int, words: int) -> Seq<char> {
    let found = words_from(text, 0);
    let from = word_under(found, column);
    let wanted = if words >= 1 { words } else { 1 };
    let n = if found.len() - from <= wanted { found.len() - from } else { wanted };
    let taken = found.subrange(from, from + n).map_values(|w: (int, Seq<char>)| w.1);
    spaced(taken) + if from + n < found.len() { seq!['.', '.', '.'] } else { Seq::empty() }
}

pub proof fn lemma_word_end(t: Seq<char>, i: int)
    requires
        0 <= i <= t.len(),
    ensures
        i <= word_end(t, i) <= t.len(),
    decreases t.len() - i,
{
    if i < t.len() && !whitespace(t[i]) {
        lemma_word_end(t, i + 1);
    }
}

proof fn lemma_word_under(found: Seq<(int, Seq<char>)>, column: int)
    ensures
        found.len() == 0 ==> word_under(found, column) == 0,
        found.len() > 0 ==> 0 <= word_under(found, column) < found.len(),
    decreases found.len(),
{
    if found.len() > 0 && found.last().0 > column {
        lemma_word_under(found.drop_last(), column);
    }
}

fn words_of(t: &Vec<char>) -> (found: Vec<(usize, Vec<char>)>)
    ensures
        found@.map_values(|w: (usize, Vec<char>)| (w.0 as int, w.1@)) == words_from(t@, 0),
{
    let mut found: Vec<(usize, Vec<char>)> = Vec::new();
    let mut i: usize = 0;
    while i < t.len()
        invariant
            i <= t.len(),
            found@.map_values(|w: (usize, Vec<char>)| (w.0 as int, w.1@)) + words_from(t@, i as int) == words_from(t@, 0),
        decreases t.len() - i,
    {
        if is_whitespace(t[i]) {
            i = i + 1;
        } else {
            let mut e = i;
            while e < t.len() && !is_whitespace(t[e])
                invariant
                    i <= e <= t.len(),
                    word_end(t@, i as int) == word_end(t@, e as int),
                decreases t.len() - e,
            {
                e = e + 1;
            }
            proof {
                lemma_word_end(t@, i as int);
            }
            let word = crate::text::slice_of(t, i, e);
            let ghost before = found@.map_values(|w: (usize, Vec<char>)| (w.0 as int, w.1@));
            let ghost item = (i + 1, word@);
            found.push((i + 1, word));
            assert(found@.map_values(|w: (usize, Vec<char>)| (w.0 as int, w.1@)) =~= before.push(item));
            assert(words_from(t@, i as int) == seq![item] + words_from(t@, e as int));
            assert(before.push(item) + words_from(t@, e as int) =~= before + (seq![item] + words_from(t@, e as int)));
            i = e;
        }
    }
    assert(found@.map_values(|w: (usize, Vec<char>)| (w.0 as int, w.1@)) + Seq::<(int, Seq<char>)>::empty()
        =~= found@.map_values(|w: (usize, Vec<char>)| (w.0 as int, w.1@)));
    found
}

/// The word the cursor was on and the `words - 1` after it, then an ellipsis
/// if the line goes on. How much of a line names it is the whole question a
/// history row answers.
pub fn excerpt(text: &str, column: usize, words: usize) -> (r: String)
    ensures
        r@ == excerpt_spec(text@, column as int, words as int),
{
    let t = chars_of(text);
    let found = words_of(&t);
    let ghost fv = found@.map_values(|w: (usize, Vec<char>)| (w.0 as int, w.1@));
    let mut from: usize = found.len();
    let mut back: usize = found.len();
    assert(fv.take(found.len() as int) == fv);
    // The last word that starts at or before the column.
    while back > 0 && found[back - 1].0 > column
        invariant
            back <= found.len(),
            fv == found@.map_values(|w: (usize, Vec<char>)| (w.0 as int, w.1@)),
            word_under(fv, column as int) == word_under(fv.take(back as int), column as int),
        decreases back,
    {
        assert(fv.take(back as int).drop_last() == fv.take(back - 1));
        assert(fv.take(back as int).last() == fv[back - 1]);
        back = back - 1;
    }
    proof {
        assert(fv.take(found.len() as int) == fv);
        if back > 0 {
            assert(fv.take(back as int).last() == fv[back - 1]);
        }
        lemma_word_under(fv, column as int);
    }
    from = if back > 0 { back - 1 } else { 0 };
    assert(from == word_under(fv, column as int));
    let wanted = if words >= 1 { words } else { 1 };
    let n = if found.len() - from <= wanted { found.len() - from } else { wanted };
    let ghost taken = fv.subrange(from as int, from + n).map_values(|w: (int, Seq<char>)| w.1);
    let mut out: Vec<char> = Vec::new();
    let mut k: usize = 0;
    while k < n
        invariant
            k <= n,
            from + n <= found.len(),
            fv == found@.map_values(|w: (usize, Vec<char>)| (w.0 as int, w.1@)),
            taken == fv.subrange(from as int, from + n).map_values(|w: (int, Seq<char>)| w.1),
            out@ == spaced(taken.take(k as int)),
        decreases n - k,
    {
        assert(taken.take(k + 1).drop_last() == taken.take(k as int));
        assert(taken[k as int] == found@[from + k].1@);
        if k > 0 {
            out.push(' ');
        } else {
            assert(taken.take(k + 1) == seq![taken[0]]);
        }
        extend(&mut out, &found[from + k].1);
        k = k + 1;
    }
    assert(taken.take(n as int) == taken);
    if from + n < found.len() {
        out.push('.');
        out.push('.');
        out.push('.');
    }
    string_of(out.as_slice())
}

proof fn lemma_words_nonempty(t: Seq<char>, i: int)
    ensures
        forall|k: int| 0 <= k < words_from(t, i).len() ==> (#[trigger] words_from(t, i)[k]).1.len() > 0,
    decreases t.len() - i,
{
    if 0 <= i < t.len() {
        if whitespace(t[i]) {
            lemma_words_nonempty(t, i + 1);
        } else {
            let e = word_end(t, i);
            lemma_word_end(t, i);
            if e > i {
                lemma_words_nonempty(t, e);
                let w = seq![(i + 1, t.subrange(i, e))] + words_from(t, e);
                assert forall|k: int| 0 <= k < w.len() implies (#[trigger] w[k]).1.len() > 0 by {
                    if k > 0 {
                        assert(w[k] == words_from(t, e)[k - 1]);
                    }
                }
            }
        }
    }
}

proof fn lemma_spaced_len(words: Seq<Seq<char>>)
    requires
        words.len() > 0,
    ensures
        spaced(words).len() >= words.last().len(),
    decreases words.len(),
{
}

/// A row always names its line when the line has a word: the excerpt of a
/// line holding any word is never empty, wherever the cursor was and however
/// few words were asked for.
pub proof fn law_a_line_with_a_word_is_never_named_by_nothing(text: Seq<char>, column: int, words: int)
    requires
        words_from(text, 0).len() > 0,
    ensures
        excerpt_spec(text, column, words).len() > 0,
{
    let found = words_from(text, 0);
    lemma_word_under(found, column);
    lemma_words_nonempty(text, 0);
    let from = word_under(found, column);
    let wanted = if words >= 1 { words } else { 1 };
    let n = if found.len() - from <= wanted { found.len() - from } else { wanted };
    let taken = found.subrange(from, from + n).map_values(|w: (int, Seq<char>)| w.1);
    assert(taken.len() > 0);
    assert(taken.last() == found[from + n - 1].1);
    lemma_spaced_len(taken);
}


/// A Visit as the contracts read it: file, line, column, and the text held.
pub type VisitView = (Seq<char>, usize, usize, Seq<char>);

impl View for Visit {
    type V = VisitView;

    open spec fn view(&self) -> VisitView {
        (self.file@, self.line, self.column, self.text@)
    }
}

pub open spec fn visits_view(visits: Seq<Visit>) -> Seq<VisitView> {
    visits.map_values(|v: Visit| v@)
}

/// Two Visits name the same place: the same file, line and column, whatever
/// each line held when it was recorded.
pub open spec fn same_place(a: VisitView, b: VisitView) -> bool {
    a.0 == b.0 && a.1 == b.1 && a.2 == b.2
}

/// Every Visit but those at `left`'s place, in order.
pub open spec fn apart(visits: Seq<VisitView>, left: VisitView) -> Seq<VisitView>
    decreases visits.len(),
{
    if visits.len() == 0 {
        Seq::empty()
    } else {
        let kept = apart(visits.drop_last(), left);
        if same_place(visits.last(), left) {
            kept
        } else {
            kept.push(visits.last())
        }
    }
}

/// The list with a place appended, and the oldest dropped once it holds more
/// than [`CAP`].
pub open spec fn pushed(visits: Seq<VisitView>, place: VisitView) -> Seq<VisitView> {
    if visits.len() + 1 > CAP {
        visits.push(place).drop_first()
    } else {
        visits.push(place)
    }
}

/// A place remembered: nothing changes where it is the newest already;
/// otherwise an older row at the same place goes and this one lands at the
/// end.
pub open spec fn remembered(visits: Seq<VisitView>, left: VisitView) -> Seq<VisitView> {
    if visits.len() > 0 && visits.last() == left {
        visits
    } else {
        pushed(apart(visits, left), left)
    }
}

/// Whether an arrival in `arriving` is one step of the history's own walk:
/// the history's cursor names that file, and the place being left is the
/// Visit just before or just after it.
pub open spec fn walking_spec(visits: Seq<VisitView>, selection: usize, arriving: Seq<char>, left: VisitView) -> bool {
    &&& 0 <= selection < visits.len()
    &&& visits[selection as int].0 == arriving
    &&& (selection >= 1 && visits[selection - 1] == left) || (selection + 1 < visits.len() && visits[selection + 1] == left)
}

pub open spec fn went_nowhere_spec(left: VisitView, at: Option<Place>) -> bool {
    match at {
        Some(p) => p.line == left.1 && p.column == left.2,
        None => true,
    }
}

/// Whether the place left by a jump is a place the reader has been: a jump
/// within the file, or one carrying its origin, that moved the cursor; a
/// landing in the same file that went somewhere; a landing in another file
/// that is not a step of the history's own walk.
pub open spec fn been_spec(
    jump: Jump,
    left: VisitView,
    after: Option<VisitView>,
    before: Seq<VisitView>,
    before_selection: usize,
) -> bool {
    match jump {
        Jump::No => false,
        Jump::InFile => after != Some(left),
        Jump::From(_) => after != Some(left),
        Jump::ToFile { file, at } => if file@ == left.0 {
            !went_nowhere_spec(left, at)
        } else {
            !walking_spec(before, before_selection, file@, left)
        },
    }
}

fn copy_visit(visit: &Visit) -> (copy: Visit)
    ensures
        copy@ == visit@,
{
    Visit { file: visit.file.clone(), line: visit.line, column: visit.column, text: visit.text.clone() }
}

fn same_visit(a: &Visit, b: &Visit) -> (r: bool)
    ensures
        r == (a@ == b@),
{
    crate::text::same_text(a.file.as_str(), b.file.as_str()) && a.line == b.line && a.column == b.column
        && crate::text::same_text(a.text.as_str(), b.text.as_str())
}

/// The list, oldest first.
pub fn list(visits: &[Visit]) -> (shown: &[Visit])
    ensures
        shown@ == visits@,
{
    visits
}

/// The Visit the history's cursor stands on; none past the newest.
pub fn selected(visits: &[Visit], selection: usize) -> (at: Option<&Visit>)
    ensures
        match at {
            Some(v) => selection < visits.len() && *v == visits@[selection as int],
            None => selection >= visits.len(),
        },
{
    if selection < visits.len() {
        Some(&visits[selection])
    } else {
        None
    }
}

/// What the row the keyboard is on offers: going to it.
pub fn row_actions(visits: &[Visit], selection: usize) -> (actions: Vec<&'static str>)
    ensures
        selection < visits.len() ==> actions@ == seq![GO_TO],
        selection >= visits.len() ==> actions@.len() == 0,
{
    if selection < visits.len() {
        let mut actions: Vec<&'static str> = Vec::new();
        actions.push(GO_TO);
        actions
    } else {
        Vec::new()
    }
}

/// A 1-based line of a text, trimmed at its end; nothing for a line the
/// text does not have.
pub open spec fn line_of_spec(text: Seq<char>, line: usize) -> Option<Seq<char>> {
    if 1 <= line <= crate::text::split_lines(text).len() {
        Some(crate::text::trim_end(crate::text::split_lines(text)[line - 1]))
    } else {
        None
    }
}

/// Whether the line a Visit was taken from no longer holds what it
/// recorded. `shown` is the open buffer of the Visit's file, if it is open;
/// a file not open is never claimed stale.
pub fn stale(visit: &Visit, shown: Option<&str>) -> (r: bool)
    ensures
        r == match shown {
            Some(text) => line_of_spec(text@, visit.line) != Some(visit.text@),
            None => false,
        },
{
    let text = match shown {
        Some(text) => text,
        None => return false,
    };
    let chars = chars_of(text);
    let lines = crate::text::split_text(&chars);
    assert(lines.deep_view().len() == lines@.len());
    if visit.line >= 1 && visit.line <= lines.len() {
        assert(lines.deep_view()[visit.line - 1] == lines@[visit.line - 1]@);
        let held = crate::text::trimmed_end(&lines[visit.line - 1]);
        !crate::text::same_chars(&held, &chars_of(visit.text.as_str()))
    } else {
        true
    }
}

/// The list with a place appended, and the oldest dropped once it is full.
fn push(visits: &mut Vec<Visit>, place: Visit)
    ensures
        visits_view(final(visits)@) == pushed(visits_view(old(visits)@), place@),
{
    let ghost before = visits_view(visits@);
    visits.push(place);
    assert(visits_view(visits@) == before.push(place@));
    if visits.len() > CAP {
        visits.remove(0);
        assert(visits_view(visits@) == before.push(place@).drop_first());
    }
}

/// A place appended and the history's cursor left past the newest. A place
/// identical to the newest is dropped, and an older row at the same place
/// gives way to this one.
fn remember(visits: &mut Vec<Visit>, selection: &mut usize, left: Visit)
    ensures
        visits_view(final(visits)@) == remembered(visits_view(old(visits)@), left@),
        *final(selection) == if old(visits)@.len() > 0 && visits_view(old(visits)@).last() == left@ {
            *old(selection) as int
        } else {
            final(visits)@.len() as int
        },
{
    let ghost before = visits_view(visits@);
    if visits.len() > 0 && same_visit(&visits[visits.len() - 1], &left) {
        return;
    }
    let mut kept: Vec<Visit> = Vec::new();
    let mut i: usize = 0;
    while i < visits.len()
        invariant
            i <= visits.len(),
            before == visits_view(visits@),
            visits_view(kept@) == apart(before.take(i as int), left@),
        decreases visits.len() - i,
    {
        assert(before.take(i + 1).drop_last() == before.take(i as int));
        let here = &visits[i];
        let at_left = crate::text::same_text(here.file.as_str(), left.file.as_str()) && here.line == left.line
            && here.column == left.column;
        if !at_left {
            let ghost k = visits_view(kept@);
            kept.push(copy_visit(here));
            assert(visits_view(kept@) == k.push(before[i as int]));
        }
        i = i + 1;
    }
    assert(before.take(visits.len() as int) == before);
    push(&mut kept, left);
    *visits = kept;
    *selection = visits.len();
}

/// Whether the arrival being recorded is one step of the history's own walk.
fn walking(visits: &[Visit], selection: usize, arriving: &str, left: &Visit) -> (r: bool)
    ensures
        r == walking_spec(visits_view(visits@), selection, arriving@, left@),
{
    if selection >= visits.len() {
        return false;
    }
    if !crate::text::same_text(visits[selection].file.as_str(), arriving) {
        return false;
    }
    let before = selection >= 1 && same_visit(&visits[selection - 1], left);
    let after = selection < visits.len() - 1 && same_visit(&visits[selection + 1], left);
    before || after
}

/// The place being left, recorded once the event that leaves it has been
/// answered. `here_before` and `here_after` are where the cursor stood as the
/// event arrived and once it was answered; `before` and `before_selection`
/// are the history as the event found it, and `visits` and `selection` the
/// history being answered into.
pub fn record(
    jump: Jump,
    here_before: Option<Visit>,
    here_after: Option<Visit>,
    before: &[Visit],
    before_selection: usize,
    visits: &mut Vec<Visit>,
    selection: &mut usize,
)
    ensures
        ({
            let left = match jump {
                Jump::From(origin) => Some(origin@),
                _ => match here_before {
                    Some(v) => Some(v@),
                    None => None,
                },
            };
            let after = match here_after {
                Some(v) => Some(v@),
                None => None,
            };
            match left {
                Some(l) => if been_spec(jump, l, after, visits_view(before@), before_selection) {
                    &&& visits_view(final(visits)@) == remembered(visits_view(old(visits)@), l)
                    &&& *final(selection) == if old(visits)@.len() > 0 && visits_view(old(visits)@).last() == l {
                        *old(selection) as int
                    } else {
                        final(visits)@.len() as int
                    }
                } else {
                    final(visits)@ == old(visits)@ && *final(selection) == *old(selection)
                },
                None => final(visits)@ == old(visits)@ && *final(selection) == *old(selection),
            }
        }),
{
    let left = match &jump {
        Jump::From(origin) => copy_visit(origin),
        _ => match here_before {
            Some(v) => v,
            None => return,
        },
    };
    let been = match &jump {
        Jump::No => false,
        Jump::InFile | Jump::From(_) => match &here_after {
            Some(after) => !same_visit(after, &left),
            None => true,
        },
        Jump::ToFile { file, at } => if crate::text::same_text(file.as_str(), left.file.as_str()) {
            !went_nowhere(&left, *at)
        } else {
            !walking(before, before_selection, file.as_str(), &left)
        },
    };
    if been {
        remember(visits, selection, left);
    }
}

/// The place left by a move made in place, with no landing event of its own:
/// recorded unless the cursor is already standing where it moves to.
pub fn leaving(here: Option<Visit>, to: Place, visits: &mut Vec<Visit>, selection: &mut usize)
    ensures
        match here {
            Some(left) => if went_nowhere_spec(left@, Some(to)) {
                final(visits)@ == old(visits)@ && *final(selection) == *old(selection)
            } else {
                &&& visits_view(final(visits)@) == remembered(visits_view(old(visits)@), left@)
                &&& *final(selection) == if old(visits)@.len() > 0 && visits_view(old(visits)@).last() == left@ {
                    *old(selection) as int
                } else {
                    final(visits)@.len() as int
                }
            },
            None => final(visits)@ == old(visits)@ && *final(selection) == *old(selection),
        },
{
    let left = match here {
        Some(v) => v,
        None => return,
    };
    if went_nowhere(&left, Some(to)) {
        return;
    }
    remember(visits, selection, left);
}

/// One step towards the oldest Visit: the list it leaves behind and the row
/// it steps to, if any. From past the newest the place standing here is
/// pushed first, so forward can bring the reader back — unless the list
/// already ends with it, when the step is the row before it.
pub open spec fn back_spec(visits: Seq<VisitView>, selection: usize, here: Option<VisitView>) -> (Seq<VisitView>, Option<int>) {
    if selection >= visits.len() {
        if visits.len() == 0 {
            (visits, None)
        } else {
            match here {
                None => (visits, Some(visits.len() - 1)),
                Some(place) => if visits.last() == place {
                    (visits, if visits.len() >= 2 { Some(visits.len() - 2) } else { None })
                } else {
                    let grown = pushed(visits, place);
                    (grown, Some(grown.len() - 2))
                },
            }
        }
    } else {
        (visits, if selection >= 1 { Some(selection - 1) } else { None })
    }
}

/// One step towards the oldest Visit. `Ok` with the row stepped to, which
/// the history's cursor now stands on; the refusal's slug where there is no
/// earlier place.
pub fn back(visits: &mut Vec<Visit>, selection: &mut usize, here: Option<Visit>) -> (went: Result<usize, &'static str>)
    ensures
        ({
            let (after, target) = back_spec(visits_view(old(visits)@), *old(selection), match here {
                Some(v) => Some(v@),
                None => None,
            });
            &&& visits_view(final(visits)@) == after
            &&& match target {
                Some(t) => went == Ok::<usize, &'static str>(t as usize) && *final(selection) == t,
                None => (went matches Err(slug) && slug@ == "no-earlier-place"@) && *final(selection) == *old(selection),
            }
        }),
{
    let target: Option<usize> = if *selection >= visits.len() {
        if visits.len() == 0 {
            None
        } else {
            match here {
                None => Some(visits.len() - 1),
                Some(place) => if same_visit(&visits[visits.len() - 1], &place) {
                    if visits.len() >= 2 { Some(visits.len() - 2) } else { None }
                } else {
                    push(visits, place);
                    Some(visits.len() - 2)
                },
            }
        }
    } else if *selection >= 1 {
        Some(*selection - 1)
    } else {
        None
    };
    match target {
        Some(t) => {
            *selection = t;
            Ok(t)
        },
        None => Err("no-earlier-place"),
    }
}

/// One step towards the newest Visit: `Ok` with the row stepped to, which
/// the history's cursor now stands on; the refusal's slug past the newest.
pub fn forward(visits: &[Visit], selection: &mut usize) -> (went: Result<usize, &'static str>)
    ensures
        *old(selection) + 1 < visits.len() ==> went == Ok::<usize, &'static str>((*old(selection) + 1) as usize)
            && *final(selection) == *old(selection) + 1,
        *old(selection) + 1 >= visits.len() ==> (went matches Err(slug) && slug@ == "no-later-place"@)
            && *final(selection) == *old(selection),
{
    if *selection < usize::MAX && *selection + 1 < visits.len() {
        *selection = *selection + 1;
        Ok(*selection)
    } else {
        Err("no-later-place")
    }
}

/// Going to the Visit the history's cursor names: `Ok` with it, and the
/// refusal's slug past the newest, where it names no row.
pub fn go(visits: &[Visit], selection: usize) -> (went: Result<usize, &'static str>)
    ensures
        selection < visits.len() ==> went == Ok::<usize, &'static str>(selection),
        selection >= visits.len() ==> (went matches Err(slug) && slug@ == "no-place-here"@),
{
    if selection < visits.len() {
        Ok(selection)
    } else {
        Err("no-place-here")
    }
}

/// Rows at distinct places.
pub open spec fn one_row_per_place(visits: Seq<VisitView>) -> bool {
    forall|i: int, j: int| 0 <= i < j < visits.len() ==> !same_place(#[trigger] visits[i], #[trigger] visits[j])
}

proof fn lemma_apart(visits: Seq<VisitView>, left: VisitView)
    requires
        one_row_per_place(visits),
    ensures
        one_row_per_place(apart(visits, left)),
        forall|k: int| 0 <= k < apart(visits, left).len() ==> !same_place(#[trigger] apart(visits, left)[k], left),
        apart(visits, left).len() <= visits.len(),
        forall|k: int| 0 <= k < apart(visits, left).len() ==> visits.contains(#[trigger] apart(visits, left)[k]),
    decreases visits.len(),
{
    if visits.len() > 0 {
        let rest = visits.drop_last();
        assert(one_row_per_place(rest)) by {
            assert forall|i: int, j: int| 0 <= i < j < rest.len() implies !same_place(#[trigger] rest[i], #[trigger] rest[j]) by {
                assert(rest[i] == visits[i] && rest[j] == visits[j]);
            }
        }
        lemma_apart(rest, left);
        let kept = apart(rest, left);
        if !same_place(visits.last(), left) {
            let grown = kept.push(visits.last());
            assert forall|i: int, j: int| 0 <= i < j < grown.len() implies !same_place(#[trigger] grown[i], #[trigger] grown[j]) by {
                if j == kept.len() {
                    assert(rest.contains(kept[i]));
                    let w = choose|w: int| 0 <= w < rest.len() && rest[w] == kept[i];
                    assert(visits[w] == rest[w]);
                    assert(!same_place(visits[w], visits[visits.len() - 1]));
                } else {
                    assert(grown[i] == kept[i] && grown[j] == kept[j]);
                }
            }
            assert forall|k: int| 0 <= k < grown.len() implies visits.contains(#[trigger] grown[k]) by {
                if k < kept.len() {
                    assert(rest.contains(kept[k]));
                    let w = choose|w: int| 0 <= w < rest.len() && rest[w] == kept[k];
                    assert(visits[w] == rest[w]);
                } else {
                    assert(visits[visits.len() - 1] == grown[k]);
                }
            }
        } else {
            assert forall|k: int| 0 <= k < kept.len() implies visits.contains(#[trigger] kept[k]) by {
                assert(rest.contains(kept[k]));
                let w = choose|w: int| 0 <= w < rest.len() && rest[w] == kept[k];
                assert(visits[w] == rest[w]);
            }
        }
    }
}

/// Remembering a place keeps the history one row per place, no longer than
/// [`CAP`], with that place the newest row.
pub proof fn law_remembering_keeps_one_row_per_place(visits: Seq<VisitView>, left: VisitView)
    requires
        one_row_per_place(visits),
        visits.len() <= CAP,
    ensures
        one_row_per_place(remembered(visits, left)),
        remembered(visits, left).len() <= CAP,
        remembered(visits, left).len() > 0,
        remembered(visits, left).last() == left,
{
    if !(visits.len() > 0 && visits.last() == left) {
        lemma_apart(visits, left);
        let kept = apart(visits, left);
        let grown = kept.push(left);
        assert(one_row_per_place(grown)) by {
            assert forall|i: int, j: int| 0 <= i < j < grown.len() implies !same_place(#[trigger] grown[i], #[trigger] grown[j]) by {
                if j == kept.len() {
                    assert(grown[i] == kept[i]);
                } else {
                    assert(grown[i] == kept[i] && grown[j] == kept[j]);
                }
            }
        }
        if grown.len() > CAP {
            let dropped = grown.drop_first();
            assert forall|i: int, j: int| 0 <= i < j < dropped.len() implies !same_place(#[trigger] dropped[i], #[trigger] dropped[j]) by {
                assert(dropped[i] == grown[i + 1] && dropped[j] == grown[j + 1]);
            }
        }
    }
}

/// Forward is the way home: going back from past the newest, with the
/// reader standing somewhere the list does not end with, and then forward,
/// lands on the place they were standing.
pub proof fn law_forward_after_back_is_where_the_reader_stood(visits: Seq<VisitView>, place: VisitView)
    requires
        visits.len() > 0,
        visits.len() <= CAP,
        visits.last() != place,
    ensures
        ({
            let (after, target) = back_spec(visits, visits.len() as usize, Some(place));
            &&& target matches Some(t)
            &&& t + 1 < after.len()
            &&& after[t + 1] == place
        }),
{
}

} // verus!
