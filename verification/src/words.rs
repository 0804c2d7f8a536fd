//! Where motions land over lines of text, and the other questions asked of
//! plain lines rather than of a buffer: which span a drag covers, where a
//! word occurs, which characters pair, how deep a file indents.

use crate::text::{alphanumeric, is_alphanumeric, is_whitespace, join_lines, join_text, whitespace};
use crate::Place;
use vstd::prelude::*;

verus! {

/// Vim's three character classes: a word motion stops where the class changes.
#[derive(PartialEq, Eq, Clone, Copy, Structural)]
pub enum Class {
    Space,
    Word,
    Punctuation,
}

pub open spec fn class_of(c: Option<char>) -> Class {
    match c {
        Some(c) => if alphanumeric(c) || c == '_' {
            Class::Word
        } else if whitespace(c) {
            Class::Space
        } else {
            Class::Punctuation
        },
        None => Class::Space,
    }
}

/// The character at an index, or nothing past either end.
pub open spec fn char_at(t: Seq<char>, i: int) -> Option<char> {
    if 0 <= i < t.len() {
        Some(t[i])
    } else {
        None
    }
}

pub open spec fn class_at(t: Seq<char>, i: int) -> Class {
    class_of(char_at(t, i))
}

pub fn class(character: Option<char>) -> (c: Class)
    ensures
        c == class_of(character),
{
    match character {
        Some(c) => {
            if is_alphanumeric(c) || c == '_' {
                Class::Word
            } else if is_whitespace(c) {
                Class::Space
            } else {
                Class::Punctuation
            }
        },
        None => Class::Space,
    }
}

fn class_at_exec(text: &Vec<char>, i: usize) -> (c: Class)
    ensures
        c == class_at(text@, i as int),
{
    if i < text.len() {
        class(Some(text[i]))
    } else {
        class(None)
    }
}

/// Forward from `i` past every character of class `cls`.
pub open spec fn skip_run(t: Seq<char>, i: int, cls: Class) -> int
    decreases t.len() - i,
{
    if 0 <= i < t.len() && class_at(t, i) == cls {
        skip_run(t, i + 1, cls)
    } else {
        i
    }
}

/// The last index of the run of one class that `i` stands in.
pub open spec fn run_end(t: Seq<char>, i: int) -> int
    decreases t.len() - i,
{
    if 0 <= i && i + 1 < t.len() && class_at(t, i + 1) == class_at(t, i) {
        run_end(t, i + 1)
    } else {
        i
    }
}

/// Back from `i` over whitespace, stopping at the start of the text.
pub open spec fn back_over_space(t: Seq<char>, i: int) -> int
    decreases i,
{
    if i > 0 && class_at(t, i) == Class::Space {
        back_over_space(t, i - 1)
    } else {
        i
    }
}

/// Back from `i` to the first character of the run of class `cls` it ends.
pub open spec fn run_start(t: Seq<char>, i: int, cls: Class) -> int
    decreases i,
{
    if i > 0 && class_at(t, i - 1) == cls {
        run_start(t, i - 1, cls)
    } else {
        i
    }
}

/// `w`: leave the run you are on, then skip whitespace.
pub open spec fn next_word_start_spec(t: Seq<char>, at: int) -> int {
    skip_run(t, skip_run(t, at, class_at(t, at)), Class::Space)
}

/// `e`: the end of the run ahead of you.
pub open spec fn word_end_spec(t: Seq<char>, at: int) -> int {
    run_end(t, skip_run(t, at + 1, Class::Space))
}

/// `b`: the start of the run behind you, whitespace skipped first.
pub open spec fn previous_word_start_spec(t: Seq<char>, at: int) -> int {
    let i = back_over_space(t, if at >= 1 { at - 1 } else { 0 });
    run_start(t, i, class_at(t, i))
}

proof fn lemma_skip_run_bounds(t: Seq<char>, i: int, cls: Class)
    requires
        0 <= i,
    ensures
        i <= skip_run(t, i, cls),
        i <= t.len() ==> skip_run(t, i, cls) <= t.len(),
    decreases t.len() - i,
{
    if 0 <= i < t.len() && class_at(t, i) == cls {
        lemma_skip_run_bounds(t, i + 1, cls);
    }
}

proof fn lemma_run_end_bounds(t: Seq<char>, i: int)
    requires
        0 <= i,
    ensures
        i <= run_end(t, i),
        i < t.len() ==> run_end(t, i) < t.len(),
    decreases t.len() - i,
{
    if 0 <= i && i + 1 < t.len() && class_at(t, i + 1) == class_at(t, i) {
        lemma_run_end_bounds(t, i + 1);
    }
}

proof fn lemma_back_bounds(t: Seq<char>, i: int, cls: Class)
    requires
        0 <= i,
    ensures
        0 <= back_over_space(t, i) <= i,
        0 <= run_start(t, i, cls) <= i,
    decreases i,
{
    if i > 0 {
        lemma_back_bounds(t, i - 1, cls);
    }
}

fn skip_run_exec(text: &Vec<char>, at: usize, cls: Class) -> (r: usize)
    ensures
        r == skip_run(text@, at as int, cls),
        at <= r,
        at <= text.len() ==> r <= text.len(),
{
    let mut i = at;
    while i < text.len() && class_at_exec(text, i) == cls
        invariant
            at <= i,
            at <= text.len() ==> i <= text.len(),
            skip_run(text@, at as int, cls) == skip_run(text@, i as int, cls),
        decreases text.len() - i,
    {
        i = i + 1;
    }
    i
}

/// Vim's `w`: leave the run of one class you are on, then skip whitespace —
/// the start of the next word.
pub fn next_word_start(text: &Vec<char>, at: usize) -> (r: usize)
    ensures
        r == next_word_start_spec(text@, at as int),
        at <= r,
        at <= text.len() ==> r <= text.len(),
{
    let from = class_at_exec(text, at);
    let i = skip_run_exec(text, at, from);
    skip_run_exec(text, i, Class::Space)
}

/// Vim's `e`: the end of the run ahead of you.
pub fn word_end(text: &Vec<char>, at: usize) -> (r: usize)
    requires
        at < text.len(),
    ensures
        r == word_end_spec(text@, at as int),
        at < r || r == at + 1,
        r <= text.len(),
{
    let i = skip_run_exec(text, at + 1, Class::Space);
    let mut j = i;
    while j < text.len() - 1 && class_at_exec(text, j + 1) == class_at_exec(text, j)
        invariant
            i <= j <= text.len(),
            text.len() >= 1,
            run_end(text@, i as int) == run_end(text@, j as int),
        decreases text.len() - j,
    {
        j = j + 1;
    }
    proof {
        lemma_skip_run_bounds(text@, at + 1, Class::Space);
    }
    j
}

/// Vim's `b`: the start of the run behind you, whitespace skipped first.
pub fn previous_word_start(text: &Vec<char>, at: usize) -> (r: usize)
    ensures
        r == previous_word_start_spec(text@, at as int),
        r <= (if at >= 1 { at - 1 } else { 0 }),
{
    let mut i = at.saturating_sub(1);
    let ghost start = i;
    while i > 0 && class_at_exec(text, i) == Class::Space
        invariant
            i <= start,
            back_over_space(text@, start as int) == back_over_space(text@, i as int),
        decreases i,
    {
        i = i - 1;
    }
    let run = class_at_exec(text, i);
    let ghost stop = i;
    while i > 0 && class_at_exec(text, i - 1) == run
        invariant
            i <= stop <= start,
            run == class_at(text@, stop as int),
            run_start(text@, stop as int, run) == run_start(text@, i as int, run),
        decreases i,
    {
        i = i - 1;
    }
    i
}

/// How many characters of the text come before line `k`, each earlier line
/// counting its break.
pub open spec fn prefix_len(lines: Seq<Seq<char>>, k: int) -> int
    decreases k,
{
    if k <= 0 {
        0
    } else {
        prefix_len(lines, k - 1) + lines[k - 1].len() + 1
    }
}

pub proof fn lemma_prefix_join(lines: Seq<Seq<char>>, k: int)
    requires
        1 <= k <= lines.len(),
    ensures
        prefix_len(lines, k) == join_lines(lines.take(k)).len() + 1,
        join_lines(lines.take(k)).len() <= join_lines(lines).len(),
    decreases k,
{
    if k > 1 {
        lemma_prefix_join(lines, k - 1);
        assert(lines.take(k).drop_last() == lines.take(k - 1));
        assert(lines.take(k).last() == lines[k - 1]);
        assert(join_lines(lines.take(k)) == join_lines(lines.take(k - 1)) + seq!['\n'] + lines[k - 1]);
    } else {
        assert(join_lines(lines.take(1)) == lines[0]);
        assert(prefix_len(lines, 0) == 0);
    }
    lemma_join_take_len(lines, k);
}

proof fn lemma_join_take_len(lines: Seq<Seq<char>>, k: int)
    requires
        1 <= k <= lines.len(),
    ensures
        join_lines(lines.take(k)).len() <= join_lines(lines).len(),
    decreases lines.len(),
{
    if k < lines.len() {
        assert(lines.drop_last().take(k) == lines.take(k));
        lemma_join_take_len(lines.drop_last(), k);
        if lines.len() == 1 {
        } else {
            assert(join_lines(lines).len() == join_lines(lines.drop_last()).len() + 1 + lines.last().len());
        }
    } else {
        assert(lines.take(k) == lines);
    }
}

/// The whole text's characters before each line fit where the text does.
pub proof fn lemma_prefix_fits(lines: Seq<Seq<char>>, k: int)
    requires
        0 <= k < lines.len(),
    ensures
        0 <= prefix_len(lines, k),
        prefix_len(lines, k) + lines[k].len() <= join_lines(lines).len(),
    decreases k,
{
    lemma_prefix_join(lines, k + 1);
    assert(lines.take(k + 1).last() == lines[k]);
    if k >= 1 {
        lemma_prefix_join(lines, k);
        assert(lines.take(k + 1).drop_last() == lines.take(k));
        assert(join_lines(lines.take(k + 1)).len() == join_lines(lines.take(k)).len() + 1 + lines[k].len());
    } else {
        assert(join_lines(lines.take(1)) == lines[0]);
    }
}

pub open spec fn max_of(a: int, b: int) -> int {
    if a >= b { a } else { b }
}

pub open spec fn min_of(a: int, b: int) -> int {
    if a <= b { a } else { b }
}

/// Where a place sits in the whole text: the characters before it, counting
/// the breaks. A line the text does not have is its end, and a column past
/// the end of a line is the end of that line.
pub open spec fn offset_spec(lines: Seq<Seq<char>>, at: Place) -> int {
    let above = min_of(at.line - 1, lines.len() as int);
    let width = if above < lines.len() { lines[above].len() as int } else { 0 };
    prefix_len(lines, above) + min_of(at.column - 1, width)
}

/// The whole text of some lines is shorter than the largest `usize`, so an
/// offset one past its end can still be named.
pub open spec fn fits_usize(lines: Seq<Seq<char>>) -> bool {
    join_lines(lines).len() < usize::MAX
}

/// How many characters of the text come before a place, counting the line
/// breaks — the one measure an edit can be applied at.
pub fn offset(lines: &Vec<Vec<char>>, at: Place) -> (r: usize)
    requires
        at.line >= 1,
        at.column >= 1,
        fits_usize(lines.deep_view()),
    ensures
        r == offset_spec(lines.deep_view(), at),
        r <= join_lines(lines.deep_view()).len() + 1,
{
    let ghost view = lines.deep_view();
    let above = if at.line - 1 <= lines.len() { at.line - 1 } else { lines.len() };
    let mut before: usize = 0;
    let mut i: usize = 0;
    while i < above
        invariant
            i <= above <= lines.len(),
            view == lines.deep_view(),
            fits_usize(view),
            before == prefix_len(view, i as int),
        decreases above - i,
    {
        proof {
            lemma_prefix_fits(view, i as int);
        }
        assert(view[i as int].len() == lines[i as int].len());
        before = before + lines[i].len() + 1;
        i = i + 1;
    }
    let width = if above < lines.len() { lines[above].len() } else { 0 };
    proof {
        if above < lines.len() {
            lemma_prefix_fits(view, above as int);
            assert(view[above as int].len() == lines[above as int].len());
        } else if above > 0 {
            lemma_prefix_fits(view, above - 1);
        }
    }
    before + if at.column - 1 <= width { at.column - 1 } else { width }
}

/// Where an offset into the whole text sits, starting the search at line
/// `index` (0-based) with `offset` characters still to go.
pub open spec fn place_from(lines: Seq<Seq<char>>, offset: int, index: int) -> Option<Place>
    decreases lines.len() - index,
{
    if index < 0 || index >= lines.len() {
        None
    } else if offset <= lines[index].len() {
        Some(Place { line: (index + 1) as usize, column: (offset + 1) as usize })
    } else {
        place_from(lines, offset - lines[index].len() - 1, index + 1)
    }
}

/// Where an offset into the whole text sits, or nothing when the text is
/// shorter than that — the inverse of [`offset`].
pub open spec fn place_at_spec(lines: Seq<Seq<char>>, offset: int) -> Option<Place> {
    place_from(lines, offset, 0)
}

pub fn place_at(lines: &Vec<Vec<char>>, offset: usize) -> (r: Option<Place>)
    requires
        fits_usize(lines.deep_view()),
    ensures
        r == place_at_spec(lines.deep_view(), offset as int),
{
    let ghost view = lines.deep_view();
    let mut remaining = offset;
    let mut index: usize = 0;
    while index < lines.len()
        invariant
            index <= lines.len(),
            view == lines.deep_view(),
            fits_usize(view),
            place_from(view, offset as int, 0) == place_from(view, remaining as int, index as int),
        decreases lines.len() - index,
    {
        let width = lines[index].len();
        assert(view[index as int].len() == width);
        proof {
            lemma_prefix_fits(view, index as int);
        }
        if remaining <= width {
            return Some(Place { line: index + 1, column: remaining + 1 });
        }
        remaining = remaining - (width + 1);
        index = index + 1;
    }
    None
}

/// The place a word motion lands on: the offset it reached, pulled back off
/// the end of the text, or the place it started when there is none.
pub open spec fn landing(lines: Seq<Seq<char>>, at: Place, landed: int) -> Place {
    let t = join_lines(lines);
    let last = if t.len() >= 1 { t.len() - 1 } else { 0 };
    match place_at_spec(lines, min_of(landed, last)) {
        Some(p) => p,
        None => at,
    }
}

/// Where a motion key lands, over plain lines — `None` for a key that names no
/// motion. `$` and `G` answer with the `usize::MAX` sentinels: how far a line
/// or a text runs is the caller's clamp.
pub open spec fn moved_spec(lines: Seq<Seq<char>>, at: Place, key: char) -> Option<Place> {
    let t = join_lines(lines);
    let here = offset_spec(lines, at);
    if key == 'h' {
        Some(Place { column: (if at.column >= 2 { at.column - 1 } else { 1 }) as usize, ..at })
    } else if key == 'l' {
        Some(Place { column: (at.column + 1) as usize, ..at })
    } else if key == 'j' {
        Some(Place { line: (at.line + 1) as usize, ..at })
    } else if key == 'k' {
        Some(Place { line: (if at.line >= 2 { at.line - 1 } else { 1 }) as usize, ..at })
    } else if key == '0' {
        Some(Place { column: 1, ..at })
    } else if key == '$' {
        Some(Place { column: usize::MAX, ..at })
    } else if key == 'G' {
        Some(Place { line: usize::MAX, column: 1 })
    } else if key == 'w' {
        Some(landing(lines, at, next_word_start_spec(t, here)))
    } else if key == 'e' {
        Some(landing(lines, at, word_end_spec(t, here)))
    } else if key == 'b' {
        Some(landing(lines, at, previous_word_start_spec(t, here)))
    } else {
        None
    }
}

/// Only the word motions read the text they move through: every other key
/// lands where it would over no text at all. And a key names a motion
/// exactly when it is one of `h l j k 0 $ G w e b`.
pub proof fn law_only_the_word_motions_read_the_text(lines: Seq<Seq<char>>, at: Place, key: char)
    ensures
        key != 'w' && key != 'e' && key != 'b' ==> moved_spec(lines, at, key) == moved_spec(Seq::empty(), at, key),
        moved_spec(lines, at, key) is None <==> !(key == 'h' || key == 'l' || key == 'j' || key == 'k' || key == '0'
            || key == '$' || key == 'G' || key == 'w' || key == 'e' || key == 'b'),
{
}

/// What a motion key asks of the place it starts from: a column it can step
/// right of, a line it can step down from, and a real place for a word motion.
pub open spec fn motion_ok(at: Place, key: char) -> bool {
    &&& key == 'l' ==> at.column < usize::MAX
    &&& key == 'j' ==> at.line < usize::MAX
    &&& (key == 'w' || key == 'e' || key == 'b') ==> at.line >= 1 && at.column >= 1
}

pub fn moved_in(lines: &Vec<Vec<char>>, at: Place, key: char) -> (r: Option<Place>)
    requires
        motion_ok(at, key),
        fits_usize(lines.deep_view()),
    ensures
        r == moved_spec(lines.deep_view(), at, key),
{
    let ghost view = lines.deep_view();
    if key == 'w' || key == 'e' || key == 'b' {
        let text = join_text(lines);
        let here = offset(lines, at);
        let landed = if key == 'w' {
            next_word_start(&text, here)
        } else if key == 'e' {
            if here < text.len() {
                word_end(&text, here)
            } else {
                // Past the last character there is nothing ahead to end, and
                // the landing is pulled back onto the last character below.
                proof {
                    assert(skip_run(text@, here + 1, Class::Space) == here + 1);
                    assert(run_end(text@, here + 1) == here + 1);
                }
                here
            }
        } else {
            previous_word_start(&text, here)
        };
        let last = text.len().saturating_sub(1);
        let target = if landed <= last { landed } else { last };
        return Some(match place_at(lines, target) {
            Some(place) => place,
            None => at,
        });
    }
    if key == 'h' {
        Some(Place { column: if at.column >= 2 { at.column - 1 } else { 1 }, ..at })
    } else if key == 'l' {
        Some(Place { column: at.column + 1, ..at })
    } else if key == 'j' {
        Some(Place { line: at.line + 1, ..at })
    } else if key == 'k' {
        Some(Place { line: if at.line >= 2 { at.line - 1 } else { 1 }, ..at })
    } else if key == '0' {
        Some(Place { column: 1, ..at })
    } else if key == '$' {
        Some(Place { column: usize::MAX, ..at })
    } else if key == 'G' {
        Some(Place { line: usize::MAX, column: 1 })
    } else {
        None
    }
}

proof fn lemma_prefix_grows(lines: Seq<Seq<char>>, i: int, k: int)
    requires
        0 <= i <= k,
    ensures
        prefix_len(lines, i) <= prefix_len(lines, k),
    decreases k - i,
{
    if i < k {
        lemma_prefix_grows(lines, i, k - 1);
    }
}

proof fn lemma_place_from_offset(lines: Seq<Seq<char>>, k: int, c: int, i: int)
    requires
        0 <= i <= k < lines.len(),
        0 <= c <= lines[k].len(),
    ensures
        place_from(lines, prefix_len(lines, k) - prefix_len(lines, i) + c, i)
            == Some(Place { line: (k + 1) as usize, column: (c + 1) as usize }),
    decreases k - i,
{
    if i < k {
        lemma_prefix_grows(lines, i + 1, k);
        lemma_place_from_offset(lines, k, c, i + 1);
    }
}

/// Where an offset sits is the place it was measured from: `place_at` takes
/// back what `offset` measured, for every place on a line of the text with a
/// column no further than one past that line's end.
pub proof fn law_place_at_undoes_offset(lines: Seq<Seq<char>>, at: Place)
    requires
        1 <= at.line <= lines.len(),
        1 <= at.column <= lines[at.line - 1].len() + 1,
    ensures
        place_at_spec(lines, offset_spec(lines, at)) == Some(at),
{
    lemma_place_from_offset(lines, at.line - 1, at.column - 1, 0);
}


/// A word character is a letter, a digit or `_`: `foo_bar` is one word.
pub proof fn law_a_word_is_letters_digits_and_underscores(c: char)
    ensures
        class_of(Some('_')) == Class::Word,
        (class_of(Some(c)) == Class::Word) <==> (alphanumeric(c) || c == '_'),
{
}

proof fn lemma_skip_run_stops(t: Seq<char>, i: int, cls: Class)
    requires
        0 <= i,
    ensures
        i <= skip_run(t, i, cls),
        forall|m: int| i <= m < skip_run(t, i, cls) ==> #[trigger] class_at(t, m) == cls,
        skip_run(t, i, cls) < t.len() ==> class_at(t, skip_run(t, i, cls)) != cls,
    decreases t.len() - i,
{
    if 0 <= i < t.len() && class_at(t, i) == cls {
        lemma_skip_run_stops(t, i + 1, cls);
    }
}

/// `w` lands where the class changes: past the run it starts on, and past
/// the whitespace after it, so it never stops between two characters of one
/// word — with a word's characters the letters, digits and `_`.
pub proof fn law_w_never_stops_inside_a_word(t: Seq<char>, at: int)
    requires
        0 <= at,
    ensures
        ({
            let j = next_word_start_spec(t, at);
            at < j < t.len() ==> class_at(t, j - 1) != class_at(t, j)
        }),
        ({
            let j = next_word_start_spec(t, at);
            at < j < t.len() ==> !((alphanumeric(t[j - 1]) || t[j - 1] == '_') && (alphanumeric(t[j]) || t[j] == '_'))
        }),
{
    let k = skip_run(t, at, class_at(t, at));
    lemma_skip_run_stops(t, at, class_at(t, at));
    lemma_skip_run_stops(t, k, Class::Space);
    let j = next_word_start_spec(t, at);
    if at < j < t.len() {
        if j == k {
            assert(class_at(t, j - 1) == class_at(t, at));
        } else {
            assert(class_at(t, j - 1) == Class::Space);
        }
        if (alphanumeric(t[j - 1]) || t[j - 1] == '_') && (alphanumeric(t[j]) || t[j] == '_') {
            assert(class_at(t, j - 1) == Class::Word);
            assert(class_at(t, j) == Class::Word);
        }
    }
}

} // verus!
