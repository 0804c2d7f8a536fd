//! Open buffers and modal editing.
//!
//! A buffer keeps what is on disk and the user's unsaved draft apart, which is
//! what lets a clean buffer follow the file while a dirty one is never
//! overwritten. Editing is vim-shaped: normal mode moves and deletes, insert
//! mode types.

use crate::text::{
    blank, char_bytes, char_lines, chars_of, extend, is_alphanumeric, is_blank, is_whitespace,
    join_lines, join_text, leading_count, leading_end, lemma_leading_count, owned, push_str,
    slice_of, split_lines, split_text, string_of, trim_end, trimmed_end, utf8_len, byte_len,
    alphanumeric, whitespace,
};
use crate::words::{
    lemma_prefix_fits, class, class_at, fits_usize, moved_in, moved_spec, motion_ok, run_end, run_start, Class,
};
use crate::fold::{blocks, blocks_spec, Block};
use crate::Place;
use vstd::prelude::*;
use vstd::view::View;

verus! {

broadcast use vstd::string::group_string_axioms;

/// The three modes a buffer is edited in.
#[derive(Debug, Clone, Copy, PartialEq, Eq, Default, Structural)]
pub enum Mode {
    #[default]
    Normal,
    Insert,
    /// Linewise only, as `V` is.
    Visual,
}

impl Mode {
    pub fn as_str(self) -> (s: &'static str)
        ensures
            s@ == (match self {
                Mode::Normal => "normal"@,
                Mode::Insert => "insert"@,
                Mode::Visual => "visual"@,
            }),
    {
        match self {
            Mode::Normal => "normal",
            Mode::Insert => "insert",
            Mode::Visual => "visual",
        }
    }
}

/// The indent width when no layer of the config names one.
pub const DEFAULT_TAB_WIDTH: usize = 4;

/// A place in a buffer named by the number of characters that *follow* it —
/// the one measure a keystroke typed before it does not move.
#[derive(Debug, Clone, Copy, PartialEq, Eq, Structural)]
pub struct Tail(pub usize);

/// One grid cell as the text it stands for: what it holds, or a space where
/// it holds nothing.
pub open spec fn cell_text(cell: Option<Seq<char>>) -> Seq<char> {
    match cell {
        Some(text) => if text.len() > 0 { text } else { seq![' '] },
        None => seq![' '],
    }
}

pub open spec fn cells_text(cells: Seq<Option<&str>>) -> Seq<char>
    decreases cells.len(),
{
    if cells.len() == 0 {
        Seq::empty()
    } else {
        cells_text(cells.drop_last()) + cell_text(match cells.last() {
            Some(text) => Some(text@),
            None => None,
        })
    }
}

/// One row of a pty's grid as text, from what each of its cells holds: `None`
/// where the row has no such cell, `Some("")` where the cell holds nothing.
/// A cell holding nothing is a space, so column N of the string is column N
/// of the screen; trailing blanks are dropped, since a grid pads every row.
pub fn grid_row(cells: &[Option<&str>]) -> (row: String)
    ensures
        row@ == trim_end(cells_text(cells@)),
{
    let mut text: Vec<char> = Vec::new();
    let mut i: usize = 0;
    while i < cells.len()
        invariant
            i <= cells.len(),
            text@ == cells_text(cells@.take(i as int)),
        decreases cells.len() - i,
    {
        assert(cells@.take(i + 1).drop_last() == cells@.take(i as int));
        let cell = match cells[i] {
            Some(held) => if held.unicode_len() > 0 {
                chars_of(held)
            } else {
                chars_of(" ")
            },
            None => chars_of(" "),
        };
        proof {
            reveal_strlit(" ");
        }
        extend(&mut text, &cell);
        i = i + 1;
    }
    assert(cells@.take(cells.len() as int) == cells@);
    string_of(trimmed_end(&text).as_slice())
}

/// The line of a charwise span that one line number contributes: from the
/// span's column on its first line, to its column on its last, whole between.
pub open spec fn span_piece(lines: Seq<Seq<char>>, from: Place, to: Place, number: int) -> Seq<char> {
    let chars = lines[number - 1];
    let start = if number == from.line { from.column - 1 } else { 0 };
    let end = if number == to.line {
        if to.column <= chars.len() { to.column as int } else { chars.len() as int }
    } else {
        chars.len() as int
    };
    chars.subrange(if start <= end { start } else { end }, end)
}

/// The last line a span reaches in the text.
pub open spec fn span_last(lines: Seq<Seq<char>>, to: Place) -> int {
    if to.line <= lines.len() { to.line as int } else { lines.len() as int }
}

/// The text a charwise span covers: the first line from the span's column,
/// the lines between whole, the last up to the span's column, both ends
/// included, joined by the breaks between them.
pub open spec fn span_spec(lines: Seq<Seq<char>>, from: Place, to: Place) -> Seq<char> {
    let count = if span_last(lines, to) >= from.line { span_last(lines, to) - from.line + 1 } else { 0 };
    join_lines(Seq::new(count as nat, |i: int| span_piece(lines, from, to, from.line + i)))
}

/// A span starts on a real line and column whenever it covers anything.
pub open spec fn span_ok(lines: Seq<Seq<char>>, from: Place) -> bool {
    from.line <= lines.len() ==> from.line >= 1 && from.column >= 1
}

pub fn span_chars(lines: &Vec<Vec<char>>, from: Place, to: Place) -> (text: Vec<char>)
    requires
        span_ok(lines.deep_view(), from) || from.line > span_last(lines.deep_view(), to),
    ensures
        text@ == span_spec(lines.deep_view(), from, to),
{
    let ghost view = lines.deep_view();
    let last = if to.line <= lines.len() { to.line } else { lines.len() };
    let ghost count: int = if last >= from.line { last - from.line + 1 } else { 0 };
    let ghost want = Seq::new(count as nat, |i: int| span_piece(view, from, to, from.line + i));
    let mut picked: Vec<Vec<char>> = Vec::new();
    let total: usize = if from.line <= last { last - from.line + 1 } else { 0 };
    let mut k: usize = 0;
    while k < total
        invariant
            k <= total,
            total == count,
            count > 0 ==> from.line >= 1 && from.column >= 1,
            last <= lines.len(),
            last == span_last(view, to),
            view == lines.deep_view(),
            count == (if last >= from.line { last - from.line + 1 } else { 0 }),
            want == Seq::new(count as nat, |i: int| span_piece(view, from, to, from.line + i)),
            picked.deep_view() == want.take(k as int),
        decreases total - k,
    {
        let number = from.line + k;
        let chars = &lines[number - 1];
        let start = if number == from.line { from.column - 1 } else { 0 };
        let end = if number == to.line {
            if to.column <= chars.len() { to.column } else { chars.len() }
        } else {
            chars.len()
        };
        let piece = slice_of(chars, if start <= end { start } else { end }, end);
        assert(chars@ == view[number - 1]);
        assert(piece@ == want[k as int]);
        let ghost before = picked.deep_view();
        picked.push(piece);
        assert(picked.deep_view() =~~= before.push(piece@));
        assert(want.take(k + 1) =~~= want.take(k as int).push(want[k as int]));
        k = k + 1;
    }
    assert(picked.deep_view() =~~= want);
    join_text(&picked)
}

/// The text a charwise span covers, over the lines it covers as plain data:
/// the first line from the span's column, the lines between whole, the last up
/// to the span's column, both ends included.
pub fn span_text(lines: &[String], from: Place, to: Place) -> (text: String)
    requires
        span_ok(lines@.map_values(|l: String| l@), from),
    ensures
        text@ == span_spec(lines@.map_values(|l: String| l@), from, to),
{
    let lines = char_lines(lines);
    string_of(span_chars(&lines, from, to).as_slice())
}

/// Where a motion key lands, over the lines it is given as plain data —
/// `None` for a key that names no motion, which is what lets an operator
/// refuse one out loud instead of swallowing it. Columns are counted in
/// characters, never display width. `$` and `G` answer with the `usize::MAX`
/// sentinels: how far a line or a text runs is the caller's clamp.
pub fn moved(lines: &[String], at: Place, key: char) -> (r: Option<Place>)
    requires
        motion_ok(at, key),
        fits_usize(lines@.map_values(|l: String| l@)),
    ensures
        r == moved_spec(lines@.map_values(|l: String| l@), at, key),
{
    let lines = char_lines(lines);
    moved_in(&lines, at, key)
}

/// The columns (0-based) at which `word` starts in `line`, scanning from `p`
/// and taking each match whole before looking again.
pub open spec fn matches_from(line: Seq<char>, word: Seq<char>, p: int) -> Seq<int>
    decreases line.len() - p,
{
    if word.len() == 0 || p < 0 || p + word.len() > line.len() {
        Seq::empty()
    } else if line.subrange(p, p + word.len()) == word {
        seq![p] + matches_from(line, word, p + word.len())
    } else {
        matches_from(line, word, p + 1)
    }
}

/// Every place `word` starts on lines `k` onwards, in document order.
pub open spec fn occurrences_from(lines: Seq<Seq<char>>, word: Seq<char>, k: int) -> Seq<Place>
    decreases lines.len() - k,
{
    if k < 0 || k >= lines.len() {
        Seq::empty()
    } else {
        matches_from(lines[k], word, 0).map_values(
            |p: int| Place { line: (k + 1) as usize, column: (p + 1) as usize },
        ) + occurrences_from(lines, word, k + 1)
    }
}

fn matches_at(line: &Vec<char>, word: &Vec<char>, p: usize) -> (r: bool)
    requires
        p + word.len() <= line.len(),
    ensures
        r == (line@.subrange(p as int, p + word.len()) == word@),
{
    let mut i: usize = 0;
    while i < word.len()
        invariant
            i <= word.len(),
            p + word.len() <= line.len(),
            line@.subrange(p as int, p + i) == word@.take(i as int),
        decreases word.len() - i,
    {
        if line[p + i] != word[i] {
            assert(line@.subrange(p as int, p + word.len())[i as int] != word@[i as int]);
            return false;
        }
        i = i + 1;
        assert(line@.subrange(p as int, p + i) =~= word@.take(i as int));
    }
    assert(word@.take(word.len() as int) =~= word@);
    true
}

/// Every place `word` starts, in document order — the runs the
/// next-occurrence gesture takes one at a time. Case-sensitive, and
/// non-overlapping, so `aa` in `aaa` is one run rather than two.
pub fn occurrences(lines: &[String], word: &str) -> (places: Vec<Place>)
    ensures
        places@ == occurrences_from(lines@.map_values(|l: String| l@), word@, 0),
{
    let lines = char_lines(lines);
    let word = chars_of(word);
    let ghost view = lines.deep_view();
    let mut places: Vec<Place> = Vec::new();
    if word.len() == 0 {
        assert(occurrences_from(view, word@, 0) =~= Seq::empty()) by {
            lemma_occurrences_empty(view, word@, 0);
        }
        return places;
    }
    let mut k: usize = 0;
    while k < lines.len()
        invariant
            k <= lines.len(),
            view == lines.deep_view(),
            word.len() > 0,
            places@ + occurrences_from(view, word@, k as int) == occurrences_from(view, word@, 0),
        decreases lines.len() - k,
    {
        let line = &lines[k];
        assert(line@ == view[k as int]);
        let ghost start = places@;
        let ghost found = matches_from(line@, word@, 0).map_values(
            |p: int| Place { line: (k + 1) as usize, column: (p + 1) as usize },
        );
        let mut p: usize = 0;
        while word.len() <= line.len() - p
            invariant
                p <= line.len(),
                word.len() > 0,
                line@ == view[k as int],
                k < lines.len(),
                start + found == places@ + matches_from(line@, word@, p as int).map_values(
                    |q: int| Place { line: (k + 1) as usize, column: (q + 1) as usize },
                ),
            decreases line.len() + 1 - p,
        {
            if matches_at(line, &word, p) {
                let ghost rest = matches_from(line@, word@, p + word.len());
                places.push(Place { line: k + 1, column: p + 1 });
                assert((seq![p as int] + rest).map_values(
                    |q: int| Place { line: (k + 1) as usize, column: (q + 1) as usize },
                ) =~= seq![Place { line: (k + 1) as usize, column: (p + 1) as usize }] + rest.map_values(
                    |q: int| Place { line: (k + 1) as usize, column: (q + 1) as usize },
                ));
                p = p + word.len();
            } else {
                p = p + 1;
            }
        }
        assert(matches_from(line@, word@, p as int) =~= Seq::empty());
        assert(start + found + occurrences_from(view, word@, k + 1) =~= start + occurrences_from(view, word@, k as int));
        k = k + 1;
    }
    assert(occurrences_from(view, word@, k as int) =~= Seq::empty());
    places
}

proof fn lemma_occurrences_empty(lines: Seq<Seq<char>>, word: Seq<char>, k: int)
    requires
        word.len() == 0,
    ensures
        occurrences_from(lines, word, k) =~= Seq::empty(),
    decreases lines.len() - k,
{
    if 0 <= k < lines.len() {
        lemma_occurrences_empty(lines, word, k + 1);
        assert(matches_from(lines[k], word, 0) =~= Seq::empty());
    }
}

/// The run of one character class around a column of a line, as 1-based
/// inclusive columns — what a double-click picks. `None` on whitespace and
/// past the end of the line: there is no word under the pointer there.
pub open spec fn word_span_spec(line: Seq<char>, column: int) -> Option<(usize, usize)> {
    let at = column - 1;
    if column < 1 || class_at(line, at) == Class::Space {
        None
    } else {
        Some(((run_start(line, at, class_at(line, at)) + 1) as usize, (run_end(line, at) + 1) as usize))
    }
}

pub fn word_span(line: &str, column: usize) -> (span: Option<(usize, usize)>)
    ensures
        span == word_span_spec(line@, column as int),
{
    let text = chars_of(line);
    if column < 1 {
        return None;
    }
    let at = column - 1;
    let here = if at < text.len() { class(Some(text[at])) } else { class(None) };
    if here == Class::Space {
        return None;
    }
    // Not whitespace, so a character of the line.
    let mut from = at;
    while from > 0 && class(Some(text[from - 1])) == here
        invariant
            from <= at < text.len(),
            here == class_at(text@, at as int),
            run_start(text@, at as int, here) == run_start(text@, from as int, here),
        decreases from,
    {
        from = from - 1;
    }
    let mut to = at;
    while to + 1 < text.len() && class(Some(text[to + 1])) == class(Some(text[to]))
        invariant
            at <= to < text.len(),
            run_end(text@, at as int) == run_end(text@, to as int),
        decreases text.len() - to,
    {
        to = to + 1;
    }
    Some((from + 1, to + 1))
}

/// The pairs the editor holds the other end of, spelled once. A quote is its
/// own partner.
pub const PAIRS: [(char, char); 5] = [('(', ')'), ('[', ']'), ('{', '}'), ('"', '"'), ('\'', '\'')];

/// The partner the pair table gives an opening character.
pub open spec fn closes_spec(open: char) -> Option<char> {
    if open == '(' {
        Some(')')
    } else if open == '[' {
        Some(']')
    } else if open == '{' {
        Some('}')
    } else if open == '"' {
        Some('"')
    } else if open == '\'' {
        Some('\'')
    } else {
        None
    }
}

/// Whether a character closes one of the pairs.
pub open spec fn is_closer(c: char) -> bool {
    c == ')' || c == ']' || c == '}' || c == '"' || c == '\''
}

/// The character that closes `open` in the pair table, or nothing.
pub fn closes(open: char) -> (close: Option<char>)
    ensures
        close == closes_spec(open),
{
    if open == '(' {
        Some(')')
    } else if open == '[' {
        Some(']')
    } else if open == '{' {
        Some('}')
    } else if open == '"' {
        Some('"')
    } else if open == '\'' {
        Some('\'')
    } else {
        None
    }
}

/// The bracket a bracket shuts: brackets only, not quotes.
pub open spec fn shuts_spec(open: char) -> Option<char> {
    if open == '(' {
        Some(')')
    } else if open == '[' {
        Some(']')
    } else if open == '{' {
        Some('}')
    } else {
        None
    }
}

fn shuts(open: char) -> (close: Option<char>)
    ensures
        close == shuts_spec(open),
{
    if open == '(' {
        Some(')')
    } else if open == '[' {
        Some(']')
    } else if open == '{' {
        Some('}')
    } else {
        None
    }
}

/// Both versions of a diverged file, handed to the AI to reconcile.
pub fn merge_prompt(path: &str, disk: &str, buffer: &str) -> (prompt: String)
    ensures
        prompt@ == path@ + " changed on disk while it had unsaved edits in CRIME.\nMerge the two and write the result to "@
            + path@ + ".\n\n--- on disk ---\n"@ + disk@ + "\n--- unsaved in CRIME ---\n"@ + buffer@,
{
    let mut prompt = owned(path);
    push_str(&mut prompt, " changed on disk while it had unsaved edits in CRIME.\nMerge the two and write the result to ");
    push_str(&mut prompt, path);
    push_str(&mut prompt, ".\n\n--- on disk ---\n");
    push_str(&mut prompt, disk);
    push_str(&mut prompt, "\n--- unsaved in CRIME ---\n");
    push_str(&mut prompt, buffer);
    prompt
}

/// The URLs `linkify` finds in a row, each as its byte span and its text.
pub uninterp spec fn url_links_of(row: Seq<char>) -> Seq<(usize, usize, Seq<char>)>;

/// `linkify::LinkFinder` restricted to `LinkKind::Url`: every URL it finds in
/// a row, in order, as the byte offsets it starts and ends at and the text it
/// spans. Claims only that the answer is a function of the row.
#[verifier::external_body]
fn url_links(row: &str) -> (links: Vec<(usize, usize, String)>)
    ensures
        links@.map_values(|l: (usize, usize, String)| (l.0, l.1, l.2@)) == url_links_of(row@),
{
    linkify::LinkFinder::new()
        .kinds(&[linkify::LinkKind::Url])
        .links(row)
        .map(|link| (link.start(), link.end(), link.as_str().to_string()))
        .collect()
}

/// The first of `links` from `k` on whose byte span holds `index`.
pub open spec fn link_holding(links: Seq<(usize, usize, Seq<char>)>, index: int, k: int) -> Option<Seq<char>>
    decreases links.len() - k,
{
    if k < 0 || k >= links.len() {
        None
    } else if links[k].0 <= index < links[k].1 {
        Some(links[k].2)
    } else {
        link_holding(links, index, k + 1)
    }
}

/// A link a reader may open: `http` or `https`, and nothing an operating
/// system's opener would launch an application for.
pub open spec fn web_link(url: Seq<char>) -> bool {
    (url.len() >= 7 && url.take(7) == "http://"@) || (url.len() >= 8 && url.take(8) == "https://"@)
}

/// The `http` or `https` URL under a 1-based column of one row of text, with
/// the punctuation a sentence hangs on it left off. Nothing for any other
/// scheme, and nothing past the end of the row.
pub open spec fn link_at_spec(row: Seq<char>, column: int) -> Option<Seq<char>> {
    if column < 1 || column > row.len() {
        None
    } else {
        match link_holding(url_links_of(row), byte_len(row.take(column - 1)) as int, 0) {
            Some(url) => if web_link(url) { Some(url) } else { None },
            None => None,
        }
    }
}

pub(crate) fn starts_with(text: &Vec<char>, prefix: &Vec<char>) -> (r: bool)
    ensures
        r == (text@.len() >= prefix@.len() && text@.take(prefix@.len() as int) == prefix@),
{
    if text.len() < prefix.len() {
        return false;
    }
    let mut i: usize = 0;
    while i < prefix.len()
        invariant
            i <= prefix.len() <= text.len(),
            text@.take(i as int) == prefix@.take(i as int),
        decreases prefix.len() - i,
    {
        if text[i] != prefix[i] {
            assert(text@.take(prefix@.len() as int)[i as int] != prefix@[i as int]);
            return false;
        }
        i = i + 1;
        assert(text@.take(i as int) =~= prefix@.take(i as int));
    }
    assert(prefix@.take(prefix@.len() as int) =~= prefix@);
    true
}

pub fn link_at(row: &str, column: usize) -> (url: Option<String>)
    requires
        byte_len(row@) <= usize::MAX,
    ensures
        match url {
            Some(u) => link_at_spec(row@, column as int) == Some(u@),
            None => link_at_spec(row@, column as int) is None,
        },
{
    let chars = chars_of(row);
    if column < 1 || column > chars.len() {
        return None;
    }
    let mut index: usize = 0;
    let mut i: usize = 0;
    while i < column - 1
        invariant
            i <= column - 1 < chars.len(),
            index == byte_len(chars@.take(i as int)),
            chars@ == row@,
            byte_len(row@) <= usize::MAX,
        decreases column - 1 - i,
    {
        assert(chars@.take(i + 1).drop_last() == chars@.take(i as int));
        proof {
            crate::text::lemma_byte_len_take(chars@, i + 1);
        }
        index = index + char_bytes(chars[i]);
        i = i + 1;
    }
    assert(index == byte_len(row@.take(column - 1)));
    let links = url_links(row);
    let ghost found = links@.map_values(|l: (usize, usize, String)| (l.0, l.1, l.2@));
    let mut k: usize = 0;
    while k < links.len()
        invariant
            k <= links.len(),
            found == links@.map_values(|l: (usize, usize, String)| (l.0, l.1, l.2@)),
            found == url_links_of(row@),
            1 <= column <= row@.len(),
            index == byte_len(row@.take(column - 1)),
            link_holding(found, index as int, 0) == link_holding(found, index as int, k as int),
        decreases links.len() - k,
    {
        let (start, end, ref text) = links[k];
        assert(found[k as int] == (start, end, text@));
        if start <= index && index < end {
            let url = chars_of(text.as_str());
            proof {
                reveal_strlit("http://");
                reveal_strlit("https://");
            }
            let http = chars_of("http://");
            let https = chars_of("https://");
            if starts_with(&url, &http) || starts_with(&url, &https) {
                return Some(owned(text.as_str()));
            }
            return None;
        }
        k = k + 1;
    }
    None
}

/// The revision after one more content change: one more, wrapping at the end
/// of `u64` as release arithmetic does.
pub open spec fn next_revision(r: u64) -> u64 {
    if r == u64::MAX { 0 } else { (r + 1) as u64 }
}

pub open spec fn clamp_int(v: int, lo: int, hi: int) -> int {
    if v < lo { lo } else if v > hi { hi } else { v }
}

/// How many characters a 1-based line of some lines holds, nothing for a
/// line they do not have.
pub open spec fn width_of(rows: Seq<Seq<char>>, line: int) -> int {
    if 1 <= line <= rows.len() { rows[line - 1].len() as int } else { 0 }
}

/// The first of `folds` whose hidden body holds `line`: the line a folded
/// block leaves on screen for a caret inside it.
pub open spec fn fold_covering(folds: Seq<Block>, line: int) -> Option<usize>
    decreases folds.len(),
{
    if folds.len() == 0 {
        None
    } else if folds[0].from < line <= folds[0].to {
        Some(folds[0].from)
    } else {
        fold_covering(folds.drop_first(), line)
    }
}

/// The first of `folds` that opens at `line`.
pub open spec fn fold_opening(folds: Seq<Block>, line: int) -> Option<usize>
    decreases folds.len(),
{
    if folds.len() == 0 {
        None
    } else if folds[0].from == line {
        Some(folds[0].to)
    } else {
        fold_opening(folds.drop_first(), line)
    }
}

fn holds(v: &Vec<usize>, x: usize) -> (r: bool)
    ensures
        r == v@.contains(x),
{
    let mut i: usize = 0;
    while i < v.len()
        invariant
            i <= v.len(),
            forall|j: int| 0 <= j < i ==> v@[j] != x,
        decreases v.len() - i,
    {
        if v[i] == x {
            assert(v@[i as int] == x);
            return true;
        }
        i = i + 1;
    }
    false
}

fn covering(folds: &Vec<Block>, line: usize) -> (r: Option<usize>)
    ensures
        r == fold_covering(folds@, line as int),
{
    let mut i: usize = 0;
    assert(folds@.skip(0) == folds@);
    while i < folds.len()
        invariant
            i <= folds.len(),
            fold_covering(folds@, line as int) == fold_covering(folds@.skip(i as int), line as int),
        decreases folds.len() - i,
    {
        assert(folds@.skip(i as int).drop_first() == folds@.skip(i + 1));
        assert(folds@.skip(i as int)[0] == folds@[i as int]);
        if folds[i].from < line && line <= folds[i].to {
            return Some(folds[i].from);
        }
        i = i + 1;
    }
    None
}

pub open spec fn is_ident(c: char) -> bool {
    alphanumeric(c) || c == '_'
}

/// Back from `i` to the first character of the identifier run it stands in.
pub open spec fn ident_back(t: Seq<char>, i: int) -> int
    decreases i,
{
    if i > 0 && 0 <= i - 1 < t.len() && is_ident(t[i - 1]) {
        ident_back(t, i - 1)
    } else {
        i
    }
}

/// Forward from `i` to the last character of the identifier run it stands in.
pub open spec fn ident_fwd(t: Seq<char>, i: int) -> int
    decreases t.len() - i,
{
    if 0 <= i && i + 1 < t.len() && is_ident(t[i + 1]) {
        ident_fwd(t, i + 1)
    } else {
        i
    }
}

/// The identifier run, as 1-based inclusive columns, around a column of a line.
pub open spec fn ident_span(t: Seq<char>, column: int) -> Option<(usize, usize)> {
    let at = column - 1;
    if column < 1 || at >= t.len() || !is_ident(t[at]) {
        None
    } else {
        Some(((ident_back(t, at) + 1) as usize, (ident_fwd(t, at) + 1) as usize))
    }
}

/// How many identifier characters end a run of text.
pub open spec fn trailing_ident(t: Seq<char>) -> int
    decreases t.len(),
{
    if t.len() > 0 && is_ident(t.last()) {
        trailing_ident(t.drop_last()) + 1
    } else {
        0
    }
}

/// A line with one carriage return at its end dropped, as `str::lines` does.
pub open spec fn strip_cr(l: Seq<char>) -> Seq<char> {
    if l.len() > 0 && l.last() == '\r' { l.drop_last() } else { l }
}

/// The lines `str::lines` yields: split at every break, a final break
/// optional, and the carriage return of a `\r\n` left off.
pub open spec fn std_lines(t: Seq<char>) -> Seq<Seq<char>> {
    let parts = if t.len() == 0 {
        Seq::empty()
    } else if t.last() == '\n' {
        split_lines(t).drop_last()
    } else {
        split_lines(t)
    };
    parts.map_values(|l: Seq<char>| strip_cr(l))
}

/// How many times a character occurs.
pub open spec fn count_of(t: Seq<char>, c: char) -> int
    decreases t.len(),
{
    if t.len() == 0 {
        0
    } else {
        count_of(t.drop_last(), c) + if t.last() == c { 1int } else { 0int }
    }
}

/// How many characters follow the last break, or the whole length without one.
pub open spec fn after_last_break(t: Seq<char>) -> int
    decreases t.len(),
{
    if t.len() == 0 || t.last() == '\n' {
        0
    } else {
        after_last_break(t.drop_last()) + 1
    }
}

/// The place before the last `tail` characters of a text.
pub open spec fn place_before_spec(t: Seq<char>, tail: int) -> Option<Place> {
    if tail > t.len() {
        None
    } else {
        let head = t.take(t.len() - tail);
        Some(Place {
            line: (count_of(head, '\n') + 1) as usize,
            column: (after_last_break(head) + 1) as usize,
        })
    }
}

/// Whole lines `from`..`to` (0-based, half-open), each with the break that
/// ends it.
pub open spec fn whole_lines(rows: Seq<Seq<char>>, from: int, to: int) -> Seq<char>
    decreases to - from,
{
    if from >= to {
        Seq::empty()
    } else {
        whole_lines(rows, from, to - 1) + rows[to - 1] + seq!['\n']
    }
}

/// A number as decimal digits.
pub open spec fn decimal(n: nat) -> Seq<char>
    decreases n,
{
    if n < 10 {
        seq![digit_char(n)]
    } else {
        decimal(n / 10).push(digit_char(n % 10))
    }
}

pub open spec fn digit_char(d: nat) -> char {
    if d == 0 { '0' } else if d == 1 { '1' } else if d == 2 { '2' } else if d == 3 { '3' }
    else if d == 4 { '4' } else if d == 5 { '5' } else if d == 6 { '6' } else if d == 7 { '7' }
    else if d == 8 { '8' } else { '9' }
}

fn digit(d: usize) -> (c: char)
    requires
        d < 10,
    ensures
        c == digit_char(d as nat),
{
    if d == 0 { '0' } else if d == 1 { '1' } else if d == 2 { '2' } else if d == 3 { '3' }
    else if d == 4 { '4' } else if d == 5 { '5' } else if d == 6 { '6' } else if d == 7 { '7' }
    else if d == 8 { '8' } else { '9' }
}

pub(crate) fn decimal_of(n: usize) -> (digits: Vec<char>)
    ensures
        digits@ == decimal(n as nat),
    decreases n,
{
    if n < 10 {
        let mut v = Vec::new();
        v.push(digit(n));
        v
    } else {
        let mut v = decimal_of(n / 10);
        v.push(digit(n % 10));
        v
    }
}

/// What a buffer is, as its contracts speak of it: the texts it holds as
/// characters, its registers as lines, and the caret and the rest as they are.
#[verifier::ext_equal]
pub struct Model {
    pub disk: Seq<char>,
    pub draft: Option<Seq<char>>,
    pub changed_on_disk: bool,
    pub line: usize,
    pub column: usize,
    pub row: usize,
    pub row_column: usize,
    pub previewing: bool,
    pub folded: Seq<usize>,
    pub mode: Mode,
    pub pending: Seq<char>,
    pub revision: u64,
    pub count: Option<usize>,
    pub anchor: usize,
    pub tab_width: usize,
    pub register: Seq<Seq<char>>,
    pub undo: Seq<Seq<char>>,
}

impl Model {
    /// What the buffer shows: the draft where there is one, else the disk.
    pub open spec fn text(self) -> Seq<char> {
        match self.draft {
            Some(d) => d,
            None => self.disk,
        }
    }

    /// The lines the buffer shows.
    pub open spec fn rows(self) -> Seq<Seq<char>> {
        split_lines(self.text())
    }

    /// The blocks this buffer has folded away, in the order the text opens them.
    pub open spec fn folds(self) -> Seq<Block> {
        if self.folded.len() == 0 {
            Seq::empty()
        } else {
            blocks_spec(self.text()).filter(|b: Block| self.folded.contains(b.from))
        }
    }

    /// Where `clamp` puts the caret's line: inside the text, and on the line a
    /// fold leaves showing when it would land in a folded body.
    pub open spec fn clamped_line(self) -> usize {
        let l = clamp_int(self.line as int, 1, if self.rows().len() >= 1 { self.rows().len() as int } else { 1 });
        match fold_covering(self.folds(), l) {
            Some(from) => from,
            None => l as usize,
        }
    }

    /// The last column the caret may stand in on `line`: one past the text in
    /// insert mode and on a line that opens a fold, the last character
    /// otherwise, and never less than one.
    pub open spec fn last_column(self, line: int) -> int {
        let width = width_of(self.rows(), line);
        let last = if self.mode == Mode::Insert || self.folded.contains(line as usize) {
            width + 1
        } else if width >= 1 {
            width
        } else {
            1
        };
        if last >= 1 { last } else { 1 }
    }

    /// The caret kept inside the text after any move or edit.
    pub open spec fn clamp(self) -> Model {
        Model {
            line: self.clamped_line(),
            column: clamp_int(self.column as int, 1, self.last_column(self.clamped_line() as int)) as usize,
            anchor: if self.mode == Mode::Visual {
                clamp_int(self.anchor as int, 1, if self.rows().len() >= 1 { self.rows().len() as int } else { 1 }) as usize
            } else {
                self.anchor
            },
            ..self
        }
    }

    /// A content change: the text becomes a draft, and the revision moves.
    pub open spec fn with_text(self, text: Seq<char>) -> Model {
        Model { draft: Some(text), revision: next_revision(self.revision), ..self }
    }

    /// What is shown goes on the undo stack.
    pub open spec fn remembered(self) -> Model {
        Model { undo: self.undo.push(self.text()), ..self }
    }

    /// The caret placed at a place, clamped.
    pub open spec fn placed(self, at: Place) -> Model {
        Model {
            line: if at.line >= 1 { at.line } else { 1 },
            column: if at.column >= 1 { at.column } else { 1 },
            ..self
        }.clamp()
    }

    /// The character to the left of the caret, then the one under it.
    pub open spec fn either_side(self) -> (Option<char>, Option<char>) {
        let row = if 1 <= self.line <= self.rows().len() { self.rows()[self.line - 1] } else { Seq::empty() };
        (
            if self.column >= 2 { crate::words::char_at(row, self.column - 2) } else { None },
            crate::words::char_at(row, self.column - 1),
        )
    }

    /// The caret as a place.
    pub open spec fn caret(self) -> Place {
        Place { line: self.line, column: self.column }
    }
}

#[derive(Debug, Clone, PartialEq, Eq)]
pub struct Buffer {
    pub disk: String,
    pub draft: Option<String>,
    pub changed_on_disk: bool,
    /// 1-based, as the scenarios describe it.
    pub line: usize,
    pub column: usize,
    /// Which row of the Preview the cursor is on, 1-based, while this buffer
    /// is previewing. A separate cursor from `line`: a row is not a line.
    pub row: usize,
    /// Which column of the rendered row the cursor is on, 1-based.
    pub row_column: usize,
    /// Whether this buffer is read as the document it describes rather than
    /// as the characters it holds.
    pub previewing: bool,
    /// The lines that open the blocks folded away in this buffer, 1-based.
    pub folded: Vec<usize>,
    pub mode: Mode,
    /// The operator keys typed so far, waiting for what completes them: the
    /// `d` of `dd`, the `g` of `gg`, the `dg` of `dgg`.
    pub pending: String,
    /// Bumped on every content change, so a cached parse can be invalidated
    /// without comparing the text.
    pub revision: u64,
    /// Digits typed so far, so `3j` moves three lines.
    pub count: Option<usize>,
    /// Where a linewise visual selection started.
    pub anchor: usize,
    /// `editor.tab_width` as it stood when this file was opened, and the width
    /// the indent unit falls back to.
    pub tab_width: usize,
    /// The unnamed register, one entry per line it holds.
    pub register: Vec<String>,
    /// What the buffer showed before each edit, newest last.
    pub undo: Vec<String>,
}

impl View for Buffer {
    type V = Model;

    open spec fn view(&self) -> Model {
        Model {
            disk: self.disk@,
            draft: match self.draft {
                Some(d) => Some(d@),
                None => None,
            },
            changed_on_disk: self.changed_on_disk,
            line: self.line,
            column: self.column,
            row: self.row,
            row_column: self.row_column,
            previewing: self.previewing,
            folded: self.folded@,
            mode: self.mode,
            pending: self.pending@,
            revision: self.revision,
            count: self.count,
            anchor: self.anchor,
            tab_width: self.tab_width,
            register: self.register@.map_values(|l: String| l@),
            undo: self.undo@.map_values(|l: String| l@),
        }
    }
}

/// What a buffer freshly opened over `contents` is: nothing typed yet, the
/// cursor at the start, at its first revision.
pub open spec fn opened(contents: Seq<char>, previewing: bool, tab_width: usize) -> Model {
    Model {
        disk: contents,
        draft: None,
        changed_on_disk: false,
        line: 1,
        column: 1,
        row: 1,
        row_column: 1,
        previewing,
        folded: Seq::empty(),
        mode: Mode::Normal,
        pending: Seq::empty(),
        revision: 1,
        count: None,
        anchor: 0,
        tab_width,
        register: Seq::empty(),
        undo: Seq::empty(),
    }
}

impl Buffer {
    /// A buffer over what a file holds, nothing typed yet, the cursor at its
    /// start. Reading the file is itself a content event, so the buffer is at
    /// its first revision rather than at none.
    pub fn open(contents: &str, previewing: bool, tab_width: usize) -> (b: Self)
        ensures
            b@ == (Model {
                disk: contents@,
                draft: None,
                changed_on_disk: false,
                line: 1,
                column: 1,
                row: 1,
                row_column: 1,
                previewing,
                folded: Seq::empty(),
                mode: Mode::Normal,
                pending: Seq::empty(),
                revision: 1,
                count: None,
                anchor: 0,
                tab_width,
                register: Seq::empty(),
                undo: Seq::empty(),
            }),
    {
        let b = Self {
            disk: owned(contents),
            draft: None,
            changed_on_disk: false,
            tab_width,
            line: 1,
            column: 1,
            row: 1,
            row_column: 1,
            previewing,
            folded: Vec::new(),
            mode: Mode::Normal,
            pending: String::new(),
            revision: 1,
            count: None,
            anchor: 0,
            register: Vec::new(),
            undo: Vec::new(),
        };
        assert(b@ =~= (Model {
            disk: contents@,
            draft: None,
            changed_on_disk: false,
            line: 1,
            column: 1,
            row: 1,
            row_column: 1,
            previewing,
            folded: Seq::empty(),
            mode: Mode::Normal,
            pending: Seq::empty(),
            revision: 1,
            count: None,
            anchor: 0,
            tab_width,
            register: Seq::empty(),
            undo: Seq::empty(),
        }));
        b
    }

    /// What the buffer shows: the draft where there is one, else the disk.
    pub fn shown(&self) -> (s: &str)
        ensures
            s@ == self@.text(),
    {
        match &self.draft {
            Some(draft) => draft.as_str(),
            None => self.disk.as_str(),
        }
    }

    /// Whether the buffer holds unsaved work.
    pub fn is_dirty(&self) -> (dirty: bool)
        ensures
            dirty == self@.draft is Some,
    {
        self.draft.is_some()
    }

    /// The revision a cached parse of this buffer was taken at.
    pub fn revision(&self) -> (r: u64)
        ensures
            r == self@.revision,
    {
        self.revision
    }

    /// The lines the buffer shows, each as its characters.
    fn lines(&self) -> (lines: Vec<Vec<char>>)
        ensures
            lines.deep_view() == self@.rows(),
            lines.len() >= 1,
            self@.text().len() <= isize::MAX,
            fits_usize(self@.rows()),
            join_lines(self@.rows()) == self@.text(),
            crate::text::unbroken(self@.rows()),
            forall|i: int| 0 <= i < self@.rows().len() ==> #[trigger] self@.rows()[i].len() <= self@.text().len(),
    {
        let shown = self.shown();
        crate::text::bounded(shown);
        let text = chars_of(shown);
        let lines = split_text(&text);
        proof {
            crate::text::lemma_split_len(self@.text());
            crate::text::lemma_join_split(self@.text());
            assert forall|i: int| 0 <= i < self@.rows().len() implies #[trigger] self@.rows()[i].len() <= self@.text().len() by {
                lemma_prefix_fits(self@.rows(), i);
            }
        }
        lines
    }

    /// The blocks this buffer has folded away.
    fn folds(&self) -> (found: Vec<Block>)
        ensures
            found@ == self@.folds(),
    {
        if self.folded.len() == 0 {
            return Vec::new();
        }
        let all = blocks(self.shown());
        let mut found: Vec<Block> = Vec::new();
        let mut i: usize = 0;
        while i < all.len()
            invariant
                i <= all.len(),
                self.folded@.len() > 0,
                all@ == blocks_spec(self@.text()),
                found@ == all@.take(i as int).filter(|b: Block| self.folded@.contains(b.from)),
            decreases all.len() - i,
        {
            let block = all[i];
            proof {
                assert(all@.take(i + 1).drop_last() == all@.take(i as int));
                reveal(Seq::filter);
                assert(all@.take(i + 1).last() == block);
            }
            if holds(&self.folded, block.from) {
                found.push(block);
            }
            i = i + 1;
        }
        assert(all@.take(all.len() as int) == all@);
        found
    }

    /// The last line a fold hides under `line`, or `line` itself when nothing
    /// is folded there — what `j` and the down arrow step over.
    fn past_fold(&self, line: usize) -> (last: usize)
        ensures
            last == (match fold_opening(self@.folds(), line as int) {
                Some(to) => to,
                None => line,
            }),
    {
        let folds = self.folds();
        let mut i: usize = 0;
        assert(folds@.skip(0) == folds@);
        while i < folds.len()
            invariant
                i <= folds.len(),
                folds@ == self@.folds(),
                fold_opening(folds@, line as int) == fold_opening(folds@.skip(i as int), line as int),
            decreases folds.len() - i,
        {
            assert(folds@.skip(i as int).drop_first() == folds@.skip(i + 1));
            assert(folds@.skip(i as int)[0] == folds@[i as int]);
            if folds[i].from == line {
                return folds[i].to;
            }
            i = i + 1;
        }
        line
    }

    /// Keeps the cursor inside the text after any move or edit — and, while
    /// anything is folded, on a line that is actually drawn.
    fn clamp(&mut self)
        ensures
            final(self)@ == old(self)@.clamp(),
    {
        let lines = self.lines();
        let n = lines.len();
        let line = if self.line < 1 { 1 } else if self.line > n { n } else { self.line };
        let folds = self.folds();
        let showing = covering(&folds, line);
        self.line = match showing {
            Some(from) => from,
            None => line,
        };
        proof {
            crate::text::lemma_split_len(self@.text());
        }
        let width = if self.line >= 1 && self.line <= n { lines[self.line - 1].len() } else { 0 };
        assert(width == width_of(old(self)@.rows(), self.line as int)) by {
            if self.line >= 1 && self.line <= n {
                assert(lines@[self.line - 1]@ == old(self)@.rows()[self.line - 1]);
            }
        }
        if self.mode == Mode::Visual {
            self.anchor = if self.anchor < 1 { 1 } else if self.anchor > n { n } else { self.anchor };
        }
        let last = if self.mode == Mode::Insert || holds(&self.folded, self.line) {
            width + 1
        } else if width >= 1 {
            width
        } else {
            1
        };
        self.column = if self.column < 1 { 1 } else if self.column > last { last } else { self.column };
        assert(self@ =~= old(self)@.clamp());
    }

    /// Every content change goes through here, which is what makes `revision`
    /// trustworthy.
    fn set(&mut self, lines: &Vec<Vec<char>>)
        ensures
            final(self)@ == old(self)@.with_text(join_lines(lines.deep_view())),
    {
        let text = join_text(lines);
        self.draft = Some(string_of(text.as_slice()));
        self.revision = if self.revision == u64::MAX { 0 } else { self.revision + 1 };
        assert(self@ =~= old(self)@.with_text(join_lines(lines.deep_view())));
    }

    /// What is shown goes on the undo stack.
    fn remember(&mut self)
        ensures
            final(self)@ == old(self)@.remembered(),
    {
        let now = owned(self.shown());
        let ghost before = self.undo@.map_values(|l: String| l@);
        self.undo.push(now);
        assert(self.undo@.map_values(|l: String| l@) =~= before.push(old(self)@.text()));
        assert(self@ =~= old(self)@.remembered());
    }

    /// The file changed underneath. A clean buffer follows it; a dirty one is
    /// flagged instead and keeps its draft, because unsaved work is never
    /// overwritten by something the user did not do. Following the file is a
    /// content change, so the revision moves.
    pub fn follow(&mut self, contents: String)
        ensures
            final(self)@ == (Model {
                disk: contents@,
                changed_on_disk: old(self)@.draft is Some,
                revision: next_revision(old(self)@.revision),
                ..old(self)@
            }).clamp(),
    {
        self.disk = contents;
        self.changed_on_disk = self.draft.is_some();
        self.revision = if self.revision == u64::MAX { 0 } else { self.revision + 1 };
        self.clamp();
    }

    /// Take the version on disk and drop the draft — the user's answer to a
    /// divergence, and what `:e` does.
    pub fn reload(&mut self)
        ensures
            final(self)@ == (Model {
                draft: None,
                changed_on_disk: false,
                revision: next_revision(old(self)@.revision),
                ..old(self)@
            }).clamp(),
    {
        self.draft = None;
        self.changed_on_disk = false;
        self.revision = if self.revision == u64::MAX { 0 } else { self.revision + 1 };
        self.clamp();
    }

    /// Puts the cursor at a place, clamped to the buffer — used after a jump
    /// and after a click, which can land past the end of a short line.
    pub fn go_to_place(&mut self, at: Place)
        ensures
            final(self)@ == old(self)@.placed(at),
    {
        self.line = if at.line >= 1 { at.line } else { 1 };
        self.column = if at.column >= 1 { at.column } else { 1 };
        self.clamp();
    }

    /// Back to normal mode, with nothing half-typed.
    pub fn escape(&mut self)
        ensures
            final(self)@ == (Model { mode: Mode::Normal, pending: Seq::empty(), count: None, ..old(self)@ }).clamp(),
    {
        self.mode = Mode::Normal;
        self.pending = String::new();
        self.count = None;
        self.clamp();
    }

    /// The half-typed operator, so the app can claim `gt`/`gT` before the
    /// buffer sees them.
    pub fn pending(&self) -> (p: &str)
        ensures
            p@ == self@.pending,
    {
        self.pending.as_str()
    }

    pub fn clear_pending(&mut self)
        ensures
            final(self)@ == (Model { pending: Seq::empty(), ..old(self)@ }),
    {
        self.pending = String::new();
        assert(self@ =~= (Model { pending: Seq::empty(), ..old(self)@ }));
    }

    /// The half-typed command for the indicator at the bottom of the editor:
    /// the count typed so far, then the operator keys.
    pub fn pending_command(&self) -> (shown: String)
        ensures
            shown@ == (match self@.count {
                Some(n) => decimal(n as nat),
                None => Seq::empty(),
            }) + self@.pending,
    {
        let mut shown: Vec<char> = Vec::new();
        if let Some(count) = self.count {
            shown = decimal_of(count);
        }
        let pending = chars_of(self.pending.as_str());
        extend(&mut shown, &pending);
        string_of(shown.as_slice())
    }

    /// The lines a visual selection covers, low to high.
    pub fn selected_lines(&self) -> (span: Option<(usize, usize)>)
        ensures
            span == (if self@.mode == Mode::Visual {
                Some((
                    if self@.anchor <= self@.line { self@.anchor } else { self@.line },
                    if self@.anchor >= self@.line { self@.anchor } else { self@.line },
                ))
            } else {
                None
            }),
    {
        if self.mode == Mode::Visual {
            Some((
                if self.anchor <= self.line { self.anchor } else { self.line },
                if self.anchor >= self.line { self.anchor } else { self.line },
            ))
        } else {
            None
        }
    }

    /// The text a charwise span covers, both ends included.
    pub fn text_in(&self, from: Place, to: Place) -> (text: String)
        requires
            span_ok(self@.rows(), from),
        ensures
            text@ == span_spec(self@.rows(), from, to),
    {
        let lines = self.lines();
        string_of(span_chars(&lines, from, to).as_slice())
    }

    /// The text a linewise span covers: whole lines, each with the break that
    /// ends it, both ends included.
    pub fn lines_in(&self, from: usize, to: usize) -> (text: String)
        requires
            from >= 1,
            to + 1 >= from,
        ensures
            text@ == whole_lines(
                self@.rows(),
                if from - 1 <= self@.rows().len() { from - 1 } else { self@.rows().len() as int },
                if to <= self@.rows().len() { to as int } else { self@.rows().len() as int },
            ),
    {
        let lines = self.lines();
        let start = if from - 1 <= lines.len() { from - 1 } else { lines.len() };
        let end = if to <= lines.len() { to } else { lines.len() };
        let ghost rows = self@.rows();
        let mut text: Vec<char> = Vec::new();
        let mut i = start;
        while i < end
            invariant
                start <= i <= end || (end < start && i == start),
                end <= lines.len(),
                rows == lines.deep_view(),
                text@ == whole_lines(rows, start as int, i as int),
            decreases end - i,
        {
            assert(lines@[i as int]@ == rows[i as int]);
            extend(&mut text, &lines[i]);
            text.push('\n');
            i = i + 1;
        }
        assert(text@ == whole_lines(rows, start as int, end as int)) by {
            if end < start {
                assert(whole_lines(rows, start as int, end as int) == Seq::<char>::empty());
            }
        }
        string_of(text.as_slice())
    }

    /// The unnamed register's contents, its lines joined by breaks.
    pub fn register_text(&self) -> (text: Option<String>)
        ensures
            match text {
                Some(t) => self@.register.len() > 0 && t@ == join_lines(self@.register),
                None => self@.register.len() == 0,
            },
    {
        if self.register.len() == 0 {
            return None;
        }
        let lines = char_lines(self.register.as_slice());
        Some(string_of(join_text(&lines).as_slice()))
    }

    /// Copies a charwise span into the register, one entry per line it covers.
    pub fn yank_in(&mut self, from: Place, to: Place)
        requires
            span_ok(old(self)@.rows(), from),
        ensures
            final(self)@ == (Model { register: split_lines(span_spec(old(self)@.rows(), from, to)), ..old(self)@ }),
    {
        let lines = self.lines();
        let text = span_chars(&lines, from, to);
        let pieces = split_text(&text);
        self.register = strings_of(&pieces);
        assert(self@ =~= (Model { register: split_lines(span_spec(old(self)@.rows(), from, to)), ..old(self)@ }));
    }

    /// Whether a place is the glyph a fold leaves at the end of the line that
    /// opens it: the one column past the text `clamp` allows there and nowhere
    /// else.
    pub fn fold_dots_at(&self, line: usize, column: usize) -> (dots: bool)
        ensures
            dots == (self@.folded.contains(line)
                && column > width_of(self@.rows(), if line >= 1 { line as int } else { 1 })),
    {
        if !holds(&self.folded, line) {
            return false;
        }
        let lines = self.lines();
        let index = if line >= 1 { line - 1 } else { 0 };
        let width = if index < lines.len() { lines[index].len() } else { 0 };
        assert(index < lines.len() ==> lines@[index as int]@ == self@.rows()[index as int]);
        column > width
    }

    /// Whether the caret is on those dots — where Enter opens the block.
    pub fn on_fold_dots(&self) -> (dots: bool)
        ensures
            dots == (self@.mode != Mode::Insert && self@.folded.contains(self@.line)
                && self@.column > width_of(self@.rows(), if self@.line >= 1 { self@.line as int } else { 1 })),
    {
        self.mode != Mode::Insert && self.fold_dots_at(self.line, self.column)
    }

    /// Arrows move in every mode, unlike `hjkl` which only move in normal mode;
    /// down steps over a folded block in one press.
    pub fn arrow(&mut self, direction: crate::Direction)
        requires
            direction == crate::Direction::Right ==> old(self)@.column < usize::MAX,
            direction == crate::Direction::Down ==> old(self)@.line < usize::MAX,
        ensures
            final(self)@ == (match direction {
                crate::Direction::Left => Model {
                    column: if old(self)@.column >= 2 { (old(self)@.column - 1) as usize } else { 1 },
                    ..old(self)@
                },
                crate::Direction::Right => Model { column: (old(self)@.column + 1) as usize, ..old(self)@ },
                crate::Direction::Up => Model {
                    line: if old(self)@.line >= 2 { (old(self)@.line - 1) as usize } else { 1 },
                    ..old(self)@
                },
                crate::Direction::Down => Model {
                    line: (match fold_opening(old(self)@.folds(), old(self)@.line as int) {
                        Some(to) => to,
                        None => old(self)@.line,
                    } + 1) as usize,
                    ..old(self)@
                },
            }).clamp(),
    {
        match direction {
            crate::Direction::Left => self.column = if self.column >= 2 { self.column - 1 } else { 1 },
            crate::Direction::Right => self.column = self.column + 1,
            crate::Direction::Up => self.line = if self.line >= 2 { self.line - 1 } else { 1 },
            crate::Direction::Down => {
                crate::text::bounded(self.shown());
                let last = self.past_fold(self.line);
                proof {
                    self@.lemma_fold_opening_fits(self@.line as int);
                }
                self.line = last + 1;
            },
        }
        self.clamp();
    }

    /// The columns of the identifier at a place, 1-based and inclusive —
    /// nothing when that place holds no identifier character at all.
    pub fn word_span(&self, line: usize, column: usize) -> (span: Option<(usize, usize)>)
        ensures
            span == (if 1 <= line <= self@.rows().len() {
                ident_span(self@.rows()[line - 1], column as int)
            } else {
                None
            }),
    {
        let lines = self.lines();
        if line < 1 || line > lines.len() {
            return None;
        }
        let text = &lines[line - 1];
        assert(text@ == self@.rows()[line - 1]);
        if column < 1 || column - 1 >= text.len() || !ident_char(text[column - 1]) {
            return None;
        }
        let at = column - 1;
        let mut from = at;
        while from > 0 && ident_char(text[from - 1])
            invariant
                from <= at < text.len(),
                ident_back(text@, at as int) == ident_back(text@, from as int),
            decreases from,
        {
            from = from - 1;
        }
        let mut to = at;
        while to + 1 < text.len() && ident_char(text[to + 1])
            invariant
                at <= to < text.len(),
                ident_fwd(text@, at as int) == ident_fwd(text@, to as int),
            decreases text.len() - to,
        {
            to = to + 1;
        }
        Some((from + 1, to + 1))
    }

    /// The identifier the cursor sits in — what `*` searches for. A cursor past
    /// the last character of a line is pulled back onto it.
    pub fn word_at_cursor(&self) -> (word: Option<String>)
        requires
            self.line >= 1,
        ensures
            match word {
                Some(w) => self.line <= self@.rows().len() && ({
                    let t = self@.rows()[self.line - 1];
                    let c = if self.column <= t.len() { self.column as int } else { t.len() as int };
                    ident_span(t, c) matches Some((from, to)) && w@ == t.subrange(from - 1, to as int)
                }),
                None => self.line > self@.rows().len() || ({
                    let t = self@.rows()[self.line - 1];
                    let c = if self.column <= t.len() { self.column as int } else { t.len() as int };
                    ident_span(t, c) is None
                }),
            },
    {
        let lines = self.lines();
        if self.line > lines.len() {
            return None;
        }
        let text = &lines[self.line - 1];
        assert(text@ == self@.rows()[self.line - 1]);
        let column = if self.column <= text.len() { self.column } else { text.len() };
        match self.word_span(self.line, column) {
            Some((from, to)) => {
                proof {
                    lemma_ident_span_bounds(text@, column as int);
                }
                Some(string_of(slice_of(text, from - 1, to).as_slice()))
            },
            None => None,
        }
    }

    /// Where the name before a place starts, 1-based — the run of identifier
    /// characters back from it, or that place when there is none. What a
    /// completion replaces and what the candidate list is narrowed by.
    pub fn word_start(&self, line: usize, column: usize) -> (start: usize)
        requires
            line >= 1,
            column >= 1,
        ensures
            start == (if line <= std_lines(self@.text()).len() {
                let t = std_lines(self@.text())[line - 1];
                column - trailing_ident(t.take(min_int(column - 1, t.len() as int)))
            } else {
                column as int
            }),
    {
        let lines = self.lines();
        let ghost all = std_lines(self@.text());
        let ends_with_break = {
            let l = lines.len();
            if l >= 2 && lines[l - 1].len() == 0 {
                true
            } else {
                false
            }
        };
        proof {
            lemma_std_lines(self@.text());
        }
        let count = if self.text_is_empty() { 0 } else if ends_with_break { lines.len() - 1 } else { lines.len() };
        if line > count {
            return column;
        }
        let raw = &lines[line - 1];
        let text = strip_cr_exec(raw);
        assert(text@ == all[line - 1]);
        let before = if column - 1 <= text.len() { column - 1 } else { text.len() };
        let mut name: usize = 0;
        while name < before && ident_char(text[before - 1 - name])
            invariant
                name <= before <= text.len(),
                before <= column - 1,
                trailing_ident(text@.take(before as int)) == name + trailing_ident(text@.take(before - name)),
            decreases before - name,
        {
            assert(text@.take(before - name).drop_last() == text@.take(before - name - 1));
            name = name + 1;
        }
        assert(trailing_ident(text@.take(before - name)) == 0) by {
            if name < before {
                assert(text@.take(before - name).last() == text@[before - 1 - name]);
            }
        }
        column - name
    }

    fn text_is_empty(&self) -> (empty: bool)
        ensures
            empty == (self@.text().len() == 0),
    {
        self.shown().unicode_len() == 0
    }

    /// Where a [`Tail`] sits, as a line and a column — or nothing at all, when
    /// the buffer has since lost the text that measured it.
    pub fn place_before(&self, tail: Tail) -> (place: Option<Place>)
        ensures
            place == place_before_spec(self@.text(), tail.0 as int),
    {
        let text = chars_of(self.shown());
        crate::text::bounded(self.shown());
        if tail.0 > text.len() {
            return None;
        }
        let keep = text.len() - tail.0;
        let mut breaks: usize = 0;
        let mut run: usize = 0;
        let mut i: usize = 0;
        while i < keep
            invariant
                i <= keep <= text.len() <= isize::MAX,
                breaks == count_of(text@.take(i as int), '\n'),
                run == after_last_break(text@.take(i as int)),
                breaks <= i && run <= i,
            decreases keep - i,
        {
            assert(text@.take(i + 1).drop_last() == text@.take(i as int));
            if text[i] == '\n' {
                breaks = breaks + 1;
                run = 0;
            } else {
                run = run + 1;
            }
            i = i + 1;
        }
        Some(Place { line: breaks + 1, column: run + 1 })
    }

    /// Pops the undo stack: the text before the last edit comes back, as a
    /// draft unless it is what the disk holds.
    pub fn undo(&mut self)
        ensures
            final(self)@ == old(self)@.undone(),
    {
        let ghost before = self.undo@.map_values(|l: String| l@);
        if let Some(previous) = self.undo.pop() {
            self.draft = if previous != self.disk { Some(previous) } else { None };
            self.revision = if self.revision == u64::MAX { 0 } else { self.revision + 1 };
            assert(self.undo@.map_values(|l: String| l@) =~= before.drop_last());
        }
        assert(self@ =~= old(self)@.undone());
    }

    /// `:w`. What the buffer shows becomes what is on disk, the divergence flag
    /// is settled, and the text goes back to the caller to write.
    pub fn write(&mut self) -> (contents: String)
        ensures
            contents@ == old(self)@.text(),
            final(self)@ == (Model {
                disk: old(self)@.text(),
                draft: None,
                changed_on_disk: false,
                revision: next_revision(old(self)@.revision),
                ..old(self)@
            }),
    {
        let contents = owned(self.shown());
        self.disk = owned(contents.as_str());
        self.draft = None;
        self.changed_on_disk = false;
        self.revision = if self.revision == u64::MAX { 0 } else { self.revision + 1 };
        contents
    }
}

impl Model {
    /// The undo stack popped: the text before the last edit comes back, as a
    /// draft unless it is what the disk holds.
    pub open spec fn undone(self) -> Model {
        if self.undo.len() == 0 {
            self
        } else {
            let previous = self.undo.last();
            Model {
                undo: self.undo.drop_last(),
                draft: if previous != self.disk { Some(previous) } else { None },
                revision: next_revision(self.revision),
                ..self
            }
        }
    }

    /// A block folded under a line ends no later than the text does.
    pub proof fn lemma_fold_opening_fits(self, line: int)
        requires
            self.text().len() <= isize::MAX,
        ensures
            match fold_opening(self.folds(), line) {
                Some(to) => to <= isize::MAX + 1,
                None => true,
            },
    {
        lemma_fold_opening_bound(self.folds(), line);
        if let Some(to) = fold_opening(self.folds(), line) {
            let i = choose|i: int| 0 <= i < self.folds().len() && self.folds()[i].to == to;
            let b = self.folds()[i];
            blocks_spec(self.text()).lemma_filter_contains_rev(|b: Block| self.folded.contains(b.from), b);
            crate::text::lemma_split_count(self.text());
            crate::fold::lemma_blocks_within(self.text());
        }
    }
}

pub open spec fn min_int(a: int, b: int) -> int {
    if a <= b { a } else { b }
}

pub(crate) fn ident_char(c: char) -> (r: bool)
    ensures
        r == is_ident(c),
{
    is_alphanumeric(c) || c == '_'
}

fn strip_cr_exec(l: &Vec<char>) -> (r: Vec<char>)
    ensures
        r@ == strip_cr(l@),
{
    if l.len() > 0 && l[l.len() - 1] == '\r' {
        slice_of(l, 0, l.len() - 1)
    } else {
        slice_of(l, 0, l.len())
    }
}

proof fn lemma_std_lines(t: Seq<char>)
    ensures
        t.len() > 0 && t.last() == '\n' ==> split_lines(t).len() >= 2 && split_lines(t).last().len() == 0,
        t.len() > 0 && t.last() != '\n' ==> split_lines(t).last().len() > 0,
        t.len() == 0 ==> split_lines(t).len() == 1 && split_lines(t)[0].len() == 0,
{
    if t.len() > 0 {
        crate::text::lemma_split_len(t.drop_last());
    }
}

proof fn lemma_fold_opening_bound(folds: Seq<Block>, line: int)
    ensures
        match fold_opening(folds, line) {
            Some(to) => exists|i: int| 0 <= i < folds.len() && folds[i].to == to,
            None => true,
        },
    decreases folds.len(),
{
    if folds.len() > 0 && folds[0].from != line {
        lemma_fold_opening_bound(folds.drop_first(), line);
        if let Some(to) = fold_opening(folds.drop_first(), line) {
            let i = choose|i: int| 0 <= i < folds.drop_first().len() && folds.drop_first()[i].to == to;
            assert(folds[i + 1].to == to);
        }
    }
}

proof fn lemma_ident_span_bounds(t: Seq<char>, column: int)
    requires
        t.len() <= usize::MAX,
    ensures
        ident_span(t, column) matches Some((from, to)) ==> 1 <= from <= to <= t.len(),
{
    if ident_span(t, column) is Some {
        lemma_ident_back(t, column - 1);
        lemma_ident_fwd(t, column - 1);
    }
}

proof fn lemma_ident_back(t: Seq<char>, i: int)
    requires
        0 <= i,
    ensures
        0 <= ident_back(t, i) <= i,
    decreases i,
{
    if i > 0 && 0 <= i - 1 < t.len() && is_ident(t[i - 1]) {
        lemma_ident_back(t, i - 1);
    }
}

proof fn lemma_ident_fwd(t: Seq<char>, i: int)
    requires
        0 <= i < t.len(),
    ensures
        i <= ident_fwd(t, i) < t.len(),
    decreases t.len() - i,
{
    if i + 1 < t.len() && is_ident(t[i + 1]) {
        lemma_ident_fwd(t, i + 1);
    }
}

/// Each line as a string.
fn strings_of(lines: &Vec<Vec<char>>) -> (r: Vec<String>)
    ensures
        r@.map_values(|l: String| l@) == lines.deep_view(),
{
    let mut r: Vec<String> = Vec::new();
    let mut i: usize = 0;
    while i < lines.len()
        invariant
            i <= lines.len(),
            r@.map_values(|l: String| l@) == lines.deep_view().take(i as int),
        decreases lines.len() - i,
    {
        let ghost before = r@.map_values(|l: String| l@);
        r.push(string_of(lines[i].as_slice()));
        assert(r@.map_values(|l: String| l@) =~~= before.push(lines.deep_view()[i as int]));
        assert(lines.deep_view().take(i + 1) =~~= lines.deep_view().take(i as int).push(lines.deep_view()[i as int]));
        i = i + 1;
    }
    assert(lines.deep_view().take(lines.len() as int) =~~= lines.deep_view());
    r
}

/// The indentation a line offers as a unit: its leading whitespace, where it
/// has any and the line is not blank.
pub open spec fn candidate(line: Seq<char>) -> Option<Seq<char>> {
    if blank(line) || crate::text::leading_space(line).len() == 0 {
        None
    } else {
        Some(crate::text::leading_space(line))
    }
}

/// The shallowest indentation the lines hold, measured in bytes — the first
/// of the shallowest where several tie.
pub open spec fn shallowest(rows: Seq<Seq<char>>) -> Option<Seq<char>>
    decreases rows.len(),
{
    if rows.len() == 0 {
        None
    } else {
        let rest = shallowest(rows.drop_first());
        match candidate(rows[0]) {
            None => rest,
            Some(w) => match rest {
                None => Some(w),
                Some(r) => if byte_len(w) <= byte_len(r) { Some(w) } else { Some(r) },
            },
        }
    }
}

/// One level of indentation, taken from the shallowest the file already has,
/// and `fallback` spaces only where the file holds nothing to measure.
pub open spec fn indent_unit_spec(rows: Seq<Seq<char>>, fallback: usize) -> Seq<char> {
    match shallowest(rows) {
        Some(w) => w,
        None => Seq::new(fallback as nat, |i: int| ' '),
    }
}

fn bytes_of(s: &Vec<char>) -> (n: u128)
    requires
        s.len() <= usize::MAX,
    ensures
        n == byte_len(s@),
{
    let mut n: u128 = 0;
    let mut i: usize = 0;
    while i < s.len()
        invariant
            i <= s.len() <= usize::MAX,
            n == byte_len(s@.take(i as int)),
            n <= 4 * i,
        decreases s.len() - i,
    {
        assert(s@.take(i + 1).drop_last() == s@.take(i as int));
        n = n + char_bytes(s[i]) as u128;
        i = i + 1;
    }
    assert(s@.take(s.len() as int) == s@);
    n
}

fn spaces(n: usize) -> (v: Vec<char>)
    ensures
        v@ == Seq::new(n as nat, |i: int| ' '),
{
    let mut v: Vec<char> = Vec::new();
    let mut i: usize = 0;
    while i < n
        invariant
            i <= n,
            v@ == Seq::new(i as nat, |k: int| ' '),
        decreases n - i,
    {
        v.push(' ');
        i = i + 1;
        assert(v@ =~= Seq::new(i as nat, |k: int| ' '));
    }
    v
}

fn candidate_of(line: &Vec<char>) -> (c: Option<Vec<char>>)
    ensures
        match c {
            Some(w) => candidate(line@) == Some(w@),
            None => candidate(line@) is None,
        },
{
    if is_blank(line) {
        return None;
    }
    let end = leading_end(line, 0);
    if end == 0 {
        return None;
    }
    Some(slice_of(line, 0, end))
}

/// One level of indentation, taken from the shallowest the file already has.
/// It has to come from the file rather than from a number; `fallback` is
/// `editor.tab_width`, reached only where the file holds nothing to measure.
fn indent_unit(lines: &Vec<Vec<char>>, fallback: usize) -> (unit: Vec<char>)
    ensures
        unit@ == indent_unit_spec(lines.deep_view(), fallback),
{
    let ghost view = lines.deep_view();
    let mut best: Option<Vec<char>> = None;
    let mut i = lines.len();
    assert(view.skip(lines.len() as int) =~= Seq::<Seq<char>>::empty());
    while i > 0
        invariant
            i <= lines.len(),
            view == lines.deep_view(),
            match best {
                Some(b) => shallowest(view.skip(i as int)) == Some(b@),
                None => shallowest(view.skip(i as int)) is None,
            },
        decreases i,
    {
        i = i - 1;
        assert(view.skip(i as int).drop_first() =~= view.skip(i + 1));
        assert(view.skip(i as int)[0] == view[i as int]);
        assert(lines@[i as int]@ == view[i as int]);
        match candidate_of(&lines[i]) {
            None => {},
            Some(w) => {
                best = match best {
                    None => Some(w),
                    Some(r) => {
                        if bytes_of(&w) <= bytes_of(&r) {
                            Some(w)
                        } else {
                            Some(r)
                        }
                    },
                };
            },
        }
    }
    assert(view.skip(0) =~= view);
    match best {
        Some(b) => b,
        None => spaces(fallback),
    }
}

/// A copy of a line.
fn copied(v: &Vec<char>) -> (r: Vec<char>)
    ensures
        r@ == v@,
{
    slice_of(v, 0, v.len())
}

/// A line replaced.
fn put_line(lines: &mut Vec<Vec<char>>, k: usize, row: Vec<char>)
    requires
        k < old(lines).len(),
    ensures
        final(lines).deep_view() == old(lines).deep_view().update(k as int, row@),
        final(lines).len() == old(lines).len(),
{
    let ghost r = row@;
    lines.set(k, row);
    assert(lines.deep_view() =~~= old(lines).deep_view().update(k as int, r));
}

impl Model {
    /// Everything an edit at the caret asks of it: a real line of the text and
    /// a real column, with room for one more.
    pub open spec fn caret_ok(self) -> bool {
        &&& 1 <= self.line <= self.rows().len()
        &&& 1 <= self.column < usize::MAX
        &&& self.tab_width <= isize::MAX
    }

    /// Typing one character in insert mode.
    pub open spec fn typed(self, key: char) -> Model {
        let (left, right) = self.either_side();
        if right == Some(key) && is_closer(key) {
            Model { column: (self.column + 1) as usize, ..self }
        } else if key == '\n' {
            self.broken(left, right)
        } else {
            let row = self.rows()[self.line - 1];
            let p = min_int(self.column - 1, row.len() as int);
            let typed = row.insert(p, key);
            let word = left matches Some(c) && alphanumeric(c);
            let paired = match closes_spec(key) {
                Some(close) => if !(word && close == key) { typed.insert(p + 1, close) } else { typed },
                None => typed,
            };
            Model { column: (self.column + 1) as usize, ..self.remembered() }.with_text(
                join_lines(self.rows().update(self.line - 1, paired)),
            )
        }
    }

    /// Enter: the line splits at the caret and the new one keeps its place, its
    /// indentation copied; between the halves of a bracket pair it opens a
    /// block a level deeper.
    pub open spec fn broken(self, left: Option<char>, right: Option<char>) -> Model {
        let rows = self.rows();
        let row = rows[self.line - 1];
        let at = min_int(self.column - 1, row.len() as int);
        let head = row.take(at);
        let tail = row.skip(at);
        let indent = crate::text::leading_space(head);
        let block = match (left, right) {
            (Some(open), Some(close)) => closes_spec(open) == Some(close) && open != close,
            _ => false,
        };
        let deeper = if block { indent_unit_spec(rows, self.tab_width) } else { Seq::empty() };
        let split = if block {
            seq![head, indent + deeper, indent + tail]
        } else {
            seq![head, indent + deeper + tail]
        };
        Model {
            line: (self.line + 1) as usize,
            column: (indent.len() + deeper.len() + 1) as usize,
            ..self.remembered()
        }.with_text(join_lines(rows.take(self.line - 1) + split + rows.skip(self.line as int)))
    }

    /// Backspace: the character behind the caret goes — both halves of an
    /// empty pair while inserting — and at the start of a line the line joins
    /// the one above.
    pub open spec fn backspaced(self) -> Model {
        let (left, right) = self.either_side();
        let rows = self.rows();
        if self.column > 1 {
            let row = rows[self.line - 1];
            let one = row.remove(self.column - 2);
            let pair = match (left, right) {
                (Some(open), Some(close)) => closes_spec(open) == Some(close),
                _ => false,
            };
            let both = if self.mode == Mode::Insert && pair { one.remove(self.column - 2) } else { one };
            Model { column: (self.column - 1) as usize, ..self.remembered() }.with_text(
                join_lines(rows.update(self.line - 1, both)),
            ).clamp()
        } else if self.line > 1 {
            let removed = rows[self.line - 1];
            let rest = rows.remove(self.line - 1);
            Model {
                line: (self.line - 1) as usize,
                column: (rest[self.line - 2].len() + 1) as usize,
                ..self.remembered()
            }.with_text(join_lines(rest.update(self.line - 2, rest[self.line - 2] + removed))).clamp()
        } else {
            self
        }
    }

    /// What backspace asks of the caret: a real line, and a character behind it.
    pub open spec fn backspace_ok(self) -> bool {
        &&& 1 <= self.line <= self.rows().len()
        &&& self.column >= 1
        &&& self.column > 1 ==> self.column - 2 < self.rows()[self.line - 1].len()
    }

    /// Pasted text, as one edit, the caret after it.
    pub open spec fn pasted(self, text: Seq<char>) -> Model {
        let rows = self.rows();
        let row = rows[self.line - 1];
        let at = min_int(self.column - 1, row.len() as int);
        let breaks = count_of(text, '\n');
        Model {
            line: if breaks > 0 { (self.line + breaks) as usize } else { self.line },
            column: if breaks > 0 {
                (after_last_break(text) + 1) as usize
            } else {
                (self.column + text.len()) as usize
            },
            ..self.remembered()
        }.with_text(join_lines(rows.update(self.line - 1, row.take(at) + text + row.skip(at))))
    }

    /// `x`: the character under the caret goes; an empty line is left alone.
    pub open spec fn char_deleted(self) -> Model {
        let rows = self.rows();
        let row = rows[self.line - 1];
        if row.len() == 0 {
            self
        } else {
            self.remembered().with_text(join_lines(rows.update(self.line - 1, row.remove(self.column - 1))))
        }
    }

    pub open spec fn char_delete_ok(self) -> bool {
        &&& 1 <= self.line <= self.rows().len()
        &&& self.column >= 1
        &&& self.rows()[self.line - 1].len() > 0 ==> self.column - 1 < self.rows()[self.line - 1].len()
    }

    /// Whole lines `from`..=`to` into the register.
    pub open spec fn yanked(self, from: int, to: int) -> Model {
        let rows = self.rows();
        Model { register: rows.subrange(from - 1, min_int(to, rows.len() as int)), ..self }
    }

    pub open spec fn yank_ok(self, from: int, to: int) -> bool {
        from >= 1 && from - 1 <= min_int(to, self.rows().len() as int)
    }

    /// A run of whole lines, into the register and out of the buffer in one
    /// edit; a buffer always keeps a line, so taking every one leaves an empty
    /// one.
    pub open spec fn lines_deleted(self, from: int, to: int) -> Model {
        let m = self.yanked(from, to);
        let rows = m.rows();
        let last = min_int(to, rows.len() as int);
        if from > last {
            m
        } else {
            let kept = rows.take(from - 1) + rows.skip(last);
            let kept = if kept.len() == 0 { seq![Seq::<char>::empty()] } else { kept };
            Model { line: from as usize, ..m.remembered() }.with_text(join_lines(kept))
        }
    }

    /// `p`: the register's lines put in after the caret's line.
    pub open spec fn put(self) -> Model {
        if self.register.len() == 0 {
            self
        } else {
            let rows = self.rows();
            let at = min_int(self.line as int, rows.len() as int);
            self.remembered().with_text(join_lines(rows.take(at) + self.register + rows.skip(at)))
        }
    }

    /// `o` and `O`: an empty line below or above the caret's, and insert mode on it.
    pub open spec fn line_opened(self, offset: int) -> Model {
        let rows = self.rows();
        Model {
            line: (self.line + offset) as usize,
            column: 1,
            mode: Mode::Insert,
            ..self.remembered()
        }.with_text(join_lines(rows.insert(self.line - 1 + offset, Seq::empty())))
    }

    pub open spec fn open_ok(self, offset: int) -> bool {
        self.line >= 1 && self.line - 1 + offset <= self.rows().len()
    }

    /// The characters of the half-open offset span `from`..`to` taken out,
    /// into the register, the caret where they were. An empty span is no edit.
    pub open spec fn taken(self, from: int, to: int) -> Model {
        let text = self.text();
        let a = min_int(from, text.len() as int);
        let b = min_int(to, text.len() as int);
        let taken = text.subrange(a, b);
        if taken.len() == 0 {
            self
        } else {
            let kept = text.take(a) + text.skip(b);
            let m = Model { register: split_lines(taken), ..self }.remembered().with_text(kept);
            match crate::words::place_at_spec(split_lines(kept), from) {
                Some(p) => m.placed(p),
                None => m,
            }
        }
    }

    /// Where the caret is in the whole text.
    pub open spec fn here(self) -> int {
        crate::words::offset_spec(self.rows(), self.caret())
    }
}

impl Buffer {
    /// The character to the left of the cursor, then the one to its right —
    /// all the pairing rules look at.
    fn either_side(&self) -> (sides: (Option<char>, Option<char>))
        requires
            self@.line >= 1,
            self@.column >= 1,
        ensures
            sides == self@.either_side(),
    {
        let lines = self.lines();
        let row: Vec<char> = if self.line - 1 < lines.len() { copied(&lines[self.line - 1]) } else { Vec::new() };
        assert(self.line - 1 < lines.len() ==> lines@[self.line - 1]@ == self@.rows()[self.line - 1]);
        let left = if self.column >= 2 && self.column - 2 < row.len() { Some(row[self.column - 2]) } else { None };
        let right = if self.column - 1 < row.len() { Some(row[self.column - 1]) } else { None };
        (left, right)
    }

    fn insert(&mut self, key: char)
        requires
            old(self)@.caret_ok(),
        ensures
            final(self)@ == old(self)@.typed(key),
    {
        let (left, right) = self.either_side();
        if right == Some(key) && (key == ')' || key == ']' || key == '}' || key == '"' || key == '\'') {
            self.column = self.column + 1;
            return;
        }
        if key == '\n' {
            self.new_line(left, right);
            return;
        }
        self.remember();
        let mut lines = self.lines();
        let ghost rows = lines.deep_view();
        let mut row = copied(&lines[self.line - 1]);
        assert(row@ == rows[self.line - 1]);
        let p = if self.column - 1 <= row.len() { self.column - 1 } else { row.len() };
        row.insert(p, key);
        self.column = self.column + 1;
        let word = match left {
            Some(c) => is_alphanumeric(c),
            None => false,
        };
        if let Some(close) = closes(key) {
            if !(word && close == key) {
                row.insert(p + 1, close);
            }
        }
        put_line(&mut lines, self.line - 1, row);
        self.set(&lines);
    }

    /// Enter: the line splits at the cursor and the new one keeps its place.
    /// The indentation is copied rather than measured and re-emitted, so a
    /// file's own mix of tabs and spaces comes back unchanged; between the
    /// halves of a bracket pair it opens a block instead.
    fn new_line(&mut self, left: Option<char>, right: Option<char>)
        requires
            old(self)@.caret_ok(),
        ensures
            final(self)@ == old(self)@.broken(left, right),
    {
        self.remember();
        let lines = self.lines();
        let ghost rows = lines.deep_view();
        let row = &lines[self.line - 1];
        assert(row@ == rows[self.line - 1]);
        let at = if self.column - 1 <= row.len() { self.column - 1 } else { row.len() };
        let head = slice_of(row, 0, at);
        let tail = slice_of(row, at, row.len());
        let indent_end = leading_end(&head, 0);
        let indent = slice_of(&head, 0, indent_end);
        let block = match (left, right) {
            (Some(open), Some(close)) => closes(open) == Some(close) && open != close,
            _ => false,
        };
        let deeper = if block { indent_unit(&lines, self.tab_width) } else { Vec::new() };
        proof {
            lemma_indent_unit_fits(rows, self.tab_width);
            crate::text::lemma_leading_count(head@, 0);
        }
        self.column = indent.len() + deeper.len() + 1;
        let mut opened = copied(&indent);
        extend(&mut opened, &deeper);
        let mut split: Vec<Vec<char>> = Vec::new();
        if block {
            let mut closing = copied(&indent);
            extend(&mut closing, &tail);
            split.push(head);
            split.push(opened);
            split.push(closing);
        } else {
            extend(&mut opened, &tail);
            split.push(head);
            split.push(opened);
        }
        assert(split.deep_view() =~~= (if block {
            seq![head@, indent@ + deeper@, indent@ + tail@]
        } else {
            seq![head@, indent@ + deeper@ + tail@]
        }));
        assert(indent@ == crate::text::leading_space(head@));
        let spliced = splice_lines(&lines, self.line - 1, self.line, &split);
        proof {
            crate::text::lemma_split_count(self@.text());
        }
        self.line = self.line + 1;
        self.set(&spliced);
        assert(self@ =~= old(self)@.broken(left, right));
    }
}

/// Lines `from`..`to` replaced by `with`.
fn splice_lines(lines: &Vec<Vec<char>>, from: usize, to: usize, with: &Vec<Vec<char>>) -> (r: Vec<Vec<char>>)
    requires
        from <= to <= lines.len(),
    ensures
        r.deep_view() == lines.deep_view().take(from as int) + with.deep_view() + lines.deep_view().skip(to as int),
{
    let mut r: Vec<Vec<char>> = Vec::new();
    let mut i: usize = 0;
    while i < from
        invariant
            i <= from <= to <= lines.len(),
            r.deep_view() == lines.deep_view().take(i as int),
        decreases from - i,
    {
        let ghost before = r.deep_view();
        let row = copied(&lines[i]);
        r.push(row);
        assert(r.deep_view() =~~= before.push(row@));
        assert(lines.deep_view().take(i + 1) =~~= lines.deep_view().take(i as int).push(lines.deep_view()[i as int]));
        i = i + 1;
    }
    let mut j: usize = 0;
    while j < with.len()
        invariant
            j <= with.len(),
            r.deep_view() == lines.deep_view().take(from as int) + with.deep_view().take(j as int),
        decreases with.len() - j,
    {
        let ghost before = r.deep_view();
        let row = copied(&with[j]);
        r.push(row);
        assert(r.deep_view() =~~= before.push(row@));
        assert(with.deep_view().take(j + 1) =~~= with.deep_view().take(j as int).push(with.deep_view()[j as int]));
        assert(r.deep_view() =~~= lines.deep_view().take(from as int) + with.deep_view().take(j + 1));
        j = j + 1;
    }
    assert(with.deep_view().take(with.len() as int) =~~= with.deep_view());
    let mut k = to;
    while k < lines.len()
        invariant
            to <= k <= lines.len(),
            r.deep_view() == lines.deep_view().take(from as int) + with.deep_view()
                + lines.deep_view().subrange(to as int, k as int),
        decreases lines.len() - k,
    {
        let ghost before = r.deep_view();
        let row = copied(&lines[k]);
        r.push(row);
        assert(r.deep_view() =~~= before.push(row@));
        assert(lines.deep_view().subrange(to as int, k + 1) =~~= lines.deep_view().subrange(to as int, k as int).push(lines.deep_view()[k as int]));
        assert(r.deep_view() =~~= lines.deep_view().take(from as int) + with.deep_view()
            + lines.deep_view().subrange(to as int, k + 1));
        k = k + 1;
    }
    assert(lines.deep_view().subrange(to as int, lines.len() as int) =~~= lines.deep_view().skip(to as int));
    r
}

proof fn lemma_shallowest_within(rows: Seq<Seq<char>>)
    ensures
        match shallowest(rows) {
            Some(w) => exists|i: int| 0 <= i < rows.len() && w.len() <= #[trigger] rows[i].len(),
            None => true,
        },
    decreases rows.len(),
{
    if rows.len() > 0 {
        lemma_shallowest_within(rows.drop_first());
        if let Some(w) = candidate(rows[0]) {
            crate::text::lemma_leading_count(rows[0], 0);
            assert(w.len() <= rows[0].len());
        }
        if let Some(r) = shallowest(rows.drop_first()) {
            let i = choose|i: int| 0 <= i < rows.drop_first().len() && r.len() <= #[trigger] rows.drop_first()[i].len();
            assert(rows[i + 1] == rows.drop_first()[i]);
        }
    }
}

proof fn lemma_indent_unit_fits(rows: Seq<Seq<char>>, fallback: usize)
    requires
        forall|i: int| 0 <= i < rows.len() ==> #[trigger] rows[i].len() <= isize::MAX,
    ensures
        indent_unit_spec(rows, fallback).len() <= (if fallback <= isize::MAX { isize::MAX as int } else { fallback as int }),
{
    lemma_shallowest_within(rows);
}

impl Buffer {
    /// Deletes backwards, joining with the line above at the start of a line.
    /// Both halves of an empty pair go together while inserting, so undoing
    /// the editor's help costs the one key the help cost.
    pub fn backspace(&mut self)
        requires
            old(self)@.backspace_ok(),
        ensures
            final(self)@ == old(self)@.backspaced(),
    {
        let (left, right) = self.either_side();
        let lines = self.lines();
        let ghost rows = lines.deep_view();
        if self.column > 1 {
            self.remember();
            let mut row = copied(&lines[self.line - 1]);
            assert(row@ == rows[self.line - 1]);
            row.remove(self.column - 2);
            self.column = self.column - 1;
            let pair = match (left, right) {
                (Some(open), Some(close)) => closes(open) == Some(close),
                _ => false,
            };
            if self.mode == Mode::Insert && pair {
                row.remove(self.column - 1);
            }
            let mut lines = lines;
            put_line(&mut lines, self.line - 1, row);
            self.set(&lines);
        } else if self.line > 1 {
            self.remember();
            let mut lines = lines;
            let removed = lines.remove(self.line - 1);
            assert(removed@ == rows[self.line - 1]);
            assert(lines.deep_view() =~~= rows.remove(self.line - 1));
            self.line = self.line - 1;
            let mut joined = copied(&lines[self.line - 1]);
            assert(joined@ == rows.remove(self.line as int)[self.line - 1]);
            crate::text::bounded(self.shown());
            self.column = joined.len() + 1;
            extend(&mut joined, &removed);
            put_line(&mut lines, self.line - 1, joined);
            self.set(&lines);
        } else {
            return;
        }
        self.clamp();
    }

    /// Pasted text, as one edit. A paste is not typing: run through `insert` a
    /// character at a time it would pair every bracket in what was pasted, and
    /// it would take as many presses to undo as it had characters.
    pub fn paste(&mut self, text: &str)
        requires
            1 <= old(self)@.line <= old(self)@.rows().len(),
            old(self)@.column >= 1,
            count_of(text@, '\n') == 0 ==> old(self)@.column + text@.len() <= usize::MAX,
        ensures
            final(self)@ == old(self)@.pasted(text@),
    {
        crate::text::bounded(text);
        crate::text::bounded(self.shown());
        self.remember();
        let mut lines = self.lines();
        let ghost rows = lines.deep_view();
        let row = &lines[self.line - 1];
        assert(row@ == rows[self.line - 1]);
        let at = if self.column - 1 <= row.len() { self.column - 1 } else { row.len() };
        let pasted = chars_of(text);
        let mut joined = slice_of(row, 0, at);
        extend(&mut joined, &pasted);
        let rest = slice_of(row, at, row.len());
        extend(&mut joined, &rest);
        let mut breaks: usize = 0;
        let mut run: usize = 0;
        let mut i: usize = 0;
        while i < pasted.len()
            invariant
                i <= pasted.len() <= isize::MAX,
                breaks == count_of(pasted@.take(i as int), '\n'),
                run == after_last_break(pasted@.take(i as int)),
                breaks <= i && run <= i,
            decreases pasted.len() - i,
        {
            assert(pasted@.take(i + 1).drop_last() == pasted@.take(i as int));
            if pasted[i] == '\n' {
                breaks = breaks + 1;
                run = 0;
            } else {
                run = run + 1;
            }
            i = i + 1;
        }
        assert(pasted@.take(pasted.len() as int) == pasted@);
        proof {
            crate::text::lemma_split_count(self@.text());
        }
        if breaks > 0 {
            self.line = self.line + breaks;
            self.column = run + 1;
        } else {
            self.column = self.column + pasted.len();
        }
        put_line(&mut lines, self.line_before(breaks), joined);
        self.set(&lines);
    }

    fn line_before(&self, breaks: usize) -> (k: usize)
        requires
            self@.line >= breaks + 1,
        ensures
            k == self@.line - breaks - 1,
    {
        self.line - breaks - 1
    }

    /// `x`: the character under the cursor goes; an empty line is left alone.
    fn delete_char(&mut self)
        requires
            old(self)@.char_delete_ok(),
        ensures
            final(self)@ == old(self)@.char_deleted(),
    {
        let mut lines = self.lines();
        let ghost rows = lines.deep_view();
        let mut row = copied(&lines[self.line - 1]);
        assert(row@ == rows[self.line - 1]);
        if row.len() == 0 {
            return;
        }
        self.remember();
        row.remove(self.column - 1);
        put_line(&mut lines, self.line - 1, row);
        self.set(&lines);
    }

    fn yank(&mut self, from: usize, to: usize)
        requires
            old(self)@.yank_ok(from as int, to as int),
        ensures
            final(self)@ == old(self)@.yanked(from as int, to as int),
    {
        let lines = self.lines();
        let to = if to <= lines.len() { to } else { lines.len() };
        let ghost rows = lines.deep_view();
        let mut register: Vec<String> = Vec::new();
        let mut i = from - 1;
        while i < to
            invariant
                1 <= from,
                from - 1 <= i <= to <= lines.len(),
                rows == lines.deep_view(),
                rows.len() == lines.len(),
                register@.map_values(|l: String| l@) == rows.subrange(from - 1, i as int),
            decreases to - i,
        {
            let ghost before = register@.map_values(|l: String| l@);
            register.push(string_of(lines[i].as_slice()));
            assert(register@.map_values(|l: String| l@) =~~= before.push(rows[i as int]));
            assert(rows.subrange(from - 1, i + 1) =~~= rows.subrange(from - 1, i as int).push(rows[i as int]));
            i = i + 1;
        }
        self.register = register;
        assert(self@ =~= old(self)@.yanked(from as int, to as int));
    }

    /// A run of whole lines, into the register and out of the buffer in one
    /// edit — so `u` costs the one key the delete cost. Every line of the span
    /// goes, including the last.
    fn delete_lines(&mut self, from: usize, to: usize)
        requires
            old(self)@.yank_ok(from as int, to as int),
        ensures
            final(self)@ == old(self)@.lines_deleted(from as int, to as int),
    {
        self.yank(from, to);
        let lines = self.lines();
        let last = if to <= lines.len() { to } else { lines.len() };
        if from > last {
            return;
        }
        self.remember();
        let empty: Vec<Vec<char>> = Vec::new();
        let mut kept = splice_lines(&lines, from - 1, last, &empty);
        assert(kept.deep_view() =~~= lines.deep_view().take(from - 1) + lines.deep_view().skip(last as int));
        if kept.len() == 0 {
            kept.push(Vec::new());
            assert(kept.deep_view() =~~= seq![Seq::<char>::empty()]);
        }
        self.line = from;
        self.set(&kept);
    }

    /// `p`: the register's lines after the cursor's line, as one edit.
    fn put(&mut self)
        ensures
            final(self)@ == old(self)@.put(),
    {
        if self.register.len() == 0 {
            return;
        }
        self.remember();
        let lines = self.lines();
        let at = if self.line <= lines.len() { self.line } else { lines.len() };
        let register = char_lines(self.register.as_slice());
        let spliced = splice_lines(&lines, at, at, &register);
        assert(lines.deep_view().take(at as int) + register.deep_view() + lines.deep_view().skip(at as int)
            =~~= old(self)@.rows().take(at as int) + old(self)@.register + old(self)@.rows().skip(at as int));
        self.set(&spliced);
    }

    /// `o` and `O`: an empty line below or above the cursor's, and insert mode.
    fn open_line(&mut self, offset: usize)
        requires
            offset <= 1,
            old(self)@.open_ok(offset as int),
        ensures
            final(self)@ == old(self)@.line_opened(offset as int),
    {
        self.remember();
        let lines = self.lines();
        let mut opened: Vec<Vec<char>> = Vec::new();
        opened.push(Vec::new());
        let at = self.line - 1 + offset;
        let spliced = splice_lines(&lines, at, at, &opened);
        assert(spliced.deep_view() =~~= lines.deep_view().insert(at as int, Seq::empty()));
        proof {
            crate::text::lemma_split_count(self@.text());
        }
        self.line = self.line + offset;
        self.column = 1;
        self.mode = Mode::Insert;
        self.set(&spliced);
    }

    /// Removes the characters a half-open span of offsets covers, register
    /// filled with what it took, the cursor where they were. An empty span is
    /// not an edit: the register and the undo stack are left alone.
    fn take_chars(&mut self, from: usize, to: usize)
        requires
            from <= to,
        ensures
            final(self)@ == old(self)@.taken(from as int, to as int),
    {
        let text = chars_of(self.shown());
        let a = if from <= text.len() { from } else { text.len() };
        let b = if to <= text.len() { to } else { text.len() };
        let taken = slice_of(&text, a, b);
        if taken.len() == 0 {
            return;
        }
        let pieces = split_text(&taken);
        self.register = strings_of(&pieces);
        self.remember();
        let mut kept = slice_of(&text, 0, a);
        let rest = slice_of(&text, b, text.len());
        extend(&mut kept, &rest);
        let lines = split_text(&kept);
        proof {
            crate::text::lemma_join_split(kept@);
        }
        self.set(&lines);
        let ghost m = self@;
        assert(m =~= (Model { register: split_lines(taken@), ..old(self)@ }).remembered().with_text(kept@));
        let now = self.lines();
        if let Some(place) = crate::words::place_at(&now, from) {
            self.go_to_place(place);
        }
    }

    /// Where the cursor is in the whole buffer, so word motions can cross line
    /// boundaries without special cases.
    fn offset(&self) -> (at: usize)
        requires
            self@.line >= 1,
            self@.column >= 1,
        ensures
            at == self@.here(),
            at <= self@.text().len() + 1,
    {
        let lines = self.lines();
        crate::words::offset(&lines, Place { line: self.line, column: self.column })
    }

    /// The word behind the cursor, which is what Alt+Backspace takes while
    /// inserting: bounded to the line, and at column 1 the join backspace does.
    pub fn delete_word_back(&mut self)
        requires
            old(self)@.column == 1 ==> old(self)@.backspace_ok(),
            old(self)@.line >= 1,
            old(self)@.column >= 1,
            old(self)@.here() + 1 >= old(self)@.column,
        ensures
            final(self)@ == (if old(self)@.column == 1 {
                old(self)@.backspaced()
            } else {
                old(self)@.taken(
                    crate::words::max_of(
                        crate::words::previous_word_start_spec(old(self)@.text(), old(self)@.here()),
                        old(self)@.here() + 1 - old(self)@.column,
                    ),
                    old(self)@.here(),
                )
            }),
    {
        if self.column == 1 {
            self.backspace();
            return;
        }
        let text = chars_of(self.shown());
        crate::text::bounded(self.shown());
        let here = self.offset();
        let line_start = here + 1 - self.column;
        let back = crate::words::previous_word_start(&text, here);
        self.take_chars(if back >= line_start { back } else { line_start }, here);
    }
}

/// Which of the keys names a motion: the ones [`moved`] answers for.
pub open spec fn motion_key(key: char) -> bool {
    key == 'h' || key == 'l' || key == 'j' || key == 'k' || key == '0' || key == '$' || key == 'G'
        || key == 'w' || key == 'e' || key == 'b'
}

impl Model {
    /// Where a motion key starts from: the caret, except that `j` steps over
    /// a folded block whole, from the last line it hides.
    pub open spec fn motion_from(self, key: char) -> Place {
        Place {
            line: if key == 'j' {
                match fold_opening(self.folds(), self.line as int) {
                    Some(to) => to,
                    None => self.line,
                }
            } else {
                self.line
            },
            column: self.column,
        }
    }

    /// The caret after a motion key, over this buffer's own lines; nothing for
    /// a key that names no motion.
    pub open spec fn moved_key(self, key: char) -> Option<Model> {
        match moved_spec(self.rows(), self.motion_from(key), key) {
            Some(p) => Some(Model { line: p.line, column: p.column, ..self }),
            None => None,
        }
    }

    /// What a motion key asks of the caret it starts from.
    pub open spec fn moves_ok(self, key: char) -> bool {
        motion_ok(self.motion_from(key), key)
    }

    /// The caret after a motion key, or where it was for any other key.
    pub open spec fn moved_or_stayed(self, key: char) -> Model {
        match self.moved_key(key) {
            Some(m) => m,
            None => self,
        }
    }

    /// The keys that change the buffer or the mode, in normal mode.
    pub open spec fn edited(self, key: char) -> Model {
        if key == 'V' {
            Model { mode: Mode::Visual, anchor: self.line, ..self }
        } else if key == 'p' {
            self.put()
        } else if key == 'i' {
            Model { mode: Mode::Insert, ..self }
        } else if key == 'a' {
            Model { mode: Mode::Insert, column: (self.column + 1) as usize, ..self }
        } else if key == 'o' {
            self.line_opened(1)
        } else if key == 'O' {
            self.line_opened(0)
        } else if key == 'x' {
            self.char_deleted()
        } else if key == 'u' {
            self.undone()
        } else {
            self
        }
    }

    /// What an editing key asks of the caret.
    pub open spec fn edit_ok(self, key: char) -> bool {
        &&& key == 'a' ==> self.column < usize::MAX
        &&& key == 'o' ==> self.open_ok(1)
        &&& key == 'O' ==> self.open_ok(0)
        &&& key == 'x' ==> self.char_delete_ok()
    }

    /// One press of a normal-mode key that is neither a count nor an
    /// operator: it moves, or it edits, or it does nothing.
    pub open spec fn stepped(self, key: char) -> Model {
        self.moved_or_stayed(key).edited(key)
    }

    pub open spec fn step_ok(self, key: char) -> bool {
        self.moves_ok(key) && self.moved_or_stayed(key).edit_ok(key)
    }

    /// A key pressed `n` times over, with nothing clamped in between.
    pub open spec fn repeated(self, key: char, n: nat) -> Model
        decreases n,
    {
        if n == 0 {
            self
        } else {
            self.repeated(key, (n - 1) as nat).stepped(key)
        }
    }

    /// Every press of a repeated key finds what it asks of the caret.
    pub open spec fn repeat_ok(self, key: char, n: nat) -> bool
        decreases n,
    {
        n == 0 || (self.repeat_ok(key, (n - 1) as nat) && self.repeated(key, (n - 1) as nat).step_ok(key))
    }

    /// A motion key taken `n` times over, as an operator's probe takes it.
    pub open spec fn moves(self, key: char, n: nat) -> Model
        decreases n,
    {
        if n == 0 {
            self
        } else {
            self.moves(key, (n - 1) as nat).moved_or_stayed(key)
        }
    }

    pub open spec fn moves_chain_ok(self, key: char, n: nat) -> bool
        decreases n,
    {
        n == 0 || (self.moves_chain_ok(key, (n - 1) as nat) && self.moves(key, (n - 1) as nat).moves_ok(key))
    }

    /// After a clamp the caret stands on a line the text has and on a column
    /// of it.
    pub proof fn lemma_clamp_caret(self)
        requires
            self.text().len() < usize::MAX,
        ensures
            1 <= self.clamp().line <= self.rows().len(),
            1 <= self.clamp().column,
            self.clamp().rows() == self.rows(),
            self.clamp().text() == self.text(),
            self.clamp().revision == self.revision,
    {
        crate::text::lemma_split_len(self.text());
        let l = clamp_int(self.line as int, 1, if self.rows().len() >= 1 { self.rows().len() as int } else { 1 });
        lemma_fold_covering_bound(self.folds(), l);
        if let Some(from) = fold_covering(self.folds(), l) {
            let i = choose|i: int| 0 <= i < self.folds().len() && self.folds()[i].from == from && from < l;
            let b = self.folds()[i];
            blocks_spec(self.text()).lemma_filter_contains_rev(|b: Block| self.folded.contains(b.from), b);
            crate::fold::lemma_blocks_within(self.text());
        }
    }
}

proof fn lemma_fold_covering_bound(folds: Seq<Block>, line: int)
    ensures
        match fold_covering(folds, line) {
            Some(from) => exists|i: int| 0 <= i < folds.len() && folds[i].from == from && from < line,
            None => true,
        },
    decreases folds.len(),
{
    if folds.len() > 0 && !(folds[0].from < line <= folds[0].to) {
        lemma_fold_covering_bound(folds.drop_first(), line);
        if let Some(from) = fold_covering(folds.drop_first(), line) {
            let i = choose|i: int| 0 <= i < folds.drop_first().len() && folds.drop_first()[i].from == from && from < line;
            assert(folds[i + 1].from == from);
        }
    }
}

proof fn lemma_repeat_ok_prefix(m: Model, key: char, k: nat, n: nat)
    requires
        m.repeat_ok(key, n),
        k <= n,
    ensures
        m.repeat_ok(key, k),
    decreases n,
{
    if k < n {
        lemma_repeat_ok_prefix(m, key, k, (n - 1) as nat);
    }
}

proof fn lemma_moves_chain_prefix(m: Model, key: char, k: nat, n: nat)
    requires
        m.moves_chain_ok(key, n),
        k <= n,
    ensures
        m.moves_chain_ok(key, k),
    decreases n,
{
    if k < n {
        lemma_moves_chain_prefix(m, key, k, (n - 1) as nat);
    }
}

impl Buffer {
    /// The keys that only move the caret, over this buffer's own lines.
    /// `false` for a key that names no motion, which is what lets an operator
    /// refuse one out loud instead of swallowing it.
    fn moved(&mut self, key: char) -> (went: bool)
        requires
            old(self)@.moves_ok(key),
        ensures
            went == (old(self)@.moved_key(key) is Some),
            final(self)@ == old(self)@.moved_or_stayed(key),
    {
        let line = if key == 'j' { self.past_fold(self.line) } else { self.line };
        let at = Place { line, column: self.column };
        let lines = self.lines();
        match moved_in(&lines, at, key) {
            Some(place) => {
                self.line = place.line;
                self.column = place.column;
                assert(self@ =~= old(self)@.moved_or_stayed(key));
                true
            },
            None => false,
        }
    }

    /// The keys that change the buffer or the mode.
    fn edited(&mut self, key: char)
        requires
            old(self)@.edit_ok(key),
        ensures
            final(self)@ == old(self)@.edited(key),
    {
        if key == 'V' {
            self.mode = Mode::Visual;
            self.anchor = self.line;
        } else if key == 'p' {
            self.put();
        } else if key == 'i' {
            self.mode = Mode::Insert;
        } else if key == 'a' {
            self.mode = Mode::Insert;
            self.column = self.column + 1;
        } else if key == 'o' {
            self.open_line(1);
        } else if key == 'O' {
            self.open_line(0);
        } else if key == 'x' {
            self.delete_char();
        } else if key == 'u' {
            self.undo();
        }
    }

    /// The two key sets are disjoint, so both run rather than one being chosen.
    fn motion(&mut self, key: char)
        requires
            old(self)@.step_ok(key),
        ensures
            final(self)@ == old(self)@.stepped(key),
    {
        self.moved(key);
        self.edited(key);
    }
}

/// A refusal as its characters.
pub open spec fn said(r: Option<String>) -> Option<Seq<char>> {
    match r {
        Some(s) => Some(s@),
        None => None,
    }
}

/// How many times an operator's probe takes its motion: the count, and at
/// least once.
pub open spec fn probe_count(times: int) -> nat {
    if times >= 1 { times as nat } else { 1 }
}

pub open spec fn max_int(a: int, b: int) -> int {
    if a >= b { a } else { b }
}

impl Model {
    /// The count typed before a command, one where none was.
    pub open spec fn count_or_one(self) -> int {
        match self.count {
            Some(c) => c as int,
            None => 1,
        }
    }

    /// Where the probe a `d` sends ahead of it lands: the motion taken
    /// `times` times over a copy of the buffer, then clamped.
    pub open spec fn probe(self, key: char, times: int) -> Model {
        self.moves(key, probe_count(times)).clamp()
    }

    /// `d` and a motion key: the lines between the caret and where the motion
    /// lands for the linewise motions, else the characters between them — the
    /// one they land on too for `$` and `e` — and the chord refused for a key
    /// that names no motion.
    pub open spec fn deleted_over(self, key: char, times: int) -> (Model, Option<Seq<char>>) {
        if !motion_key(key) {
            (self, Some(seq!['d', key]))
        } else {
            let probe = self.probe(key, times);
            let lo = min_int(self.line as int, probe.line as int);
            let hi = max_int(self.line as int, probe.line as int);
            if key == 'j' || key == 'k' || key == 'G' {
                (self.lines_deleted(lo, hi), None)
            } else {
                let here = self.here();
                let there = probe.here();
                let far = max_int(here, there);
                let to = if (key == '$' || key == 'e') && crate::words::char_at(self.text(), far) != Some('\n') {
                    far + 1
                } else {
                    far
                };
                (self.taken(min_int(here, there), to), None)
            }
        }
    }

    pub open spec fn delete_over_ok(self, key: char, times: int) -> bool {
        let probe = self.probe(key, times);
        motion_key(key) ==> {
            &&& self.moves_chain_ok(key, probe_count(times))
            &&& (key == 'j' || key == 'k' || key == 'G') ==> self.yank_ok(
                min_int(self.line as int, probe.line as int),
                max_int(self.line as int, probe.line as int),
            )
            &&& !(key == 'j' || key == 'k' || key == 'G') ==> self.line >= 1 && self.column >= 1
        }
    }

    /// The lines a visual selection covers, low to high.
    pub open spec fn selection(self) -> (int, int) {
        (min_int(self.anchor as int, self.line as int), max_int(self.anchor as int, self.line as int))
    }

    /// `d` and `y` over a visual selection, which need no second key.
    pub open spec fn over_selection(self, key: char) -> Model {
        let (from, to) = self.selection();
        if key == 'd' {
            Model { mode: Mode::Normal, ..self }.lines_deleted(from, to)
        } else if key == 'y' {
            Model { line: from as usize, mode: Mode::Normal, ..self.yanked(from, to) }
        } else {
            self
        }
    }

    /// An operator's chord and the key that completes it. A doubled operator
    /// acts on the caret's line and the count below it; `dgg` reaches back to
    /// the first line; `d` and a motion deletes over it; anything else is the
    /// chord refused.
    pub open spec fn operated(self, chord: Seq<char>, key: char) -> (Model, Option<Seq<char>>) {
        if chord == seq!['d'] && key == 'g' {
            (Model { pending: seq!['d', 'g'], ..self }, None)
        } else {
            let times = self.count_or_one();
            let m = Model { count: None, ..self };
            if chord == seq!['d'] && key == 'd' {
                (m.lines_deleted(m.line as int, m.line + times - 1), None)
            } else if chord == seq!['y'] && key == 'y' {
                (m.yanked(m.line as int, m.line + times - 1), None)
            } else if chord == seq!['g'] && key == 'g' {
                (Model { line: 1, column: 1, ..m }, None)
            } else if chord == seq!['d', 'g'] && key == 'g' {
                (m.lines_deleted(1, m.line as int), None)
            } else if chord == seq!['d'] {
                m.deleted_over(key, times)
            } else {
                (m, Some(chord.push(key)))
            }
        }
    }

    pub open spec fn operate_ok(self, chord: Seq<char>, key: char) -> bool {
        let times = self.count_or_one();
        let m = Model { count: None, ..self };
        &&& ((chord == seq!['d'] && key == 'd') || (chord == seq!['y'] && key == 'y')) ==> {
            &&& 1 <= m.line + times <= usize::MAX
            &&& m.yank_ok(m.line as int, m.line + times - 1)
        }
        &&& (chord == seq!['d', 'g'] && key == 'g') ==> m.yank_ok(1, m.line as int)
        &&& (chord == seq!['d'] && key != 'd' && key != 'g') ==> m.delete_over_ok(key, times)
    }

    /// Whether a key is a digit of a count rather than a command: any digit
    /// once a count has begun, and any but `0`, which is the motion, before.
    pub open spec fn counting(self, key: char) -> bool {
        48 <= key as int <= 57 && (key != '0' || self.count is Some)
    }

    /// The count once a digit is added to it.
    pub open spec fn counted(self, key: char) -> int {
        let before = match self.count {
            Some(c) => c as int,
            None => 0,
        };
        before * 10 + (key as int - 48)
    }

    /// A key in normal or visual mode: a digit of the count, the key an
    /// operator waited for, an operator over the selection, the start of an
    /// operator, or a key pressed as many times as the count says.
    pub open spec fn commanded(self, key: char) -> (Model, Option<Seq<char>>) {
        if self.counting(key) {
            (Model { count: Some(self.counted(key) as usize), ..self }, None)
        } else if self.pending.len() > 0 {
            Model { pending: Seq::empty(), ..self }.operated(self.pending, key)
        } else if self.mode == Mode::Visual && (key == 'd' || key == 'y') {
            (self.over_selection(key), None)
        } else if key == 'g' || key == 'd' || key == 'y' {
            (Model { pending: self.pending.push(key), ..self }, None)
        } else {
            (Model { count: None, ..self }.repeated(key, self.count_or_one() as nat), None)
        }
    }

    pub open spec fn command_ok(self, key: char) -> bool {
        if self.counting(key) {
            self.counted(key) <= usize::MAX
        } else if self.pending.len() > 0 {
            Model { pending: Seq::empty(), ..self }.operate_ok(self.pending, key)
        } else if self.mode == Mode::Visual && (key == 'd' || key == 'y') {
            self.yank_ok(self.selection().0, self.selection().1)
        } else if key == 'g' || key == 'd' || key == 'y' {
            true
        } else {
            Model { count: None, ..self }.repeat_ok(key, self.count_or_one() as nat)
        }
    }

    /// A keystroke: typed in insert mode, a command otherwise, and the caret
    /// clamped after either; with the chord a command refused, if it refused
    /// one.
    pub open spec fn keyed(self, key: char) -> (Model, Option<Seq<char>>) {
        if self.mode == Mode::Insert {
            (self.typed(key).clamp(), None)
        } else {
            let (m, refused) = self.commanded(key);
            (m.clamp(), refused)
        }
    }

    pub open spec fn key_ok(self, key: char) -> bool {
        if self.mode == Mode::Insert {
            self.caret_ok()
        } else {
            self.command_ok(key)
        }
    }
}

/// Taking a motion only ever moves the caret.
proof fn lemma_moves_keep(m: Model, key: char, n: nat)
    ensures
        m.moves(key, n) == (Model { line: m.moves(key, n).line, column: m.moves(key, n).column, ..m }),
    decreases n,
{
    if n > 0 {
        lemma_moves_keep(m, key, (n - 1) as nat);
    }
}

fn copy_strings(v: &Vec<String>) -> (r: Vec<String>)
    ensures
        r@.map_values(|l: String| l@) == v@.map_values(|l: String| l@),
{
    let mut r: Vec<String> = Vec::new();
    let mut i: usize = 0;
    while i < v.len()
        invariant
            i <= v.len(),
            r@.map_values(|l: String| l@) == v@.take(i as int).map_values(|l: String| l@),
        decreases v.len() - i,
    {
        let ghost before = r@.map_values(|l: String| l@);
        r.push(owned(v[i].as_str()));
        assert(r@.map_values(|l: String| l@) =~= before.push(v@[i as int]@));
        assert(v@.take(i + 1).map_values(|l: String| l@) =~= v@.take(i as int).map_values(|l: String| l@).push(v@[i as int]@));
        i = i + 1;
    }
    assert(v@.take(v.len() as int) == v@);
    r
}

fn copy_numbers(v: &Vec<usize>) -> (r: Vec<usize>)
    ensures
        r@ == v@,
{
    let mut r: Vec<usize> = Vec::new();
    let mut i: usize = 0;
    while i < v.len()
        invariant
            i <= v.len(),
            r@ == v@.take(i as int),
        decreases v.len() - i,
    {
        r.push(v[i]);
        assert(v@.take(i + 1) == v@.take(i as int).push(v@[i as int]));
        i = i + 1;
    }
    assert(v@.take(v.len() as int) == v@);
    r
}

impl Buffer {
    /// A second buffer with everything this one has: what an operator sends a
    /// motion ahead on.
    fn duplicate(&self) -> (copy: Buffer)
        ensures
            copy@ == self@,
    {
        let copy = Buffer {
            disk: owned(self.disk.as_str()),
            draft: match &self.draft {
                Some(d) => Some(owned(d.as_str())),
                None => None,
            },
            changed_on_disk: self.changed_on_disk,
            line: self.line,
            column: self.column,
            row: self.row,
            row_column: self.row_column,
            previewing: self.previewing,
            folded: copy_numbers(&self.folded),
            mode: self.mode,
            pending: owned(self.pending.as_str()),
            revision: self.revision,
            count: self.count,
            anchor: self.anchor,
            tab_width: self.tab_width,
            register: copy_strings(&self.register),
            undo: copy_strings(&self.undo),
        };
        assert(copy@ =~= self@);
        copy
    }

    /// A delete over the span a motion covers, or the chord itself when the key
    /// names no motion at all. The motion runs on a copy of the buffer, so
    /// there is one definition of where a key lands and the operator reads
    /// its answer off a cursor that took it.
    #[verifier::rlimit(40)]
    fn delete_over(&mut self, key: char, times: usize) -> (refused: Option<String>)
        requires
            old(self)@.delete_over_ok(key, times as int),
        ensures
            (final(self)@, said(refused)) == old(self)@.deleted_over(key, times as int),
    {
        let ghost start = self@;
        crate::text::bounded(self.shown());
        let n: usize = if times >= 1 { times } else { 1 };
        let mut probe = self.duplicate();
        proof {
            if motion_key(key) {
                lemma_moves_chain_prefix(start, key, 1, n as nat);
                assert(start.moves(key, 0) == start);
            }
        }
        if !probe.moved(key) {
            let chord = vec!['d', key];
            assert(chord@ == seq!['d', key]);
            return Some(string_of(chord.as_slice()));
        }
        assert(probe@ == start.moves(key, 1));
        let mut i: usize = 1;
        while i < n
            invariant
                1 <= i <= n,
                n == probe_count(times as int),
                motion_key(key),
                probe@ == start.moves(key, i as nat),
                start.moves_chain_ok(key, n as nat),
            decreases n - i,
        {
            proof {
                lemma_moves_chain_prefix(start, key, (i + 1) as nat, n as nat);
            }
            probe.moved(key);
            i = i + 1;
        }
        probe.clamp();
        proof {
            lemma_moves_keep(start, key, n as nat);
        }
        assert(probe@ == start.probe(key, times as int));
        if key == 'j' || key == 'k' || key == 'G' {
            let lo = if self.line <= probe.line { self.line } else { probe.line };
            let hi = if self.line >= probe.line { self.line } else { probe.line };
            self.delete_lines(lo, hi);
            return None;
        }
        proof {
            start.moves(key, n as nat).lemma_clamp_caret();
        }
        let here = self.offset();
        let there = probe.offset();
        let mut to = if here >= there { here } else { there };
        if key == '$' || key == 'e' {
            let text = chars_of(self.shown());
            if !(to < text.len() && text[to] == '\n') {
                to = to + 1;
            }
        }
        self.take_chars(if here <= there { here } else { there }, to);
        None
    }

    /// An operator over the visual selection, which needs no second key.
    /// `false` for anything else, which is a key visual mode does not claim.
    fn over_selection(&mut self, key: char) -> (claimed: bool)
        requires
            old(self)@.mode == Mode::Visual,
            (key == 'd' || key == 'y') ==> old(self)@.yank_ok(old(self)@.selection().0, old(self)@.selection().1),
        ensures
            claimed == (key == 'd' || key == 'y'),
            final(self)@ == old(self)@.over_selection(key),
    {
        let span = self.selected_lines();
        let (from, to) = span.unwrap();
        if key == 'd' {
            self.mode = Mode::Normal;
            self.delete_lines(from, to);
            true
        } else if key == 'y' {
            self.yank(from, to);
            self.line = from;
            self.mode = Mode::Normal;
            true
        } else {
            false
        }
    }
}

/// How a word motion moves: to the next word's start, to the end of this
/// one, or back to the start of this one.
#[derive(Debug, Clone, Copy, PartialEq, Eq, Structural)]
pub enum Word {
    Start,
    End,
    Back,
}

/// The key that spells a word motion.
pub open spec fn word_key(stop: Word) -> char {
    match stop {
        Word::Start => 'w',
        Word::End => 'e',
        Word::Back => 'b',
    }
}

impl Buffer {
    /// An operator and the key that follows it, with the count the operator
    /// was not allowed to consume. `Some` is the chord that named no motion —
    /// the one outcome a buffer cannot report by changing itself.
    fn operator(&mut self, chord: &Vec<char>, key: char) -> (refused: Option<String>)
        requires
            old(self)@.operate_ok(chord@, key),
        ensures
            (final(self)@, said(refused)) == old(self)@.operated(chord@, key),
    {
        let is_d = chord.len() == 1 && chord[0] == 'd';
        let is_y = chord.len() == 1 && chord[0] == 'y';
        let is_g = chord.len() == 1 && chord[0] == 'g';
        let is_dg = chord.len() == 2 && chord[0] == 'd' && chord[1] == 'g';
        proof {
            assert(is_d <==> chord@ == seq!['d']) by {
                if is_d { assert(chord@ =~= seq!['d']); }
            }
            assert(is_y <==> chord@ == seq!['y']) by {
                if is_y { assert(chord@ =~= seq!['y']); }
            }
            assert(is_g <==> chord@ == seq!['g']) by {
                if is_g { assert(chord@ =~= seq!['g']); }
            }
            assert(is_dg <==> chord@ == seq!['d', 'g']) by {
                if is_dg { assert(chord@ =~= seq!['d', 'g']); }
            }
        }
        // `dgg` is three keys, so `dg` is not an answer yet: the operator keeps
        // waiting, and the count waits with it.
        if is_d && key == 'g' {
            let dg = vec!['d', 'g'];
            self.pending = string_of(dg.as_slice());
            assert(self@ =~= (Model { pending: seq!['d', 'g'], ..old(self)@ }));
            return None;
        }
        let times = match self.count {
            Some(c) => c,
            None => 1,
        };
        self.count = None;
        if is_d && key == 'd' {
            self.delete_lines(self.line, self.line + times - 1);
        } else if is_y && key == 'y' {
            self.yank(self.line, self.line + times - 1);
        } else if is_g && key == 'g' {
            self.line = 1;
            self.column = 1;
        } else if is_dg && key == 'g' {
            self.delete_lines(1, self.line);
        } else if is_d {
            return self.delete_over(key, times);
        } else {
            let mut shown = copied(chord);
            shown.push(key);
            return Some(string_of(shown.as_slice()));
        }
        None
    }

    /// A key in normal or visual mode.
    fn command(&mut self, key: char) -> (refused: Option<String>)
        requires
            old(self)@.command_ok(key),
        ensures
            (final(self)@, said(refused)) == old(self)@.commanded(key),
    {
        // A leading 0 is the motion; a 0 after digits is part of the count.
        let code = key as u32;
        if 48 <= code && code <= 57 && (key != '0' || self.count.is_some()) {
            let before = match self.count {
                Some(c) => c,
                None => 0,
            };
            self.count = Some(before * 10 + (code - 48) as usize);
            return None;
        }
        let chord = chars_of(self.pending.as_str());
        if chord.len() > 0 {
            self.pending = String::new();
            assert(self@ =~= (Model { pending: Seq::empty(), ..old(self)@ }));
            return self.operator(&chord, key);
        }
        if self.mode == Mode::Visual && self.over_selection(key) {
            return None;
        }
        // An operator must not consume the count: in `2dd` the 2 belongs to the
        // dd that follows, not to the first d.
        if key == 'g' || key == 'd' || key == 'y' {
            crate::text::push_char(&mut self.pending, key);
            assert(self@ =~= (Model { pending: old(self)@.pending.push(key), ..old(self)@ }));
            return None;
        }
        let times = match self.count {
            Some(c) => c,
            None => 1,
        };
        self.count = None;
        let ghost start = self@;
        let mut i: usize = 0;
        while i < times
            invariant
                i <= times,
                start == (Model { count: None, ..old(self)@ }),
                times == old(self)@.count_or_one(),
                self@ == start.repeated(key, i as nat),
                start.repeat_ok(key, times as nat),
            decreases times - i,
        {
            proof {
                lemma_repeat_ok_prefix(start, key, (i + 1) as nat, times as nat);
            }
            self.motion(key);
            i = i + 1;
        }
        None
    }

    /// A keystroke, and the chord it left with nothing to do — `Some("dq")`
    /// for an operator over a key that names no motion. Typed in insert
    /// mode, a command otherwise, and the caret clamped after either.
    pub fn key(&mut self, key: char) -> (refused: Option<String>)
        requires
            old(self)@.key_ok(key),
        ensures
            (final(self)@, said(refused)) == old(self)@.keyed(key),
    {
        let refused = if self.mode == Mode::Insert {
            self.insert(key);
            None
        } else {
            self.command(key)
        };
        self.clamp();
        refused
    }

    /// Word motions move in every mode, the way the arrows do; the keys that
    /// spell them only in normal mode. One definition of where a word ends,
    /// shared with those keys: [`moved`] over this buffer's own lines.
    pub fn word_motion(&mut self, stop: Word)
        requires
            old(self)@.line >= 1,
            old(self)@.column >= 1,
        ensures
            final(self)@ == (match moved_spec(old(self)@.rows(), old(self)@.caret(), word_key(stop)) {
                Some(p) => old(self)@.placed(p),
                None => old(self)@,
            }),
    {
        let key = match stop {
            Word::Start => 'w',
            Word::End => 'e',
            Word::Back => 'b',
        };
        let at = Place { line: self.line, column: self.column };
        let lines = self.lines();
        if let Some(place) = moved_in(&lines, at, key) {
            self.go_to_place(place);
        }
    }
}

/// How many spaces lead a line, counting no further than `limit`.
pub open spec fn space_run(line: Seq<char>, i: int, limit: int) -> int
    decreases limit - i,
{
    if 0 <= i < limit && i < line.len() && line[i] == ' ' {
        space_run(line, i + 1, limit)
    } else {
        i
    }
}

/// One line moved a level in or out: an empty line is left alone going in;
/// coming out takes the unit where the line starts with it, and up to that
/// many leading spaces where it does not.
pub open spec fn indented(line: Seq<char>, unit: Seq<char>, deeper: bool) -> Seq<char> {
    if deeper {
        if line.len() == 0 { line } else { unit + line }
    } else if line.len() >= unit.len() && line.take(unit.len() as int) == unit {
        line.skip(unit.len() as int)
    } else {
        line.skip(space_run(line, 0, unit.len() as int))
    }
}

proof fn lemma_space_run(line: Seq<char>, i: int, limit: int)
    requires
        0 <= i,
    ensures
        i <= space_run(line, i, limit),
        space_run(line, i, limit) <= line.len() || space_run(line, i, limit) == i,
    decreases limit - i,
{
    if 0 <= i < limit && i < line.len() && line[i] == ' ' {
        lemma_space_run(line, i + 1, limit);
    }
}

impl Model {
    /// Exactly the characters a span covers taken out, into the register, so
    /// a span inside one line takes part of it and a span across a break
    /// joins what is left; the caret where the span began.
    pub open spec fn deleted_in(self, from: Place, to: Place) -> Model {
        let rows = self.rows();
        let m = Model { register: split_lines(span_spec(rows, from, to)), ..self };
        if from.line > rows.len() {
            m
        } else {
            let last = min_int(to.line as int, rows.len() as int);
            let first = rows[from.line - 1];
            let end = rows[last - 1];
            let head = first.take(min_int(from.column - 1, first.len() as int));
            let tail = end.skip(min_int(to.column as int, end.len() as int));
            let kept = rows.take(from.line - 1) + seq![head + tail] + rows.skip(last);
            Model { line: from.line, column: from.column, ..m.remembered() }.with_text(join_lines(kept)).clamp()
        }
    }

    /// A span to delete starts on a real line and column, and ends on a line
    /// no earlier than the one above it.
    pub open spec fn delete_in_ok(self, from: Place, to: Place) -> bool {
        &&& span_ok(self.rows(), from)
        &&& from.line <= self.rows().len() ==> to.line >= 1 && from.line <= min_int(to.line as int, self.rows().len() as int) + 1
    }

    /// Typing over picked characters: they go, and the typed one stands in for
    /// them, as one step of undo.
    pub open spec fn replaced_in(self, from: Place, to: Place, key: char) -> Model {
        let m = self.deleted_in(from, to);
        let t = m.typed(key);
        Model { undo: t.undo.take(m.undo.len() as int), ..t }.clamp()
    }

    /// A pair either side of a span, keeping what it covers: the closing half
    /// after the span's last character, the opening one before its first.
    pub open spec fn wrapped(self, from: Place, to: Place, open: char, close: char) -> Model {
        let rows = self.rows();
        if from.line > rows.len() {
            self
        } else {
            let last = min_int(to.line as int, rows.len() as int);
            let end = rows[last - 1];
            let closed = rows.update(last - 1, end.insert(min_int(to.column as int, end.len() as int), close));
            let first = closed[from.line - 1];
            let opened = closed.update(from.line - 1, first.insert(min_int(from.column - 1, first.len() as int), open));
            self.remembered().with_text(join_lines(opened))
        }
    }

    pub open spec fn wrap_ok(self, from: Place, to: Place) -> bool {
        from.line <= self.rows().len() ==> from.line >= 1 && from.column >= 1 && to.line >= 1
    }

    /// A run of whole lines moved one level in or out as one edit, the level
    /// the file's own indent unit; the caret at the end of the last line moved.
    pub open spec fn lines_indented(self, from: int, to: int, deeper: bool) -> Model {
        let rows = self.rows();
        let last = min_int(to, rows.len() as int);
        let unit = indent_unit_spec(rows, self.tab_width);
        if from > last || unit.len() == 0 {
            self
        } else {
            let moved = Seq::new(rows.len(), |i: int| if from - 1 <= i < last { indented(rows[i], unit, deeper) } else { rows[i] });
            Model { line: last as usize, column: usize::MAX, ..self.remembered() }.with_text(join_lines(moved)).clamp()
        }
    }
}

fn indented_line(line: &Vec<char>, unit: &Vec<char>, deeper: bool) -> (r: Vec<char>)
    ensures
        r@ == indented(line@, unit@, deeper),
{
    if deeper {
        if line.len() == 0 {
            return copied(line);
        }
        let mut r = copied(unit);
        extend(&mut r, line);
        return r;
    }
    if starts_with(line, unit) {
        return slice_of(line, unit.len(), line.len());
    }
    let mut i: usize = 0;
    while i < unit.len() && i < line.len() && line[i] == ' '
        invariant
            i <= unit.len(),
            i <= line.len(),
            space_run(line@, i as int, unit@.len() as int) == space_run(line@, 0, unit@.len() as int),
        decreases line.len() - i,
    {
        i = i + 1;
    }
    slice_of(line, i, line.len())
}

impl Buffer {
    /// Removes exactly the characters the span covers, so a span inside one
    /// line takes part of it and a span across a break joins what is left.
    pub fn delete_in(&mut self, from: Place, to: Place)
        requires
            old(self)@.delete_in_ok(from, to),
        ensures
            final(self)@ == old(self)@.deleted_in(from, to),
    {
        self.yank_in(from, to);
        let lines = self.lines();
        let last = if to.line <= lines.len() { to.line } else { lines.len() };
        if from.line > lines.len() {
            return;
        }
        self.remember();
        let ghost rows = lines.deep_view();
        let first = &lines[from.line - 1];
        let end = &lines[last - 1];
        assert(first@ == rows[from.line - 1] && end@ == rows[last - 1]);
        let mut joined = slice_of(first, 0, if from.column - 1 <= first.len() { from.column - 1 } else { first.len() });
        let tail = slice_of(end, if to.column <= end.len() { to.column } else { end.len() }, end.len());
        extend(&mut joined, &tail);
        let with = vec![joined];
        assert(with.deep_view() =~~= seq![with@[0]@]);
        let kept = splice_lines(&lines, from.line - 1, last, &with);
        self.line = from.line;
        self.column = from.column;
        self.set(&kept);
        self.clamp();
    }

    /// Typing over picked characters: they go and the typed one stands in for
    /// them. One snapshot, so `u` costs the one key the replacement cost.
    pub fn replace_in(&mut self, from: Place, to: Place, key: char)
        requires
            old(self)@.delete_in_ok(from, to),
            old(self)@.deleted_in(from, to).caret_ok(),
        ensures
            final(self)@ == old(self)@.replaced_in(from, to, key),
    {
        self.delete_in(from, to);
        let ghost m = self@;
        let remembered = self.undo.len();
        self.insert(key);
        let ghost t = self@;
        proof {
            assert(t.undo.len() >= remembered);
        }
        self.undo.truncate(remembered);
        assert(self.undo@.map_values(|l: String| l@) =~= t.undo.take(remembered as int));
        assert(self@ =~= (Model { undo: t.undo.take(m.undo.len() as int), ..t }));
        self.clamp();
    }

    /// A pair either side of a span, keeping what it covers. The closing half
    /// goes in first: inserting the opening one moves the end of a span that
    /// lies on the same line.
    pub fn wrap_in(&mut self, from: Place, to: Place, open: char, close: char)
        requires
            old(self)@.wrap_ok(from, to),
        ensures
            final(self)@ == old(self)@.wrapped(from, to, open, close),
    {
        let mut lines = self.lines();
        if from.line > lines.len() {
            return;
        }
        self.remember();
        let ghost rows = lines.deep_view();
        let last = if to.line <= lines.len() { to.line } else { lines.len() };
        let mut end = copied(&lines[last - 1]);
        assert(end@ == rows[last - 1]);
        let after = if to.column <= end.len() { to.column } else { end.len() };
        end.insert(after, close);
        put_line(&mut lines, last - 1, end);
        assert(lines.deep_view() == rows.update(last - 1, rows[last - 1].insert(after as int, close)));
        let ghost closed = lines.deep_view();
        let mut first = copied(&lines[from.line - 1]);
        assert(first@ == closed[from.line - 1]);
        let before = if from.column - 1 <= first.len() { from.column - 1 } else { first.len() };
        first.insert(before, open);
        put_line(&mut lines, from.line - 1, first);
        assert(lines.deep_view() == closed.update(from.line - 1, closed[from.line - 1].insert(before as int, open)));
        assert(rows == old(self)@.rows());
        self.set(&lines);
    }

    /// A run of whole lines moved one level in or out, as one edit — so `u`
    /// costs the one key the indent cost, whatever the span covered. The level
    /// is the file's own indent unit; an empty line is skipped going in.
    pub fn indent_lines(&mut self, from: usize, to: usize, deeper: bool)
        requires
            from >= 1,
        ensures
            final(self)@ == old(self)@.lines_indented(from as int, to as int, deeper),
    {
        let mut lines = self.lines();
        let ghost rows = lines.deep_view();
        let to = if to <= lines.len() { to } else { lines.len() };
        if from > to {
            return;
        }
        let unit = indent_unit(&lines, self.tab_width);
        if unit.len() == 0 {
            return;
        }
        self.remember();
        let mut i = from - 1;
        while i < to
            invariant
                from - 1 <= i <= to <= rows.len(),
                lines.len() == rows.len(),
                unit@ == indent_unit_spec(rows, old(self)@.tab_width),
                forall|k: int| 0 <= k < rows.len() ==> #[trigger] lines.deep_view()[k] == (if from - 1 <= k < i { indented(rows[k], unit@, deeper) } else { rows[k] }),
            decreases to - i,
        {
            assert(lines.deep_view()[i as int] == lines@[i as int]@);
            let moved = indented_line(&lines[i], &unit, deeper);
            put_line(&mut lines, i, moved);
            i = i + 1;
        }
        let ghost moved = Seq::new(rows.len(), |k: int| if from - 1 <= k < to { indented(rows[k], unit@, deeper) } else { rows[k] });
        assert(lines.deep_view() =~~= moved);
        self.set(&lines);
        self.line = to;
        self.column = usize::MAX;
        self.clamp();
    }
}

proof fn lemma_trailing_ident(t: Seq<char>)
    ensures
        0 <= trailing_ident(t) <= t.len(),
    decreases t.len(),
{
    if t.len() > 0 {
        lemma_trailing_ident(t.drop_last());
    }
}

/// Lines before one that changed measure what they measured.
proof fn lemma_prefix_update(rows: Seq<Seq<char>>, k: int, row: Seq<char>, j: int)
    requires
        0 <= k < rows.len(),
        j <= k,
    ensures
        crate::words::prefix_len(rows.update(k, row), j) == crate::words::prefix_len(rows, j),
    decreases j,
{
    if j > 0 {
        lemma_prefix_update(rows, k, row, j - 1);
    }
}

impl Model {
    /// Where the name a completion replaces starts: the run of identifier
    /// characters back from the caret.
    pub open spec fn completion_start(self) -> int {
        let all = std_lines(self.text());
        if self.line <= all.len() {
            let t = all[self.line - 1];
            self.column - trailing_ident(t.take(min_int(self.column - 1, t.len() as int)))
        } else {
            self.column as int
        }
    }

    /// How much of the caret's line stands before the caret.
    pub open spec fn completion_cut(self) -> int {
        min_int(self.column - 1, self.rows()[self.line - 1].len() as int)
    }

    /// What the line keeps ahead of the name being completed.
    pub open spec fn completion_head(self) -> Seq<char> {
        self.rows()[self.line - 1].take(self.completion_start() - 1)
    }

    /// The completion written over the name before the caret, the caret after
    /// it, as one edit.
    pub open spec fn completion_written(self, text: Seq<char>) -> Model {
        let rows = self.rows();
        let row = rows[self.line - 1];
        let head = self.completion_head();
        Model { column: (head.len() + text.len() + 1) as usize, ..self.remembered() }.with_text(
            join_lines(rows.update(self.line - 1, head + text + row.skip(self.completion_cut()))),
        ).clamp()
    }

    /// Where the completion went in, counted from the start of the text.
    pub open spec fn completion_at(self) -> int {
        crate::words::prefix_len(self.rows(), self.line - 1) + self.completion_head().len()
    }

    /// Each stop of the snippet as the number of characters that follow it.
    pub open spec fn completion_tails(self, text: Seq<char>, stops: Seq<usize>) -> Seq<usize> {
        let total = self.completion_written(text).text().len();
        stops.map_values(|stop: usize| (total - self.completion_at() - stop) as usize)
    }

    /// A completion: the text in place of the name before the caret, the
    /// caret on the snippet's first stop where it names one, and the stops
    /// after it handed back.
    pub open spec fn completed(self, text: Seq<char>, stops: Seq<usize>) -> (Model, Seq<usize>) {
        let m = self.completion_written(text);
        let tails = self.completion_tails(text, stops);
        let landed = if tails.len() > 0 {
            match place_before_spec(m.text(), tails[0] as int) {
                Some(p) => m.placed(p),
                None => m,
            }
        } else {
            m
        };
        (landed, if tails.len() > 0 { tails.skip(1) } else { Seq::empty() })
    }

    /// A completion needs a real caret with the name before it on its line,
    /// and stops that lie inside the text it puts in.
    pub open spec fn complete_ok(self, text: Seq<char>, stops: Seq<usize>) -> bool {
        &&& 1 <= self.line <= self.rows().len()
        &&& self.column >= 1
        &&& self.completion_start() - 1 <= self.completion_cut()
        &&& forall|i: int| 0 <= i < stops.len() ==> stops[i] + self.completion_at() <= #[trigger] self.completion_written(text).text().len()
    }
}

/// Each stop as the number of characters that follow it in a text of
/// `total` characters where the snippet went in at `at`.
fn tails_of(total: usize, at: usize, stops: &[usize]) -> (tails: Vec<Tail>)
    requires
        forall|i: int| 0 <= i < stops@.len() ==> stops@[i] + at <= total,
    ensures
        tails@.map_values(|t: Tail| t.0) == stops@.map_values(|stop: usize| (total - at - stop) as usize),
{
    let mut tails: Vec<Tail> = Vec::new();
    let mut i: usize = 0;
    while i < stops.len()
        invariant
            i <= stops.len(),
            forall|j: int| 0 <= j < stops@.len() ==> stops@[j] + at <= total,
            tails@.map_values(|t: Tail| t.0) == stops@.take(i as int).map_values(|stop: usize| (total - at - stop) as usize),
        decreases stops.len() - i,
    {
        let ghost before = tails@.map_values(|t: Tail| t.0);
        assert(stops@[i as int] + at <= total);
        tails.push(Tail(total - at - stops[i]));
        assert(tails@.map_values(|t: Tail| t.0) =~= before.push((total - at - stops@[i as int]) as usize));
        assert(stops@.take(i + 1).map_values(|stop: usize| (total - at - stop) as usize)
            =~= stops@.take(i as int).map_values(|stop: usize| (total - at - stop) as usize).push((total - at - stops@[i as int]) as usize));
        i = i + 1;
    }
    assert(stops@.take(stops.len() as int) =~= stops@);
    tails
}

/// All but the first.
fn after_first(tails: &Vec<Tail>) -> (rest: Vec<Tail>)
    ensures
        rest@.map_values(|t: Tail| t.0) == (if tails@.len() > 0 { tails@.map_values(|t: Tail| t.0).skip(1) } else { Seq::empty() }),
{
    let mut rest: Vec<Tail> = Vec::new();
    if tails.len() == 0 {
        assert(rest@.map_values(|t: Tail| t.0) =~= Seq::<usize>::empty());
        return rest;
    }
    let mut k: usize = 1;
    while k < tails.len()
        invariant
            1 <= k <= tails.len(),
            rest@.map_values(|t: Tail| t.0) == tails@.map_values(|t: Tail| t.0).subrange(1, k as int),
        decreases tails.len() - k,
    {
        let ghost before = rest@.map_values(|t: Tail| t.0);
        rest.push(tails[k]);
        assert(rest@.map_values(|t: Tail| t.0) =~= before.push(tails@[k as int].0));
        assert(tails@.map_values(|t: Tail| t.0).subrange(1, k + 1) =~= tails@.map_values(|t: Tail| t.0).subrange(1, k as int).push(tails@[k as int].0));
        k = k + 1;
    }
    assert(rest@.map_values(|t: Tail| t.0) =~= tails@.map_values(|t: Tail| t.0).skip(1));
    rest
}

impl Buffer {
    /// The completion written over the name before the caret, as one edit;
    /// where it went in comes back.
    fn write_completion(&mut self, text: &str) -> (at: usize)
        requires
            1 <= old(self)@.line <= old(self)@.rows().len(),
            old(self)@.column >= 1,
            old(self)@.completion_start() - 1 <= old(self)@.completion_cut(),
        ensures
            final(self)@ == old(self)@.completion_written(text@),
            at == old(self)@.completion_at(),
            at <= final(self)@.text().len(),
    {
        let ghost start_model = self@;
        self.remember();
        let start = self.word_start(self.line, self.column);
        let mut lines = self.lines();
        let ghost rows = lines.deep_view();
        crate::text::bounded(text);
        let before = crate::words::offset(&lines, Place { line: self.line, column: 1 });
        let row = copied(&lines[self.line - 1]);
        assert(row@ == rows[self.line - 1]);
        let cut = if self.column - 1 <= row.len() { self.column - 1 } else { row.len() };
        proof {
            lemma_trailing_ident(std_lines(self@.text())[self.line - 1].take(min_int(self.column - 1, std_lines(self@.text())[self.line - 1].len() as int)));
            lemma_prefix_fits(rows, self.line - 1);
        }
        let head = slice_of(&row, 0, start - 1);
        let tail = slice_of(&row, cut, row.len());
        let typed = chars_of(text);
        let mut joined = copied(&head);
        extend(&mut joined, &typed);
        extend(&mut joined, &tail);
        put_line(&mut lines, self.line - 1, joined);
        self.column = head.len() + typed.len() + 1;
        self.set(&lines);
        self.clamp();
        let ghost new_rows = lines.deep_view();
        proof {
            lemma_prefix_update(rows, start_model.line - 1, new_rows[start_model.line - 1], start_model.line - 1);
            assert(new_rows == rows.update(start_model.line - 1, new_rows[start_model.line - 1]));
            lemma_prefix_fits(new_rows, start_model.line - 1);
        }
        before + head.len()
    }

    /// Replaces the name before the cursor with `text`, the reader's pick from
    /// the completion list. `stops` are a snippet's tab stops as character
    /// offsets into `text`, ascending: the cursor lands on the first, and the
    /// rest come back as [`Tail`]s, the form a stop survives typing in.
    pub fn complete(&mut self, text: &str, stops: &[usize]) -> (rest: Vec<Tail>)
        requires
            old(self)@.complete_ok(text@, stops@),
        ensures
            (final(self)@, rest@.map_values(|t: Tail| t.0)) == old(self)@.completed(text@, stops@),
    {
        let ghost start_model = self@;
        let at = self.write_completion(text);
        let total = chars_of(self.shown()).len();
        assert forall|i: int| 0 <= i < stops@.len() implies stops@[i] + at <= total by {
            assert(stops@[i] + start_model.completion_at() <= start_model.completion_written(text@).text().len());
        }
        let tails = tails_of(total, at, stops);
        assert(tails@.map_values(|t: Tail| t.0) == start_model.completion_tails(text@, stops@));
        if tails.len() > 0 {
            if let Some(place) = self.place_before(tails[0]) {
                self.go_to_place(place);
            }
        }
        after_first(&tails)
    }
}

/// An edit as offsets into the text it was measured against: where it
/// starts, the first character it does not cover, and what goes in.
pub type SpanView = (usize, usize, Seq<char>);

/// `x` put in before the first span that starts no later than it: spans kept
/// from the back of the text to the front, and of two that start at one place
/// the one that came later first.
pub open spec fn place_desc(sorted: Seq<SpanView>, x: SpanView) -> Seq<SpanView>
    decreases sorted.len(),
{
    if sorted.len() == 0 {
        seq![x]
    } else if sorted[0].0 <= x.0 {
        seq![x] + sorted
    } else {
        seq![sorted[0]] + place_desc(sorted.drop_first(), x)
    }
}

/// Spans in the order they are applied in: back to front, so no edit moves
/// the text a later one names; and of two at one place, the later one first,
/// so they end up in the buffer in the order they came.
pub open spec fn back_to_front(spans: Seq<SpanView>) -> Seq<SpanView>
    decreases spans.len(),
{
    if spans.len() == 0 {
        Seq::empty()
    } else {
        place_desc(back_to_front(spans.drop_last()), spans.last())
    }
}

/// One span applied to a text and the caret offset riding it: both ends
/// clamped to the text; a caret after the span moves by what the edit added
/// or took, one inside it lands at the end of the replacement, one before it
/// stays.
pub open spec fn apply_span(text: Seq<char>, at: int, span: SpanView) -> (Seq<char>, int) {
    let from = min_int(span.0 as int, text.len() as int);
    let until = clamp_int(span.1 as int, from, text.len() as int);
    let put = span.2;
    let moved = if at >= until {
        at - (until - from) + put.len()
    } else if at > from {
        from + put.len()
    } else {
        at
    };
    (text.take(from) + put + text.skip(until), moved)
}

/// Spans applied one after another.
pub open spec fn apply_spans(text: Seq<char>, at: int, spans: Seq<SpanView>) -> (Seq<char>, int)
    decreases spans.len(),
{
    if spans.len() == 0 {
        (text, at)
    } else {
        let (t, a) = apply_spans(text, at, spans.drop_last());
        apply_span(t, a, spans.last())
    }
}

/// How many characters the spans put in, all told.
pub open spec fn added(spans: Seq<SpanView>) -> int
    decreases spans.len(),
{
    if spans.len() == 0 {
        0
    } else {
        added(spans.drop_last()) + spans.last().2.len()
    }
}

/// A server's edits as spans over the lines they were measured against.
pub open spec fn edit_spans(rows: Seq<Seq<char>>, edits: Seq<(Place, Place, String)>) -> Seq<SpanView> {
    edits.map_values(|e: (Place, Place, String)| (
        crate::words::offset_spec(rows, e.0) as usize,
        crate::words::offset_spec(rows, e.1) as usize,
        e.2@,
    ))
}

proof fn lemma_added_place(sorted: Seq<SpanView>, x: SpanView)
    ensures
        added(place_desc(sorted, x)) == added(sorted) + x.2.len(),
        place_desc(sorted, x).len() == sorted.len() + 1,
    decreases sorted.len(),
{
    if sorted.len() > 0 && sorted[0].0 > x.0 {
        lemma_added_place(sorted.drop_first(), x);
        lemma_added_front(sorted[0], place_desc(sorted.drop_first(), x));
        lemma_added_front(sorted[0], sorted.drop_first());
        assert(seq![sorted[0]] + sorted.drop_first() == sorted);
    } else if sorted.len() > 0 {
        lemma_added_front(x, sorted);
    } else {
        lemma_added_front(x, sorted);
        assert(seq![x] + sorted == seq![x]);
    }
}

proof fn lemma_added_front(x: SpanView, rest: Seq<SpanView>)
    ensures
        added(seq![x] + rest) == x.2.len() + added(rest),
    decreases rest.len(),
{
    let whole = seq![x] + rest;
    if rest.len() > 0 {
        lemma_added_front(x, rest.drop_last());
        assert(whole.drop_last() =~= seq![x] + rest.drop_last());
        assert(whole.last() == rest.last());
        assert(added(whole) == added(whole.drop_last()) + whole.last().2.len());
        assert(added(rest) == added(rest.drop_last()) + rest.last().2.len());
    } else {
        assert(whole =~= seq![x]);
        assert(whole.drop_last() =~= Seq::<SpanView>::empty());
        assert(added(whole) == added(whole.drop_last()) + whole.last().2.len());
    }
}

proof fn lemma_added_sorted(spans: Seq<SpanView>)
    ensures
        added(back_to_front(spans)) == added(spans),
        back_to_front(spans).len() == spans.len(),
    decreases spans.len(),
{
    if spans.len() > 0 {
        lemma_added_sorted(spans.drop_last());
        lemma_added_place(back_to_front(spans.drop_last()), spans.last());
    }
}

proof fn lemma_added_prefix(spans: Seq<SpanView>, i: int)
    requires
        0 <= i <= spans.len(),
    ensures
        0 <= added(spans.take(i)) <= added(spans),
    decreases spans.len(),
{
    if spans.len() > 0 {
        if i == spans.len() {
            assert(spans.take(i) == spans);
            lemma_added_prefix(spans.drop_last(), i - 1);
            assert(spans.drop_last().take(i - 1) == spans.drop_last());
        } else {
            lemma_added_prefix(spans.drop_last(), i);
            assert(spans.drop_last().take(i) == spans.take(i));
        }
    }
}

/// Where `place_desc` puts its span: before the first that starts no later.
proof fn lemma_place_desc(sorted: Seq<SpanView>, x: SpanView, p: int)
    requires
        0 <= p <= sorted.len(),
        forall|j: int| 0 <= j < p ==> sorted[j].0 > x.0,
        p < sorted.len() ==> sorted[p].0 <= x.0,
    ensures
        place_desc(sorted, x) == sorted.take(p) + seq![x] + sorted.skip(p),
    decreases sorted.len(),
{
    if sorted.len() == 0 {
        assert(sorted.take(p) + seq![x] + sorted.skip(p) =~= seq![x]);
    } else if p == 0 {
        assert(sorted.take(p) + seq![x] + sorted.skip(p) =~= seq![x] + sorted);
    } else {
        lemma_place_desc(sorted.drop_first(), x, p - 1);
        assert(sorted.take(p) + seq![x] + sorted.skip(p) =~= seq![sorted[0]] + (sorted.drop_first().take(p - 1) + seq![x] + sorted.drop_first().skip(p - 1)));
    }
}

impl Model {
    /// What a reply of text edits does to the buffer: applied back to front
    /// over the text, as one edit, the caret riding them.
    pub open spec fn reformatted(self, edits: Seq<(Place, Place, String)>) -> Model {
        let spans = back_to_front(edit_spans(self.rows(), edits));
        let (text, at) = apply_spans(self.text(), self.here(), spans);
        let m = self.remembered().with_text(text);
        match place_before_spec(text, if text.len() >= at { text.len() - at } else { 0 }) {
            Some(p) => m.placed(p),
            None => m,
        }
    }

    /// Every place a reply names is a real line and column, and what the
    /// edits put in fits beside the text.
    pub open spec fn reformat_ok(self, edits: Seq<(Place, Place, String)>) -> bool {
        &&& self.line >= 1
        &&& self.column >= 1
        &&& forall|i: int| 0 <= i < edits.len() ==> (#[trigger] edits[i]).0.line >= 1 && edits[i].0.column >= 1
            && edits[i].1.line >= 1 && edits[i].1.column >= 1
        &&& self.text().len() + added(edit_spans(self.rows(), edits)) + 1 <= usize::MAX
    }
}

/// An edit as offsets, as the exec side holds it.
struct Span {
    from: usize,
    until: usize,
    text: Vec<char>,
}

impl View for Span {
    type V = SpanView;

    closed spec fn view(&self) -> SpanView {
        (self.from, self.until, self.text@)
    }
}

/// A span put in where [`place_desc`] puts it.
fn place_span(sorted: &mut Vec<Span>, x: Span)
    ensures
        final(sorted)@.map_values(|s: Span| s@) == place_desc(old(sorted)@.map_values(|s: Span| s@), x@),
{
    let ghost view = sorted@.map_values(|s: Span| s@);
    let mut p: usize = 0;
    while p < sorted.len() && sorted[p].from > x.from
        invariant
            p <= sorted.len(),
            view == sorted@.map_values(|s: Span| s@),
            forall|j: int| 0 <= j < p ==> view[j].0 > x.from,
        decreases sorted.len() - p,
    {
        p = p + 1;
    }
    proof {
        lemma_place_desc(view, x@, p as int);
    }
    let ghost xv = x@;
    sorted.insert(p, x);
    assert(sorted@.map_values(|s: Span| s@) =~= view.take(p as int) + seq![xv] + view.skip(p as int));
}

impl Buffer {
    /// The text edits a server sent back, applied as one edit. Back to front:
    /// every range in a reply is measured against the document the server was
    /// sent, so applying the first edit forwards would move the text every
    /// later range names. `until` is the first place an edit does not cover,
    /// and both ends are clamped to the text.
    pub fn reformat(&mut self, edits: &[(Place, Place, String)])
        requires
            old(self)@.reformat_ok(edits@),
        ensures
            final(self)@ == old(self)@.reformatted(edits@),
    {
        let ghost start = self@;
        let lines = self.lines();
        let ghost rows = lines.deep_view();
        let ghost all = edit_spans(rows, edits@);
        let mut spans: Vec<Span> = Vec::new();
        let mut k: usize = 0;
        while k < edits.len()
            invariant
                k <= edits.len(),
                rows == lines.deep_view(),
                fits_usize(rows),
                start.reformat_ok(edits@),
                all == edit_spans(rows, edits@),
                spans@.map_values(|s: Span| s@) == back_to_front(all.take(k as int)),
            decreases edits.len() - k,
        {
            assert(edits@[k as int].0.line >= 1);
            let from = crate::words::offset(&lines, edits[k].0);
            let until = crate::words::offset(&lines, edits[k].1);
            let text = chars_of(edits[k].2.as_str());
            let span = Span { from, until, text };
            assert(span@ == all[k as int]);
            assert(all.take(k + 1).drop_last() == all.take(k as int));
            place_span(&mut spans, span);
            k = k + 1;
        }
        assert(all.take(edits.len() as int) == all);
        let ghost sorted = back_to_front(all);
        proof {
            lemma_added_sorted(all);
        }
        let mut text = chars_of(self.shown());
        let mut at = self.offset();
        self.remember();
        let mut i: usize = 0;
        while i < spans.len()
            invariant
                i <= spans.len(),
                spans@.map_values(|s: Span| s@) == sorted,
                sorted.len() == spans.len(),
                (text@, at as int) == apply_spans(start.text(), start.here(), sorted.take(i as int)),
                text.len() <= start.text().len() + added(sorted.take(i as int)),
                at <= text.len() + 1,
                start.text().len() + added(sorted) + 1 <= usize::MAX,
            decreases spans.len() - i,
        {
            proof {
                lemma_added_prefix(sorted, i + 1);
                assert(sorted.take(i + 1).drop_last() == sorted.take(i as int));
                assert(sorted[i as int] == spans@[i as int]@);
            }
            let span = &spans[i];
            let from = if span.from <= text.len() { span.from } else { text.len() };
            let until = if span.until < from { from } else if span.until > text.len() { text.len() } else { span.until };
            at = if at >= until {
                at - (until - from) + span.text.len()
            } else if at > from {
                from + span.text.len()
            } else {
                at
            };
            let mut next = slice_of(&text, 0, from);
            extend(&mut next, &span.text);
            let rest = slice_of(&text, until, text.len());
            extend(&mut next, &rest);
            text = next;
            i = i + 1;
        }
        assert(sorted.take(spans.len() as int) == sorted);
        let lines = split_text(&text);
        proof {
            crate::text::lemma_join_split(text@);
        }
        self.set(&lines);
        let keep = if text.len() >= at { text.len() - at } else { 0 };
        if let Some(place) = self.place_before(Tail(keep)) {
            self.go_to_place(place);
        }
    }
}

/// Whether a place comes before another in the text.
pub open spec fn earlier(a: Place, b: Place) -> bool {
    a.line < b.line || (a.line == b.line && a.column < b.column)
}

/// Index `x` put in after every index whose place comes no later than its
/// own: places in document order, and of two at one place the first given
/// first.
pub open spec fn place_asc(sorted: Seq<usize>, x: usize, places: Seq<Place>) -> Seq<usize>
    decreases sorted.len(),
{
    if sorted.len() == 0 {
        seq![x]
    } else if earlier(places[x as int], places[sorted[0] as int]) {
        seq![x] + sorted
    } else {
        seq![sorted[0]] + place_asc(sorted.drop_first(), x, places)
    }
}

/// The first `n` places' indices in document order.
pub open spec fn in_order(places: Seq<Place>, n: nat) -> Seq<usize>
    decreases n,
{
    if n == 0 {
        Seq::empty()
    } else {
        place_asc(in_order(places, (n - 1) as nat), (n - 1) as usize, places)
    }
}

/// Where a multi-place replacement stands: the lines so far, the line the
/// last place was on and the shift the places before on it left, and where
/// each place has landed.
pub struct Replacing {
    pub lines: Seq<Seq<char>>,
    pub previous: usize,
    pub shift: int,
    pub landed: Seq<Place>,
}

/// The shift a place starts from: what the places before it on its line left.
pub open spec fn shift_at(st: Replacing, place: Place) -> int {
    if place.line != st.previous { 0 } else { st.shift }
}

/// Where on its line the text goes for a place: its column moved by the
/// shift, saturating, and clamped to the line.
pub open spec fn replace_from(st: Replacing, place: Place) -> int {
    let chars = st.lines[place.line - 1];
    let moved = clamp_int(place.column + shift_at(st, place), 0, usize::MAX as int);
    min_int(if moved >= 1 { moved - 1 } else { 0 }, chars.len() as int)
}

pub open spec fn replace_to(st: Replacing, place: Place, width: int) -> int {
    min_int(replace_from(st, place) + width, st.lines[place.line - 1].len() as int)
}

/// One place of a replacement: the text typed over the `width` characters
/// that follow the place, the shift carried to the next place on the line.
pub open spec fn replace_step(st: Replacing, place: Place, index: int, width: int, text: Seq<char>) -> Replacing {
    let previous = if place.line != st.previous { place.line } else { st.previous };
    let shift = shift_at(st, place);
    if place.line > st.lines.len() {
        Replacing { previous, shift, ..st }
    } else {
        let chars = st.lines[place.line - 1];
        let from = replace_from(st, place);
        let to = replace_to(st, place, width);
        Replacing {
            lines: st.lines.update(place.line - 1, chars.take(from) + text + chars.skip(to)),
            previous,
            shift: shift + text.len() - (to - from),
            landed: st.landed.update(index, Place { line: place.line, column: (from + 1 + text.len()) as usize }),
        }
    }
}

/// The first `k` places of the order replaced.
pub open spec fn replace_run(places: Seq<Place>, order: Seq<usize>, width: int, text: Seq<char>, lines: Seq<Seq<char>>, k: nat) -> Replacing
    decreases k,
{
    if k == 0 {
        Replacing { lines, previous: 0, shift: 0, landed: places }
    } else {
        let st = replace_run(places, order, width, text, lines, (k - 1) as nat);
        replace_step(st, places[order[k - 1] as int], order[k - 1] as int, width, text)
    }
}

/// What one place asks of the numbers it is counted in.
pub open spec fn step_fits(st: Replacing, place: Place, width: int, text: Seq<char>) -> bool {
    place.line <= st.lines.len() ==> {
        let from = replace_from(st, place);
        let to = replace_to(st, place, width);
        &&& from + width <= usize::MAX
        &&& to - from <= isize::MAX
        &&& from + 1 + text.len() <= usize::MAX
        &&& isize::MIN <= shift_at(st, place) + text.len() - (to - from) <= isize::MAX
    }
}

impl Model {
    /// Text typed at every place over the `width` characters after each, as
    /// one edit, and where each place ended up.
    pub open spec fn replaced_at(self, places: Seq<Place>, width: int, text: Seq<char>) -> (Model, Seq<Place>) {
        let run = replace_run(places, in_order(places, places.len()), width, text, self.rows(), places.len());
        (self.remembered().with_text(join_lines(run.lines)).clamp(), run.landed)
    }

    /// Every place is on a line counted from one, and the columns and
    /// shifts of the run fit the machine's numbers.
    pub open spec fn replace_ok(self, places: Seq<Place>, width: int, text: Seq<char>) -> bool {
        let order = in_order(places, places.len());
        &&& forall|i: int| 0 <= i < places.len() ==> (#[trigger] places[i]).line >= 1
        &&& forall|k: int| 0 <= k < places.len() ==> step_fits(
            #[trigger] replace_run(places, order, width, text, self.rows(), k as nat),
            places[order[k] as int],
            width,
            text,
        )
    }
}

/// Where [`place_asc`] puts its index.
proof fn lemma_place_asc(sorted: Seq<usize>, x: usize, places: Seq<Place>, p: int)
    requires
        0 <= p <= sorted.len(),
        forall|j: int| 0 <= j < p ==> !earlier(places[x as int], places[#[trigger] sorted[j] as int]),
        p < sorted.len() ==> earlier(places[x as int], places[sorted[p] as int]),
    ensures
        place_asc(sorted, x, places) == sorted.take(p) + seq![x] + sorted.skip(p),
    decreases sorted.len(),
{
    if sorted.len() == 0 {
        assert(sorted.take(p) + seq![x] + sorted.skip(p) =~= seq![x]);
    } else if p == 0 {
        assert(sorted.take(p) + seq![x] + sorted.skip(p) =~= seq![x] + sorted);
    } else {
        assert(!earlier(places[x as int], places[sorted[0] as int]));
        assert forall|j: int| 0 <= j < p - 1 implies !earlier(places[x as int], places[#[trigger] sorted.drop_first()[j] as int]) by {
            assert(sorted.drop_first()[j] == sorted[j + 1]);
        }
        lemma_place_asc(sorted.drop_first(), x, places, p - 1);
        assert(sorted.take(p) + seq![x] + sorted.skip(p) =~= seq![sorted[0]] + (sorted.drop_first().take(p - 1) + seq![x] + sorted.drop_first().skip(p - 1)));
    }
}

/// The order holds each index below `n` it was built from.
proof fn lemma_in_order_bound(places: Seq<Place>, n: nat)
    ensures
        in_order(places, n).len() == n,
        forall|j: int| 0 <= j < n ==> #[trigger] in_order(places, n)[j] < n,
    decreases n,
{
    if n > 0 {
        lemma_in_order_bound(places, (n - 1) as nat);
        lemma_place_asc_bound(in_order(places, (n - 1) as nat), (n - 1) as usize, places, n);
    }
}

proof fn lemma_place_asc_bound(sorted: Seq<usize>, x: usize, places: Seq<Place>, n: nat)
    requires
        x < n,
        forall|j: int| 0 <= j < sorted.len() ==> #[trigger] sorted[j] < n,
    ensures
        place_asc(sorted, x, places).len() == sorted.len() + 1,
        forall|j: int| 0 <= j < sorted.len() + 1 ==> #[trigger] place_asc(sorted, x, places)[j] < n,
    decreases sorted.len(),
{
    if sorted.len() > 0 && !earlier(places[x as int], places[sorted[0] as int]) {
        lemma_place_asc_bound(sorted.drop_first(), x, places, n);
        let rest = place_asc(sorted.drop_first(), x, places);
        assert forall|j: int| 0 <= j < sorted.len() + 1 implies #[trigger] place_asc(sorted, x, places)[j] < n by {
            if j > 0 {
                assert(place_asc(sorted, x, places)[j] == rest[j - 1]);
            }
        }
    }
}

/// A place's index put in where [`place_asc`] puts it.
fn place_index(order: &mut Vec<usize>, x: usize, places: &[Place])
    requires
        x < places@.len(),
        forall|j: int| 0 <= j < old(order)@.len() ==> #[trigger] old(order)@[j] < places@.len(),
    ensures
        final(order)@ == place_asc(old(order)@, x, places@),
{
    let ghost view = order@;
    let mut p: usize = 0;
    while p < order.len() && !(places[x].line < places[order[p]].line
        || (places[x].line == places[order[p]].line && places[x].column < places[order[p]].column))
        invariant
            p <= order.len(),
            view == order@,
            x < places@.len(),
            forall|j: int| 0 <= j < order@.len() ==> #[trigger] order@[j] < places@.len(),
            forall|j: int| 0 <= j < p ==> !earlier(places@[x as int], places@[#[trigger] view[j] as int]),
        decreases order.len() - p,
    {
        p = p + 1;
    }
    proof {
        lemma_place_asc(view, x, places@, p as int);
    }
    order.insert(p, x);
}

/// One place of a replacement, over the run's state.
fn replace_one(
    lines: &mut Vec<Vec<char>>,
    previous: &mut usize,
    shift: &mut isize,
    landed: &mut Vec<Place>,
    place: Place,
    index: usize,
    width: usize,
    typed: &Vec<char>,
)
    requires
        place.line >= 1,
        index < old(landed)@.len(),
        typed@.len() <= isize::MAX,
        step_fits(
            Replacing { lines: old(lines).deep_view(), previous: *old(previous), shift: *old(shift) as int, landed: old(landed)@ },
            place,
            width as int,
            typed@,
        ),
    ensures
        final(landed)@.len() == old(landed)@.len(),
        (Replacing { lines: final(lines).deep_view(), previous: *final(previous), shift: *final(shift) as int, landed: final(landed)@ })
            == replace_step(
                Replacing { lines: old(lines).deep_view(), previous: *old(previous), shift: *old(shift) as int, landed: old(landed)@ },
                place,
                index as int,
                width as int,
                typed@,
            ),
{
    let ghost st = Replacing { lines: lines.deep_view(), previous: *previous, shift: *shift as int, landed: landed@ };
    if place.line != *previous {
        *previous = place.line;
        *shift = 0;
    }
    if place.line - 1 < lines.len() {
        let chars = copied(&lines[place.line - 1]);
        assert(chars@ == st.lines[place.line - 1]);
        let moved: usize = if *shift >= 0 {
            let up = *shift as usize;
            if place.column <= usize::MAX - up { place.column + up } else { usize::MAX }
        } else {
            let down = (0 - (*shift + 1)) as usize + 1;
            if place.column >= down { place.column - down } else { 0 }
        };
        let from = if moved >= 1 { moved - 1 } else { 0 };
        let from = if from <= chars.len() { from } else { chars.len() };
        let to = if from + width <= chars.len() { from + width } else { chars.len() };
        let mut replaced = slice_of(&chars, 0, from);
        extend(&mut replaced, typed);
        let rest = slice_of(&chars, to, chars.len());
        extend(&mut replaced, &rest);
        put_line(lines, place.line - 1, replaced);
        let delta: isize = typed.len() as isize - (to - from) as isize;
        *shift = *shift + delta;
        landed.set(index, Place { line: place.line, column: from + 1 + typed.len() });
    }
}

impl Buffer {
    /// Types `text` at every place, each over the `width` characters that
    /// follow it, and answers where each place ended up — in the order they
    /// arrived. One edit and one undo step however many places there are. The
    /// places go in document order, each carrying the shift the ones before
    /// it on its line left behind.
    pub fn replace_at(&mut self, places: &[Place], width: usize, text: &str) -> (landed: Vec<Place>)
        requires
            old(self)@.replace_ok(places@, width as int, text@),
        ensures
            (final(self)@, landed@) == old(self)@.replaced_at(places@, width as int, text@),
    {
        let ghost start = self@;
        let mut lines = self.lines();
        let ghost rows = lines.deep_view();
        let mut order: Vec<usize> = Vec::new();
        let mut k: usize = 0;
        while k < places.len()
            invariant
                k <= places.len(),
                order@ == in_order(places@, k as nat),
            decreases places.len() - k,
        {
            proof {
                lemma_in_order_bound(places@, k as nat);
            }
            place_index(&mut order, k, places);
            k = k + 1;
        }
        proof {
            lemma_in_order_bound(places@, places.len() as nat);
        }
        let ghost sequence = order@;
        let mut landed: Vec<Place> = Vec::new();
        let mut c: usize = 0;
        while c < places.len()
            invariant
                c <= places.len(),
                landed@ == places@.take(c as int),
            decreases places.len() - c,
        {
            landed.push(places[c]);
            assert(landed@ =~= places@.take(c + 1));
            c = c + 1;
        }
        assert(landed@ =~= places@);
        let typed_chars = chars_of(text);
        crate::text::bounded(text);
        let typed = typed_chars.len();
        let mut previous: usize = 0;
        let mut shift: isize = 0;
        self.remember();
        let mut i: usize = 0;
        while i < order.len()
            invariant
                i <= order.len() == places.len(),
                order@ == sequence,
                sequence == in_order(places@, places@.len()),
                forall|j: int| 0 <= j < places@.len() ==> #[trigger] sequence[j] < places@.len(),
                start.replace_ok(places@, width as int, text@),
                typed_chars@ == text@,
                typed == text@.len(),
                typed <= isize::MAX,
                rows == start.rows(),
                ({
                    let run = replace_run(places@, sequence, width as int, text@, rows, i as nat);
                    &&& lines.deep_view() == run.lines
                    &&& previous == run.previous
                    &&& shift == run.shift
                    &&& landed@ == run.landed
                }),
                landed@.len() == places@.len(),
            decreases order.len() - i,
        {
            let index = order[i];
            let place = places[index];
            proof {
                let k = i as int;
                assert(0 <= k < places@.len());
                assert(step_fits(
                    replace_run(places@, in_order(places@, places@.len()), width as int, text@, start.rows(), k as nat),
                    places@[in_order(places@, places@.len())[k] as int],
                    width as int,
                    text@,
                ));
            }
            replace_one(&mut lines, &mut previous, &mut shift, &mut landed, place, index, width, &typed_chars);
            i = i + 1;
        }
        self.set(&lines);
        self.clamp();
        landed
    }
}

/// What a scan for the bracket pair around the caret holds: the brackets
/// still open, each with the bracket that shuts it, and the first pair found
/// to close around the caret.
pub type BracketScan = (Seq<(Place, char)>, Option<(Place, Place)>);

/// One character of the scan. An opening bracket is pushed; a character that
/// shuts the innermost open bracket pops it, and the pair counts when it holds
/// the caret — resting on a bracket counts — and none has yet. The first pair
/// to close around the caret is the innermost, since an inner pair shuts
/// before the pair holding it. A mismatched closer is passed over.
pub open spec fn bracket_step(st: BracketScan, here: Place, c: char, at: Place) -> BracketScan {
    match shuts_spec(c) {
        Some(close) => (st.0.push((here, close)), st.1),
        None => if st.0.len() > 0 && st.0.last().1 == c {
            let from = st.0.last().0;
            let found = if st.1 is None && !earlier(at, from) && !earlier(here, at) { Some((from, here)) } else { st.1 };
            (st.0.drop_last(), found)
        } else {
            st
        },
    }
}

/// The scan over the first `j` characters of line `line`.
pub open spec fn bracket_line(st: BracketScan, row: Seq<char>, line: int, j: nat, at: Place) -> BracketScan
    decreases j,
{
    if j == 0 {
        st
    } else {
        bracket_step(
            bracket_line(st, row, line, (j - 1) as nat, at),
            Place { line: line as usize, column: j as usize },
            row[j - 1],
            at,
        )
    }
}

/// The scan over the first `k` lines.
pub open spec fn bracket_scan(rows: Seq<Seq<char>>, k: nat, at: Place) -> BracketScan
    decreases k,
{
    if k == 0 {
        (Seq::empty(), None)
    } else {
        bracket_line(bracket_scan(rows, (k - 1) as nat, at), rows[k - 1], k as int, rows[k - 1].len(), at)
    }
}

impl Buffer {
    /// The bracket pair the cursor is inside, innermost first — or nothing.
    /// Resting on a bracket counts as being inside its own pair. Brackets
    /// only: a quote is its own partner, and a marked pair of quotes is not
    /// what a bracket mark is for. A mismatched closer is passed over rather
    /// than guessed at.
    pub fn bracket_pair(&self) -> (pair: Option<(Place, Place)>)
        ensures
            pair == bracket_scan(self@.rows(), self@.rows().len(), self@.caret()).1,
    {
        let at = Place { line: self.line, column: self.column };
        let lines = self.lines();
        let ghost rows = lines.deep_view();
        let mut open: Vec<(Place, char)> = Vec::new();
        let mut innermost: Option<(Place, Place)> = None;
        let mut index: usize = 0;
        while index < lines.len()
            invariant
                index <= lines.len(),
                rows == lines.deep_view(),
                rows == self@.rows(),
                at == self@.caret(),
                forall|i: int| 0 <= i < rows.len() ==> #[trigger] rows[i].len() <= self@.text().len(),
                self@.text().len() <= isize::MAX,
                (open@, innermost) == bracket_scan(rows, index as nat, at),
            decreases lines.len() - index,
        {
            let row = &lines[index];
            assert(row@ == rows[index as int]);
            let mut offset: usize = 0;
            while offset < row.len()
                invariant
                    offset <= row.len(),
                    index < lines.len(),
                    row@ == rows[index as int],
                    row.len() <= isize::MAX,
                    (open@, innermost) == bracket_line(bracket_scan(rows, index as nat, at), row@, index + 1, offset as nat, at),
                decreases row.len() - offset,
            {
                let character = row[offset];
                let here = Place { line: index + 1, column: offset + 1 };
                match shuts(character) {
                    Some(close) => {
                        open.push((here, close));
                    },
                    None => {
                        if open.len() > 0 && open[open.len() - 1].1 == character {
                            let (from, _) = open.pop().unwrap();
                            let holds = (from.line < at.line || (from.line == at.line && from.column <= at.column))
                                && (at.line < here.line || (at.line == here.line && at.column <= here.column));
                            if innermost.is_none() && holds {
                                innermost = Some((from, here));
                            }
                        }
                    },
                }
                offset = offset + 1;
            }
            index = index + 1;
        }
        innermost
    }
}

/// One column of a line's leading whitespace where a level of indentation
/// starts. `active` is the block the cursor is inside, drawn solid where the
/// others are dotted.
#[derive(Debug, Clone, Copy, PartialEq, Eq, Structural)]
pub struct Guide {
    pub column: usize,
    pub active: bool,
}

/// A line's own indentation, or nothing for a line with no text on it.
pub open spec fn own_indent(row: Seq<char>) -> Option<int> {
    if blank(row) {
        None
    } else {
        Some(crate::text::leading_space(row).len() as int)
    }
}

/// The own indentation of the nearest line above `i` that has one.
pub open spec fn indent_above(rows: Seq<Seq<char>>, i: int) -> Option<int>
    decreases i,
{
    if i <= 0 || i > rows.len() {
        None
    } else {
        match own_indent(rows[i - 1]) {
            Some(x) => Some(x),
            None => indent_above(rows, i - 1),
        }
    }
}

/// The own indentation of the nearest line below `i` that has one.
pub open spec fn indent_below(rows: Seq<Seq<char>>, i: int) -> Option<int>
    decreases rows.len() - i,
{
    if i < -1 || i + 1 >= rows.len() {
        None
    } else {
        match own_indent(rows[i + 1]) {
            Some(x) => Some(x),
            None => indent_below(rows, i + 1),
        }
    }
}

pub open spec fn or_zero(x: Option<int>) -> int {
    match x {
        Some(v) => v,
        None => 0,
    }
}

/// Each line's indentation in characters. A whitespace-only line has none of
/// its own, so it takes the shallower of its neighbours', which carries a
/// guide unbroken through the blank line inside a block without drawing one
/// past the end of it.
pub open spec fn indent_at(rows: Seq<Seq<char>>, i: int) -> int {
    match own_indent(rows[i]) {
        Some(x) => x,
        None => min_int(or_zero(indent_above(rows, i)), or_zero(indent_below(rows, i))),
    }
}

/// Which guide the cursor's block draws, or nothing where the cursor is in
/// no block. A line that opens a deeper one counts as inside what it opens.
pub open spec fn active_column(indents: Seq<usize>, unit: int, line: int) -> Option<int> {
    if line < 0 || line >= indents.len() {
        None
    } else if line + 1 < indents.len() && indents[line + 1] > indents[line] {
        Some(indents[line] as int)
    } else if indents[line] >= unit {
        Some(indents[line] - unit)
    } else {
        None
    }
}

pub open spec fn deep(indents: Seq<usize>, column: int, i: int) -> bool {
    0 <= i < indents.len() && indents[i] > column
}

pub open spec fn deep_back(indents: Seq<usize>, column: int, i: int) -> int
    decreases i,
{
    if i > 0 && deep(indents, column, i - 1) { deep_back(indents, column, i - 1) } else { i }
}

pub open spec fn deep_fwd(indents: Seq<usize>, column: int, i: int) -> int
    decreases indents.len() - i,
{
    if 0 <= i && deep(indents, column, i + 1) { deep_fwd(indents, column, i + 1) } else { i }
}

/// The run of lines the guide at `column` is drawn on around the cursor, so
/// a block is marked over its whole length.
pub open spec fn guide_block(indents: Seq<usize>, column: int, line: int) -> Option<(int, int)> {
    let from = if deep(indents, column, line) { line } else { line + 1 };
    if !deep(indents, column, from) {
        None
    } else {
        Some((deep_back(indents, column, from), deep_fwd(indents, column, from)))
    }
}

/// The guides of one line: a column every `unit` through its indentation,
/// from `at`.
pub open spec fn guides_from(indent: int, unit: int, at: int, active: Option<int>, inside: bool) -> Seq<Guide>
    decreases (if indent > at { indent - at } else { 0 }),
{
    if at < indent && unit >= 1 {
        seq![Guide { column: at as usize, active: inside && active == Some(at) }] + guides_from(indent, unit, at + unit, active, inside)
    } else {
        Seq::empty()
    }
}

/// Where the guides down a text's indentation go, one entry per line; the
/// block the caret's line is inside is the active one.
pub open spec fn guides_spec(rows: Seq<Seq<char>>, unit: int, line: int) -> Seq<Seq<Guide>> {
    let indents = Seq::new(rows.len(), |i: int| indent_at(rows, i) as usize);
    let column = active_column(indents, unit, line);
    let run = match column {
        Some(c) => guide_block(indents, c, line),
        None => None,
    };
    Seq::new(rows.len(), |i: int| guides_from(
        indents[i] as int,
        unit,
        0,
        column,
        match run {
            Some((from, to)) => from <= i <= to,
            None => false,
        },
    ))
}

fn own_indent_of(row: &Vec<char>) -> (r: Option<usize>)
    ensures
        match r {
            Some(x) => own_indent(row@) == Some(x as int),
            None => own_indent(row@) is None,
        },
{
    if is_blank(row) {
        None
    } else {
        let n = leading_end(row, 0);
        Some(n)
    }
}

proof fn lemma_indent_above(rows: Seq<Seq<char>>, i: int)
    ensures
        match indent_above(rows, i) {
            Some(x) => exists|j: int| 0 <= j < rows.len() && own_indent(rows[j]) == Some(x),
            None => true,
        },
    decreases i,
{
    if 0 < i <= rows.len() && own_indent(rows[i - 1]) is None {
        lemma_indent_above(rows, i - 1);
    }
}

proof fn lemma_indent_below(rows: Seq<Seq<char>>, i: int)
    ensures
        match indent_below(rows, i) {
            Some(x) => exists|j: int| 0 <= j < rows.len() && own_indent(rows[j]) == Some(x),
            None => true,
        },
    decreases rows.len() - i,
{
    if -1 <= i && i + 1 < rows.len() && own_indent(rows[i + 1]) is None {
        lemma_indent_below(rows, i + 1);
    }
}

/// Each line's indentation, as [`indent_at`] measures it.
fn indents(lines: &Vec<Vec<char>>) -> (r: Vec<usize>)
    requires
        forall|i: int| 0 <= i < lines.deep_view().len() ==> #[trigger] lines.deep_view()[i].len() <= usize::MAX,
    ensures
        r@ == Seq::new(lines.deep_view().len(), |i: int| indent_at(lines.deep_view(), i) as usize),
{
    let ghost rows = lines.deep_view();
    let mut own: Vec<Option<usize>> = Vec::new();
    let mut i: usize = 0;
    while i < lines.len()
        invariant
            i <= lines.len(),
            rows == lines.deep_view(),
            own@.len() == i,
            forall|j: int| 0 <= j < i ==> match #[trigger] own@[j] {
                Some(x) => own_indent(rows[j]) == Some(x as int),
                None => own_indent(rows[j]) is None,
            },
        decreases lines.len() - i,
    {
        assert(lines@[i as int]@ == rows[i as int]);
        own.push(own_indent_of(&lines[i]));
        i = i + 1;
    }
    let mut r: Vec<usize> = Vec::new();
    let mut index: usize = 0;
    while index < own.len()
        invariant
            index <= own.len() == rows.len(),
            forall|j: int| 0 <= j < rows.len() ==> match #[trigger] own@[j] {
                Some(x) => own_indent(rows[j]) == Some(x as int),
                None => own_indent(rows[j]) is None,
            },
            r@ == Seq::new(index as nat, |k: int| indent_at(rows, k) as usize),
        decreases own.len() - index,
    {
        let value = match own[index] {
            Some(indent) => indent,
            None => {
                let mut up = index;
                while up > 0 && own[up - 1].is_none()
                    invariant
                        up <= index < own.len(),
                        own.len() == rows.len(),
                        forall|j: int| 0 <= j < rows.len() ==> match #[trigger] own@[j] {
                            Some(x) => own_indent(rows[j]) == Some(x as int),
                            None => own_indent(rows[j]) is None,
                        },
                        indent_above(rows, index as int) == indent_above(rows, up as int),
                    decreases up,
                {
                    up = up - 1;
                }
                let above: usize = if up > 0 {
                    match own[up - 1] {
                        Some(x) => x,
                        None => 0,
                    }
                } else {
                    0
                };
                let mut down = index;
                while down + 1 < own.len() && own[down + 1].is_none()
                    invariant
                        index <= down < own.len(),
                        own.len() == rows.len(),
                        forall|j: int| 0 <= j < rows.len() ==> match #[trigger] own@[j] {
                            Some(x) => own_indent(rows[j]) == Some(x as int),
                            None => own_indent(rows[j]) is None,
                        },
                        indent_below(rows, index as int) == indent_below(rows, down as int),
                    decreases own.len() - down,
                {
                    down = down + 1;
                }
                let below: usize = if down + 1 < own.len() {
                    match own[down + 1] {
                        Some(x) => x,
                        None => 0,
                    }
                } else {
                    0
                };
                if above <= below { above } else { below }
            },
        };
        assert(value as int == indent_at(rows, index as int));
        r.push(value);
        assert(r@ =~= Seq::new((index + 1) as nat, |k: int| indent_at(rows, k) as usize));
        index = index + 1;
    }
    r
}

fn active_column_of(indents: &Vec<usize>, unit: usize, line: usize) -> (r: Option<usize>)
    ensures
        match r {
            Some(c) => active_column(indents@, unit as int, line as int) == Some(c as int),
            None => active_column(indents@, unit as int, line as int) is None,
        },
{
    if line >= indents.len() {
        return None;
    }
    let indent = indents[line];
    if line + 1 < indents.len() && indents[line + 1] > indent {
        return Some(indent);
    }
    if indent >= unit { Some(indent - unit) } else { None }
}

fn block_of(indents: &Vec<usize>, column: usize, line: usize) -> (r: Option<(usize, usize)>)
    ensures
        match r {
            Some((from, to)) => guide_block(indents@, column as int, line as int) == Some((from as int, to as int)),
            None => guide_block(indents@, column as int, line as int) is None,
        },
{
    let deep_here = line < indents.len() && indents[line] > column;
    if !deep_here && line >= indents.len() {
        return None;
    }
    let mut from = if deep_here { line } else { line + 1 };
    if !(from < indents.len() && indents[from] > column) {
        return None;
    }
    let start = from;
    let mut to = from;
    while from > 0 && indents[from - 1] > column
        invariant
            from <= start < indents.len(),
            deep_back(indents@, column as int, start as int) == deep_back(indents@, column as int, from as int),
        decreases from,
    {
        from = from - 1;
    }
    while to + 1 < indents.len() && indents[to + 1] > column
        invariant
            start <= to < indents.len(),
            deep_fwd(indents@, column as int, start as int) == deep_fwd(indents@, column as int, to as int),
        decreases indents.len() - to,
    {
        to = to + 1;
    }
    Some((from, to))
}

fn guides_line(indent: usize, unit: usize, active: Option<usize>, inside: bool) -> (r: Vec<Guide>)
    requires
        unit >= 1,
    ensures
        r@ == guides_from(indent as int, unit as int, 0, match active {
            Some(c) => Some(c as int),
            None => None,
        }, inside),
{
    let ghost wanted = match active {
        Some(c) => Some(c as int),
        None => None,
    };
    let mut r: Vec<Guide> = Vec::new();
    let mut at: usize = 0;
    while at < indent
        invariant
            unit >= 1,
            wanted == (match active {
                Some(c) => Some(c as int),
                None => None,
            }),
            r@ + guides_from(indent as int, unit as int, at as int, wanted, inside) == guides_from(indent as int, unit as int, 0, wanted, inside),
        decreases indent - at,
    {
        let on = match active {
            Some(c) => c == at,
            None => false,
        };
        let guide = Guide { column: at, active: inside && on };
        let ghost rest = guides_from(indent as int, unit as int, at + unit, wanted, inside);
        assert(guide == Guide { column: at as usize, active: inside && wanted == Some(at as int) });
        assert(guides_from(indent as int, unit as int, at as int, wanted, inside) == seq![guide] + rest);
        let ghost before = r@;
        r.push(guide);
        assert(r@ + rest =~= before + (seq![guide] + rest));
        if indent - at <= unit {
            assert(guides_from(indent as int, unit as int, at + unit, wanted, inside) == Seq::<Guide>::empty());
            assert(r@ =~= r@ + guides_from(indent as int, unit as int, indent as int, wanted, inside));
            at = indent;
        } else {
            at = at + unit;
        }
    }
    assert(r@ =~= r@ + guides_from(indent as int, unit as int, at as int, wanted, inside));
    r
}

impl Buffer {
    /// Where the guides down this buffer's indentation go, one entry per
    /// line. The block the cursor is inside is the active one, and it is the
    /// only thing the cursor decides here.
    pub fn guides(&self) -> (r: Vec<Vec<Guide>>)
        requires
            self@.line >= 1,
        ensures
            r@.map_values(|v: Vec<Guide>| v@) == guides_spec(
                self@.rows(),
                if indent_unit_spec(self@.rows(), self@.tab_width).len() >= 1 { indent_unit_spec(self@.rows(), self@.tab_width).len() as int } else { 1 },
                self@.line - 1,
            ),
    {
        let lines = self.lines();
        let ghost rows = lines.deep_view();
        let unit_chars = indent_unit(&lines, self.tab_width);
        let unit = if unit_chars.len() >= 1 { unit_chars.len() } else { 1 };
        let depth = indents(&lines);
        let column = active_column_of(&depth, unit, self.line - 1);
        let run = match column {
            Some(c) => block_of(&depth, c, self.line - 1),
            None => None,
        };
        let ghost spec_column = active_column(depth@, unit as int, self.line - 1);
        let ghost spec_run = match spec_column {
            Some(c) => guide_block(depth@, c, self.line - 1),
            None => None,
        };
        let mut r: Vec<Vec<Guide>> = Vec::new();
        let mut index: usize = 0;
        while index < depth.len()
            invariant
                index <= depth.len() == rows.len(),
                unit >= 1,
                depth@ == Seq::new(rows.len(), |i: int| indent_at(rows, i) as usize),
                spec_column == (match column {
                    Some(c) => Some(c as int),
                    None => None,
                }),
                spec_run == (match run {
                    Some((from, to)) => Some((from as int, to as int)),
                    None => None,
                }),
                r@.map_values(|v: Vec<Guide>| v@) == Seq::new(index as nat, |i: int| guides_from(
                    depth@[i] as int,
                    unit as int,
                    0,
                    spec_column,
                    match spec_run {
                        Some((from, to)) => from <= i <= to,
                        None => false,
                    },
                )),
            decreases depth.len() - index,
        {
            let inside = match run {
                Some((from, to)) => index >= from && index <= to,
                None => false,
            };
            let ghost before = r@.map_values(|v: Vec<Guide>| v@);
            let line = guides_line(depth[index], unit, column, inside);
            r.push(line);
            assert(r@.map_values(|v: Vec<Guide>| v@) =~= before.push(r@[index as int]@));
            assert(r@.map_values(|v: Vec<Guide>| v@) =~= Seq::new((index + 1) as nat, |i: int| guides_from(
                depth@[i] as int,
                unit as int,
                0,
                spec_column,
                match spec_run {
                    Some((from, to)) => from <= i <= to,
                    None => false,
                },
            )));
            index = index + 1;
        }
        r
    }
}

/// The text, the revision, the undo stack and the register, all at once: what
/// a move leaves alone.
pub open spec fn same_content(a: Model, b: Model) -> bool {
    &&& a.text() == b.text()
    &&& a.revision == b.revision
    &&& a.undo == b.undo
    &&& a.register == b.register
}

proof fn lemma_motion_repeats_keep(m: Model, key: char, n: nat)
    requires
        motion_key(key),
    ensures
        same_content(m.repeated(key, n), m),
        m.repeated(key, n).mode == m.mode,
    decreases n,
{
    if n > 0 {
        lemma_motion_repeats_keep(m, key, (n - 1) as nat);
    }
}

/// Moving does not edit: a motion key in normal or visual mode, however many
/// times a count repeats it, leaves the text, the revision, the undo stack and
/// the register as they were — so nothing parsed from the text goes stale.
pub proof fn law_moving_does_not_edit(m: Model, key: char)
    requires
        motion_key(key),
        m.mode != Mode::Insert,
        m.pending.len() == 0,
        !m.counting(key),
    ensures
        same_content(m.keyed(key).0, m),
        m.keyed(key).1 is None,
{
    lemma_motion_repeats_keep(Model { count: None, ..m }, key, m.count_or_one() as nat);
}

/// After any key the caret stands on a line of the text and on a column of
/// it, wherever it stood before.
pub proof fn law_a_key_leaves_the_caret_on_the_text(m: Model, key: char)
    requires
        m.keyed(key).0.text().len() < usize::MAX,
    ensures
        1 <= m.keyed(key).0.line <= m.keyed(key).0.rows().len(),
        m.keyed(key).0.column >= 1,
{
    if m.mode == Mode::Insert {
        m.typed(key).lemma_clamp_caret();
    } else {
        m.commanded(key).0.lemma_clamp_caret();
    }
}

/// Whether `after` is `before` with at most one edit that can be taken back:
/// either the text is what it was, or what it was is on top of the undo stack.
pub open spec fn one_undo(before: Model, after: Model) -> bool {
    after.text() == before.text() || (after.undo == before.undo.push(before.text()) && after.revision == next_revision(
        before.revision,
    ))
}

proof fn lemma_one_undo_clamp(before: Model, after: Model)
    requires
        one_undo(before, after),
    ensures
        one_undo(before, after.clamp()),
{
}

proof fn lemma_one_undo_lines_deleted(m: Model, from: int, to: int)
    ensures
        one_undo(m, m.lines_deleted(from, to)),
{
}

proof fn lemma_one_undo_taken(m: Model, from: int, to: int)
    ensures
        one_undo(m, m.taken(from, to)),
{
    let text = m.text();
    let a = min_int(from, text.len() as int);
    let b = min_int(to, text.len() as int);
    if text.subrange(a, b).len() != 0 {
        let kept = text.take(a) + text.skip(b);
        let n = Model { register: split_lines(text.subrange(a, b)), ..m }.remembered().with_text(kept);
        match crate::words::place_at_spec(split_lines(kept), from) {
            Some(p) => {
                assert(n.placed(p).undo == n.undo);
                assert(n.placed(p).text() == n.text());
            },
            None => {},
        }
    }
}

proof fn lemma_one_undo_deleted_over(m: Model, key: char)
    ensures
        one_undo(m, m.deleted_over(key, 1).0),
{
    if motion_key(key) {
        let probe = m.probe(key, 1);
        let lo = min_int(m.line as int, probe.line as int);
        let hi = max_int(m.line as int, probe.line as int);
        if !(key == 'j' || key == 'k' || key == 'G') {
            let here = m.here();
            let there = probe.here();
            let far = max_int(here, there);
            let to = if (key == '$' || key == 'e') && crate::words::char_at(m.text(), far) != Some('\n') { far + 1 } else { far };
            lemma_one_undo_taken(m, min_int(here, there), to);
        }
    }
}

proof fn lemma_one_undo_step(m: Model, key: char)
    requires
        key != 'u',
    ensures
        one_undo(m, m.stepped(key)),
{
    let n = m.moved_or_stayed(key);
    assert(n.text() == m.text() && n.undo == m.undo);
}

/// One keystroke that changes the text is one step of undo: what the text
/// was stands on top of the undo stack afterwards, so `u` gives it back.
/// Without a count, since a count repeats the key as that many edits; and
/// not `u` as a command of its own, which takes a step off the stack rather
/// than putting one on.
pub proof fn law_an_edit_is_one_undo(m: Model, key: char)
    requires
        m.mode != Mode::Insert ==> m.count is None && !(key == 'u' && m.pending.len() == 0),
    ensures
        one_undo(m, m.keyed(key).0),
        m.keyed(key).0.text() != m.text() ==> m.keyed(key).0.undone().text() == m.text(),
        m.keyed(key).0.text() != m.text() ==> m.keyed(key).0.revision != m.revision,
{
    if m.mode == Mode::Insert {
        let (left, right) = m.either_side();
        lemma_one_undo_clamp(m, m.typed(key));
    } else {
        if m.counting(key) {
        } else if m.pending.len() > 0 {
            let p = Model { pending: Seq::empty(), ..m };
            let chord = m.pending;
            if !(chord == seq!['d'] && key == 'g') {
                let n = Model { count: None, ..p };
                assert(n.count_or_one() == 1) by {
                    assert(p.count is None);
                }
                assert(p.count_or_one() == 1);
                if chord == seq!['d'] && key == 'd' {
                    lemma_one_undo_lines_deleted(n, n.line as int, n.line as int);
                } else if chord == seq!['y'] && key == 'y' {
                } else if chord == seq!['g'] && key == 'g' {
                } else if chord == seq!['d', 'g'] && key == 'g' {
                    lemma_one_undo_lines_deleted(n, 1, n.line as int);
                } else if chord == seq!['d'] {
                    lemma_one_undo_deleted_over(n, key);
                }
            }
        } else if m.mode == Mode::Visual && (key == 'd' || key == 'y') {
            let (from, to) = m.selection();
            lemma_one_undo_lines_deleted(Model { mode: Mode::Normal, ..m }, from, to);
        } else if key == 'g' || key == 'd' || key == 'y' {
        } else {
            let n = Model { count: None, ..m };
            assert(m.count_or_one() == 1);
            assert(n.repeated(key, 1) == n.repeated(key, 0).stepped(key));
            lemma_one_undo_step(n, key);
        }
        lemma_one_undo_clamp(m, m.commanded(key).0);
    }
}

/// What a charwise delete takes is the text the span showed: the register it
/// fills, joined again, is what `text_in` gives for the same span.
pub proof fn law_a_deleted_span_is_the_text_it_covered(m: Model, from: Place, to: Place)
    ensures
        join_lines(m.deleted_in(from, to).register) == span_spec(m.rows(), from, to),
{
    crate::text::lemma_join_split(span_spec(m.rows(), from, to));
}

/// Writing settles what it was flagged for: the buffer is clean, no longer
/// flagged as diverged, and shows what it showed before, which is now the disk.
pub proof fn law_writing_settles_the_divergence(m: Model)
    ensures
        (Model { disk: m.text(), draft: None, changed_on_disk: false, revision: next_revision(m.revision), ..m }).draft is None,
        (Model { disk: m.text(), draft: None, changed_on_disk: false, revision: next_revision(m.revision), ..m }).text() == m.text(),
        next_revision(m.revision) != m.revision,
{
}

/// Every content change moves the revision, so a parse cached against the
/// text is never read against another: one keystroke without a count that
/// changes what the buffer shows leaves it at another revision, `u` included.
pub proof fn law_a_change_moves_the_revision(m: Model, key: char)
    requires
        m.mode != Mode::Insert ==> m.count is None,
    ensures
        m.keyed(key).0.text() != m.text() ==> m.keyed(key).0.revision != m.revision,
{
    if m.mode != Mode::Insert && key == 'u' && !m.counting(key) && m.pending.len() == 0 {
        let n = Model { count: None, ..m };
        assert(m.count_or_one() == 1);
        assert(n.repeated(key, 1) == n.repeated(key, 0).stepped(key));
        assert(n.stepped(key) == n.undone());
    } else {
        law_an_edit_is_one_undo(m, key);
    }
}

/// The file changing underneath: a clean buffer shows the new file and is not
/// flagged; a dirty one keeps its draft and is flagged. Either way the
/// revision moves.
pub proof fn law_following_the_file(m: Model, contents: Seq<char>)
    ensures
        ({
            let after = (Model { disk: contents, changed_on_disk: m.draft is Some, revision: next_revision(m.revision), ..m }).clamp();
            &&& m.draft is None ==> after.text() == contents && !after.changed_on_disk
            &&& m.draft is Some ==> after.text() == m.text() && after.changed_on_disk && after.draft == m.draft
            &&& after.revision != m.revision
        }),
{
}


/// `word` starts at column `q` (0-based) of `line`.
pub open spec fn found_at(line: Seq<char>, word: Seq<char>, q: int) -> bool {
    0 <= q && q + word.len() <= line.len() && line.subrange(q, q + word.len()) == word
}

#[verifier::rlimit(60)]
#[verifier::spinoff_prover]
proof fn lemma_matches_from(line: Seq<char>, word: Seq<char>, p: int)
    requires
        word.len() > 0,
        p >= 0,
    ensures
        forall|j: int| 0 <= j < matches_from(line, word, p).len() ==> p <= #[trigger] matches_from(line, word, p)[j]
            && found_at(line, word, matches_from(line, word, p)[j]),
        forall|a: int, b: int| 0 <= a < b < matches_from(line, word, p).len() ==>
            #[trigger] matches_from(line, word, p)[a] + word.len() <= #[trigger] matches_from(line, word, p)[b],
        forall|q: int| p <= q && #[trigger] found_at(line, word, q) ==> exists|j: int| 0 <= j < matches_from(line, word, p).len()
            && #[trigger] matches_from(line, word, p)[j] <= q < matches_from(line, word, p)[j] + word.len(),
    decreases line.len() - p,
{
    let m = matches_from(line, word, p);
    if p + word.len() > line.len() {
        assert forall|q: int| p <= q && #[trigger] found_at(line, word, q) implies exists|j: int| 0 <= j < m.len()
            && #[trigger] m[j] <= q < m[j] + word.len() by {
        }
    } else if line.subrange(p, p + word.len()) == word {
        lemma_matches_from(line, word, p + word.len());
        let rest = matches_from(line, word, p + word.len());
        assert(m == seq![p] + rest);
        assert forall|j: int| 0 <= j < m.len() implies p <= #[trigger] m[j] && found_at(line, word, m[j]) by {
            if j > 0 {
                assert(m[j] == rest[j - 1]);
            }
        }
        assert forall|a: int, b: int| 0 <= a < b < m.len() implies #[trigger] m[a] + word.len() <= #[trigger] m[b] by {
            assert(m[b] == rest[b - 1]);
            if a > 0 {
                assert(m[a] == rest[a - 1]);
            }
        }
        assert forall|q: int| p <= q && #[trigger] found_at(line, word, q) implies exists|j: int| 0 <= j < m.len()
            && #[trigger] m[j] <= q < m[j] + word.len() by {
            if q < p + word.len() {
                assert(m[0] == p);
            } else {
                let j = choose|j: int| 0 <= j < rest.len() && #[trigger] rest[j] <= q < rest[j] + word.len();
                assert(m[j + 1] == rest[j]);
            }
        }
    } else {
        lemma_matches_from(line, word, p + 1);
        assert forall|q: int| p <= q && #[trigger] found_at(line, word, q) implies exists|j: int| 0 <= j < m.len()
            && #[trigger] m[j] <= q < m[j] + word.len() by {
            if q == p {
                assert(line.subrange(p, p + word.len()) == word);
            }
        }
    }
}

/// Whether place `a` comes before place `b` in the text with a whole
/// occurrence of a `width`-wide word between their starts.
pub open spec fn well_before(a: Place, b: Place, width: int) -> bool {
    a.line < b.line || (a.line == b.line && a.column + width <= b.column)
}

#[verifier::rlimit(80)]
#[verifier::spinoff_prover]
proof fn lemma_occurrences_from(lines: Seq<Seq<char>>, word: Seq<char>, k: int)
    requires
        word.len() > 0,
        0 <= k <= lines.len(),
        lines.len() < usize::MAX,
        forall|i: int| 0 <= i < lines.len() ==> (#[trigger] lines[i]).len() < usize::MAX,
    ensures
        forall|i: int| 0 <= i < occurrences_from(lines, word, k).len() ==> k + 1 <= (#[trigger] occurrences_from(lines, word, k)[i]).line <= lines.len()
            && 1 <= occurrences_from(lines, word, k)[i].column
            && found_at(lines[occurrences_from(lines, word, k)[i].line - 1], word, occurrences_from(lines, word, k)[i].column - 1),
        forall|a: int, b: int| 0 <= a < b < occurrences_from(lines, word, k).len() ==>
            well_before(#[trigger] occurrences_from(lines, word, k)[a], #[trigger] occurrences_from(lines, word, k)[b], word.len() as int),
        forall|l: int, q: int| k <= l < lines.len() && #[trigger] found_at(lines[l], word, q) ==> exists|i: int|
            0 <= i < occurrences_from(lines, word, k).len() && (#[trigger] occurrences_from(lines, word, k)[i]).line == l + 1
            && occurrences_from(lines, word, k)[i].column - 1 <= q < occurrences_from(lines, word, k)[i].column - 1 + word.len(),
    decreases lines.len() - k,
{
    let r = occurrences_from(lines, word, k);
    if k < lines.len() {
        lemma_occurrences_from(lines, word, k + 1);
        lemma_matches_from(lines[k], word, 0);
        let m = matches_from(lines[k], word, 0);
        let here = m.map_values(|p: int| Place { line: (k + 1) as usize, column: (p + 1) as usize });
        let rest = occurrences_from(lines, word, k + 1);
        assert(r == here + rest);
        assert forall|j: int| 0 <= j < m.len() implies (#[trigger] here[j]).line == k + 1 && here[j].column == m[j] + 1 by {
            assert(found_at(lines[k], word, m[j]));
        }
        assert forall|i: int| 0 <= i < r.len() implies k + 1 <= (#[trigger] r[i]).line <= lines.len()
            && 1 <= r[i].column && found_at(lines[r[i].line - 1], word, r[i].column - 1) by {
            if i < here.len() {
                assert(r[i] == here[i]);
                assert(found_at(lines[k], word, m[i]));
            } else {
                assert(r[i] == rest[i - here.len()]);
            }
        }
        assert forall|a: int, b: int| 0 <= a < b < r.len() implies well_before(#[trigger] r[a], #[trigger] r[b], word.len() as int) by {
            if b < here.len() {
                assert(r[a] == here[a] && r[b] == here[b]);
                assert(m[a] + word.len() <= m[b]);
            } else if a < here.len() {
                assert(r[a] == here[a]);
                assert(r[b] == rest[b - here.len()]);
            } else {
                assert(r[a] == rest[a - here.len()] && r[b] == rest[b - here.len()]);
            }
        }
        assert forall|l: int, q: int| k <= l < lines.len() && #[trigger] found_at(lines[l], word, q) implies exists|i: int|
            0 <= i < r.len() && (#[trigger] r[i]).line == l + 1 && r[i].column - 1 <= q < r[i].column - 1 + word.len() by {
            if l == k {
                let j = choose|j: int| 0 <= j < m.len() && #[trigger] m[j] <= q < m[j] + word.len();
                assert(r[j] == here[j]);
            } else {
                let i = choose|i: int| 0 <= i < rest.len() && (#[trigger] rest[i]).line == l + 1
                    && rest[i].column - 1 <= q < rest[i].column - 1 + word.len();
                assert(r[i + here.len()] == rest[i]);
            }
        }
    }
}

/// The occurrences of a word, exactly: none for an empty word; otherwise
/// places in document order, each the start of a match, the matches on one
/// line a whole word apart, and every place the word occurs covered by one
/// of them.
pub proof fn law_occurrences_are_the_matches_in_order(lines: Seq<Seq<char>>, word: Seq<char>)
    requires
        lines.len() < usize::MAX,
        forall|i: int| 0 <= i < lines.len() ==> (#[trigger] lines[i]).len() < usize::MAX,
    ensures
        word.len() == 0 ==> occurrences_from(lines, word, 0).len() == 0,
        word.len() > 0 ==> {
            let r = occurrences_from(lines, word, 0);
            &&& forall|i: int| 0 <= i < r.len() ==> 1 <= (#[trigger] r[i]).line <= lines.len() && 1 <= r[i].column
                && found_at(lines[r[i].line - 1], word, r[i].column - 1)
            &&& forall|a: int, b: int| 0 <= a < b < r.len() ==> well_before(#[trigger] r[a], #[trigger] r[b], word.len() as int)
            &&& forall|l: int, q: int| 0 <= l < lines.len() && #[trigger] found_at(lines[l], word, q) ==> exists|i: int|
                0 <= i < r.len() && (#[trigger] r[i]).line == l + 1 && r[i].column - 1 <= q < r[i].column - 1 + word.len()
        },
{
    if word.len() == 0 {
        lemma_occurrences_empty(lines, word, 0);
    } else {
        lemma_occurrences_from(lines, word, 0);
    }
}


/// Undoing `edited` gives back `m`'s text, undo history and disk, and a
/// buffer that was clean is clean again.
pub open spec fn one_undo_step(m: Model, edited: Model) -> bool {
    let back = edited.undone();
    &&& back.text() == m.text()
    &&& back.undo == m.undo
    &&& back.disk == m.disk
    &&& m.draft is None ==> back.draft is None
}

/// A paste, a reformat, a replace at many places and an indent of many
/// lines are each exactly one undo step, however much they cover; an indent
/// that changes nothing is none.
pub proof fn law_an_edit_is_one_undo_step(
    m: Model,
    text: Seq<char>,
    edits: Seq<(Place, Place, String)>,
    places: Seq<Place>,
    width: int,
    with: Seq<char>,
    from: int,
    to: int,
    deeper: bool,
)
    ensures
        one_undo_step(m, m.pasted(text)),
        one_undo_step(m, m.reformatted(edits)),
        one_undo_step(m, m.replaced_at(places, width, with).0),
        m.lines_indented(from, to, deeper) != m ==> one_undo_step(m, m.lines_indented(from, to, deeper)),
{
    let r = m.reformatted(edits);
    let spans = back_to_front(edit_spans(m.rows(), edits));
    let (t, at) = apply_spans(m.text(), m.here(), spans);
    let e = m.remembered().with_text(t);
    assert(e.undo == m.undo.push(m.text()));
    match place_before_spec(t, if t.len() >= at { t.len() - at } else { 0 }) {
        Some(p) => {
            assert(r == e.placed(p));
            assert(r.undo == e.undo && r.disk == e.disk);
        },
        None => {},
    }
    assert(r.undo.drop_last() =~= m.undo);
    assert(m.pasted(text).undo.drop_last() =~= m.undo);
    assert(m.replaced_at(places, width, with).0.undo.drop_last() =~= m.undo);
    if m.lines_indented(from, to, deeper) != m {
        assert(m.lines_indented(from, to, deeper).undo.drop_last() =~= m.undo);
    }
}


/// What following the file on disk makes of a buffer, as `Buffer::follow`
/// states it.
pub open spec fn followed(m: Model, contents: Seq<char>) -> Model {
    (Model { disk: contents, changed_on_disk: m.draft is Some, revision: next_revision(m.revision), ..m }).clamp()
}

/// A clean buffer follows the disk unflagged and shows what is there now; a
/// dirty one keeps its draft and is flagged; either way the revision moves
/// on and the caret stays on a line the buffer has.
pub proof fn law_following_the_disk_keeps_a_draft_and_the_caret(m: Model, contents: Seq<char>)
    requires
        (if m.draft is Some { m.draft.unwrap() } else { contents }).len() < usize::MAX,
    ensures
        followed(m, contents).disk == contents,
        followed(m, contents).draft == m.draft,
        followed(m, contents).changed_on_disk == (m.draft is Some),
        followed(m, contents).revision == next_revision(m.revision),
        m.draft is None ==> followed(m, contents).text() == contents,
        1 <= followed(m, contents).line <= followed(m, contents).rows().len(),
{
    let f = Model { disk: contents, changed_on_disk: m.draft is Some, revision: next_revision(m.revision), ..m };
    f.lemma_clamp_caret();
}

} // verus!
