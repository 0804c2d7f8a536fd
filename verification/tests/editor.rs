use varde::editor::{grid_row, link_at, moved, occurrences, span_text, word_span, Buffer, PAIRS};
use varde::Place;

#[test]
fn a_link_is_the_url_under_the_column_and_nothing_else() {
    let row = "Sé (https://example.com/a_(b)). Not file:///etc/passwd or ftp://x.y";
    assert_eq!(
        link_at(row, 6).as_deref(),
        Some("https://example.com/a_(b)")
    );
    assert_eq!(link_at(row, 1), None, "a word before the link");
    assert_eq!(link_at(row, 31), None, "the sentence's own punctuation");
    assert_eq!(link_at(row, 40), None, "a scheme the opener would launch");
    assert_eq!(link_at(row, 60), None, "ftp");
    assert_eq!(link_at(row, 200), None, "past the end of the row");
    assert_eq!(link_at(row, 0), None);
}

/// A folded block is one line to step over, not one per line it hides —
/// and nothing lands inside it, whichever way the caret arrives. The dots
/// at the end of the line that opens it are the one column past the text
/// only that line has, because they are a thing to press.
#[test]
fn a_fold_is_one_step_to_pass_and_its_dots_are_a_column_to_reach() {
    let mut buffer = Buffer::open("fn main() {\n    go();\n    stop();\n}\n", false, 4);
    varde::fold::toggle(&mut buffer, false);
    assert_eq!(buffer.folded, vec![1], "the block the cursor was in");

    buffer.arrow(varde::Direction::Down);
    assert_eq!(buffer.line, 4, "past the body rather than into it");
    buffer.arrow(varde::Direction::Up);
    assert_eq!(buffer.line, 1, "and back out of it on the way up");
    buffer.line = 4;
    buffer.key('k');
    assert_eq!(buffer.line, 1, "`k` lands on a hidden line and comes back");
    buffer.key('j');
    assert_eq!(buffer.line, 4, "and `j` steps the whole block in one");

    buffer.line = 1;
    buffer.key('$');
    assert_eq!(buffer.column, 12, "the end of a folded line is its dots");
    assert!(buffer.on_fold_dots());
    buffer.arrow(varde::Direction::Left);
    assert_eq!(buffer.column, 11, "the last character of the code");
    assert!(!buffer.on_fold_dots());
    buffer.arrow(varde::Direction::Right);
    assert!(buffer.on_fold_dots(), "and an arrow reaches them again");

    buffer.line = 4;
    buffer.key('$');
    buffer.arrow(varde::Direction::Right);
    assert!(
        !buffer.on_fold_dots(),
        "a line that opens no fold has no dots and no column past its text"
    );
}

fn place(line: usize, column: usize) -> Place {
    Place { line, column }
}

// The bug this exists for: a pty's blank cells carry no contents, so
// collecting only what the cells hold collapsed the padding and every
// column past the first gap named the wrong character. An AI CLI's output
// is indented and full of wide glyphs, so a drag in it picked nothing at
// all, while a drag over its unpadded prompt line looked fine.
#[test]
fn a_blank_grid_cell_keeps_its_column() {
    let cells = [Some("a"), Some(""), None, Some("b")];
    assert_eq!(grid_row(&cells), "a  b");
}

// The second half of a wide character holds no contents either, and the
// renderer draws a space there, so the text has to agree or the columns
// after an emoji drift.
#[test]
fn a_wide_characters_second_cell_keeps_its_column() {
    let cells = [Some("\u{1f600}"), Some(""), Some("x")];
    assert_eq!(grid_row(&cells), "\u{1f600} x");
}

#[test]
fn a_grid_rows_trailing_blanks_are_not_text() {
    let cells = [Some("h"), Some("i"), Some(""), None];
    assert_eq!(grid_row(&cells), "hi");
}

// The whole point: an indented, padded row picks by screen column.
#[test]
fn a_span_over_a_padded_grid_row_picks_by_screen_column() {
    let row = grid_row(&[Some(""), Some(""), Some("h"), Some("i")]);
    assert_eq!(span_text(&[row], place(1, 3), place(1, 4)), "hi");
}

// Enter in insert mode splits the line, so the cursor belongs at the head
// of what moved down. Counting it as one more column left the cursor on
// the line above, where `clamp` then pulled it back to the shortened
// line's end — every typed newline dropped the cursor behind the text.
#[test]
fn a_typed_newline_carries_the_cursor_to_the_new_line() {
    let mut buffer = Buffer::open("one two", false, 4);
    for _ in 0..3 {
        buffer.key('l');
    }
    buffer.key('i');
    buffer.key('\n');
    assert_eq!(buffer.shown(), "one\n two");
    assert_eq!((buffer.line, buffer.column), (2, 1));
}

/// The Document version F31 sends is this number, and it counts from the
/// read: a fresh Buffer at zero would be told to a server as a version it
/// could read as one it already has.
#[test]
fn opening_is_already_a_revision() {
    assert_eq!(Buffer::open("fn main() {}", false, 4).revision(), 1);
}

#[test]
fn editing_bumps_the_revision() {
    let mut buffer = Buffer::open("one\ntwo", false, 4);
    let before = buffer.revision();
    buffer.key('x');
    assert_ne!(buffer.revision(), before, "an edit must invalidate a cache");
}

// Bug 11: the editor showed the old file until you closed and reopened it.
// The text was right all along — `shown()` returned the new version — but
// the edge parses tokens only when `revision` moves, and following the file
// assigned `disk` without moving it, so the screen painted a stale parse.
// Closing and reopening built a fresh Buffer at revision 0, which is why
// that was the only thing that worked.
#[test]
fn following_the_file_bumps_the_revision() {
    let mut buffer = Buffer::open("one\ntwo", false, 4);
    let before = buffer.revision();
    buffer.follow("three\nfour".to_string());
    assert_ne!(
        buffer.revision(),
        before,
        "a file that changed underneath must invalidate the render cache"
    );
}

#[test]
fn reloading_bumps_the_revision() {
    let mut buffer = Buffer::open("one\ntwo", false, 4);
    buffer.key('x');
    let before = buffer.revision();
    buffer.reload();
    assert_ne!(
        buffer.revision(),
        before,
        "dropping a draft changes what is on screen"
    );
}

#[test]
fn a_clean_buffer_follows_the_file_and_is_not_flagged() {
    let mut buffer = Buffer::open("one\ntwo", false, 4);
    buffer.follow("three".to_string());
    assert_eq!(buffer.shown(), "three");
    assert!(!buffer.changed_on_disk);
}

#[test]
fn a_dirty_buffer_keeps_its_draft_and_is_flagged() {
    let mut buffer = Buffer::open("one\ntwo", false, 4);
    buffer.key('x');
    let draft = buffer.shown().to_string();
    buffer.follow("three".to_string());
    assert_eq!(buffer.shown(), draft, "unsaved work is never overwritten");
    assert_eq!(buffer.disk, "three");
    assert!(buffer.changed_on_disk);
}

// A file that shrank underneath leaves the cursor on a line that is no
// longer there, and every motion and render measures from it.
#[test]
fn a_file_that_shrank_pulls_the_cursor_back_into_it() {
    let mut buffer = Buffer::open("one\ntwo\nthree\nfour", false, 4);
    buffer.key('G');
    buffer.follow("one".to_string());
    assert_eq!(buffer.line, 1);
}

#[test]
fn writing_settles_the_divergence_it_was_flagged_for() {
    let mut buffer = Buffer::open("one", false, 4);
    buffer.key('x');
    buffer.follow("changed underneath".to_string());
    assert!(buffer.changed_on_disk);
    buffer.write();
    assert!(!buffer.changed_on_disk);
    assert!(!buffer.is_dirty());
}

#[test]
fn a_span_across_a_break_takes_the_ends_partially_and_the_middle_whole() {
    let buffer = Buffer::open("one two\nthree\nfour five", false, 4);
    assert_eq!(buffer.text_in(place(1, 5), place(3, 4)), "two\nthree\nfour");
}

#[test]
fn deleting_a_span_across_a_break_joins_what_is_left() {
    let mut buffer = Buffer::open("one two\nthree four", false, 4);
    buffer.delete_in(place(1, 4), place(2, 5));
    assert_eq!(buffer.shown(), "one four");
    assert_eq!((buffer.line, buffer.column), (1, 4));
}

/// The typed run goes and the rest of the line stays: completing what is
/// half-typed must not eat the characters after the cursor, and inserting
/// without taking the run leaves `worworkspace_root` — a completion the
/// reader has to undo.
#[test]
fn completing_replaces_the_run_before_the_cursor_and_nothing_after_it() {
    let mut buffer = Buffer::open("let wor = other;", false, 4);
    buffer.key('i');
    buffer.go_to_place(varde::Place { line: 1, column: 8 });
    buffer.complete("workspace_root", &[]);
    assert_eq!(buffer.shown(), "let workspace_root = other;");
    assert_eq!(buffer.column, 19);
}

/// Nothing typed yet is a completion inserted whole — the case a
/// take-the-word-before-the-cursor rule gets wrong by taking the space.
#[test]
fn completing_with_nothing_typed_inserts_the_whole_of_it() {
    let mut buffer = Buffer::open("let x = ", false, 4);
    buffer.key('i');
    buffer.go_to_place(varde::Place { line: 1, column: 9 });
    buffer.complete("other", &[]);
    assert_eq!(buffer.shown(), "let x = other");
}

/// A snippet's stops are offsets into the text it inserts, and the first
/// of them is where the cursor lands: `println!("${1:msg}")$0` leaves the
/// reader on `msg` with the call already written around it.
///
/// Completed on the second line, because a stop is measured against the
/// whole buffer and the newlines above it are characters of it.
#[test]
fn a_completed_snippet_puts_the_cursor_on_its_first_stop() {
    let mut buffer = Buffer::open("first\nlet x = ;\nlast", false, 4);
    buffer.key('i');
    buffer.go_to_place(varde::Place { line: 2, column: 9 });
    let left = buffer.complete(r#"println!("msg")"#, &[10, 15]);
    assert_eq!(buffer.shown(), "first\nlet x = println!(\"msg\");\nlast");
    assert_eq!((buffer.line, buffer.column), (2, 19));
    assert_eq!(
        buffer.place_before(left[0]),
        Some(varde::Place {
            line: 2,
            column: 24,
        })
    );
}

/// The reason a stop is kept as the characters that *follow* it: filling in
/// one stop moves every stop after it, and a line and a column recorded
/// when the text went in would send the last Tab of every completion into
/// the middle of what was just typed.
#[test]
fn a_stop_survives_the_typing_done_at_the_stop_before_it() {
    let mut buffer = Buffer::open("let x = ;", false, 4);
    buffer.key('i');
    buffer.go_to_place(varde::Place { line: 1, column: 9 });
    let left = buffer.complete(r#"println!("msg")"#, &[10, 15]);
    assert_eq!(
        buffer.place_before(left[0]),
        Some(varde::Place {
            line: 1,
            column: 24,
        })
    );
    buffer.key('h');
    buffer.key('i');
    assert_eq!(buffer.shown(), r#"let x = println!("himsg");"#);
    assert_eq!(
        buffer.place_before(left[0]),
        Some(varde::Place {
            line: 1,
            column: 26,
        })
    );
}

/// A snippet of several lines is what a real server sends for a function,
/// and a stop on its second line is a stop on the buffer's next line.
#[test]
fn a_stop_on_a_later_line_of_a_snippet_is_a_place_on_a_later_line() {
    let mut buffer = Buffer::open("", false, 4);
    buffer.key('i');
    let left = buffer.complete("fn name() {\n    \n}", &[3, 16]);
    assert_eq!(buffer.shown(), "fn name() {\n    \n}");
    assert_eq!((buffer.line, buffer.column), (1, 4));
    assert_eq!(
        buffer.place_before(left[0]),
        Some(varde::Place { line: 2, column: 5 })
    );
}

/// A delete is one edit however many lines it takes, so `u` costs the one
/// key the delete cost. `2dd` used to delete a line at a time and leave an
/// undo entry per line, which took as many presses to get back as the
/// delete saved.
#[test]
fn a_delete_over_several_lines_is_one_undo() {
    let mut buffer = Buffer::open("one\ntwo\nthree\nfour", false, 4);
    buffer.key('2');
    buffer.key('d');
    buffer.key('d');
    assert_eq!(buffer.shown(), "three\nfour");
    buffer.key('u');
    assert_eq!(buffer.shown(), "one\ntwo\nthree\nfour");
}

/// The end of the file is a line like any other. Deleting a line at a time
/// and stopping while the buffer still held one left the last line
/// standing while the register claimed to have taken it, so `dG` from the
/// first line kept a line and `p` put a second copy of it back.
#[test]
fn dg_from_the_first_line_empties_the_buffer() {
    let mut buffer = Buffer::open("one\ntwo\nthree", false, 4);
    buffer.key('d');
    buffer.key('G');
    assert_eq!(buffer.shown(), "");
    buffer.key('p');
    assert_eq!(buffer.shown(), "\none\ntwo\nthree");
}

/// `$` and `e` land on the last character they name rather than after it,
/// so an operator over them takes it too. An exclusive span for every
/// motion left the last character of the line behind.
#[test]
fn the_inclusive_motions_take_the_character_they_land_on() {
    let mut buffer = Buffer::open("one two three\n", false, 4);
    buffer.go_to_place(varde::Place { line: 1, column: 5 });
    buffer.key('d');
    buffer.key('$');
    assert_eq!(buffer.shown(), "one \n");

    let mut buffer = Buffer::open("one two three", false, 4);
    buffer.go_to_place(varde::Place { line: 1, column: 5 });
    buffer.key('d');
    buffer.key('e');
    assert_eq!(buffer.shown(), "one  three");
}

/// An empty line has no last character, so there is nothing for `d$` to
/// include — least of all the break that ends it, which belongs to no
/// line and would pull the line below up.
#[test]
fn d_to_the_line_end_of_an_empty_line_takes_nothing() {
    let mut buffer = Buffer::open("\ntwo", false, 4);
    buffer.key('d');
    buffer.key('$');
    assert_eq!(buffer.shown(), "\ntwo");
}

/// A motion that went nowhere is not an edit. Without the guard the span is
/// empty, and taking nothing still fills the register with it — so `dh`
/// against the left edge would quietly throw away what was yanked.
#[test]
fn a_motion_that_went_nowhere_takes_nothing_and_keeps_the_register() {
    let mut buffer = Buffer::open("one\ntwo", false, 4);
    buffer.key('y');
    buffer.key('y');
    buffer.key('d');
    buffer.key('h');
    assert_eq!(buffer.shown(), "one\ntwo");
    assert_eq!(buffer.register_text(), Some("one".to_string()));
}

/// A charwise operator's span is measured in offsets rather than columns,
/// which is what lets one cross a line break: the character behind a
/// cursor sitting at column 1 is the newline above it, and `db` from there
/// joins the two lines the word it took spanned.
#[test]
fn db_at_the_start_of_a_line_takes_the_word_above_and_joins_them() {
    let mut buffer = Buffer::open("one two\nthree", false, 4);
    buffer.go_to_place(varde::Place { line: 2, column: 1 });
    buffer.key('d');
    buffer.key('b');
    assert_eq!(buffer.shown(), "one three");
    assert_eq!((buffer.line, buffer.column), (1, 5));
}

/// Insertion is not typing, and a snippet is the text that proves it: every
/// character in this one pairs, so routing a completion through
/// [`Buffer::insert`] would leave `println!(("{{}}""))` in the buffer.
#[test]
fn a_completions_own_brackets_are_not_paired() {
    let mut buffer = Buffer::open("", false, 4);
    buffer.key('i');
    buffer.complete(r#"println!("{}")"#, &[]);
    assert_eq!(buffer.shown(), r#"println!("{}")"#);
}

// The edits a server sends back when a trigger character is typed —
// `features/language_intelligence.feature`, "The server reformats as it is
// typed".
/// The whole of story 18: a brace typed at the wrong indentation snaps to
/// the column the server named, and the cursor stays on it rather than
/// where the characters it lost used to be.
#[test]
fn a_reformat_moves_the_line_to_where_the_server_put_it() {
    let mut buffer = Buffer::open("fn main() {\n        }", false, 4);
    buffer.key('i');
    buffer.go_to_place(varde::Place {
        line: 2,
        column: 10,
    });
    buffer.reformat(&[(
        varde::Place { line: 2, column: 1 },
        varde::Place { line: 2, column: 9 },
        String::new(),
    )]);
    assert_eq!(buffer.shown(), "fn main() {\n}");
    assert_eq!((buffer.line, buffer.column), (2, 2));
}

/// The other direction, and the one range shape only it has: a server that
/// *indents* names a span of nothing and text to put there, so the brace
/// moves right and the cursor with it. A cursor left where it was would sit
/// on the indentation rather than after the brace.
#[test]
fn a_reformat_that_indents_carries_the_cursor_right() {
    let mut buffer = Buffer::open("fn main() {\n    if x {\n}", false, 4);
    buffer.key('i');
    buffer.go_to_place(varde::Place { line: 3, column: 2 });
    buffer.reformat(&[(
        varde::Place { line: 3, column: 1 },
        varde::Place { line: 3, column: 1 },
        "        ".to_string(),
    )]);
    assert_eq!(buffer.shown(), "fn main() {\n    if x {\n        }");
    assert_eq!((buffer.line, buffer.column), (3, 10));
}

/// Back to front, and the reason for it: every range in a reply is measured
/// against the document the server was sent, so applying the first edit
/// forwards moves the text every later range names. Handed over in the
/// order a server sends them — ascending — because that is the order that
/// goes wrong.
#[test]
fn edits_are_applied_back_to_front() {
    let mut buffer = Buffer::open("x  =  1", false, 4);
    buffer.key('i');
    buffer.go_to_place(varde::Place { line: 1, column: 8 });
    buffer.reformat(&[
        (
            varde::Place { line: 1, column: 2 },
            varde::Place { line: 1, column: 4 },
            " ".to_string(),
        ),
        (
            varde::Place { line: 1, column: 5 },
            varde::Place { line: 1, column: 7 },
            " ".to_string(),
        ),
    ]);
    assert_eq!(buffer.shown(), "x = 1");
    assert_eq!((buffer.line, buffer.column), (1, 6));
}

/// A reformat is one thing that happened, so it is one thing to undo. Six
/// edits taking six presses of `u` is the reader undoing an edit they did
/// not make one sixth at a time.
///
/// The revision is the mechanical half of the same statement: one change to
/// the buffer, which is also one `didChange` for the server and one parse
/// for the renderer.
#[test]
fn a_reformat_is_one_undo_step() {
    let mut buffer = Buffer::open("x  =  1", false, 4);
    let before = buffer.revision();
    buffer.reformat(&[
        (
            varde::Place { line: 1, column: 2 },
            varde::Place { line: 1, column: 4 },
            " ".to_string(),
        ),
        (
            varde::Place { line: 1, column: 5 },
            varde::Place { line: 1, column: 7 },
            " ".to_string(),
        ),
    ]);
    assert_eq!(buffer.revision(), before + 1);
    buffer.key('u');
    assert_eq!(buffer.shown(), "x  =  1");
}

/// An edit that spans the break between two lines joins them, and the
/// cursor below it comes up a line with the text — the arithmetic a
/// reformat of a brace on its own line depends on.
#[test]
fn an_edit_across_a_break_joins_the_lines_and_brings_the_cursor_with_them() {
    let mut buffer = Buffer::open("fn f()\n{\n}\nnext", false, 4);
    buffer.key('i');
    buffer.go_to_place(varde::Place { line: 3, column: 2 });
    buffer.reformat(&[(
        varde::Place { line: 1, column: 7 },
        varde::Place { line: 2, column: 1 },
        " ".to_string(),
    )]);
    assert_eq!(buffer.shown(), "fn f() {\n}\nnext");
    assert_eq!((buffer.line, buffer.column), (2, 2));
}

/// A cursor inside what an edit replaced has nowhere of its own to be, so
/// it lands at the end of what replaced it rather than at the start of the
/// line.
#[test]
fn a_cursor_inside_a_replaced_span_lands_at_the_end_of_the_replacement() {
    let mut buffer = Buffer::open("foo(  )", false, 4);
    buffer.key('i');
    buffer.go_to_place(varde::Place { line: 1, column: 6 });
    buffer.reformat(&[(
        varde::Place { line: 1, column: 5 },
        varde::Place { line: 1, column: 7 },
        String::new(),
    )]);
    assert_eq!(buffer.shown(), "foo()");
    assert_eq!((buffer.line, buffer.column), (1, 5));
}

/// A range is a number from a child process, so it is clamped to the text
/// rather than trusted to be in it: a server that names a line the buffer
/// does not have must not take the buffer down with it.
#[test]
fn a_range_past_the_end_of_the_buffer_is_clamped_to_it() {
    let mut buffer = Buffer::open("abc", false, 4);
    buffer.reformat(&[(
        varde::Place { line: 9, column: 1 },
        varde::Place { line: 9, column: 3 },
        ";".to_string(),
    )]);
    assert_eq!(buffer.shown(), "abc;");
}

/// Two edits at one place, which the protocol says appear in the order the
/// array gave them — the one ordering rule that back-to-front alone does
/// not satisfy, since both are applied at the same offset.
#[test]
fn two_edits_at_one_place_go_in_the_order_they_arrived() {
    let mut buffer = Buffer::open("fn f()", false, 4);
    buffer.reformat(&[
        (
            varde::Place { line: 1, column: 1 },
            varde::Place { line: 1, column: 1 },
            "pub ".to_string(),
        ),
        (
            varde::Place { line: 1, column: 1 },
            varde::Place { line: 1, column: 1 },
            "async ".to_string(),
        ),
    ]);
    assert_eq!(buffer.shown(), "pub async fn f()");
}

fn lines(text: &str) -> Vec<String> {
    text.split('\n').map(str::to_string).collect()
}

// A pty grid has no buffer behind it, so the arithmetic has to work over
// lines handed in as data.
#[test]
fn a_span_over_supplied_lines_takes_the_ends_partially_and_the_middle_whole() {
    let grid = lines("bash-5.3$ ls\nCargo.toml  src\nbash-5.3$");
    assert_eq!(
        span_text(&grid, place(1, 11), place(2, 10)),
        "ls\nCargo.toml"
    );
}

#[test]
fn occurrences_are_every_place_the_word_starts_in_document_order() {
    assert_eq!(
        occurrences(&lines("one two\nthree one"), "one"),
        vec![place(1, 1), place(2, 7)]
    );
}

#[test]
fn an_occurrence_differing_in_case_is_a_different_word() {
    assert_eq!(occurrences(&lines("one One"), "one"), vec![place(1, 1)]);
}

#[test]
fn overlapping_runs_count_once() {
    assert_eq!(occurrences(&lines("aaa"), "aa"), vec![place(1, 1)]);
}

#[test]
fn typing_at_two_places_on_one_line_lands_at_both_of_them() {
    let mut buffer = Buffer::open("one and one", false, 4);
    let landed = buffer.replace_at(&[place(1, 1), place(1, 9)], 3, "ab");
    assert_eq!(buffer.shown(), "ab and ab");
    assert_eq!(landed, vec![place(1, 3), place(1, 10)]);
}

#[test]
fn typing_at_every_place_is_one_undo_step() {
    let mut buffer = Buffer::open("one and one", false, 4);
    buffer.replace_at(&[place(1, 1), place(1, 9)], 3, "x");
    buffer.undo();
    assert_eq!(buffer.shown(), "one and one");
}

#[test]
fn a_place_the_buffer_no_longer_has_is_left_where_it_was() {
    let mut buffer = Buffer::open("one", false, 4);
    let landed = buffer.replace_at(&[place(1, 1), place(9, 1)], 3, "x");
    assert_eq!(buffer.shown(), "x");
    assert_eq!(landed, vec![place(1, 2), place(9, 1)]);
}

#[test]
fn a_span_within_one_line_takes_both_ends() {
    assert_eq!(
        span_text(&lines("one two"), place(1, 5), place(1, 7)),
        "two"
    );
}

#[test]
fn a_span_keeps_a_break_it_covers_even_where_a_line_is_empty() {
    let text = lines("one\n\ntwo");
    assert_eq!(span_text(&text, place(1, 1), place(3, 3)), "one\n\ntwo");
}

// The pointer sits past the end of a short line, or past the last line:
// a drag reaches wherever the mouse went, and the text stops where it stops.
#[test]
fn a_span_past_the_end_stops_at_what_is_there() {
    let text = lines("one\ntwo");
    assert_eq!(span_text(&text, place(1, 1), place(2, 40)), "one\ntwo");
    assert_eq!(span_text(&text, place(1, 1), place(9, 4)), "one\ntwo");
}

/// The classes are what a double-click picks by, so an operator is a word
/// of its own and a space is no word at all — the second is what stops a
/// click between two names from picking one of them.
#[test]
fn a_word_span_is_the_run_of_one_class_around_the_column() {
    let line = "run(\"unquoted path\") == 1";
    assert_eq!(word_span(line, 6), Some((6, 13)));
    assert_eq!(word_span(line, 13), Some((6, 13)));
    assert_eq!(word_span(line, 22), Some((22, 23)));
    assert_eq!(word_span(line, 14), None);
    assert_eq!(word_span(line, 40), None);
    assert_eq!(word_span(line, 0), None);
    assert_eq!(word_span("", 1), None);
}

/// The Preview's motion arm lays the rendered rows out only for the keys
/// that read them: a markdown parse per keystroke is what ADR 0007 calls
/// visible rather than merely wasteful, and a key that names no motion at
/// all would pay for one and throw it away. That split is only sound while
/// the word motions are the only keys `moved` looks at its lines for, so
/// this is what goes red when a later motion starts reading them.
#[test]
fn only_the_word_motions_read_the_text_they_move_through() {
    let text = lines("one two three\nfour five six");
    let nothing: [String; 0] = [];
    let at = place(1, 5);
    for key in (' '..='~').filter(|key| !matches!(key, 'w' | 'e' | 'b')) {
        assert_eq!(moved(&nothing, at, key), moved(&text, at, key), "{key:?}");
    }
}

#[test]
fn moving_does_not_bump_the_revision() {
    let mut buffer = Buffer::open("one\ntwo", false, 4);
    let before = buffer.revision();
    buffer.key('j');
    assert_eq!(buffer.revision(), before, "a motion changes no content");
}
// The pairs — `features/editing.feature`, "The editor holds the other end
// of a pair". Typing an opening character leaves the reader between
// both halves, which is the whole of the insertion; the four rules below
// are what stop it being annoying.
#[test]
fn an_opening_character_brings_its_partner_and_the_cursor_between() {
    let mut buffer = Buffer::open("", false, 4);
    buffer.key('i');
    buffer.key('(');
    assert_eq!(buffer.shown(), "()");
    assert_eq!((buffer.line, buffer.column), (1, 2));
}

// Driven from the table rather than from a list of its contents: a copy of
// the five pairs here could not see the table and the behaviour diverge,
// and a sixth pair would be added to one and not the other.
#[test]
fn every_pair_in_the_table_closes_itself() {
    for (open, close) in PAIRS {
        let mut buffer = Buffer::open("", false, 4);
        buffer.key('i');
        buffer.key(open);
        assert_eq!(buffer.shown(), format!("{open}{close}"), "typing {open:?}");
        assert_eq!(buffer.column, 2, "typing {open:?}");
    }
}

// Without this the feature is a net loss: everybody types the closing half
// out of habit, and every finished call would read `())`.
#[test]
fn typing_a_closing_character_over_itself_steps_past_it() {
    let mut buffer = Buffer::open("", false, 4);
    buffer.key('i');
    buffer.key('(');
    buffer.key(')');
    assert_eq!(buffer.shown(), "()");
    assert_eq!(buffer.column, 3);
}

// The character to the right is the whole of the condition — nothing
// remembers which halves the editor inserted — so a closing character
// anywhere else is typed, as it always was.
#[test]
fn a_closing_character_where_something_else_sits_is_typed() {
    let mut buffer = Buffer::open("x", false, 4);
    buffer.key('i');
    buffer.key(')');
    assert_eq!(buffer.shown(), ")x");
    assert_eq!(buffer.column, 2);
}

/// The ticket's two routes to one delete, held to the same answer where it
/// says they are the same one. `db` composes with `b` through
/// `delete_over`, and this does not, so nothing but an assertion stops them
/// drifting apart on the case both are reached for. Where they part company
/// — a line's edge, since `b` crosses the break and this is bounded — has
/// scenarios of its own.
#[test]
fn alt_backspace_and_db_take_the_same_word_mid_line() {
    let mut typed = Buffer::open("one two three\n", false, 4);
    typed.go_to_place(place(1, 9));
    typed.delete_word_back();
    let mut operator = Buffer::open("one two three\n", false, 4);
    operator.go_to_place(place(1, 9));
    for key in "db".chars() {
        _ = operator.key(key);
    }
    assert_eq!(typed.shown(), "one three\n");
    assert_eq!(typed.shown(), operator.shown());
}

#[test]
fn backspace_between_an_empty_pairs_halves_takes_both() {
    let mut buffer = Buffer::open("", false, 4);
    buffer.key('i');
    buffer.key('(');
    buffer.backspace();
    assert_eq!(buffer.shown(), "");
    assert_eq!(buffer.column, 1);
}

// One key undoes one key, and no more than that: a pair holding something
// is two ordinary characters either side of it.
#[test]
fn backspace_on_a_pair_holding_something_takes_one_character() {
    let mut buffer = Buffer::open("", false, 4);
    buffer.key('i');
    buffer.key('(');
    buffer.key('x');
    buffer.backspace();
    assert_eq!(buffer.shown(), "()");
}

// `don't` and Rust's `'a`: a quote after a word character is an apostrophe
// or a lifetime, not the start of a string.
#[test]
fn a_quote_after_a_word_character_stays_one_quote() {
    let mut buffer = Buffer::open("don", false, 4);
    buffer.key('l');
    buffer.key('l');
    buffer.key('a');
    buffer.key('\'');
    buffer.key('t');
    assert_eq!(buffer.shown(), "don't");
}

// The rule is about a word, not about quotes: one opening a string still
// brings its partner.
#[test]
fn a_quote_that_opens_a_string_still_pairs() {
    let mut buffer = Buffer::open("say ", false, 4);
    buffer.key('l');
    buffer.key('l');
    buffer.key('l');
    buffer.key('a');
    buffer.key('"');
    assert_eq!(buffer.shown(), "say \"\"");
}

// A bracket after a word is the common case — `foo(` — so the word rule
// belongs to the quotes alone.
#[test]
fn a_bracket_after_a_word_character_still_pairs() {
    let mut buffer = Buffer::open("foo", false, 4);
    buffer.key('l');
    buffer.key('l');
    buffer.key('a');
    buffer.key('(');
    assert_eq!(buffer.shown(), "foo()");
}

// A paste is not typing. Deliberately unbalanced: a balanced paste is
// rescued by the type-over rule above, which is exactly what would hide
// this defect until somebody pasted half an expression.
#[test]
fn a_paste_pairs_nothing() {
    let mut buffer = Buffer::open("", false, 4);
    buffer.key('i');
    buffer.paste("foo('bar");
    assert_eq!(buffer.shown(), "foo('bar");
    assert_eq!(buffer.column, 9);
}

#[test]
fn a_pasted_line_break_splits_the_line_and_carries_the_cursor() {
    let mut buffer = Buffer::open("ab", false, 4);
    buffer.key('i');
    buffer.paste("x\ny");
    assert_eq!(buffer.shown(), "x\nyab");
    assert_eq!((buffer.line, buffer.column), (2, 2));
}

// One edit, so one undo: replayed as keystrokes a paste took as many
// presses to undo as it had characters.
#[test]
fn a_paste_undoes_in_one_key() {
    let mut buffer = Buffer::open("", false, 4);
    buffer.key('i');
    buffer.paste("one two");
    buffer.escape();
    buffer.key('u');
    assert_eq!(buffer.shown(), "");
}

// The span is the workspace's selection, so the arithmetic is the
// buffer's: the closing half goes in first, because inserting the opening
// one moves the end of a span that lies on the same line.
#[test]
fn a_pair_around_a_span_keeps_what_it_covers() {
    let mut buffer = Buffer::open("one two", false, 4);
    buffer.wrap_in(place(1, 1), place(1, 3), '(', ')');
    assert_eq!(buffer.shown(), "(one) two");
}

#[test]
fn a_pair_around_a_span_across_lines_takes_both_ends() {
    let mut buffer = Buffer::open("one\ntwo", false, 4);
    buffer.wrap_in(place(1, 1), place(2, 3), '"', '"');
    assert_eq!(buffer.shown(), "\"one\ntwo\"");
}

// Story 7: normal mode is unchanged. Backspace there is CRIME's own
// backwards delete rather than vim's move, and it took one character
// before the pairing rules existed — with the cursor on the `)` of `x()y`
// the paired rule reached it and took two.
#[test]
fn backspace_in_normal_mode_takes_one_character() {
    let mut buffer = Buffer::open("x()y", false, 4);
    buffer.key('l');
    buffer.key('l');
    buffer.backspace();
    assert_eq!(buffer.shown(), "x)y");
}

// A selection outlives the text it names: a clean buffer follows the file
// underneath it, so a span can reach past what is now there. Wrapping what
// exists is the same answer `span_text` and `delete_in` give.
#[test]
fn a_pair_around_a_span_past_the_end_wraps_what_is_there() {
    let mut buffer = Buffer::open("one\ntwo", false, 4);
    buffer.wrap_in(place(1, 1), place(9, 40), '(', ')');
    assert_eq!(buffer.shown(), "(one\ntwo)");
}

#[test]
fn a_pair_around_a_span_that_starts_past_the_end_changes_nothing() {
    let mut buffer = Buffer::open("one", false, 4);
    buffer.wrap_in(place(4, 1), place(4, 2), '(', ')');
    assert_eq!(buffer.shown(), "one");
}

// Every indented line in a file was indented by hand, and column one threw
// that away again on the next Enter — the whole of the defect this closes.
#[test]
fn enter_carries_the_lines_indentation_down() {
    let mut buffer = Buffer::open("    foo", false, 4);
    buffer.key('$');
    buffer.key('a');
    buffer.key('\n');
    assert_eq!(buffer.shown(), "    foo\n    ");
    assert_eq!((buffer.line, buffer.column), (2, 5));
}

#[test]
fn the_indentation_is_copied_so_tabs_stay_tabs() {
    let mut buffer = Buffer::open("\tfoo", false, 4);
    buffer.key('$');
    buffer.key('a');
    buffer.key('\n');
    assert_eq!(buffer.shown(), "\tfoo\n\t");
    assert_eq!((buffer.line, buffer.column), (2, 2));
}

// Four spaces because this buffer holds no indentation to copy — the block
// just opened is what the next one reads.
#[test]
fn enter_between_a_pairs_halves_opens_a_block() {
    let mut buffer = Buffer::open("foo {}", false, 4);
    buffer.key('$');
    buffer.key('i');
    buffer.key('\n');
    assert_eq!(buffer.shown(), "foo {\n    \n}");
    assert_eq!((buffer.line, buffer.column), (2, 5));
}

// The one number this feature chooses, chosen from the file: a `4` written
// in here is the answer that is wrong in every JavaScript project opened.
#[test]
fn the_indentation_unit_comes_from_the_file() {
    let mut buffer = Buffer::open("if (a) {\n  first()\n}\nfoo {}", false, 4);
    buffer.key('G');
    buffer.key('$');
    buffer.key('i');
    buffer.key('\n');
    assert_eq!(buffer.shown(), "if (a) {\n  first()\n}\nfoo {\n  \n}");
}

// Even the closing half of a pair: guessing that `if (a)` opens a block
// needs the language's grammar, and the server owns that.
#[test]
fn a_line_ending_in_something_that_is_not_a_pair_gets_no_extra_indentation() {
    let mut buffer = Buffer::open("    if (a)", false, 4);
    buffer.key('$');
    buffer.key('a');
    buffer.key('\n');
    assert_eq!(buffer.shown(), "    if (a)\n    ");
}

// Shallowest rather than first: a file whose first indented line is two
// levels deep would otherwise hand back a double-width unit.
#[test]
fn the_indentation_unit_is_the_shallowest_the_file_has() {
    let mut buffer = Buffer::open("call(\n    deep,\n  less,\n)\nfoo {}", false, 4);
    buffer.key('G');
    buffer.key('$');
    buffer.key('i');
    buffer.key('\n');
    assert_eq!(buffer.shown(), "call(\n    deep,\n  less,\n)\nfoo {\n  \n}");
}

// A line holding nothing but whitespace is not evidence of a level, and
// real files are full of them — including the ones this very rule leaves
// behind. One stray space would otherwise make every block in the file one
// space deep.
#[test]
fn a_whitespace_only_line_is_not_the_files_indentation() {
    let mut buffer = Buffer::open(" \nfn a() {\n  x\n}\nfoo {}", false, 4);
    buffer.key('G');
    buffer.key('$');
    buffer.key('i');
    buffer.key('\n');
    assert_eq!(buffer.shown(), " \nfn a() {\n  x\n}\nfoo {\n  \n}");
}

#[test]
fn a_block_indent_moves_every_line_of_the_span() {
    let mut buffer = Buffer::open("one\ntwo\nthree", false, 4);
    buffer.indent_lines(1, 2, true);
    assert_eq!(buffer.shown(), "    one\n    two\nthree");
}

// From the file, for the same reason Enter takes it from there: the width
// in the config is the answer for a file that indents with nothing.
#[test]
fn a_block_indent_takes_the_level_from_the_file() {
    let mut buffer = Buffer::open("if (a) {\n  first()\n}", false, 4);
    buffer.indent_lines(2, 2, true);
    assert_eq!(buffer.shown(), "if (a) {\n    first()\n}");
}

#[test]
fn coming_back_out_takes_one_level_off() {
    let mut buffer = Buffer::open("\tone\n\ttwo", false, 4);
    buffer.indent_lines(1, 2, false);
    assert_eq!(buffer.shown(), "one\ntwo");
}

// The mixed case, which is every real file that has been edited by two
// people: the line does not start with the unit, so what leading spaces it
// has go instead of nothing going at all.
#[test]
fn coming_out_of_a_shallower_line_takes_the_spaces_it_has() {
    let mut buffer = Buffer::open("    deep\n  less", false, 4);
    buffer.indent_lines(1, 2, false);
    assert_eq!(buffer.shown(), "  deep\nless");
}

// Whitespace nobody typed is whitespace somebody has to delete, and an
// empty line carries no meaning into the block either way.
#[test]
fn an_empty_line_in_the_span_stays_empty() {
    let mut buffer = Buffer::open("one\n\ntwo", false, 4);
    buffer.indent_lines(1, 3, true);
    assert_eq!(buffer.shown(), "    one\n\n    two");
}

// One edit, so `u` costs the one key the indent cost however many lines it
// moved — the same promise a paste and a linewise delete make.
#[test]
fn a_block_indent_undoes_in_one_press() {
    let mut buffer = Buffer::open("one\ntwo\nthree", false, 4);
    buffer.indent_lines(1, 3, true);
    buffer.undo();
    assert_eq!(buffer.shown(), "one\ntwo\nthree");
}

// A quote is its own partner, so `open == close` is the test that keeps a
// string out of the block rule: three lines of unterminated quote is not a
// block, and nothing here names a quote to say so.
#[test]
fn enter_between_the_halves_of_a_quote_is_an_ordinary_new_line() {
    let mut buffer = Buffer::open("say \"\"", false, 4);
    buffer.key('$');
    buffer.key('i');
    buffer.key('\n');
    assert_eq!(buffer.shown(), "say \"\n\"");
    assert_eq!((buffer.line, buffer.column), (2, 1));
}
