use varde::history::{
    back, excerpt, forward, go, leaving, record, row_actions, selected, stale, went_nowhere, Jump, Visit, CAP, GO_TO,
};
use varde::Place;

#[test]
fn an_excerpt_starts_at_the_word_the_cursor_was_on() {
    // Column 1 is the first word, and the line goes on past three words.
    assert_eq!(excerpt("pub struct Buffer {", 1, 3), "pub struct Buffer...");
    // Mid-line: the word under the cursor leads, and nothing is elided.
    assert_eq!(excerpt("pub struct Buffer {", 5, 3), "struct Buffer {");
    // A cursor inside a word names that word, not the next one.
    assert_eq!(excerpt("use std::fmt;", 5, 3), "std::fmt;");
}

#[test]
fn an_excerpt_drops_the_indentation_and_survives_the_edges() {
    // Three words of four, so the fourth is elided and the indentation is
    // not one of the three.
    assert_eq!(excerpt("        let a = 1;", 1, 3), "let a =...");
    // Past the last word: the last word still names the line.
    assert_eq!(excerpt("a b", 40, 3), "b");
    assert_eq!(excerpt("", 1, 3), "");
    // A blank line is not a word, so nothing is elided out of nothing.
    assert_eq!(excerpt("     ", 3, 3), "");
}

#[test]
fn an_excerpt_of_no_words_asked_still_names_one() {
    assert_eq!(excerpt("one two", 1, 0), "one...");
}

#[test]
fn a_landing_on_the_place_left_went_nowhere() {
    let left = Visit { file: "a.rs".to_string(), line: 3, column: 2, text: "x".to_string() };
    assert!(went_nowhere(&left, None));
    assert!(went_nowhere(&left, Some(Place { line: 3, column: 2 })));
    assert!(!went_nowhere(&left, Some(Place { line: 3, column: 5 })));
}

fn visit(file: &str, line: usize, column: usize, text: &str) -> varde::history::Visit {
    varde::history::Visit { file: file.to_string(), line, column, text: text.to_string() }
}

#[test]
fn a_place_remembered_twice_is_one_row_at_the_end() {
    let mut visits = vec![visit("a.rs", 1, 1, "one"), visit("b.rs", 4, 2, "four")];
    let mut selection = 2;
    let before = visits.clone();
    // A jump within the file leaves a.rs:1:1 again: the old row gives way.
    record(Jump::InFile, Some(visit("a.rs", 1, 1, "one!")), Some(visit("a.rs", 9, 1, "nine")), &before, 2, &mut visits, &mut selection);
    assert_eq!(visits, vec![visit("b.rs", 4, 2, "four"), visit("a.rs", 1, 1, "one!")]);
    assert_eq!(selection, 2);
    // The same place again, identical to the newest: nothing changes.
    let before = visits.clone();
    selection = 0;
    record(Jump::InFile, Some(visit("a.rs", 1, 1, "one!")), Some(visit("a.rs", 3, 1, "three")), &before, 0, &mut visits, &mut selection);
    assert_eq!(visits.len(), 2);
    assert_eq!(selection, 0);
    // A jump that went nowhere records nothing.
    let before = visits.clone();
    record(Jump::InFile, Some(visit("c.rs", 2, 2, "x")), Some(visit("c.rs", 2, 2, "x")), &before, 0, &mut visits, &mut selection);
    assert_eq!(visits.len(), 2);
    // Nor does anything that is not a jump.
    record(Jump::No, Some(visit("c.rs", 5, 2, "x")), None, &before, 0, &mut visits, &mut selection);
    assert_eq!(visits.len(), 2);
}

#[test]
fn a_landing_that_is_the_walks_own_step_is_not_recorded() {
    let mut visits = vec![visit("a.rs", 1, 1, "one"), visit("b.rs", 4, 2, "four")];
    let before = visits.clone();
    let mut selection = 0;
    // The history's cursor names a.rs, and the place left is the Visit next to it.
    record(
        Jump::ToFile { file: "a.rs".to_string(), at: Some(varde::Place { line: 1, column: 1 }) },
        Some(visit("b.rs", 4, 2, "four")),
        None,
        &before,
        0,
        &mut visits,
        &mut selection,
    );
    assert_eq!(visits, before);
    // Into another file from somewhere the walk does not name: recorded.
    record(
        Jump::ToFile { file: "c.rs".to_string(), at: None },
        Some(visit("b.rs", 7, 1, "seven")),
        None,
        &before,
        1,
        &mut visits,
        &mut selection,
    );
    assert_eq!(visits.last(), Some(&visit("b.rs", 7, 1, "seven")));
    assert_eq!(selection, 3);
    // The search's jump records where it started.
    record(Jump::From(visit("d.rs", 2, 3, "two")), None, Some(visit("d.rs", 8, 1, "eight")), &before, 1, &mut visits, &mut selection);
    assert_eq!(visits.last(), Some(&visit("d.rs", 2, 3, "two")));
}

#[test]
fn the_history_keeps_the_newest_hundred() {
    let mut visits = Vec::new();
    let mut selection = 0;
    for line in 1..=CAP + 5 {
        leaving(Some(visit("a.rs", line, 1, "x")), varde::Place { line: 0, column: 1 }, &mut visits, &mut selection);
    }
    assert_eq!(visits.len(), CAP);
    assert_eq!(visits[0].line, 6);
    assert_eq!(selection, CAP);
    // Leaving to where the cursor stands is not leaving.
    leaving(Some(visit("a.rs", 3, 4, "x")), varde::Place { line: 3, column: 4 }, &mut visits, &mut selection);
    assert_eq!(visits.last().map(|v| v.line), Some(CAP + 5));
}

#[test]
fn back_and_forward_walk_the_list_and_forward_is_the_way_home() {
    let mut visits = vec![visit("a.rs", 1, 1, "one"), visit("b.rs", 4, 2, "four")];
    let mut selection = visits.len();
    assert!(selected(&visits, selection).is_none());
    assert!(row_actions(&visits, selection).is_empty());
    // From past the newest, the place standing here is pushed so forward can return to it.
    assert_eq!(back(&mut visits, &mut selection, Some(visit("c.rs", 9, 3, "nine"))), Ok(1));
    assert_eq!(visits.len(), 3);
    assert_eq!(selection, 1);
    assert_eq!(row_actions(&visits, selection), vec![GO_TO]);
    assert_eq!(back(&mut visits, &mut selection, None), Ok(0));
    assert_eq!(back(&mut visits, &mut selection, None), Err("no-earlier-place"));
    assert_eq!(forward(&visits, &mut selection), Ok(1));
    assert_eq!(forward(&visits, &mut selection), Ok(2));
    assert_eq!(visits[2], visit("c.rs", 9, 3, "nine"));
    assert_eq!(forward(&visits, &mut selection), Err("no-later-place"));
    assert_eq!(go(&visits, selection), Ok(2));
    assert_eq!(go(&visits, 3), Err("no-place-here"));
    // A list already ending with the place standing here steps to the row before it.
    let mut ended = vec![visit("a.rs", 1, 1, "one"), visit("b.rs", 4, 2, "four")];
    let mut at = 2;
    assert_eq!(back(&mut ended, &mut at, Some(visit("b.rs", 4, 2, "four"))), Ok(0));
    assert_eq!(ended.len(), 2);
    // With nothing open there is nothing to push, and the newest is the step.
    let mut closed = vec![visit("a.rs", 1, 1, "one")];
    let mut at = 1;
    assert_eq!(back(&mut closed, &mut at, None), Ok(0));
    let mut empty = Vec::new();
    let mut at = 0;
    assert_eq!(back(&mut empty, &mut at, Some(visit("a.rs", 1, 1, "one"))), Err("no-earlier-place"));
}

#[test]
fn a_visit_is_stale_only_against_an_open_file_that_changed() {
    let v = visit("a.rs", 2, 1, "let x = 1;");
    assert!(!stale(&v, Some("fn a() {\nlet x = 1;   \n}")));
    assert!(stale(&v, Some("fn a() {\nlet x = 2;\n}")));
    assert!(stale(&v, Some("one line")));
    assert!(!stale(&v, None));
}
