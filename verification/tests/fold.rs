use varde::editor::Buffer;
use varde::fold::{blocks, hidden, toggles, Block, Toggle};

fn spans(source: &str) -> Vec<(usize, usize)> {
    blocks(source).into_iter().map(|Block { from, to }| (from, to)).collect()
}

#[test]
fn a_function_body_is_a_block() {
    assert_eq!(spans("fn main() {\n    go();\n    stop();\n}\n"), [(1, 3)]);
}

#[test]
fn an_indented_language_folds_by_the_same_rule() {
    assert_eq!(spans("def f():\n    go()\n    stop()\n"), [(1, 3)]);
}

#[test]
fn a_nested_block_is_its_own_block_inside_the_one_around_it() {
    assert_eq!(spans("fn main() {\n    if ok {\n        go();\n    }\n}\n"), [(1, 4), (2, 3)]);
}

#[test]
fn a_blank_line_inside_a_block_belongs_to_it_and_a_trailing_one_does_not() {
    assert_eq!(
        spans("fn one() {\n    go();\n\n    stop();\n}\n\nfn two() {\n    go();\n}\n"),
        [(1, 4), (7, 8)]
    );
}

#[test]
fn lines_at_one_depth_hold_no_block() {
    assert_eq!(spans("use std::fs;\nuse std::io;\n"), []);
}

const NESTED: &str = "fn main() {\n    if ok {\n        go();\n    }\n}\n\nfn two() {\n    go();\n}\n";

#[test]
fn folded_blocks_hide_their_bodies_and_nothing_else() {
    let mut buffer = Buffer::open(NESTED, false, 4);
    assert!(hidden(&buffer).is_empty());
    buffer.folded = vec![2];
    assert_eq!(hidden(&buffer).into_iter().collect::<Vec<_>>(), vec![3]);
    buffer.folded = vec![1, 7];
    assert_eq!(hidden(&buffer).into_iter().collect::<Vec<_>>(), vec![2, 3, 4, 8]);
}

#[test]
fn a_toggle_stands_on_every_line_that_opens_a_block_in_the_window() {
    let mut buffer = Buffer::open(NESTED, false, 4);
    buffer.folded = vec![2];
    let all = toggles(&buffer, 1, usize::MAX);
    assert_eq!(all.into_iter().collect::<Vec<_>>(), vec![(1, Toggle::Open), (2, Toggle::Folded), (7, Toggle::Open)]);
    // Only the lines asked about, though the line below decides.
    assert_eq!(toggles(&buffer, 2, 6).into_iter().collect::<Vec<_>>(), vec![(2, Toggle::Folded)]);
    assert!(toggles(&buffer, 3, 6).is_empty());
    assert!(toggles(&buffer, 20, 30).is_empty());
    // The same lines `blocks` lays out.
    let openers: Vec<usize> = blocks(NESTED).into_iter().map(|block| block.from).collect();
    assert_eq!(toggles(&buffer, 0, usize::MAX).into_keys().collect::<Vec<_>>(), openers);
}
