use varde::authorship::{changed_lines, traced, traced_lines, Authored, Authorship};
use varde::blame::committed_line;

const COMMITTED: &str = "one\ntwo\nthree\nfour\nfive\nsix\nseven\neight\nnine\nten\n";

#[test]
fn authorship_a_buffer_line_is_traced_back_to_the_line_the_commit_holds() {
    let at = |committed: &str, shown: &str, line: usize| traced(Some(committed), shown)[line - 1];

    let same = |line| at(COMMITTED, COMMITTED, line);
    assert_eq!((same(1), same(5), same(10)), (Some(1), Some(5), Some(10)));

    let inserted = COMMITTED.replace("five\n", "five\nFIVE AND A HALF\n");
    let after = |line| at(COMMITTED, &inserted, line);
    assert_eq!((after(5), after(6)), (Some(5), None));
    assert_eq!((after(7), after(11)), (Some(6), Some(10)));

    let edited = COMMITTED.replace("five\n", "FIVE\n");
    let over = |line| at(COMMITTED, &edited, line);
    assert_eq!((over(4), over(5), over(6)), (Some(4), None, Some(6)));

    let deleted = COMMITTED.replace("five\n", "");
    let short = |line| at(COMMITTED, &deleted, line);
    assert_eq!((short(4), short(5), short(9)), (Some(4), Some(6), Some(10)));
}

#[test]
fn authorship_every_line_of_an_uncommitted_file_belongs_to_nobody() {
    assert_eq!(traced(Some(""), "fn new() {}"), [None]);
    assert_eq!(traced(Some(""), "fn new() {}\nfn old() {}"), [None, None]);
    assert_eq!(traced(None, "fn new() {}"), Vec::<Option<usize>>::new());
}

#[test]
fn the_lines_the_commit_does_not_hold_are_the_ones_with_no_committed_line() {
    let changed = |committed: &str, shown: &str| -> Vec<usize> {
        traced(Some(committed), shown)
            .into_iter()
            .enumerate()
            .filter(|(_, at)| at.is_none())
            .map(|(index, _)| index + 1)
            .collect()
    };
    let old = "a\nb\nc\n";
    assert_eq!(changed(old, old), Vec::<usize>::new());
    assert_eq!(changed(old, "a\nx\nb\nc\n"), vec![2]);
    assert_eq!(changed(old, "a\nB\nc\n"), vec![2]);
    assert_eq!(changed(old, "a\nc\n"), Vec::<usize>::new());
    assert_eq!(changed(old, "1\na\nb\nc\n2\n"), vec![1, 5]);
}

#[test]
fn blame_a_buffer_line_is_traced_back_to_the_line_the_commit_holds() {
    let same = |line| committed_line(COMMITTED, COMMITTED, line);
    assert_eq!((same(1), same(5), same(10)), (Some(1), Some(5), Some(10)));

    let inserted = COMMITTED.replace("five\n", "five\nFIVE AND A HALF\n");
    let after = |line| committed_line(COMMITTED, &inserted, line);
    assert_eq!(after(5), Some(5));
    assert_eq!(after(6), None);
    assert_eq!((after(7), after(11)), (Some(6), Some(10)));

    let edited = COMMITTED.replace("five\n", "FIVE\n");
    let over = |line| committed_line(COMMITTED, &edited, line);
    assert_eq!((over(4), over(5), over(6)), (Some(4), None, Some(6)));

    let deleted = COMMITTED.replace("five\n", "");
    let short = |line| committed_line(COMMITTED, &deleted, line);
    assert_eq!((short(4), short(5), short(9)), (Some(4), Some(6), Some(10)));
}

#[test]
fn blame_every_line_of_an_uncommitted_file_belongs_to_nobody() {
    assert_eq!(committed_line("", "fn new() {}\n", 1), None);
}

fn who(author: &str) -> Authored {
    Authored { author: author.to_string(), date: "2024-01-02".to_string() }
}

#[test]
fn the_border_names_the_author_of_the_committed_line() {
    let authors = vec![who("ann"), who("bo")];
    let trace = [Some(1), None, Some(2), Some(7)];
    let at = |line| varde::authorship::at_cursor(line, Some(&trace[..]), &authors);
    assert_eq!(at(1), Some(Authorship::Committed(who("ann"))));
    assert_eq!(at(2), Some(Authorship::NotCommittedYet));
    assert_eq!(at(3), Some(Authorship::Committed(who("bo"))));
    // A committed line the blame does not reach, and a line past the trace.
    assert_eq!(at(4), Some(Authorship::NotCommittedYet));
    assert_eq!(at(9), Some(Authorship::NotCommittedYet));
    assert_eq!(at(0), None);
    assert_eq!(varde::authorship::at_cursor(1, None, &authors), None);
}

#[test]
fn a_trace_of_another_buffer_or_revision_is_not_this_one() {
    let lines = [Some(1), None];
    assert_eq!(traced_lines(Some(("/w/a.rs", 3, &lines[..])), Some(("/w/a.rs", 3))), Some(&lines[..]));
    assert_eq!(traced_lines(Some(("/w/a.rs", 2, &lines[..])), Some(("/w/a.rs", 3))), None);
    assert_eq!(traced_lines(Some(("/w/b.rs", 3, &lines[..])), Some(("/w/a.rs", 3))), None);
    assert_eq!(traced_lines(None, Some(("/w/a.rs", 3))), None);
}

#[test]
fn the_blame_names_the_author_of_the_line_traced_back() {
    let blamed = |author: &str| varde::blame::Authored { author: author.to_string(), date: "2024-01-02".to_string() };
    let authors = vec![blamed("ann"), blamed("bo"), blamed("cy")];
    let committed = "one\ntwo\nthree\n";
    let shown = "one\nnew\ntwo\nthree\n";
    let at = |line| varde::blame::at_cursor(line, committed, shown, &authors);
    assert_eq!(at(1), Some(varde::blame::Authorship::Committed(varde::blame::Authored { author: "ann".to_string(), date: "2024-01-02".to_string() })));
    assert_eq!(at(2), Some(varde::blame::Authorship::NotCommittedYet));
    assert_eq!(at(4), Some(varde::blame::Authorship::Committed(varde::blame::Authored { author: "cy".to_string(), date: "2024-01-02".to_string() })));
}

#[test]
fn the_marks_read_the_trace_the_edge_told() {
    let path = "/w/main.rs";
    let buffer = varde::editor::Buffer::open("a\nb\n", false, 4);
    let revision = buffer.revision();
    assert!(changed_lines(None, Some((path, revision))).is_empty(), "diffed on its own");

    let told = [Some(1), None, None];
    assert_eq!(changed_lines(Some((path, revision, &told[..])), Some((path, revision))), [2, 3]);

    let older = [None, Some(1), None];
    assert!(
        changed_lines(Some((path, revision - 1, &older[..])), Some((path, revision))).is_empty(),
        "an older revision's"
    );

    let other = [None];
    assert!(changed_lines(Some(("/w/other.rs", revision, &other[..])), Some((path, revision))).is_empty());
}
