use varde::format::{answered, spans, Answer};
use varde::{Effect, Place};

#[test]
fn one_changed_line_is_one_span_over_that_line() {
    assert_eq!(
        spans("a\nb\nc\n", "a\nB\nc\n"),
        vec![(Place { line: 2, column: 1 }, Place { line: 3, column: 1 }, "B\n".to_string())]
    );
}

#[test]
fn an_inserted_line_lands_after_the_line_the_hunk_names() {
    assert_eq!(
        spans("a\nc\n", "a\nb\nc\n"),
        vec![(Place { line: 2, column: 1 }, Place { line: 2, column: 1 }, "b\n".to_string())]
    );
}

#[test]
fn a_deleted_line_is_a_span_with_nothing_in_it() {
    assert_eq!(
        spans("a\nb\nc\n", "a\nc\n"),
        vec![(Place { line: 2, column: 1 }, Place { line: 3, column: 1 }, String::new())]
    );
}

#[test]
fn nothing_changed_is_no_span() {
    assert!(spans("a\nb\n", "a\nb\n").is_empty());
}

#[test]
fn an_unterminated_last_line_stays_unterminated() {
    assert_eq!(
        spans("{\"a\":1}", "{\n  \"a\": 1\n}"),
        vec![(Place { line: 1, column: 1 }, Place { line: 2, column: 1 }, "{\n  \"a\": 1\n}".to_string())]
    );
}

#[test]
fn nothing_answered_over_a_buffer_of_whitespace_is_applied() {
    let mut buffer = Some(varde::editor::Buffer::open("   \n", false, 4));
    let revision = buffer.as_ref().map(|b| b.revision()).unwrap_or_default();
    let effects = varde::format::answered(&mut buffer, Some("jq"), None, revision, varde::format::Answer::Done(String::new()));
    assert!(effects.is_empty(), "{effects:?}");
    assert_eq!(buffer.as_ref().map(|b| b.shown()), Some(""));
}

#[test]
fn a_failure_says_its_first_line_without_the_control_characters_in_it() {
    assert_eq!(
        varde::format::answered(
            &mut None,
            Some("jq"),
            None,
            0,
            varde::format::Answer::Failed("\u{1b}[2Jboom: line 1\nstack".to_string()),
        ),
        vec![varde::Effect::NotifyAbout { slug: "formatter-failed", about: "[2Jboom: line 1".to_string() }]
    );
}

#[test]
fn a_formatter_answers_are_told_apart() {
    // Missing: the install command typed into the terminal, and a notice naming the command.
    assert_eq!(
        answered(&mut None, Some("prettier"), Some("npm i -g prettier"), 0, Answer::Missing),
        vec![
            Effect::SetTerminalInput("npm i -g prettier".to_string()),
            Effect::NotifyAbout { slug: "formatter-missing", about: "prettier".to_string() },
        ]
    );
    assert_eq!(answered(&mut None, None, None, 0, Answer::Missing).len(), 1);
    // Done over a buffer typed in since: nothing.
    let mut typed = Some(varde::editor::Buffer::open("a\n", false, 4));
    assert!(answered(&mut typed, Some("fmt"), None, 99, Answer::Done("b\n".to_string())).is_empty());
    assert_eq!(typed.as_ref().map(|b| b.shown()), Some("a\n"));
    // Nothing written over text is a failure, named by the command.
    let mut full = Some(varde::editor::Buffer::open("a\n", false, 4));
    let revision = full.as_ref().map(|b| b.revision()).unwrap_or_default();
    assert_eq!(
        answered(&mut full, Some("fmt"), None, revision, Answer::Done(String::new())),
        vec![Effect::NotifyAbout { slug: "formatter-failed", about: "fmt".to_string() }]
    );
    // The same text back is nothing to format.
    assert_eq!(
        answered(&mut full, Some("fmt"), None, revision, Answer::Done("a\n".to_string())),
        vec![Effect::Notify("nothing-to-format")]
    );
    // A real answer is applied.
    assert!(answered(&mut full, Some("fmt"), None, revision, Answer::Done("b\n".to_string())).is_empty());
    assert_eq!(full.as_ref().map(|b| b.shown()), Some("b\n"));
}
