use varde::keys::{command, Event};

fn text(s: &str) -> Option<String> {
    Some(s.to_string())
}

#[test]
fn the_buffer_commands() {
    assert_eq!(command("w"), vec![Event::WriteBuffer]);
    assert_eq!(command("e"), vec![Event::ReloadBuffer]);
    assert_eq!(command("q"), vec![Event::CloseBuffer { force: false }]);
    assert_eq!(command("q!"), vec![Event::CloseBuffer { force: true }]);
    assert_eq!(command("wq"), vec![Event::WriteBuffer, Event::CloseBuffer { force: false }]);
    assert_eq!(command("qa"), vec![Event::CloseAllBuffers { force: false }]);
    assert_eq!(command("qa!"), vec![Event::CloseAllBuffers { force: true }]);
}

#[test]
fn the_view_commands() {
    assert_eq!(command("split"), vec![Event::SplitTerminal]);
    assert_eq!(command("toggle!"), vec![Event::ToggleFold { all: true }]);
    assert_eq!(command("pause"), vec![Event::PlayPause]);
    assert_eq!(command("minimap"), vec![Event::ToggleMinimap]);
    assert_eq!(command("update"), vec![Event::Rebuild]);
}

/// The pace is handed on trimmed, as typed; reading it as a number is the
/// edge's.
#[test]
fn a_pace_is_handed_on_as_typed() {
    assert_eq!(command("speed 1.4"), vec![Event::SetSpeed("1.4".to_string())]);
    assert_eq!(command("speed   2 "), vec![Event::SetSpeed("2".to_string())]);
    assert_eq!(command("speed fast"), vec![Event::SetSpeed("fast".to_string())]);
}

#[test]
fn leaving_is_not_a_colon_command_and_nonsense_is_nothing() {
    assert_eq!(command("quit"), vec![]);
    assert_eq!(command("x"), vec![]);
    assert_eq!(command(""), vec![]);
}

#[test]
fn ai_takes_its_argument_and_a_bang_forces_it() {
    assert_eq!(command("ai"), vec![Event::StartAi { command: None, force: false }]);
    assert_eq!(command("ai! tidy this"), vec![Event::StartAi { command: text("tidy this"), force: true }]);
    assert_eq!(command("ai   "), vec![Event::StartAi { command: None, force: false }]);
    assert_eq!(command("aim"), vec![]);
}

#[test]
fn story_question_picks_a_branch_of_a_url_or_of_this_folder() {
    assert_eq!(command("story?"), vec![Event::PickBranch(None)]);
    assert_eq!(command("story? https://example.org/r.git "), vec![Event::PickBranch(text("https://example.org/r.git"))]);
    assert_eq!(command("story"), vec![Event::Story { explicit: None, force: false }]);
    assert_eq!(command("story! main"), vec![Event::Story { explicit: text("main"), force: true }]);
}
