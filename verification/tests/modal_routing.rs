use varde::keys::{
    command_line, editor_pane_key, filter_box, finding, focus_alias, jump_alias, list_arrow, list_pane_key, modal_claim,
    modal_key, routed, searching, start_ai_box, tree_pane_key, Around, Drafts, Event, Key, KeyCode, Modal, Resolution,
};
use varde::Pane;
use varde::Direction;

fn plain(c: char) -> Key {
    Key { code: KeyCode::Char(c), shift: false, alt: false, control: false }
}

fn bare(code: KeyCode) -> Key {
    Key { code, shift: false, alt: false, control: false }
}

fn ctrl(c: char) -> Key {
    Key { code: KeyCode::Char(c), shift: false, alt: false, control: true }
}

fn alt(code: KeyCode) -> Key {
    Key { code, shift: false, alt: true, control: false }
}

fn route(modal: &Modal, drafts: &mut Drafts, key: Key) -> Option<Vec<Event<String>>> {
    modal_claim(modal, false, drafts, key)
}

#[test]
fn the_palette_takes_typed_keys_and_escape() {
    let mut drafts = Drafts::default();
    assert_eq!(route(&Modal::Palette, &mut drafts, bare(KeyCode::Esc)), Some(vec![Event::Cancel]));
    assert_eq!(route(&Modal::Palette, &mut drafts, plain('q')), Some(vec![Event::Key('q')]));
    assert_eq!(route(&Modal::Palette, &mut drafts, ctrl('q')), Some(vec![]));
    assert_eq!(route(&Modal::Palette, &mut drafts, bare(KeyCode::Up)), Some(vec![]));
}

#[test]
fn the_tools_list_moves_installs_and_rechecks() {
    let mut drafts = Drafts::default();
    assert_eq!(route(&Modal::Tools, &mut drafts, bare(KeyCode::Up)), Some(vec![Event::MoveToolRow(Direction::Up)]));
    assert_eq!(route(&Modal::Tools, &mut drafts, bare(KeyCode::Down)), Some(vec![Event::MoveToolRow(Direction::Down)]));
    assert_eq!(route(&Modal::Tools, &mut drafts, plain('i')), Some(vec![Event::InstallTool]));
    assert_eq!(route(&Modal::Tools, &mut drafts, plain('r')), Some(vec![Event::RecheckTool]));
    assert_eq!(route(&Modal::Tools, &mut drafts, plain('x')), Some(vec![]));
}

#[test]
fn a_letter_narrows_the_branch_picker_and_backspace_widens_it() {
    let mut drafts = Drafts::default();
    let picker = Modal::Branches { filter: "ma".to_string() };
    assert_eq!(route(&picker, &mut drafts, plain('i')), Some(vec![Event::FilterBranches("mai".to_string())]));
    assert_eq!(route(&picker, &mut drafts, bare(KeyCode::Backspace)), Some(vec![Event::FilterBranches("m".to_string())]));
    let empty = Modal::Branches { filter: String::new() };
    assert_eq!(route(&empty, &mut drafts, bare(KeyCode::Backspace)), Some(vec![Event::FilterBranches(String::new())]));
    assert_eq!(route(&picker, &mut drafts, bare(KeyCode::Enter)), Some(vec![Event::ChooseBranch]));
    assert_eq!(route(&picker, &mut drafts, bare(KeyCode::Down)), Some(vec![Event::MoveBranchRow(Direction::Down)]));
}

#[test]
fn every_key_takes_the_chord_hint_down() {
    let mut drafts = Drafts::default();
    assert_eq!(route(&Modal::Chord, &mut drafts, plain('b')), Some(vec![Event::Key('b')]));
    assert_eq!(route(&Modal::Chord, &mut drafts, bare(KeyCode::Up)), Some(vec![Event::Cancel]));
}

#[test]
fn the_candidate_list_passes_on_what_it_does_not_claim() {
    let mut drafts = Drafts::default();
    assert_eq!(route(&Modal::Candidates, &mut drafts, bare(KeyCode::Enter)), Some(vec![Event::AcceptCandidate]));
    assert_eq!(route(&Modal::Candidates, &mut drafts, bare(KeyCode::Up)), Some(vec![Event::MoveCandidate(Direction::Up)]));
    assert_eq!(route(&Modal::Candidates, &mut drafts, plain('x')), None);
    let shifted_down = Key { code: KeyCode::Down, shift: true, alt: false, control: false };
    assert_eq!(route(&Modal::Candidates, &mut drafts, shifted_down), None);
}

#[test]
fn tab_stops_take_tab_and_escape_only() {
    let mut drafts = Drafts::default();
    assert_eq!(route(&Modal::Stops, &mut drafts, bare(KeyCode::Tab)), Some(vec![Event::NextStop]));
    assert_eq!(route(&Modal::Stops, &mut drafts, bare(KeyCode::Esc)), Some(vec![Event::Cancel]));
    assert_eq!(route(&Modal::Stops, &mut drafts, plain('a')), None);
}

#[test]
fn a_focused_hover_reads_its_keys_and_swallows_the_rest() {
    let mut drafts = Drafts::default();
    assert_eq!(modal_claim(&Modal::Clear, true, &mut drafts, plain('j')), Some(vec![Event::ScrollHover(Direction::Down)]));
    assert_eq!(modal_claim(&Modal::Clear, true, &mut drafts, plain('k')), Some(vec![Event::ScrollHover(Direction::Up)]));
    assert_eq!(modal_claim(&Modal::Clear, true, &mut drafts, plain('x')), Some(vec![]));
    assert_eq!(modal_claim(&Modal::Clear, true, &mut drafts, bare(KeyCode::Esc)), Some(vec![Event::Cancel]));
    assert_eq!(modal_claim(&Modal::Clear, false, &mut drafts, plain('j')), None);
}

#[test]
fn a_question_modal_is_answered() {
    let mut drafts = Drafts::default();
    assert_eq!(route(&Modal::Restart, &mut drafts, plain('y')), Some(vec![Event::Restart]));
    assert_eq!(route(&Modal::Diverged, &mut drafts, plain('m')), Some(vec![Event::Resolve(Resolution::Merge)]));
    assert_eq!(route(&Modal::ConfirmSubmit, &mut drafts, plain('x')), Some(vec![]));
    assert_eq!(route(&Modal::Prediction, &mut drafts, plain('2')), Some(vec![Event::Key('2')]));
}

#[test]
fn the_name_box_collects_a_name_and_sends_it() {
    let mut drafts = Drafts::default();
    for c in "ab".chars() {
        assert_eq!(route(&Modal::NameBox, &mut drafts, plain(c)), Some(vec![]));
    }
    assert_eq!(route(&Modal::NameBox, &mut drafts, plain('c')), Some(vec![]));
    assert_eq!(route(&Modal::NameBox, &mut drafts, bare(KeyCode::Backspace)), Some(vec![]));
    assert_eq!(drafts.name, "ab");
    assert_eq!(route(&Modal::NameBox, &mut drafts, bare(KeyCode::Enter)), Some(vec![Event::EnterName("ab".to_string())]));
    assert_eq!(drafts.name, "");
    route(&Modal::NameBox, &mut drafts, plain('z'));
    assert_eq!(route(&Modal::NameBox, &mut drafts, bare(KeyCode::Esc)), Some(vec![Event::Cancel]));
    assert_eq!(drafts.name, "");
}

#[test]
fn only_the_four_letters_pick_a_comment_type() {
    let mut drafts = Drafts::default();
    assert_eq!(route(&Modal::Comment, &mut drafts, plain('x')), Some(vec![]));
    assert_eq!(drafts.comment_kind, "");
    assert_eq!(route(&Modal::Comment, &mut drafts, plain('s')), Some(vec![]));
    assert_eq!(drafts.comment_kind, "SUGGESTION");
}

#[test]
fn the_comment_body_takes_the_editors_gestures_and_ctrl_s_files_it() {
    let mut drafts = Drafts { comment_kind: "ISSUE".to_string(), ..Drafts::default() };
    assert_eq!(route(&Modal::Comment, &mut drafts, plain('a')), Some(vec![Event::EditorKey('a')]));
    assert_eq!(route(&Modal::Comment, &mut drafts, bare(KeyCode::Enter)), Some(vec![Event::EditorKey('\n')]));
    assert_eq!(route(&Modal::Comment, &mut drafts, alt(KeyCode::Backspace)), Some(vec![Event::EditorDeleteWord]));
    assert_eq!(route(&Modal::Comment, &mut drafts, alt(KeyCode::Char('f'))), Some(vec![Event::EditorWord(Direction::Right)]));
    assert_eq!(route(&Modal::Comment, &mut drafts, alt(KeyCode::Left)), Some(vec![Event::EditorWord(Direction::Left)]));
    assert_eq!(route(&Modal::Comment, &mut drafts, bare(KeyCode::Up)), Some(vec![Event::EditorArrow(Direction::Up)]));
    assert_eq!(route(&Modal::Comment, &mut drafts, ctrl('z')), Some(vec![Event::EditorUndo]));
    assert_eq!(route(&Modal::Comment, &mut drafts, ctrl('s')), Some(vec![Event::FileComment { kind: "ISSUE".to_string() }]));
    assert_eq!(drafts.comment_kind, "");
}

#[test]
fn escape_in_the_comment_body_drops_the_type() {
    let mut drafts = Drafts { comment_kind: "NOTE".to_string(), ..Drafts::default() };
    assert_eq!(route(&Modal::Comment, &mut drafts, bare(KeyCode::Esc)), Some(vec![Event::EditorEscape]));
    assert_eq!(drafts.comment_kind, "");
    assert_eq!(route(&Modal::Comment, &mut drafts, bare(KeyCode::Esc)), Some(vec![Event::EditorEscape]));
}

#[test]
fn only_the_boxes_touch_the_drafts() {
    let mut drafts = Drafts {
        name: "n".to_string(),
        command: Some("w".to_string()),
        ai: "a".to_string(),
        filter: Some("f".to_string()),
        comment_kind: String::new(),
    };
    let before = drafts.clone();
    route(&Modal::Palette, &mut drafts, plain('x'));
    route(&Modal::Branches { filter: String::new() }, &mut drafts, plain('x'));
    assert_eq!(drafts, before);
}

#[test]
fn project_search_steps_hits_and_types_its_query() {
    let query = "fo".to_string();
    assert_eq!(searching(&query, bare(KeyCode::Down)), vec![Event::MoveHit(Direction::Down)]);
    let shifted = Key { code: KeyCode::Down, shift: true, alt: false, control: false };
    assert_eq!(searching(&query, shifted), vec![]);
    assert_eq!(searching(&query, ctrl('n')), vec![Event::MoveHitFile(Direction::Down)]);
    assert_eq!(searching(&query, ctrl('p')), vec![Event::MoveHitFile(Direction::Up)]);
    assert_eq!(searching(&query, ctrl('o')), vec![Event::OpenEveryHit]);
    assert_eq!(searching(&query, bare(KeyCode::Tab)), vec![Event::CompleteSearch]);
    assert_eq!(searching(&query, plain('o')), vec![Event::SearchQuery("foo".to_string())]);
    assert_eq!(searching(&query, bare(KeyCode::Backspace)), vec![Event::SearchQuery("f".to_string())]);
    assert_eq!(searching(&query, bare(KeyCode::Esc)), vec![Event::CloseSearch]);
}

#[test]
fn find_types_its_query_and_enter_accepts_it() {
    let query = "ab".to_string();
    assert_eq!(finding(&query, plain('c')), vec![Event::FindQuery("abc".to_string())]);
    assert_eq!(finding(&query, bare(KeyCode::Backspace)), vec![Event::FindQuery("a".to_string())]);
    assert_eq!(finding(&String::new(), bare(KeyCode::Backspace)), vec![Event::FindQuery(String::new())]);
    assert_eq!(finding(&query, bare(KeyCode::Enter)), vec![Event::AcceptFind]);
    assert_eq!(finding(&query, bare(KeyCode::Esc)), vec![Event::CloseFind]);
}

#[test]
fn the_colon_line_collects_a_command_and_runs_it_on_enter() {
    let mut drafts = Drafts { command: Some(String::new()), ..Drafts::default() };
    for c in "wqx".chars() {
        assert_eq!(command_line(&mut drafts, plain(c)), vec![]);
    }
    assert_eq!(command_line(&mut drafts, bare(KeyCode::Backspace)), vec![]);
    assert_eq!(drafts.command, Some("wq".to_string()));
    assert_eq!(command_line(&mut drafts, bare(KeyCode::Enter)), vec![Event::WriteBuffer, Event::CloseBuffer { force: false }]);
    assert_eq!(drafts.command, None);
    let mut closed = Drafts::default();
    assert_eq!(command_line(&mut closed, plain('w')), vec![]);
    assert_eq!(closed.command, None);
}

#[test]
fn the_ai_box_starts_on_the_trimmed_command_and_not_on_a_blank_one() {
    let mut drafts = Drafts { ai: "  fix it ".to_string(), ..Drafts::default() };
    assert_eq!(
        start_ai_box(&mut drafts, bare(KeyCode::Enter)),
        vec![Event::StartAi { command: Some("fix it".to_string()), force: false }]
    );
    assert_eq!(drafts.ai, "");
    let mut blank = Drafts { ai: "   ".to_string(), ..Drafts::default() };
    assert_eq!(start_ai_box(&mut blank, bare(KeyCode::Enter)), vec![]);
    assert_eq!(blank.ai, "");
    start_ai_box(&mut blank, plain('a'));
    start_ai_box(&mut blank, plain('b'));
    start_ai_box(&mut blank, bare(KeyCode::Backspace));
    assert_eq!(blank.ai, "a");
}

#[test]
fn the_filter_box_sends_the_filter_as_it_reads() {
    let mut drafts = Drafts { filter: Some("sr".to_string()), ..Drafts::default() };
    assert_eq!(filter_box(&mut drafts, plain('c')), vec![Event::Filter("src".to_string())]);
    assert_eq!(filter_box(&mut drafts, bare(KeyCode::Backspace)), vec![Event::Filter("sr".to_string())]);
    assert_eq!(filter_box(&mut drafts, bare(KeyCode::Enter)), vec![Event::AcceptFilter]);
    assert_eq!(drafts.filter, None);
    let mut open = Drafts { filter: Some("x".to_string()), ..Drafts::default() };
    assert_eq!(filter_box(&mut open, bare(KeyCode::Esc)), vec![Event::Filter(String::new())]);
    assert_eq!(open.filter, None);
}

#[test]
fn jumps_and_focus_take_their_modifiers() {
    let ctrl_alt = |code| Key { code, shift: false, alt: true, control: true };
    assert_eq!(jump_alias(ctrl_alt(KeyCode::Left)), Some(vec![Event::JumpBack]));
    assert_eq!(jump_alias(ctrl_alt(KeyCode::Right)), Some(vec![Event::JumpForward]));
    assert_eq!(jump_alias(ctrl('p')), Some(vec![Event::JumpBack]));
    assert_eq!(jump_alias(ctrl('n')), Some(vec![Event::JumpForward]));
    assert_eq!(jump_alias(plain('p')), None);
    assert_eq!(focus_alias(alt(KeyCode::Char('h'))), Some(vec![Event::MoveFocus(Direction::Left)]));
    assert_eq!(focus_alias(alt(KeyCode::Char('j'))), Some(vec![Event::MoveFocus(Direction::Down)]));
    assert_eq!(focus_alias(ctrl_alt(KeyCode::Char('h'))), None);
    assert_eq!(focus_alias(plain('h')), None);
}

#[test]
fn the_panes_answer_their_own_keys() {
    assert_eq!(editor_pane_key(ctrl('c')), vec![Event::Copy]);
    assert_eq!(editor_pane_key(ctrl('v')), vec![Event::PasteFromClipboard]);
    assert_eq!(editor_pane_key(bare(KeyCode::Home)), vec![Event::EditorKey('0')]);
    assert_eq!(editor_pane_key(bare(KeyCode::End)), vec![Event::EditorKey('$')]);
    assert_eq!(editor_pane_key(plain('x')), vec![Event::EditorKey('x')]);
    assert_eq!(tree_pane_key(bare(KeyCode::Esc)), vec![Event::Cancel]);
    assert_eq!(tree_pane_key(plain('a')), vec![Event::Key('a')]);
    assert_eq!(list_pane_key(bare(KeyCode::Esc)), vec![]);
    assert_eq!(list_pane_key(bare(KeyCode::Enter)), vec![Event::Activate]);
    assert_eq!(list_arrow(Direction::Up), vec![Event::MoveSelection(Direction::Up)]);
    assert_eq!(list_arrow(Direction::Left), vec![Event::MoveAction(Direction::Left)]);
}

fn around(focus: Pane) -> Around {
    Around {
        focus,
        find_query: None,
        editor_inserting: false,
        ai_running: true,
        tree_filterable: true,
        hover_focused: false,
        source_in_editor: true,
        previewing: false,
        buffer_selected: false,
        tab_width: 4,
    }
}

/// The candidate list, offered while typing, passes a letter it did not
/// claim on to the buffer.
#[test]
fn a_modal_not_claiming_a_key_passes_it_to_the_routing_beneath() {
    let mut drafts = Drafts::default();
    let typing = Around { editor_inserting: true, ..around(Pane::Editor) };
    assert_eq!(modal_key(&Modal::Candidates, &typing, &mut drafts, plain('x')), vec![Event::EditorKey('x')]);
    assert_eq!(modal_key(&Modal::Candidates, &typing, &mut drafts, bare(KeyCode::Enter)), vec![Event::AcceptCandidate]);
    assert_eq!(modal_key(&Modal::Stops, &typing, &mut drafts, bare(KeyCode::Tab)), vec![Event::NextStop]);
    assert_eq!(modal_key(&Modal::Stops, &typing, &mut drafts, plain('y')), vec![Event::EditorKey('y')]);
    assert_eq!(modal_key(&Modal::Palette, &typing, &mut drafts, plain('x')), vec![Event::Key('x')]);
}

#[test]
fn a_colon_opens_the_command_line_where_the_colon_is_ours() {
    let mut drafts = Drafts::default();
    assert_eq!(routed(&around(Pane::Tree), &mut drafts, plain(':')), vec![]);
    assert_eq!(drafts.command, Some(String::new()));
    assert_eq!(routed(&around(Pane::Tree), &mut drafts, plain('w')), vec![]);
    assert_eq!(routed(&around(Pane::Tree), &mut drafts, bare(KeyCode::Enter)), vec![Event::WriteBuffer]);
    let mut typing = Drafts::default();
    let inserting = Around { editor_inserting: true, ..around(Pane::Editor) };
    assert_eq!(routed(&inserting, &mut typing, plain(':')), vec![Event::EditorKey(':')]);
    assert_eq!(typing.command, None);
}

#[test]
fn the_routing_beneath_answers_in_its_order() {
    let mut drafts = Drafts::default();
    let editor = around(Pane::Editor);
    assert_eq!(routed(&editor, &mut drafts, alt(KeyCode::Left)), vec![Event::EditorWord(Direction::Left)]);
    let shift_alt_right = Key { code: KeyCode::Right, shift: true, alt: true, control: false };
    assert_eq!(routed(&editor, &mut drafts, shift_alt_right), vec![Event::EditorExtendWord(Direction::Right)]);
    assert_eq!(routed(&editor, &mut drafts, alt(KeyCode::Char('l'))), vec![Event::MoveFocus(Direction::Right)]);
    assert_eq!(routed(&editor, &mut drafts, ctrl('d')), vec![Event::EditorNextOccurrence]);
    assert_eq!(routed(&editor, &mut drafts, ctrl('p')), vec![Event::JumpBack]);
    let shift_up = Key { code: KeyCode::Up, shift: true, alt: false, control: false };
    assert_eq!(routed(&editor, &mut drafts, shift_up), vec![Event::EditorExtend(Direction::Up)]);
    assert_eq!(routed(&around(Pane::Risk), &mut drafts, bare(KeyCode::Right)), vec![Event::MoveAction(Direction::Right)]);
    assert_eq!(routed(&around(Pane::Terminal), &mut drafts, plain('x')), vec![]);
}

#[test]
fn tab_and_alt_backspace_while_typing() {
    let mut drafts = Drafts::default();
    let typing = Around { editor_inserting: true, ..around(Pane::Editor) };
    assert_eq!(routed(&typing, &mut drafts, bare(KeyCode::Tab)), vec![Event::EditorPaste("    ".to_string())]);
    let selected = Around { buffer_selected: true, ..typing.clone() };
    let shift_tab = Key { code: KeyCode::Tab, shift: true, alt: false, control: false };
    assert_eq!(routed(&selected, &mut drafts, shift_tab), vec![Event::EditorIndent(Direction::Left)]);
    assert_eq!(routed(&typing, &mut drafts, alt(KeyCode::Backspace)), vec![Event::EditorDeleteWord]);
    let mut ai = Drafts::default();
    let ai_box = Around { ai_running: false, ..around(Pane::Ai) };
    routed(&ai_box, &mut ai, plain('g'));
    assert_eq!(ai.ai, "g");
    let mut filtering = Drafts::default();
    assert_eq!(routed(&around(Pane::Tree), &mut filtering, plain('/')), vec![]);
    assert_eq!(routed(&around(Pane::Tree), &mut filtering, plain('s')), vec![Event::Filter("s".to_string())]);
}

#[test]
fn an_open_find_takes_the_keys_first() {
    let mut drafts = Drafts::default();
    let finding_now = Around { find_query: Some("ab".to_string()), ..around(Pane::Editor) };
    assert_eq!(routed(&finding_now, &mut drafts, plain('c')), vec![Event::FindQuery("abc".to_string())]);
}
