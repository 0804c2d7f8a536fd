use varde::keys::{answered, arrow, shifted, typed, Key, KeyCode, Question, Reply, Resolution};
use varde::Direction;

fn plain(c: char) -> Key {
    Key { code: KeyCode::Char(c), shift: false, alt: false, control: false }
}

fn bare(code: KeyCode) -> Key {
    Key { code, shift: false, alt: false, control: false }
}

#[test]
fn shift_reads_the_character_typed() {
    let shift = |c| Key { code: KeyCode::Char(c), shift: true, alt: false, control: false };
    assert_eq!(shifted(shift(';')).code, KeyCode::Char(':'));
    assert_eq!(shifted(shift('n')).code, KeyCode::Char('N'));
    assert_eq!(shifted(shift('N')).code, KeyCode::Char('N'));
    assert_eq!(shifted(plain('n')).code, KeyCode::Char('n'));
    assert_eq!(shifted(Key { code: KeyCode::Up, shift: true, alt: false, control: false }).code, KeyCode::Up);
}

#[test]
fn ctrl_and_alt_are_not_text() {
    assert_eq!(typed(plain('x')), Some('x'));
    assert_eq!(typed(Key { control: true, ..plain('x') }), None);
    assert_eq!(typed(Key { alt: true, ..plain('x') }), None);
    assert_eq!(typed(bare(KeyCode::Enter)), None);
    assert_eq!(arrow(KeyCode::Left), Some(Direction::Left));
    assert_eq!(arrow(KeyCode::Tab), None);
}

#[test]
fn a_question_is_answered_not_typed_through() {
    assert_eq!(answered(Question::ConfirmSubmit, bare(KeyCode::Enter)), vec![Reply::ConfirmSubmit]);
    assert_eq!(answered(Question::Restart, plain('Y')), vec![Reply::Restart]);
    assert_eq!(answered(Question::ConfirmStory, plain('n')), vec![Reply::Cancel]);
    assert_eq!(answered(Question::ConfirmStory, plain('q')), Vec::<Reply>::new());
    assert_eq!(answered(Question::Diverged, plain('w')), vec![Reply::Resolve(Resolution::Overwrite)]);
    assert_eq!(answered(Question::Diverged, bare(KeyCode::Enter)), Vec::<Reply>::new());
    assert_eq!(answered(Question::StepDetail, plain('D')), vec![Reply::Key('D')]);
    assert_eq!(answered(Question::Prediction, plain('2')), vec![Reply::Key('2')]);
    assert_eq!(answered(Question::Prediction, bare(KeyCode::Esc)), vec![Reply::Cancel]);
    assert_eq!(answered(Question::Prediction, Key { control: true, ..plain('2') }), Vec::<Reply>::new());
}
