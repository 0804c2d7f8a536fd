use varde::keys::{applies_to, cheatsheet, chord_rows, Surface};

#[test]
fn the_cheatsheet_is_its_rows_then_the_chords() {
    let rows = cheatsheet();
    assert_eq!(rows.len(), 44);
    assert_eq!(rows[0], ("i a o O x", "edit", vec![Surface::Edit]));
    assert_eq!(rows[6].2, vec![Surface::Edit, Surface::Review, Surface::Story]);
    assert_eq!(rows[43], ("\u{2423}b", "breakpoint", vec![Surface::Edit]));
}

#[test]
fn the_chord_hint_names_each_key_then_the_way_out() {
    assert_eq!(
        chord_rows(),
        vec![(Some('b'), "   (b) breakpoint".to_string()), (None, "   Esc  cancel".to_string())]
    );
}

#[test]
fn a_row_applies_to_the_views_it_names() {
    assert!(applies_to(&[Surface::Review, Surface::Story], Surface::Story));
    assert!(!applies_to(&[Surface::Review, Surface::Story], Surface::Edit));
    assert!(!applies_to(&[], Surface::Edit));
}
