use varde::layout::{
    editor_chip_labels, frame, measured_strip, transport_labels, inset, pane_at, panes, search_box, search_hit_rows, split, split_at,
    strip_at, strip_width, viewport, AiPane, Area, Corner, Shapes, STEP_MENU_WIDTH,
};
use varde::Pane;

#[test]
fn splits_tile_the_strip_and_the_last_takes_the_remainder() {
    let strip = Area {
        x: 5,
        y: 20,
        width: 10,
        height: 6,
    };
    let thirds: Vec<_> = (0..3).map(|k| split(strip, 3, k)).collect();
    assert_eq!(
        thirds.iter().map(|a| (a.x, a.width)).collect::<Vec<_>>(),
        vec![(5, 3), (8, 3), (11, 4)]
    );
    assert!(thirds.iter().all(|a| (a.y, a.height) == (20, 6)));
    assert_eq!(split(strip, 1, 0), strip);
    assert_eq!(split(strip, 0, 3), strip);
    assert_eq!(split_at(strip, 3, 5), 0);
    assert_eq!(split_at(strip, 3, 10), 1);
    assert_eq!(split_at(strip, 3, 14), 2);
    assert_eq!(split_at(strip, 1, 14), 0);
}


// A 10-row list in a pane showing 4 of them.
#[test]
fn the_wheel_offset_is_kept_while_the_focused_row_is_visible() {
    assert_eq!(viewport(2, 3, 10, 4), 2);
}

#[test]
fn a_focused_row_above_the_view_pulls_it_back() {
    assert_eq!(viewport(5, 1, 10, 4), 1);
}

#[test]
fn a_focused_row_below_the_view_pushes_it_down() {
    assert_eq!(viewport(0, 7, 10, 4), 4);
}

#[test]
fn scrolling_stops_at_the_last_screenful() {
    assert_eq!(viewport(99, 0, 10, 4), 0);
    assert_eq!(viewport(99, 9, 10, 4), 6);
}

#[test]
fn content_shorter_than_the_pane_never_scrolls() {
    assert_eq!(viewport(99, 1, 3, 4), 0);
}


#[test]
fn a_range_that_fits_keeps_a_little_context_above_it() {
    assert_eq!(frame(10, 14, 9), 8);
}

#[test]
fn a_range_as_tall_as_the_pane_is_framed_from_its_top() {
    assert_eq!(frame(10, 18, 9), 10);
}

#[test]
fn a_range_taller_than_the_pane_is_framed_from_its_top() {
    assert_eq!(frame(10, 40, 9), 10);
}

#[test]
fn the_context_shrinks_rather_than_pushing_the_range_off_the_bottom() {
    assert_eq!(frame(10, 17, 9), 9);
}

#[test]
fn a_range_at_the_top_never_frames_above_the_first_row() {
    assert_eq!(frame(0, 4, 9), 0);
    assert_eq!(frame(1, 5, 9), 0);
}

/// What the two functions have to agree on: `settle` re-clamps every
/// offset, so a frame the clamp moved would be a frame nobody sees.
#[test]
fn the_clamp_leaves_a_framed_range_alone() {
    for (first, last) in [(10, 14), (10, 40), (0, 4), (10, 17)] {
        let offset = frame(first, last, 9);
        assert_eq!(viewport(offset, first, 60, 9), offset);
    }
}

/// Measured from ratatui's solver before the layout moved here. If these
/// change, the panes moved on screen.
#[test]
fn matches_what_ratatui_produced() {
    let cases = [
        (120u16, 26u16, 30u16, (30u16, 54u16, 36u16), (18u16, 8u16)),
        (100, 26, 30, (30, 40, 30), (18, 8)),
        (80, 24, 45, (45, 20, 15), (17, 7)),
        (200, 50, 30, (30, 110, 60), (35, 15)),
    ];
    for (width, height, divider, (tree, editor, ai), (top, terminal)) in cases {
        let layout = panes(width, height, divider, None, 0, 0, Shapes::default());
        assert_eq!(
            (layout.tree.width, layout.editor.width, layout.ai.width),
            (tree, editor, ai),
            "widths for {width}x{height} divider {divider}"
        );
        assert_eq!(
            (layout.tree.height, layout.terminal.height),
            (top, terminal),
            "heights for {width}x{height}"
        );
    }
}

/// A width the user dragged to is kept whatever the screen does — only the
/// editor's 20-column floor overrides it.
#[test]
fn a_named_ai_width_is_kept_instead_of_the_share() {
    assert_eq!(
        panes(120, 26, 30, Some(40), 0, 0, Shapes::default())
            .ai
            .width,
        40
    );
    assert_eq!(
        panes(200, 50, 30, Some(40), 0, 0, Shapes::default())
            .ai
            .width,
        40
    );
    // 30 tree + 20 editor leaves 30, not the 60 asked for.
    assert_eq!(
        panes(80, 26, 30, Some(60), 0, 0, Shapes::default())
            .ai
            .width,
        30
    );
}

#[test]
fn the_panes_tile_without_gaps_or_overlap() {
    let layout = panes(120, 26, 30, None, 0, 0, Shapes::default());
    assert_eq!(layout.tree.right(), layout.editor.x);
    assert_eq!(layout.editor.right(), layout.ai.x);
    assert_eq!(layout.ai.right(), 120);
    assert_eq!(layout.tree.bottom(), layout.terminal.y);
    assert_eq!(layout.terminal.bottom(), 26);
}

#[test]
fn every_column_belongs_to_exactly_one_pane() {
    let layout = panes(120, 26, 30, None, 0, 0, Shapes::default());
    for column in 0..120 {
        for row in [0u16, 17, 18, 25] {
            assert!(
                pane_at(&layout, column, row).is_some(),
                "nothing at {column},{row}"
            );
        }
    }
}

#[test]
fn hit_testing_finds_the_right_pane() {
    let layout = panes(120, 26, 30, None, 0, 0, Shapes::default());
    assert_eq!(pane_at(&layout, 5, 5), Some(Pane::Tree));
    assert_eq!(pane_at(&layout, 40, 5), Some(Pane::Editor));
    assert_eq!(pane_at(&layout, 100, 5), Some(Pane::Ai));
    assert_eq!(pane_at(&layout, 40, 20), Some(Pane::Terminal));
    assert_eq!(pane_at(&layout, 200, 5), None);
}

#[test]
fn a_band_shortens_the_editor_and_sits_directly_under_it() {
    let full = panes(120, 26, 30, None, 0, 0, Shapes::default());
    let banded = panes(120, 26, 30, None, 6, 0, Shapes::default());
    assert_eq!(banded.editor.height, full.editor.height - 6);
    assert_eq!(banded.editor.x, full.editor.x);
    assert_eq!(banded.editor.width, full.editor.width);
    assert_eq!(banded.band.x, banded.editor.x);
    assert_eq!(banded.band.width, banded.editor.width);
    assert_eq!(banded.band.y, banded.editor.bottom());
    assert_eq!(banded.band.height, 6);
    // Every other pane is untouched — the band is the only rectangle
    // that changes.
    assert_eq!(banded.tree, full.tree);
    assert_eq!(banded.ai, full.ai);
    assert_eq!(banded.terminal, full.terminal);
}

#[test]
fn a_click_on_the_band_hit_tests_as_the_editor() {
    let layout = panes(120, 26, 30, None, 6, 0, Shapes::default());
    let (column, row) = (layout.band.x, layout.band.y);
    assert_eq!(pane_at(&layout, column, row), Some(Pane::Editor));
}

/// The step-menu narrows the editor by exactly its own width and sits
/// directly to its left — pinned to the exact measured numbers, the same
/// way `matches_what_ratatui_produced` pins the other panes, not just
/// relationally.
#[test]
fn a_step_menu_narrows_the_editor_and_sits_directly_left_of_it() {
    let full = panes(120, 26, 30, None, 0, 0, Shapes::default());
    let menued = panes(120, 26, 30, None, 0, STEP_MENU_WIDTH, Shapes::default());
    assert_eq!((menued.step_menu.x, menued.step_menu.y), (30, 0));
    assert_eq!((menued.step_menu.width, menued.step_menu.height), (20, 18));
    assert_eq!((menued.editor.x, menued.editor.width), (50, 34));
    assert_eq!(menued.editor.height, full.editor.height);
    assert_eq!(menued.editor.width, full.editor.width - STEP_MENU_WIDTH);
    assert_eq!(menued.editor.x, menued.step_menu.right());
    // The step-menu spans the tree's full height, not just the editor's:
    // the band sits under the editor's own column, never the
    // step-menu's, so a shorter step-menu would leave the rows beside
    // the band belonging to no pane.
    assert_eq!(menued.step_menu.height, menued.tree.height);
    // Every other pane is untouched — the step-menu is the only new
    // rectangle, taken out of the editor's width alone.
    assert_eq!(menued.tree, full.tree);
    assert_eq!(menued.ai, full.ai);
    assert_eq!(menued.terminal, full.terminal);
}

/// The step-menu is drawn, never hit-tested: the ticket asks for no new
/// mouse region and no click-to-jump, so a click over it resolves to no
/// pane at all rather than quietly falling into the editor's.
#[test]
fn a_click_on_the_step_menu_hits_no_pane() {
    let layout = panes(120, 26, 30, None, 0, STEP_MENU_WIDTH, Shapes::default());
    let (column, row) = (layout.step_menu.x, layout.step_menu.y);
    assert_eq!(pane_at(&layout, column, row), None);
}

/// An extreme AI-pane width squeezes the step-menu to nothing before it
/// ever touches the editor's own 20-column floor — the menu is
/// secondary furniture, the editor is not.
#[test]
fn an_extreme_ai_width_empties_the_step_menu_before_the_editor_floor() {
    let squeezed = panes(120, 26, 30, Some(70), 0, STEP_MENU_WIDTH, Shapes::default());
    assert_eq!(squeezed.step_menu.width, 0);
    assert_eq!(squeezed.editor.width, 20);
}

/// The whole point of the tall shape: the AI pane gains the terminal's
/// rows and the terminal gives up its columns. Nothing else moves — the
/// tree, the editor and the AI pane's own left edge are where they were,
/// so switching shapes never reflows the buffer beside it.
#[test]
fn a_tall_ai_pane_takes_the_height_and_the_terminal_gives_up_the_width() {
    let beside = panes(120, 26, 30, None, 0, 0, Shapes::default());
    let tall = panes(
        120,
        26,
        30,
        None,
        0,
        0,
        Shapes {
            ai: AiPane::Tall,
            ..Shapes::default()
        },
    );
    assert_eq!(tall.ai.height, 26);
    assert_eq!(tall.terminal.width, 120 - tall.ai.width);
    assert_eq!(tall.terminal.right(), tall.ai.x);
    assert_eq!((tall.ai.x, tall.ai.width), (beside.ai.x, beside.ai.width));
    assert_eq!(tall.tree, beside.tree);
    assert_eq!(tall.editor, beside.editor);
    assert_eq!(tall.terminal.height, beside.terminal.height);
}

#[test]
fn a_tall_pane_still_tiles_without_gaps_or_overlap() {
    let layout = panes(
        120,
        26,
        30,
        None,
        0,
        0,
        Shapes {
            ai: AiPane::Tall,
            ..Shapes::default()
        },
    );
    for column in 0..120 {
        for row in 0..26 {
            assert!(
                pane_at(&layout, column, row).is_some(),
                "nothing at {column},{row}"
            );
        }
    }
    // The rows the terminal used to own beside the AI pane are the AI
    // pane's now, and the ones in front of it are still the terminal's.
    assert_eq!(pane_at(&layout, 100, 20), Some(Pane::Ai));
    assert_eq!(pane_at(&layout, 40, 20), Some(Pane::Terminal));
}

/// A dragged width is the width in either shape — going tall must not
/// quietly hand the pane the share it had already been dragged off.
#[test]
fn a_tall_pane_keeps_a_named_width() {
    assert_eq!(
        panes(
            120,
            26,
            30,
            Some(40),
            0,
            0,
            Shapes {
                ai: AiPane::Tall,
                ..Shapes::default()
            }
        )
        .ai
        .width,
        40
    );
}

/// The whole point of the Risk list's shape: it sits beneath the tree at
/// the tree's width, the shell gives up exactly those columns and starts
/// where the editor starts, and nothing above it moves. Pinned to the
/// measured numbers, the way the other panes are.
#[test]
fn the_risk_list_sits_under_the_tree_and_the_shell_gives_up_its_columns() {
    let hidden = panes(120, 26, 30, None, 0, 0, Shapes::default());
    let shown = panes(
        120,
        26,
        30,
        None,
        0,
        0,
        Shapes {
            corner: Corner::Risk,
            ..Shapes::default()
        },
    );
    assert_eq!(
        (hidden.corner.width, hidden.corner.height),
        (0, 8),
        "a hidden pane is zero-sized"
    );
    assert_eq!(
        (hidden.terminal.x, hidden.terminal.width),
        (0, 120),
        "and the shell has the full width"
    );
    assert_eq!(
        (
            shown.corner.x,
            shown.corner.y,
            shown.corner.width,
            shown.corner.height
        ),
        (0, 18, 30, 8)
    );
    assert_eq!((shown.terminal.x, shown.terminal.width), (30, 90));
    assert_eq!(shown.terminal.x, shown.corner.right());
    assert_eq!(shown.corner.width, shown.tree.width);
    assert_eq!(shown.corner.y, shown.tree.bottom());
    // The shell starts where the editor starts, which is what makes the
    // left-hand column read as one column.
    assert_eq!(shown.terminal.x, shown.editor.x);
    // Except while a Story is being walked: the step-menu moves the
    // editor right, and the Risk list stays at the tree's width rather
    // than following it — the pane is the tree's column, and the shell
    // still starts at the Risk list's own right edge.
    let menued = panes(
        120,
        26,
        30,
        None,
        0,
        STEP_MENU_WIDTH,
        Shapes {
            corner: Corner::Risk,
            ..Shapes::default()
        },
    );
    assert_eq!(menued.corner.width, menued.tree.width);
    assert_eq!(menued.terminal.x, menued.corner.right());
    assert_eq!(menued.editor.x, menued.tree.right() + STEP_MENU_WIDTH);
    // Nothing else moves either way: toggling the pane must not reflow the
    // buffer or the child beside it.
    assert_eq!(shown.tree, hidden.tree);
    assert_eq!(shown.editor, hidden.editor);
    assert_eq!(shown.ai, hidden.ai);
    assert_eq!(shown.terminal.y, hidden.terminal.y);
    assert_eq!(shown.terminal.height, hidden.terminal.height);
}

/// Both shapes at once: the AI pane takes the shell's columns from the
/// right and the Risk list from the left, and the shell keeps what is
/// between them.
#[test]
fn a_tall_ai_pane_and_the_risk_list_take_the_shell_from_both_sides() {
    let layout = panes(
        120,
        26,
        30,
        None,
        0,
        0,
        Shapes {
            ai: AiPane::Tall,
            corner: Corner::Risk,
        },
    );
    assert_eq!((layout.corner.x, layout.corner.width), (0, 30));
    assert_eq!((layout.terminal.x, layout.terminal.width), (30, 54));
    assert_eq!(layout.terminal.right(), layout.ai.x);
    assert_eq!(layout.ai.height, 26);
}

/// The floor: a tree as wide as the screen would leave the shell no
/// columns at all, and a pty of zero columns is one vt100 panics on. The
/// Risk list gives way rather than the shell disappearing — and it is the
/// tree's width that can reach this, never the tall AI pane, whose own
/// width is already capped by the editor's 20-column floor.
#[test]
fn the_shell_keeps_a_column_when_the_risk_list_asks_for_everything() {
    for ai in [AiPane::Beside, AiPane::Tall] {
        let layout = panes(
            30,
            26,
            30,
            None,
            0,
            0,
            Shapes {
                ai,
                corner: Corner::Risk,
            },
        );
        assert_eq!(layout.terminal.width, 1, "{ai:?}");
        assert_eq!(layout.corner.width, 29);
        assert_eq!(layout.terminal.x, layout.corner.right());
    }
}

#[test]
fn the_risk_list_is_hit_tested_as_itself_and_never_as_the_tree_or_the_shell() {
    let layout = panes(
        120,
        26,
        30,
        None,
        0,
        0,
        Shapes {
            corner: Corner::Risk,
            ..Shapes::default()
        },
    );
    assert_eq!(pane_at(&layout, 5, 20), Some(Pane::Risk));
    assert_eq!(pane_at(&layout, 5, 5), Some(Pane::Tree));
    assert_eq!(pane_at(&layout, 40, 20), Some(Pane::Terminal));
    // The slot's other occupant: the same rectangle, answered as itself.
    // Which pane is in the corner changes what a click means and never
    // where the corner is, so a click that landed on a Risk row must land
    // on a buffer row at the same cell.
    let buffers = panes(
        120,
        26,
        30,
        None,
        0,
        0,
        Shapes {
            corner: Corner::Buffers,
            ..Shapes::default()
        },
    );
    assert_eq!(buffers.corner, layout.corner);
    assert_eq!(buffers.terminal, layout.terminal);
    assert_eq!(pane_at(&buffers, 5, 20), Some(Pane::Buffers));
    // And the third, which is what "every occupant is the same rectangle"
    // has to keep meaning as the slot grows: a third pane that took a
    // rectangle of its own would be a third set of columns for the shell to
    // lose and a third hit-test to get one row off.
    let history = panes(
        120,
        26,
        30,
        None,
        0,
        0,
        Shapes {
            corner: Corner::History,
            ..Shapes::default()
        },
    );
    assert_eq!(history.corner, layout.corner);
    assert_eq!(history.terminal, layout.terminal);
    assert_eq!(pane_at(&history, 5, 20), Some(Pane::History));
    // Hidden, the same column belongs to the shell again — there is no
    // rectangle left over to swallow a click.
    let hidden = panes(120, 26, 30, None, 0, 0, Shapes::default());
    assert_eq!(pane_at(&hidden, 5, 20), Some(Pane::Terminal));
    for column in 0..120 {
        for row in 0..26 {
            assert!(
                pane_at(&layout, column, row).is_some(),
                "nothing at {column},{row}"
            );
        }
    }
}

#[test]
fn an_inset_box_leaves_the_edges_showing() {
    let box_area = inset(120, 26, 8, 3);
    assert_eq!(
        (box_area.x, box_area.y, box_area.width, box_area.height),
        (8, 3, 104, 20)
    );
}

/// The rectangle the results box is drawn in and the rows of results it
/// leaves room for, pinned together: the clamp counts rows the renderer
/// draws, so a change to either is a change on screen and fails here.
#[test]
fn the_results_box_leaves_room_for_its_query_and_its_borders() {
    let box_area = search_box(100, 16);
    assert_eq!((box_area.y, box_area.height), (3, 10));
    // Ten rows: two borders and three of query above the list.
    assert_eq!(search_hit_rows(100, 16), 5);
    // A terminal too short for a list still asks for no negative rows.
    assert_eq!(search_hit_rows(20, 4), 0);
}

#[test]
fn a_small_terminal_gives_up_the_margin_before_the_box() {
    // 44 columns leaves room for 2 either side, not 8.
    let box_area = inset(44, 12, 8, 3);
    assert_eq!((box_area.x, box_area.width), (2, 40));
    assert_eq!((box_area.y, box_area.height), (1, 10));
    // And below the minimum there is simply no margin.
    let tiny = inset(20, 6, 8, 3);
    assert_eq!((tiny.x, tiny.width, tiny.y, tiny.height), (0, 20, 0, 6));
}

/// A narrow terminal must not panic or produce a negative-width pane.
#[test]
fn absurd_sizes_stay_sane() {
    for (width, height) in [(1u16, 1u16), (10, 3), (40, 6), (0, 0)] {
        for shapes in [
            (Shapes::default()),
            (Shapes {
                corner: Corner::Risk,
                ..Shapes::default()
            }),
            (Shapes {
                ai: AiPane::Tall,
                ..Shapes::default()
            }),
            (Shapes {
                ai: AiPane::Tall,
                corner: Corner::Risk,
            }),
        ] {
            let layout = panes(width, height, 30, None, 6, 0, shapes);
            assert!(layout.ai.right() <= width.max(1) || width == 0);
            assert_eq!(layout.terminal.bottom(), height);
        }
    }
}

/// The strip's columns, which is the whole of what `ui` leaves room for
/// and `mouse` hit-tests. Measured, never counted: `«` is one column and
/// `1.25x` is five, and a count would read the same for a glyph a font
/// draws twice as wide.
#[test]
fn a_right_aligned_strip_is_hit_tested_where_it_is_drawn() {
    let area = Area {
        x: 0,
        y: 0,
        width: 30,
        height: 4,
    };
    let labels: Vec<String> = ["\u{ab}", "\u{25b8}", "1.25x"]
        .iter()
        .map(|label| label.to_string())
        .collect();
    // One space after each, the last landing on the column before the
    // corner: 1 + 1 + 5, plus three spaces.
    assert_eq!(strip_width(&labels), 10);
    assert_eq!(strip_at(area, &labels, 19), Some(0));
    assert_eq!(strip_at(area, &labels, 21), Some(1));
    // The whole of the speed, and neither of the spaces beside it.
    assert_eq!(strip_at(area, &labels, 22), None);
    assert_eq!(strip_at(area, &labels, 23), Some(2));
    assert_eq!(strip_at(area, &labels, 27), Some(2));
    assert_eq!(strip_at(area, &labels, 28), None);
    // The corner is not a control, and neither is anything left of the
    // strip.
    assert_eq!(strip_at(area, &labels, 29), None);
    assert_eq!(strip_at(area, &labels, 18), None);
    // A pane narrower than its own strip has no columns to offer rather
    // than wrapping the strip onto columns nobody pointed at.
    assert_eq!(strip_at(Area { width: 4, ..area }, &labels, 2), None);
}

fn chip(glyph: &str, keys: &'static str) -> varde::Chip {
    varde::Chip {
        action: "a",
        name: "a",
        glyph: glyph.to_string(),
        keys,
        hue: varde::Hue::Plain,
        tone: varde::Tone::Plain,
    }
}

/// Short of room every Chip sheds its keys at once: one column short of
/// the whole strip is a row of bare glyphs, never one Chip with its keys
/// beside one without, and never a Chip cut to fit.
#[test]
fn short_of_room_every_chip_sheds_its_keys_together() {
    let chips = [chip("\u{25ba}", ":pause"), chip("1.25x", ":speed")];
    // " ► :pause " is 10 and " 1.25x :speed " is 14, each with its gap,
    // beside the 34 columns the title keeps.
    let whole = editor_chip_labels(&chips, 60);
    assert_eq!(whole, [" \u{25ba} :pause ", " 1.25x :speed "]);
    assert_eq!(strip_width(&whole), 26);
    let shed = editor_chip_labels(&chips, 59);
    assert_eq!(shed, [" \u{25ba} ", " 1.25x "]);
    assert_eq!(strip_width(&shed), 12);
}

/// The checked layout gives what the plain one gives wherever the strip can
/// be measured, and measures a strip of ASCII labels by their characters.
#[test]
fn transport_labels_lay_out_a_strip_that_can_be_measured() {
    let chips = [chip("\u{25ba}", ":pause"), chip("1.25x", ":speed")];
    assert_eq!(transport_labels(&chips, 60), Some(editor_chip_labels(&chips, 60)));
    assert_eq!(transport_labels(&chips, 59), Some(vec![" \u{25ba} ".to_string(), " 1.25x ".to_string()]));
    assert_eq!(measured_strip(&[" ab ".to_string(), " c ".to_string()]), Some(9));
    assert_eq!(measured_strip(&[]), Some(0));
}

/// A strip wider than a row can count is refused rather than measured wrong.
#[test]
fn a_strip_past_what_a_row_counts_is_not_measured() {
    let wide = "x".repeat(70_000);
    assert_eq!(measured_strip(&[wide.clone()]), None);
    let chips = [chip(&wide, ":pause")];
    assert_eq!(transport_labels(&chips, 60), None);
}
