use std::collections::{BTreeMap, BTreeSet};
use varde::debug::{
    arrange, evaluator_labels, hover_labels, open_evaluator, Arrange,
    add_watch, call_start, clipped, cursor_expression, evaluator_output, expression_at, follow, frames, held,
    hover_chips, hover_span, hovered_rows, joined, list, marks, mentioned, row, row_actions, row_chips,
    selected, strip_transport, transport, evaluator_chips, Mark, CLEAR_ALL, RESTART, RESUME, TOGGLE_OUTPUT,
    REMOVE, SET_VALUE, WATCH, REMOVE_WATCH, paused_line, remove_watch, showing, stale, title, variables, Answer, Breakpoint, Frame,
    Held, Hint, Hovered, Member, Of, Opens, Pause, Phase, Ran, Row, Run, Said, Watch, Why,
};
use varde::Direction::{Down, Left, Up};
use varde::layout::Area;
use varde::{Chip, Hue, Place, Tone};

/// What the Evaluator names where a Hover would name less: the chain the
/// cursor stands in, the groups each name in it carries, and the two shapes
/// that end it early.
#[test]
fn a_cursor_names_the_whole_chain_it_stands_in() {
    let named = |line: &str, column: usize| cursor_expression(None, line, column);
    // On the receiver, and the call at the end of the chain comes too.
    assert_eq!(named("    let n = orders.len();", 17), "orders.len()");
    // Every link of a longer one, from anywhere along it.
    assert_eq!(named("a.b().c[0].d", 1), "a.b().c[0].d");
    assert_eq!(named("a.b().c[0].d", 7), "a.b().c[0].d");
    // A call taking a call is one expression, brackets balanced.
    assert_eq!(named("x.f(g(1)).y", 1), "x.f(g(1)).y");
    // A dot with no name after it ends the chain.
    assert_eq!(named("total.", 1), "total");
    assert_eq!(named("n + 1.5", 1), "n");
    // A group nobody closed is a group there is nothing to take.
    assert_eq!(named("a.b(1", 1), "a.b");
    // A place in no name at all names nothing.
    assert_eq!(named("    let n = 7;", 13), "");
}

/// What the pointer names, branch by branch.
#[test]
fn a_place_names_the_expression_the_syntax_around_it_makes() {
    let named = |line: &str, column: usize| expression_at(line, column);
    // A name, and the receivers a field is read off — however many.
    assert_eq!(named("    let order = load(7);", 9), Some(("order".to_string(), 9)));
    assert_eq!(named("    one.two.three = 1", 13), Some(("one.two.three".to_string(), 5)));
    // The call a name opens, balanced, and the receiver in front of it.
    assert_eq!(named("    delete_order(order.id);", 5), Some(("delete_order(order.id)".to_string(), 5)));
    assert_eq!(named("    let n = a.count(b(c));", 15), Some(("a.count(b(c))".to_string(), 13)));
    // A receiver that is itself a call or an index comes too, closer first.
    assert_eq!(named("    let n = get().total;", 19), Some(("get().total".to_string(), 13)));
    assert_eq!(named("    let n = v[i].total;", 18), Some(("v[i].total".to_string(), 13)));
    assert_eq!(named("    let n = a.b()[0].c;", 22), Some(("a.b()[0].c".to_string(), 13)));
    // A chain broken by something that is not an expression stops there.
    assert_eq!(named("    let n = 1 + .total;", 18), Some(("total".to_string(), 18)));
    // A literal is no expression.
    assert_eq!(named("    let order = load(7);", 22), None);
    // And neither is whitespace, punctuation, or a column past the line.
    assert_eq!(named("    let order = load(7);", 15), None);
    assert_eq!(named("    let order = load(7);", 90), None);
}

/// A Watch typed twice is still one, an empty one is none, and removing past
/// the end removes nothing.
#[test]
fn a_typed_watch_joins_the_watches_once() {
    let mut watches: Vec<Watch> = Vec::new();
    add_watch(&mut watches, "orders.len()".to_string());
    add_watch(&mut watches, "orders.len()".to_string());
    add_watch(&mut watches, String::new());
    assert_eq!(
        watches.iter().map(|watch| watch.expression.as_str()).collect::<Vec<&str>>(),
        ["orders.len()"]
    );
    remove_watch(&mut watches, 5);
    assert_eq!(watches.len(), 1);
    remove_watch(&mut watches, 0);
    assert!(watches.is_empty());
}

/// A member's expression is the path a reader could type.
#[test]
fn an_expression_is_the_path_to_the_member() {
    assert_eq!(joined("", "orders"), "orders");
    assert_eq!(joined("orders", "[0]"), "orders[0]");
    assert_eq!(joined("orders[0]", "id"), "orders[0].id");
}

fn on(line: usize, text: &str) -> Breakpoint {
    Breakpoint {
        file: "/w/a.rs".to_string(),
        line,
        text: text.to_string(),
        stale: false,
    }
}

fn followed(breakpoints: &[Breakpoint], old: &str, new: &str) -> Vec<(usize, String)> {
    let mut breakpoints = breakpoints.to_vec();
    follow(&mut breakpoints, "/w/a.rs", old, new);
    breakpoints.into_iter().map(|breakpoint| (breakpoint.line, breakpoint.text)).collect()
}

/// Nothing above a Breakpoint moves nothing, a line inserted or deleted above
/// carries it, and deleting its own line takes it.
#[test]
fn a_breakpoint_rides_the_lines_above_it_and_dies_with_its_own() {
    let old = "a\nb\nc\nd";
    let both = [on(1, "a"), on(3, "c")];
    assert_eq!(
        followed(&both, old, "a\nnew\nb\nc\nd"),
        [(1, "a".to_string()), (4, "c".to_string())]
    );
    assert_eq!(followed(&both, old, "a\nc\nd"), [(1, "a".to_string()), (2, "c".to_string())]);
    assert_eq!(followed(&both, old, "a\nb\nd"), [(1, "a".to_string())]);
    assert_eq!(
        followed(&both, old, "new\na\nb\nc\nd"),
        [(2, "a".to_string()), (4, "c".to_string())]
    );
}

/// Typing on a Breakpoint's own line is not deleting it: the line is replaced
/// by a line in its place, and its text follows.
#[test]
fn a_line_edited_in_place_keeps_its_breakpoint_and_takes_its_text() {
    assert_eq!(followed(&[on(2, "b")], "a\nb\nc", "a\n    b2\nc"), [(2, "b2".to_string())]);
    // Two lines replaced by one keeps the first and takes the second.
    assert_eq!(
        followed(&[on(2, "b"), on(3, "c")], "a\nb\nc\nd", "a\nx\nd"),
        [(2, "x".to_string())]
    );
}

/// A Stale breakpoint still rides its line, but keeps the text it was
/// remembered with.
#[test]
fn a_stale_breakpoint_moves_but_keeps_its_remembered_text() {
    let stale = Breakpoint {
        stale: true,
        ..on(2, "let limit = 9;")
    };
    let mut breakpoints = vec![stale];
    follow(&mut breakpoints, "/w/a.rs", "a\nb", "new\na\nb");
    assert_eq!(breakpoints[0].line, 3);
    assert_eq!(breakpoints[0].text, "let limit = 9;");
}

#[test]
fn another_files_breakpoints_are_left_alone() {
    let mut breakpoints = vec![Breakpoint {
        file: "/w/b.rs".to_string(),
        ..on(2, "b")
    }];
    follow(&mut breakpoints, "/w/a.rs", "a\nb", "b");
    assert_eq!(breakpoints[0].line, 2);
}

/// The call the Paused line is in, and not the one above it.
#[test]
fn the_call_opens_where_the_block_holding_the_paused_line_opens() {
    let source = "fn a() {\n    let x = 1;\n}\nfn b() {\n    let y = 2;\n}";
    assert_eq!(call_start(source, 5), 4);
}

/// Cut where the screen runs out, which is not where the characters do.
#[test]
fn a_value_is_cut_by_display_width_and_never_by_character_count() {
    assert_eq!(clipped("東京タワー", 5), "東京");
    assert_eq!(clipped("abc", 2), "ab");
}

/// Indentation and nothing else, so a language with no braces answers the
/// same way.
#[test]
fn a_call_in_a_language_without_braces_opens_the_same_way() {
    let source = "def main():\n    total = 0\n    print(total)";
    assert_eq!(call_start(source, 3), 1);
    assert_eq!(call_start("total = 0\nprint(total)", 2), 1);
}

#[test]
fn a_held_line_is_trimmed_and_a_missing_one_is_nothing() {
    assert_eq!(held("a\n   b  \nc", 2), Some("b".to_string()));
    assert_eq!(held("a\nb", 3), None);
    assert_eq!(held("a\nb", 0), None);
}

#[test]
fn hints_and_reasons_say_their_names() {
    assert_eq!(Hint::ReadOnly.as_str(), "read-only");
    assert_eq!(Hint::Lazy.as_str(), "lazy");
    assert_eq!(Why::Exception.as_str(), "exception");
    assert_eq!(Why::Paused.as_str(), "paused");
}

fn member(name: &str, value: &str, reference: i64, indexed: usize) -> Member {
    Member { name: name.to_string(), value: value.to_string(), reference, hint: Hint::Plain, indexed }
}

fn pause_with(open: &[i64]) -> Pause {
    let mut children = BTreeMap::new();
    children.insert(1, vec![member("orders", "Vec(3)", 2, 3), member("total", "12", 0, 0)]);
    children.insert(2, vec![member("[0]", "Order", 3, 0)]);
    children.insert(3, vec![member("id", "7", 0, 0), member("me", "Order", 3, 0)]);
    let mut fetched = BTreeMap::new();
    fetched.insert(2, 1);
    Pause {
        thread: 1,
        why: Why::Paused,
        exception: None,
        frames: vec![Frame { id: 9, name: "main".to_string(), file: Some("src/main.rs".to_string()), line: 4 }],
        chosen: 0,
        scopes: vec![member("Locals", "", 1, 0)],
        children,
        open: open.iter().copied().collect::<BTreeSet<i64>>(),
        fetched,
    }
}

fn names(rows: &[Row]) -> Vec<(String, usize, bool)> {
    rows.iter().map(|row| (row.name.clone(), row.depth, row.open)).collect()
}

#[test]
fn the_variables_are_the_tree_flattened_to_what_is_open() {
    let closed = Some(Phase::Paused(pause_with(&[])));
    assert_eq!(names(&variables(&[], "main.rs", &closed)), vec![("Locals".to_string(), 0, false)]);
    let open = Some(Phase::Paused(pause_with(&[1, 2, 3])));
    let rows = variables(&[], "main.rs", &open);
    assert_eq!(
        names(&rows),
        vec![
            ("Locals".to_string(), 0, true),
            ("orders".to_string(), 1, true),
            ("[0]".to_string(), 2, true),
            ("id".to_string(), 3, false),
            // A member that holds itself is drawn, and never opened again.
            ("me".to_string(), 3, false),
            ("2 more".to_string(), 2, false),
            ("total".to_string(), 1, false),
        ]
    );
    assert_eq!(rows[2].expression, "orders[0]");
    assert_eq!(rows[3].expression, "orders[0].id");
    assert_eq!(rows[0].expression, "");
    assert_eq!(rows[3].parent, 3);
    assert_eq!(rows[1].parent, 1);
    assert_eq!(rows[5].opens, Opens::NextPage { reference: 2, start: 1 });
    assert_eq!(rows[1].opens, Opens::Children { reference: 2, indexed: 3 });
}

#[test]
fn watches_come_first_and_the_exception_before_the_scopes() {
    let mut pause = pause_with(&[]);
    pause.exception = Some("boom".to_string());
    let watches = vec![
        Watch { expression: "a + 1".to_string(), answer: Answer::Value("2".to_string()) },
        Watch { expression: "f(x)".to_string(), answer: Answer::Failed("no frame".to_string()) },
        Watch { expression: "b".to_string(), answer: Answer::Waiting },
    ];
    let rows = variables(&watches, "main.rs", &Some(Phase::Running(Some(pause))));
    assert_eq!(rows.len(), 5);
    assert_eq!((rows[0].name.as_str(), rows[0].value.as_str()), ("a + 1", "2"));
    assert_eq!(rows[0].of, Of::Watch { index: 0, calling: false, failed: false });
    assert_eq!(rows[1].of, Of::Watch { index: 1, calling: true, failed: true });
    assert_eq!(rows[2].value, "");
    assert_eq!((rows[3].name.as_str(), rows[3].value.as_str()), ("exception", "boom"));
    assert_eq!(rows[4].name, "Locals");
    // With nothing on screen only the Watches are drawn.
    assert_eq!(variables(&watches, "main.rs", &None).len(), 3);
    assert_eq!(variables(&watches, "main.rs", &Some(Phase::Running(None))).len(), 3);
}

#[test]
fn what_is_shown_is_this_pause_or_the_last_one() {
    let pause = pause_with(&[]);
    assert!(showing(&Some(Phase::Paused(pause.clone()))).is_some());
    assert!(showing(&Some(Phase::Running(Some(pause.clone())))).is_some());
    assert!(showing(&Some(Phase::Starting)).is_none());
    assert!(stale(&Some(Phase::Running(Some(pause.clone())))));
    assert!(!stale(&Some(Phase::Paused(pause.clone()))));
    assert_eq!(title(true, &None), "stepping");
    assert_eq!(title(false, &Some(Phase::Running(Some(pause.clone())))), "running");
    assert_eq!(title(false, &Some(Phase::Paused(pause.clone()))), "variables");
    assert_eq!(frames(&Some(Phase::Paused(pause.clone()))).len(), 1);
    assert_eq!(frames(&None).len(), 0);
    assert_eq!(paused_line(&Some(Phase::Paused(pause.clone()))), Some(("src/main.rs", 4, Why::Paused)));
    assert_eq!(paused_line(&Some(Phase::Running(Some(pause)))), None);
}

#[test]
fn a_hover_value_opens_as_the_variables_do() {
    let phase = Some(Phase::Paused(pause_with(&[2])));
    let hovered = Hovered {
        expression: "orders".to_string(),
        at: Place { line: 3, column: 5 },
        held: Held::Value { value: "Vec(3)".to_string(), reference: 2, indexed: 3 },
    };
    let rows = hovered_rows(Some(&hovered), &phase);
    assert_eq!(
        names(&rows),
        vec![("orders".to_string(), 0, true), ("[0]".to_string(), 1, false), ("2 more".to_string(), 1, false)]
    );
    // The hovered expression is the head of the tree, and a head has no
    // expression of its own to prefix its children with.
    assert_eq!(rows[1].expression, "[0]");
    let asking = Hovered { held: Held::NeedsEvaluate, ..hovered.clone() };
    assert!(hovered_rows(Some(&asking), &phase).is_empty());
    let waiting = Hovered { held: Held::Waiting, ..hovered };
    assert_eq!(names(&hovered_rows(Some(&waiting), &phase)), vec![("orders".to_string(), 0, false)]);
    assert!(hovered_rows(None, &phase).is_empty());
}

#[test]
fn the_evaluator_output_is_the_prints_then_the_answer() {
    let phase = Some(Phase::Paused(pause_with(&[2])));
    let run = Run {
        ran: "orders".to_string(),
        printed: vec!["hello".to_string()],
        answer: Ran::Value { value: "Vec(3)".to_string(), reference: 2, indexed: 3 },
    };
    let lines = evaluator_output(Some(&run), &phase);
    assert_eq!(lines.len(), 4);
    assert_eq!(lines[0], Said::Printed("hello".to_string()));
    assert!(matches!(&lines[1], Said::Value(row) if row.name == "orders" && row.open));
    let running = Run { answer: Ran::Running(4), ..run.clone() };
    assert_eq!(evaluator_output(Some(&running), &phase), vec![Said::Printed("hello".to_string()), Said::Running]);
    let failed = Run { answer: Ran::Failed("no".to_string()), ..run.clone() };
    assert_eq!(evaluator_output(Some(&failed), &phase)[1], Said::Failed("no".to_string()));
    assert_eq!(evaluator_output(Some(&run), &None).len(), 1);
    assert!(evaluator_output(None, &phase).is_empty());
}

fn paused_in_main() -> Pause {
    let mut children = BTreeMap::new();
    children.insert(1, vec![member("total", "1", 0, 0), member("name", "3", 0, 0)]);
    Pause {
        thread: 1,
        why: Why::Paused,
        exception: None,
        frames: vec![Frame { id: 1, name: "main".to_string(), file: Some("src/main.rs".to_string()), line: 4 }],
        chosen: 0,
        scopes: vec![member("Locals", "", 1, 0)],
        children,
        open: BTreeSet::new(),
        fetched: BTreeMap::new(),
    }
}

const MAIN: &str = "fn main() {\n    let total = 1;\n    let name = total + 2;\n    println!(\"{name}\");\n}";

#[test]
fn inline_values_sit_on_the_lines_the_call_has_run() {
    let phase = Some(Phase::Paused(paused_in_main()));
    let tokens = varde::highlight::plain(MAIN);
    let previous = Some(("main".to_string(), vec![("total".to_string(), "0".to_string()), ("name".to_string(), "3".to_string())]));
    let drawn = varde::debug::inline(&phase, &previous, Some("src/main.rs"), MAIN, &tokens, 40);
    assert_eq!(drawn.keys().copied().collect::<Vec<_>>(), vec![2, 3]);
    assert_eq!(drawn[&2].len(), 1);
    assert_eq!(drawn[&2][0].text, "  total = 1");
    assert!(drawn[&2][0].changed);
    // The second name has no room left on the line, so it is not drawn.
    assert_eq!(drawn[&3].len(), 1);
    assert_eq!((drawn[&3][0].name.as_str(), drawn[&3][0].text.as_str(), drawn[&3][0].changed), ("name", "  name = 3", false));
    // Wider, both fit, each once.
    let wide = varde::debug::inline(&phase, &previous, Some("src/main.rs"), MAIN, &tokens, 80);
    assert_eq!(wide[&3].iter().map(|v| v.name.as_str()).collect::<Vec<_>>(), vec!["name", "total"]);
    // Another file on screen, or no pause, draws nothing.
    assert!(varde::debug::inline(&phase, &previous, Some("src/lib.rs"), MAIN, &tokens, 80).is_empty());
    assert!(varde::debug::inline(&None, &previous, Some("src/main.rs"), MAIN, &tokens, 80).is_empty());
    // A value is marked changed only against the same call's last pause.
    let other = Some(("helper".to_string(), vec![("total".to_string(), "0".to_string())]));
    let unmarked = varde::debug::inline(&phase, &other, Some("src/main.rs"), MAIN, &tokens, 80);
    assert!(unmarked.values().flatten().all(|value| !value.changed));
}

#[test]
fn a_reference_that_holds_itself_is_drawn_once() {
    let mut children = BTreeMap::new();
    children.insert(1, vec![member("itself", "", 1, 0)]);
    let pause = Pause {
        thread: 1,
        why: Why::Paused,
        exception: None,
        frames: Vec::new(),
        chosen: 0,
        scopes: vec![member("Locals", "", 1, 0)],
        children,
        open: [1].into_iter().collect(),
        fetched: BTreeMap::new(),
    };
    let rows: Vec<String> = variables(&[], "main.rs", &Some(Phase::Paused(pause))).into_iter().map(|row| row.name).collect();
    assert_eq!(rows, ["Locals", "itself"]);
}

#[test]
fn only_the_names_the_grammar_left_plain_are_variables() {
    let words = |tokens: &[varde::highlight::Token]| -> Vec<String> {
        mentioned(tokens).into_iter().map(|word| word.into_iter().collect()).collect()
    };
    let tokens = varde::highlight::highlight("main.rs", "    let total = 0; // count");
    assert_eq!(words(&tokens[0]), ["total"]);
    let tokens = varde::highlight::highlight("main.rs", "    let total = \"count\";");
    assert_eq!(words(&tokens[0]), ["total"]);
}

fn breakpoint(file: &str, line: usize, stale: bool) -> Breakpoint {
    Breakpoint { file: file.to_string(), line, text: String::new(), stale }
}

#[test]
fn the_gutter_marks_the_breakpoints_of_the_file_on_screen() {
    let breakpoints = vec![breakpoint("/w/a.rs", 3, false), breakpoint("/w/b.rs", 1, false), breakpoint("/w/a.rs", 7, true)];
    let drawn = marks(&breakpoints, Some("/w/a.rs"));
    assert_eq!(drawn.into_iter().collect::<Vec<_>>(), vec![(3, Mark::Plain), (7, Mark::Stale)]);
    assert!(marks(&breakpoints, None).is_empty());
}

#[test]
fn the_breakpoint_list_runs_by_path_then_line() {
    let breakpoints = vec![
        breakpoint("/w/b.rs", 2, false),
        breakpoint("/w/a.rs", 9, false),
        breakpoint("/w/a.rs", 1, false),
        breakpoint("/w/b.rs", 1, true),
    ];
    let rows: Vec<(String, usize)> = list(&breakpoints).into_iter().map(|b| (b.file.clone(), b.line)).collect();
    assert_eq!(
        rows,
        vec![("/w/a.rs".to_string(), 1), ("/w/a.rs".to_string(), 9), ("/w/b.rs".to_string(), 1), ("/w/b.rs".to_string(), 2)]
    );
    assert_eq!(selected(&breakpoints, 2).map(|b| b.stale), Some(true));
    assert!(selected(&breakpoints, 4).is_none());
    assert_eq!(row_actions(&breakpoints, 0), vec![REMOVE]);
    assert!(row_actions(&breakpoints, 4).is_empty());
}

fn shown(chips: &[Chip]) -> Vec<(&'static str, Tone)> {
    chips.iter().map(|chip| (chip.name, chip.tone)).collect()
}

#[test]
fn clearing_is_dimmed_with_nothing_to_clear() {
    let none = transport(&[]);
    assert_eq!((none[0].action, none[0].tone, none[0].hue), (CLEAR_ALL, Tone::Dimmed, Hue::Halt));
    assert_eq!(transport(&[breakpoint("/w/a.rs", 1, false)])[0].tone, Tone::Plain);
}

#[test]
fn the_transport_is_one_chip_per_action_and_lit_ahead_of_dimmed() {
    let running = Some(Phase::Running(None));
    let chips = strip_transport(&running, Some(RESUME), false, false, false, false);
    assert_eq!(
        shown(&chips),
        vec![
            ("pause", Tone::Lit),
            ("step-over", Tone::Dimmed),
            ("step-into", Tone::Dimmed),
            ("step-out", Tone::Dimmed),
            ("stop", Tone::Plain),
            ("restart", Tone::Dimmed),
            ("ask-ai", Tone::Dimmed),
            ("next-thread", Tone::Dimmed),
        ]
    );
    assert_eq!(chips[0].glyph, "\u{2016}");
    let paused = Some(Phase::Paused(pause_with(&[])));
    let chips = strip_transport(&paused, None, false, true, true, true);
    assert_eq!(chips[0].name, "continue");
    assert_eq!(chips[1].tone, Tone::Plain);
    assert_eq!((chips[8].action, chips[8].name, chips[8].tone), (TOGGLE_OUTPUT, "show-output", Tone::Marked));
    // A session still starting answers neither continue nor pause.
    assert_eq!(strip_transport(&Some(Phase::Starting), None, false, false, false, false)[0].tone, Tone::Dimmed);
    // With the session gone, restart alone, and only with a configuration to rerun.
    let ended = strip_transport(&None, None, true, false, false, false);
    assert_eq!((ended.len(), ended[0].action, ended[0].tone), (1, RESTART, Tone::Plain));
    assert!(strip_transport(&None, None, false, false, false, false).is_empty());
}

#[test]
fn a_row_carries_its_chips_only_while_the_keyboard_is_on_it() {
    let watches = vec![Watch { expression: "a".to_string(), answer: Answer::Value("1".to_string()) }];
    let phase = Some(Phase::Paused(pause_with(&[1])));
    assert!(row_chips(&watches, "main.rs", &phase, 0, true, 1).is_empty());
    let on_watch = row_chips(&watches, "main.rs", &phase, 0, true, 0);
    assert_eq!(on_watch[0].action, SET_VALUE);
    assert_eq!(on_watch[0].tone, Tone::Dimmed, "a Watch has no container to write into");
    assert_eq!(on_watch[2].action, REMOVE_WATCH);
    // Row 1 is the Locals scope: a heading, nothing to watch or write.
    let on_scope = row_chips(&watches, "main.rs", &phase, 1, true, 1);
    assert_eq!(shown(&on_scope)[2], ("watch", Tone::Dimmed));
    // Row 2 is `orders`, a member of Locals.
    let on_member = row_chips(&watches, "main.rs", &phase, 2, true, 2);
    assert_eq!(on_member[2].action, WATCH);
    assert_eq!(shown(&on_member), vec![
        ("set-value", Tone::Plain),
        ("copy", Tone::Plain),
        ("watch", Tone::Plain),
        ("evaluate", Tone::Plain),
        ("ask-ai", Tone::Dimmed),
    ]);
    assert_eq!(row_chips(&watches, "main.rs", &phase, 2, false, 2)[0].tone, Tone::Dimmed);
    assert!(row_chips(&watches, "main.rs", &phase, 9, true, 9).is_empty());
    assert_eq!(row(&watches, "main.rs", &phase, 2).map(|r| r.name), Some("orders".to_string()));
    assert!(row(&watches, "main.rs", &phase, 9).is_none());
}

#[test]
fn the_hover_and_the_evaluator_carry_their_own_chips() {
    let hovered = Hovered {
        expression: "total".to_string(),
        at: Place { line: 2, column: 9 },
        held: Held::Waiting,
    };
    assert_eq!(hover_span(Some(&hovered)), Some((Place { line: 2, column: 9 }, 5)));
    assert_eq!(hover_span(None), None);
    assert_eq!(shown(&hover_chips(Some(&hovered))), vec![("evaluate", Tone::Plain), ("watch", Tone::Plain)]);
    assert!(hover_chips(None).is_empty());
    let paused = Some(Phase::Paused(pause_with(&[])));
    let running = Run { ran: "x".to_string(), printed: Vec::new(), answer: Ran::Running(3) };
    assert_eq!(shown(&evaluator_chips(true, Some(&running), &paused, true)), vec![("run", Tone::Plain), ("cancel", Tone::Plain)]);
    assert_eq!(shown(&evaluator_chips(true, Some(&running), &None, false)), vec![("run", Tone::Dimmed), ("cancel", Tone::Dimmed)]);
    assert!(evaluator_chips(false, None, &paused, true).is_empty());
}

#[test]
fn the_corner_at_rest_is_the_one_held_before_the_session() {
    let resting = varde::debug::resting_corner(Some(varde::layout::Corner::Buffers), varde::layout::Corner::History);
    assert_eq!(resting, varde::layout::Corner::Buffers);
    assert_eq!(varde::debug::resting_corner(None, varde::layout::Corner::History), varde::layout::Corner::History);
}

fn evaluator_over(text: &str) -> varde::debug::Evaluator {
    varde::debug::Evaluator { snippet: varde::editor::Buffer::open(text, false, 4), ran: None, snippet_rows: None, recalled: None }
}

#[test]
fn up_and_down_on_an_empty_snippet_walk_the_snippets_newest_first() {
    let snippets = vec!["a".to_string(), "b".to_string(), "c".to_string()];
    let mut evaluator = Some(evaluator_over(""));
    let shown = |e: &Option<varde::debug::Evaluator>| e.as_ref().map(|e| e.snippet.shown().to_string());
    assert!(varde::debug::recall(&mut evaluator, &snippets, Up));
    assert_eq!(shown(&evaluator), Some("c".to_string()));
    assert!(varde::debug::recall(&mut evaluator, &snippets, Up));
    assert!(varde::debug::recall(&mut evaluator, &snippets, Up));
    assert_eq!(shown(&evaluator), Some("a".to_string()));
    // The oldest is as far as it goes.
    assert!(varde::debug::recall(&mut evaluator, &snippets, Up));
    assert_eq!(evaluator.as_ref().and_then(|e| e.recalled), Some(0));
    assert!(varde::debug::recall(&mut evaluator, &snippets, Down));
    assert!(varde::debug::recall(&mut evaluator, &snippets, Down));
    assert!(varde::debug::recall(&mut evaluator, &snippets, Down));
    assert_eq!(shown(&evaluator), Some("c".to_string()));
    assert!(!varde::debug::recall(&mut evaluator, &snippets, Left));
    // A Snippet somebody is writing keeps its arrows, and so does nothing open.
    let mut writing = Some(evaluator_over("x + 1"));
    assert!(!varde::debug::recall(&mut writing, &snippets, Up));
    let mut fresh = Some(evaluator_over(""));
    assert!(!varde::debug::recall(&mut fresh, &snippets, Down));
    assert!(!varde::debug::recall(&mut None, &snippets, Up));
    assert!(!varde::debug::recall(&mut Some(evaluator_over("")), &[], Up));
}

#[test]
fn a_snippet_is_remembered_once_and_newest_last() {
    let mut snippets = vec!["a".to_string(), "b".to_string()];
    assert!(varde::debug::remember(&mut snippets, "a".to_string()));
    assert_eq!(snippets, vec!["b".to_string(), "a".to_string()]);
    assert!(varde::debug::remember(&mut snippets, "c".to_string()));
    assert_eq!(snippets, vec!["b".to_string(), "a".to_string(), "c".to_string()]);
    assert!(!varde::debug::remember(&mut snippets, String::new()));
    assert_eq!(snippets.len(), 3);
}

#[test]
fn the_paused_row_is_where_the_editor_draws_the_paused_line() {
    let phase = Some(Phase::Paused(pause_with(&[])));
    let editor = varde::layout::Area { x: 0, y: 2, width: 80, height: 20 };
    assert_eq!(varde::debug::paused_row(&phase, Some("src/main.rs"), editor, 0), Some(6));
    assert_eq!(varde::debug::paused_row(&phase, Some("src/main.rs"), editor, 3), Some(3));
    assert_eq!(varde::debug::paused_row(&phase, Some("src/main.rs"), editor, 4), None);
    assert_eq!(varde::debug::paused_row(&phase, Some("src/lib.rs"), editor, 0), None);
    let short = varde::layout::Area { height: 5, ..editor };
    assert_eq!(varde::debug::paused_row(&phase, Some("src/main.rs"), short, 0), None);
    assert_eq!(varde::debug::paused_row(&Some(Phase::Running(Some(pause_with(&[])))), Some("src/main.rs"), editor, 0), None);
}

/// The Hover's and the Evaluator's labels: the Chips' glyphs and keys, padded,
/// while there is room, and the glyphs alone when there is not.
#[test]
fn the_hover_and_the_evaluator_label_their_chips() {
    let hovered = Hovered {
        expression: "total".to_string(),
        at: Place { line: 2, column: 9 },
        held: Held::Waiting,
    };
    assert_eq!(
        hover_labels(Some(&hovered), 40),
        Some(vec![" \u{2261}  ".to_string(), " \u{25c9}  ".to_string()])
    );
    assert_eq!(hover_labels(Some(&hovered), 5), Some(vec![" \u{2261} ".to_string(), " \u{25c9} ".to_string()]));
    assert_eq!(hover_labels(None, 40), Some(Vec::new()));
    let paused = Some(Phase::Paused(pause_with(&[])));
    assert_eq!(
        evaluator_labels(true, None, &paused, false, 40),
        Some(vec![" \u{25b6} \u{21b5} ".to_string(), " \u{2715}  ".to_string()])
    );
    assert_eq!(evaluator_labels(false, None, &paused, false, 40), Some(Vec::new()));
}

/// One cell per key: moved, or sized, never past the top or left edge nor
/// below nothing.
#[test]
fn arranging_moves_or_sizes_the_window_one_cell() {
    let at = Area { x: 0, y: 3, width: 10, height: 1 };
    assert_eq!(arrange(Some(at), Left, Arrange::Moving), Some(at));
    assert_eq!(arrange(Some(at), Up, Arrange::Moving), Some(Area { y: 2, ..at }));
    assert_eq!(arrange(Some(at), varde::Direction::Right, Arrange::Moving), Some(Area { x: 1, ..at }));
    assert_eq!(arrange(Some(at), Down, Arrange::Sizing), Some(Area { height: 2, ..at }));
    assert_eq!(arrange(Some(at), Left, Arrange::Sizing), Some(Area { width: 9, ..at }));
    assert_eq!(arrange(Some(Area { height: 0, ..at }), Up, Arrange::Sizing), Some(Area { height: 0, ..at }));
    assert_eq!(arrange(None, Up, Arrange::Moving), None);
}

/// The Evaluator opens prefilled on the expression, only while a session is
/// on, with nothing run yet.
#[test]
fn the_evaluator_opens_prefilled_and_only_in_a_session() {
    let opened = open_evaluator(true, "total * 2", 4).expect("a session is on");
    assert_eq!(opened.snippet.shown(), "total * 2");
    assert_eq!(opened.ran, None);
    assert_eq!(opened.snippet_rows, None);
    assert_eq!(opened.recalled, None);
    assert_eq!(open_evaluator(false, "total", 4), None);
}
