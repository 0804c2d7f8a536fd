use syntect::easy::ScopeRegionIterator;
use syntect::parsing::{ParseState, ScopeStack};
use varde::highlight::{carried, classify, highlight, plain, scope_kind, tokens_of, Kind, Piece, Token};

const FAMILIES: [(&str, Kind); 15] = [
    ("comment", Kind::Comment),
    ("constant", Kind::Constant),
    ("embedded", Kind::Plain),
    ("entity", Kind::Type),
    ("invalid", Kind::Invalid),
    ("keyword", Kind::Keyword),
    ("markup", Kind::Markup),
    ("meta", Kind::Plain),
    ("punctuation", Kind::Punctuation),
    ("source", Kind::Plain),
    ("storage", Kind::Keyword),
    ("string", Kind::String),
    ("support", Kind::Constant),
    ("text", Kind::Plain),
    ("variable", Kind::Plain),
];

#[test]
fn every_convention_family_maps_to_a_kind() {
    for (family, kind) in FAMILIES {
        assert_eq!(scope_kind(family), kind, "{family}");
    }
}

#[test]
fn the_second_segment_splits_the_families_that_are_two_things() {
    assert_eq!(scope_kind("keyword.operator.assignment"), Kind::Operator);
    assert_eq!(scope_kind("keyword.control"), Kind::Keyword);
    assert_eq!(scope_kind("constant.numeric.integer"), Kind::Number);
    assert_eq!(scope_kind("entity.name.function.rust"), Kind::Function);
    assert_eq!(scope_kind("entity.name.tag.yaml"), Kind::Markup);
    assert_eq!(scope_kind("entity.other.attribute-name"), Kind::Attribute);
    assert_eq!(scope_kind("support.type"), Kind::Type);
    assert_eq!(scope_kind("support.function.builtin"), Kind::Function);
    assert_eq!(scope_kind("variable.annotation"), Kind::Attribute);
    assert_eq!(scope_kind("variable.parameter"), Kind::Property);
    assert_eq!(scope_kind("meta.block"), Kind::Plain);
}

fn token(text: &str, kind: Kind) -> Token {
    Token { text: text.to_string(), kind }
}

#[test]
fn a_plain_source_is_one_token_per_line_and_none_for_an_empty_one() {
    assert_eq!(plain("a b\n\nc"), vec![vec![token("a b", Kind::Plain)], vec![], vec![token("c", Kind::Plain)]]);
}

#[test]
fn an_edit_keeps_the_colours_of_every_line_it_left_alone() {
    let before = highlight("main.rs", "fn a() {}\nlet x = 1;\nfn b() {}");
    let after = carried(before.clone(), "fn a() {}\nlet x = 12;\nlet y = 2;\nfn b() {}");
    assert_eq!(after[0], before[0]);
    assert_eq!(after[1..3], plain("let x = 12;\nlet y = 2;")[..]);
    assert_eq!(after[3], before[2]);
}

#[test]
fn carried_keeps_hand_made_tokens_of_untouched_lines() {
    let before = vec![
        vec![token("fn", Kind::Keyword), token(" a() {}", Kind::Plain)],
        vec![token("let", Kind::Keyword), token(" x = 1;", Kind::Plain)],
        vec![token("fn", Kind::Keyword), token(" b() {}", Kind::Plain)],
    ];
    let after = carried(before.clone(), "fn a() {}\nlet x = 12;\nlet y = 2;\nfn b() {}");
    assert_eq!(after[0], before[0]);
    assert_eq!(after[1..3], plain("let x = 12;\nlet y = 2;")[..]);
    assert_eq!(after[3], before[2]);
}

#[test]
fn carried_tokens_hold_the_text_as_it_is_now() {
    let text = |tokens: &[Vec<Token>]| {
        tokens
            .iter()
            .map(|line| line.iter().map(|token| token.text.as_str()).collect::<String>())
            .collect::<Vec<_>>()
            .join("\n")
    };
    for (before, after) in [
        ("a\nb\nc", "a\nc"),
        ("a\na\na", "a\na"),
        ("a\na", "a\na\na"),
        ("fn a() {}\n", ""),
        ("", "fn a() {}"),
        ("x", "x"),
    ] {
        assert_eq!(text(&carried(highlight("main.rs", before), after)), after, "{before:?} to {after:?}");
        assert_eq!(text(&carried(plain(before), after)), after, "{before:?} to {after:?}");
    }
}

fn kind_of(name: &str, source: &str, needle: &str) -> Kind {
    highlight(name, source)
        .into_iter()
        .flatten()
        .find(|token| token.text.trim() == needle)
        .unwrap_or_else(|| panic!("no token {needle:?} in {source:?}"))
        .kind
}

fn families(name: &str, source: &str) -> Vec<String> {
    let set = two_face::syntax::extra_no_newlines();
    let syntax = set
        .find_syntax_by_extension(name.rsplit_once('.').expect("an extension").1)
        .expect("a known language");
    let mut parse = ParseState::new(syntax);
    let mut seen = Vec::new();
    for line in source.split('\n') {
        let ops = parse.parse_line(line, &set).expect("a parsed line");
        let mut stack = ScopeStack::new();
        for (_, op) in ScopeRegionIterator::new(&ops, line) {
            stack.apply(op).expect("a valid scope operation");
            for scope in &stack.scopes {
                let family = scope.build_string().split('.').next().unwrap_or_default().to_string();
                if !seen.contains(&family) {
                    seen.push(family);
                }
            }
        }
    }
    seen
}

#[test]
fn tokens_are_grouped_by_line() {
    let lines = highlight("a.rs", "let x = 1;\n\n/* note\n   still */");
    let text: Vec<String> = lines
        .iter()
        .map(|tokens| tokens.iter().map(|token| token.text.as_str()).collect())
        .collect();
    assert_eq!(text, ["let x = 1;", "", "/* note", "   still */"]);
    assert_eq!(lines[1], Vec::new());
    assert_eq!(lines[3][0].kind, Kind::Comment, "{:?}", lines[3]);
}

#[test]
fn storage_words_count_as_keywords() {
    assert_eq!(kind_of("a.rs", "let x = 1;", "let"), Kind::Keyword);
    assert_eq!(kind_of("a.rs", "fn main() {}", "fn"), Kind::Keyword);
}

#[test]
fn a_string_arrives_whole_including_its_quotes() {
    assert_eq!(kind_of("a.rs", "let s = \"hi\";", "\"hi\""), Kind::String);
}

#[test]
fn numbers_are_not_keywords() {
    assert_eq!(kind_of("a.rs", "let x = 42;", "42"), Kind::Number);
}

#[test]
fn a_language_name_works_as_well_as_a_file_name() {
    assert_eq!(kind_of("rust", "fn main() {}", "fn"), Kind::Keyword);
}

#[test]
fn an_unknown_language_name_renders_as_plain() {
    let tokens = highlight("not-a-real-language", "fn main() {}");
    assert!(tokens.iter().flatten().all(|token| token.kind == Kind::Plain), "{tokens:?}");
    assert_eq!(tokens, plain("fn main() {}"));
}

#[test]
fn operators_are_not_keywords() {
    assert_eq!(kind_of("a.rs", "let x = 1 + 2;", "="), Kind::Operator);
    assert_eq!(kind_of("a.rs", "let x = 1 + 2;", "+"), Kind::Operator);
}

#[test]
fn assignment_arithmetic_and_comparison_operators_in_two_languages() {
    for (name, source) in [("a.rs", "if a == b { c += 1; }"), ("a.js", "if (a === b) { c += 1; }")] {
        assert_eq!(kind_of(name, source, "if"), Kind::Keyword, "{name}");
        assert_eq!(kind_of(name, source, "+="), Kind::Operator, "{name}");
        let comparison = if name.ends_with(".rs") { "==" } else { "===" };
        assert_eq!(kind_of(name, source, comparison), Kind::Operator, "{name}");
    }
}

#[test]
fn no_grammar_produces_a_family_the_table_does_not_name() {
    let corpus = [
        ("a.rs", "#[derive(Debug)]\nfn f(x: u8) -> Vec<String> { let s = \"hi\"; }"),
        ("a.js", "// note\nconfig.debug = false;\nfunction f(a) { return a + 1; }"),
        ("a.py", "def f(a, b): return None"),
        ("a.go", "x := 09"),
        ("a.java", "@Override public class A { }"),
        ("a.css", "a { color: red; }"),
        ("a.yaml", "key: value"),
        ("index.html", "<div class=\"a\">hi</div>"),
        ("README.md", "A **bold** word."),
    ];
    for (name, source) in corpus {
        for family in families(name, source) {
            assert!(
                FAMILIES.iter().any(|(known, _)| *known == family),
                "{name} produced the unhandled family {family:?}"
            );
        }
    }
}

#[test]
fn a_function_call_is_a_function() {
    assert_eq!(kind_of("a.rs", "let n = compute(1);", "compute"), Kind::Function);
}

#[test]
fn language_literals_are_constants_and_numbers_stay_numbers() {
    assert_eq!(kind_of("a.rs", "let ok = true;", "true"), Kind::Constant);
    assert_eq!(kind_of("a.js", "const ok = false;", "false"), Kind::Constant);
    assert_eq!(kind_of("a.py", "x = None", "None"), Kind::Constant);
    assert_eq!(kind_of("a.rs", "let x = 42;", "42"), Kind::Number);
}

#[test]
fn punctuation_is_the_weakest_kind() {
    let source = "let point: Pair = make(1, 2);";
    assert_eq!(kind_of("a.rs", source, ":"), Kind::Punctuation);
    assert_eq!(kind_of("a.rs", source, ","), Kind::Punctuation);
    assert_eq!(kind_of("a.rs", "let s = \"hi\";", "\"hi\""), Kind::String);
    assert_eq!(kind_of("a.rs", "// a note", "// a note"), Kind::Comment);
    assert_eq!(kind_of("README.md", "A **bold** word.", "**bold**"), Kind::Markup);
}

#[test]
fn an_annotation_is_an_attribute() {
    assert_eq!(kind_of("a.rs", "#[derive(Debug)]", "derive"), Kind::Attribute);
    assert_eq!(kind_of("a.java", "@Override public class A { }", "Override"), Kind::Attribute);
}

#[test]
fn a_tag_is_markup_and_its_attribute_name_is_an_attribute() {
    let source = "<div class=\"a\">hi</div>";
    assert_eq!(kind_of("index.html", source, "div"), Kind::Markup);
    assert_eq!(kind_of("index.html", source, "class"), Kind::Attribute);
}

#[test]
fn a_mapping_key_is_markup() {
    assert_eq!(kind_of("a.yaml", "key: value", "key"), Kind::Markup);
}

#[test]
fn the_extended_set_colours_the_languages_the_default_set_missed() {
    let corpus = [
        ("a.ts", "const total: number = add(1, 2);", "const", Kind::Keyword),
        ("a.tsx", "const el = <Box name=\"a\" />;", "name", Kind::Attribute),
        ("a.jsx", "const el = <Box name=\"a\" />;", "name", Kind::Attribute),
        ("A.vue", "<template><div class=\"a\">hi</div></template>", "class", Kind::Attribute),
        ("A.svelte", "<script>let n = 1;</script>", "let", Kind::Keyword),
        ("A.kt", "fun main() { val n = 1 }", "fun", Kind::Keyword),
        ("A.swift", "func main() { let n = 1 }", "func", Kind::Keyword),
        ("a.zig", "const std = @import(\"std\");", "\"std\"", Kind::String),
        ("a.dart", "void main() { var n = 1; }", "main", Kind::Function),
        ("config.toml", "theme = \"dark\"", "theme", Kind::Markup),
        ("main.tf", "resource \"aws_s3_bucket\" \"b\" {}", "resource", Kind::Keyword),
        ("default.nix", "{ pkgs }: pkgs.hello", "pkgs", Kind::Property),
        ("a.ex", "defmodule A do end", "defmodule", Kind::Keyword),
        ("a.proto", "message A { string name = 1; }", "message", Kind::Keyword),
        ("Dockerfile", "FROM alpine:3.19", "FROM", Kind::Keyword),
        ("a.graphql", "type Query { name: String }", "Query", Kind::Type),
        ("a.scss", "$c: red; a { color: $c; }", "red", Kind::Constant),
        ("typescript", "const total: number = f();", "number", Kind::Type),
        ("toml", "theme = \"dark\"", "\"dark\"", Kind::String),
    ];
    for (name, source, anchor, kind) in corpus {
        assert_eq!(kind_of(name, source, anchor), kind, "{name}");
    }
}

#[test]
fn a_stack_is_classified_innermost_first_with_punctuation_weakest() {
    let names = |v: &[&str]| v.iter().map(|s| s.to_string()).collect::<Vec<String>>();
    assert_eq!(classify(&names(&["source.rust", "string.quoted", "punctuation.definition.string"])), Kind::String);
    assert_eq!(classify(&names(&["source.rust", "meta.group", "punctuation.separator"])), Kind::Punctuation);
    assert_eq!(classify(&names(&["source.rust", "meta.block"])), Kind::Plain);
    assert_eq!(classify(&names(&[])), Kind::Plain);
}

#[test]
fn an_empty_source_under_a_grammar_colours_nothing() {
    let lines = highlight("a.rs", "");
    assert_eq!(lines.len(), 1);
    assert!(lines[0].iter().all(|token| token.kind == Kind::Plain));
    let text: String = lines[0].iter().map(|token| token.text.as_str()).collect();
    assert_eq!(text, "");
}

#[test]
fn a_line_is_its_pieces_merged_by_the_kind_of_their_scopes() {
    let scopes = |names: &[&str]| Some(names.iter().map(|n| n.to_string()).collect::<Vec<String>>());
    let pieces = vec![
        Piece { text: "let".to_string(), scopes: scopes(&["source.rust", "storage.type.rust"]) },
        Piece { text: " ".to_string(), scopes: scopes(&["source.rust"]) },
        Piece { text: "x".to_string(), scopes: scopes(&["source.rust"]) },
        Piece { text: "".to_string(), scopes: scopes(&["source.rust", "keyword.operator"]) },
        Piece { text: "=".to_string(), scopes: None },
        Piece { text: "\"a".to_string(), scopes: scopes(&["string.quoted", "punctuation.definition.string"]) },
        Piece { text: "b\"".to_string(), scopes: scopes(&["string.quoted"]) },
    ];
    assert_eq!(
        tokens_of(&pieces),
        vec![token("let", Kind::Keyword), token(" x", Kind::Plain), token("\"ab\"", Kind::String)]
    );
}

/// A name with no extension and no grammar of its own renders plain.
#[test]
fn a_name_no_grammar_claims_renders_plain() {
    assert_eq!(highlight("LICENSE", "MIT License\n\nCopyright"), plain("MIT License\n\nCopyright"));
}

/// A string opened on one line is still a string on the next: the parse runs
/// on from line to line.
#[test]
fn a_string_opened_above_colours_the_line_under_it() {
    let lines = highlight("a.py", "x = \"\"\"one\ntwo\"\"\"");
    assert_eq!(lines.len(), 2);
    assert_eq!(lines[1][0].text, "two\"\"\"");
    assert_eq!(lines[1][0].kind, Kind::String, "{:?}", lines[1]);
}
