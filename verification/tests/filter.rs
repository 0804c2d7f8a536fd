use varde::filter::{best, rank, score, view_state};

fn narrowed_by(needle: &str, files: &[&str]) -> Vec<String> {
    let indexed: Vec<String> = files.iter().map(|path| path.to_string()).collect();
    varde::filter::matches(needle, &indexed)
}

/// Case must not decide the class of a match: typed in the wrong case, a
/// literal match still counts as one.
#[test]
fn a_literal_match_is_literal_in_any_case() {
    assert_eq!(
        narrowed_by("TODO.md", &["docs/todo.md", "notes/the-old-story.md"]),
        vec!["docs/todo.md".to_string()]
    );
}

#[test]
fn adjacent_characters_score_higher_than_scattered_ones() {
    // "ab" adjacent in "ab": 8 points, less an eighth of two bytes.
    assert_eq!(score("ab", "ab"), Some(8));
    // Scattered by two: the gap is taken off.
    assert_eq!(score("ab", "axb"), Some(-2));
    assert_eq!(score("", "anything"), Some(0));
    assert_eq!(score("z", "abc"), None);
    // The length of the haystack costs an eighth of its bytes.
    assert_eq!(score("a", "abcdefghijklmnop"), Some(-2));
}

#[test]
fn the_file_name_decides_the_rank() {
    // Matching the name earns twelve, starting it twelve more.
    assert_eq!(rank("tr", "src/tree.rs"), Some((true, 8 + 24)));
    // Only findable by its directory: the path's own score, as a directory match.
    assert_eq!(rank("src", "src/a.rs"), score("src", "src/a.rs").map(|points| (false, points)));
    assert_eq!(rank("q", "src/a.rs"), None);
}

#[test]
fn a_directory_match_never_ranks_above_a_name_match() {
    // The directory spells the needle closely, the name only scattered.
    assert_eq!(score("abcd", "abxcd/z"), Some(14));
    assert_eq!(rank("abcd", "abxcd/z"), Some((false, 14)));
    assert_eq!(rank("abcd", "z/axbxcxd"), Some((true, 6)));
    assert!(rank("abcd", "z/axbxcxd") > rank("abcd", "abxcd/z"));
    assert_eq!(
        narrowed_by("abcd", &["abxcd/z", "z/axbxcxd"]),
        vec!["z/axbxcxd".to_string(), "abxcd/z".to_string()]
    );
}

#[test]
fn fuzzy_stands_alone_only_when_nothing_is_literal() {
    assert_eq!(narrowed_by("ftr", &["file_tree.rs", "README.md"]), vec!["file_tree.rs".to_string()]);
    assert_eq!(narrowed_by("", &["a.rs"]), Vec::<String>::new());
    let indexed = vec!["docs/todo.md".to_string()];
    assert_eq!(best("todo", &indexed), Some("docs/todo.md".to_string()));
    assert_eq!(view_state("", &indexed), "unfiltered");
    assert_eq!(view_state("qqq", &indexed), "no-matches");
    assert_eq!(view_state("todo", &indexed), "matches");
}
