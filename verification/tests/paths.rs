use edit_rename::ancestor::get_ancestor;
use edit_rename::collector::{collect, reads_stdin};
use edit_rename::error::RenameError;
use edit_rename::text::{byte_len, compare, Rank};

fn strings(items: &[&str]) -> Vec<String> {
    items.iter().map(|s| s.to_string()).collect()
}

#[test]
fn ancestor_of_nested_file() {
    assert_eq!(get_ancestor("foo/bar.txt"), Some("foo"));
    assert_eq!(get_ancestor("a/b/c"), Some("a/b"));
}

#[test]
fn ancestor_of_bare_name_is_none() {
    assert_eq!(get_ancestor("foo"), None);
    assert_eq!(get_ancestor(""), None);
}

#[test]
fn ancestor_ignores_one_trailing_separator() {
    assert_eq!(get_ancestor("foo/"), None);
    assert_eq!(get_ancestor("a/b/"), Some("a"));
    assert_eq!(get_ancestor("foo//"), Some("foo"));
    assert_eq!(get_ancestor("/"), None);
    assert_eq!(get_ancestor("//"), Some(""));
}

#[test]
fn ancestor_of_rooted_path_is_empty() {
    assert_eq!(get_ancestor("/foo"), Some(""));
    assert_eq!(get_ancestor("/foo/bar"), Some("/foo"));
}

#[test]
fn ancestor_counts_characters_not_bytes() {
    assert_eq!(get_ancestor("é/ü"), Some("é"));
    assert_eq!(get_ancestor("日本/語/"), Some("日本"));
    assert_eq!(get_ancestor("日本語"), None);
}

#[test]
fn ancestor_agrees_with_strip_and_split() {
    let samples = [
        "", "/", "//", "///", "a", "a/", "a//", "/a", "/a/", "a/b", "a/b/", "a//b", "ä/ö/ü",
        "x/y/z/", "no separator", "dir/file.txt",
    ];
    for p in samples {
        let expected = p.strip_suffix('/').unwrap_or(p).rsplit_once('/').map(|(stem, _)| stem);
        assert_eq!(get_ancestor(p), expected, "path {p:?}");
    }
}

#[test]
fn compare_orders_by_first_difference() {
    assert_eq!(compare("a", "b"), Rank::Before);
    assert_eq!(compare("b", "a"), Rank::After);
    assert_eq!(compare("abc", "abd"), Rank::Before);
    assert_eq!(compare("same", "same"), Rank::Same);
    assert_eq!(compare("", ""), Rank::Same);
}

#[test]
fn compare_puts_prefix_first() {
    assert_eq!(compare("dir", "dir/c.txt"), Rank::Before);
    assert_eq!(compare("dir/c.txt", "dir"), Rank::After);
    assert_eq!(compare("", "a"), Rank::Before);
}

#[test]
fn compare_is_case_sensitive_and_unnormalised() {
    assert_eq!(compare("B", "a"), Rank::Before);
    assert_eq!(compare("e\u{301}", "\u{e9}"), Rank::Before);
}

#[test]
fn compare_agrees_with_byte_order() {
    let samples = [
        "", "a", "A", "ab", "b", "é", "z", "\u{7f}", "\u{80}", "\u{7ff}", "\u{800}", "\u{ffff}",
        "\u{10000}", "\u{10ffff}", "a/b", "a-b", "a.b", "a b", "日本語", "日本",
    ];
    for x in samples {
        for y in samples {
            let expected = if x < y {
                Rank::Before
            } else if x == y {
                Rank::Same
            } else {
                Rank::After
            };
            assert_eq!(compare(x, y), expected, "{x:?} against {y:?}");
        }
    }
}

#[test]
fn byte_len_counts_bytes() {
    assert_eq!(byte_len(""), 0);
    assert_eq!(byte_len("abc"), 3);
    assert_eq!(byte_len("é"), 2);
    assert_eq!(byte_len("日本語"), 9);
}

#[test]
fn collect_sorts_and_drops_repeats() {
    let list = collect(&strings(&["b", "a", "b", "c/d", "a"])).unwrap();
    assert_eq!(list.paths(), &strings(&["a", "b", "c/d"]));
    assert_eq!(list.len(), 3);
}

#[test]
fn collect_refuses_no_paths() {
    assert!(matches!(collect(&Vec::new()), Err(RenameError::EmptyInput)));
}

#[test]
fn collect_keeps_single_path() {
    let list = collect(&strings(&["only"])).unwrap();
    assert_eq!(list.paths(), &strings(&["only"]));
}

#[test]
fn collect_ignores_order_and_repeats() {
    let first = collect(&strings(&["x/1", "b", "a", "x", "b"])).unwrap();
    let second = collect(&strings(&["a", "x", "x/1", "b", "x", "x", "a"])).unwrap();
    assert_eq!(first.paths(), second.paths());
    assert_eq!(first.paths(), &strings(&["a", "b", "x", "x/1"]));
}

#[test]
fn collect_agrees_with_ordered_set() {
    let raw = strings(&[
        "zeta", "alpha", "dir/b", "dir/a", "dir", "alpha", "Zeta", "é", "e", "dir/", "dir/a",
        "10", "9", "",
    ]);
    let expected: Vec<String> =
        raw.iter().cloned().collect::<std::collections::BTreeSet<_>>().into_iter().collect();
    let list = collect(&raw).unwrap();
    assert_eq!(list.paths(), &expected);
}

#[test]
fn collect_output_is_strictly_ascending() {
    let list = collect(&strings(&["c", "a", "b", "a", "c", "b", "d"])).unwrap();
    let paths = list.paths();
    for pair in paths.windows(2) {
        assert!(pair[0] < pair[1]);
    }
}

#[test]
fn single_dash_asks_for_stdin() {
    assert!(reads_stdin(&strings(&["-"])));
}

#[test]
fn other_arguments_do_not_ask_for_stdin() {
    assert!(!reads_stdin(&strings(&[])));
    assert!(!reads_stdin(&strings(&["-", "-"])));
    assert!(!reads_stdin(&strings(&["a"])));
    assert!(!reads_stdin(&strings(&["--"])));
    assert!(!reads_stdin(&strings(&["-", "a"])));
}
