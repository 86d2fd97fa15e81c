use edit_rename::collector::{collect, PathList};
use edit_rename::error::{AncestorConflict, ConflictReport, DuplicateTarget, RenameError};
use edit_rename::executor::{render_line, widest, RenameStep};
use edit_rename::listing::{parse_listing, render_listing};
use edit_rename::renamed::{compare_pairs, RenamedParents};
use edit_rename::report::push_decimal;
use edit_rename::targets::{copy_paths, TargetIndex};
use edit_rename::text::Rank;
use edit_rename::validator::validate;

fn names(items: &[&str]) -> Vec<String> {
    items.iter().map(|s| s.to_string()).collect()
}

fn list_of(items: &[&str]) -> PathList {
    collect(&names(items)).unwrap()
}

fn duplicate(target: &str, sources: &[&str]) -> DuplicateTarget {
    DuplicateTarget { target: target.to_string(), sources: names(sources) }
}

fn renamed(before: &str, after: &str) -> AncestorConflict {
    AncestorConflict { before: before.to_string(), after: after.to_string() }
}

fn step(from: &str, to: &str, line: &str, apply: bool) -> RenameStep {
    RenameStep { from: from.to_string(), to: to.to_string(), line: line.to_string(), apply }
}

fn conflicts(before: &[&str], after: &[&str]) -> ConflictReport {
    match validate(&list_of(before), &names(after)) {
        Err(RenameError::Conflicts(report)) => report,
        other => panic!("expected conflicts, got {other:?}"),
    }
}

#[test]
fn unedited_listing_is_a_no_op() {
    let list = list_of(&["a.txt", "b.txt", "dir/c.txt"]);
    let edited = parse_listing(&render_listing(&list));
    let plan = validate(&list, &edited).unwrap();
    assert_eq!(plan.schedule(false), Vec::new());
    assert_eq!(plan.schedule(true), Vec::new());
}

#[test]
fn count_mismatch_reports_both_counts() {
    let list = list_of(&["a", "b", "c"]);
    let edited = parse_listing("// header\n\na\nb\n");
    let error = validate(&list, &edited).unwrap_err();
    assert_eq!(error, RenameError::CountMismatch { before: 3, after: 2 });
    assert_eq!(error.lines(), names(&["had 3 path(s) before, but 2 path(s) after"]));
}

#[test]
fn count_mismatch_comes_before_other_checks() {
    let list = list_of(&["foo/a", "foo/b"]);
    let error = validate(&list, &names(&["x/a", "x/a", "x/a"])).unwrap_err();
    assert_eq!(error, RenameError::CountMismatch { before: 2, after: 3 });
}

#[test]
fn duplicate_target_names_all_claimants() {
    let report = conflicts(&["a.txt", "b.txt"], &["x.txt", "x.txt"]);
    assert_eq!(report.duplicates, vec![duplicate("x.txt", &["a.txt", "b.txt"])]);
    assert_eq!(report.ancestors, Vec::new());
    assert_eq!(
        report.lines(),
        names(&["duplicate renames:", "-> x.txt", "<- a.txt", "<- b.txt", ""])
    );
}

#[test]
fn duplicate_targets_are_all_reported_in_order() {
    let report = conflicts(&["a", "b", "c", "d", "e", "f"], &["z", "y", "z", "k", "y", "z"]);
    assert_eq!(
        report.duplicates,
        vec![duplicate("y", &["b", "e"]), duplicate("z", &["a", "c", "f"])]
    );
    assert_eq!(
        report.lines(),
        names(&[
            "duplicate renames:",
            "-> y",
            "<- b",
            "<- e",
            "",
            "-> z",
            "<- a",
            "<- c",
            "<- f",
            "",
        ])
    );
}

#[test]
fn renaming_onto_an_unchanged_entry_is_a_duplicate() {
    let report = conflicts(&["a", "b"], &["b", "b"]);
    assert_eq!(report.duplicates, vec![duplicate("b", &["a", "b"])]);
}

#[test]
fn ancestor_conflict_is_reported() {
    let report = conflicts(&["foo/bar.txt", "foo/baz.txt"], &["qux/bar.txt", "foo/baz.txt"]);
    assert_eq!(report.duplicates, Vec::new());
    assert_eq!(report.ancestors, vec![renamed("foo", "qux")]);
    assert_eq!(report.lines(), names(&["inline renamed ancestors:", "foo -> qux"]));
}

#[test]
fn ancestor_conflicts_are_distinct_sorted_and_aligned() {
    let report = conflicts(
        &["a/1", "a/2", "long/dir/x", "long/dir/y", "m/k"],
        &["b/1", "b/2", "long/other/x", "elsewhere/y", "m/k2"],
    );
    assert_eq!(
        report.ancestors,
        vec![renamed("a", "b"), renamed("long/dir", "elsewhere"), renamed("long/dir", "long/other")]
    );
    assert_eq!(
        report.lines(),
        names(&[
            "inline renamed ancestors:",
            "a        -> b",
            "long/dir -> elsewhere",
            "long/dir -> long/other",
        ])
    );
}

#[test]
fn path_without_separator_is_exempt() {
    let list = list_of(&["bar.txt", "foo/baz.txt"]);
    assert!(validate(&list, &names(&["qux/bar.txt", "baz.txt"])).is_ok());
}

#[test]
fn trailing_separator_is_set_aside_for_the_parent() {
    let list = list_of(&["foo/bar/"]);
    assert!(validate(&list, &names(&["foo/qux"])).is_ok());
    let report = conflicts(&["foo/bar/"], &["fob/bar/"]);
    assert_eq!(report.ancestors, vec![renamed("foo", "fob")]);
}

#[test]
fn both_kinds_of_conflict_are_collected() {
    let report = conflicts(&["d/a", "d/b", "e"], &["x/c", "x/c", "e"]);
    assert_eq!(report.duplicates, vec![duplicate("x/c", &["d/a", "d/b"])]);
    assert_eq!(report.ancestors, vec![renamed("d", "x")]);
    assert_eq!(
        report.lines(),
        names(&[
            "duplicate renames:",
            "-> x/c",
            "<- d/a",
            "<- d/b",
            "",
            "inline renamed ancestors:",
            "d -> x",
        ])
    );
    assert!(!report.is_empty());
}

#[test]
fn swap_free_rename_runs_deepest_first() {
    let list = list_of(&["a.txt", "b.txt", "dir/c.txt"]);
    let plan = validate(&list, &names(&["a2.txt", "b.txt", "dir/c2.txt"])).unwrap();
    assert_eq!(
        plan.schedule(false),
        vec![
            step("dir/c.txt", "dir/c2.txt", "dir/c.txt -> dir/c2.txt", true),
            step("a.txt", "a2.txt", "a.txt     -> a2.txt", true),
        ]
    );
}

#[test]
fn lines_of_the_three_path_example() {
    assert_eq!(widest(&names(&["a.txt", "b.txt", "dir/c.txt"])), 9);
    assert_eq!(render_line("dir/c.txt", "dir2/c.txt", 9), "dir/c.txt -> dir2/c.txt");
    assert_eq!(render_line("a.txt", "a2.txt", 9), "a.txt     -> a2.txt");
}

#[test]
fn renamed_directory_entry_is_rejected_not_scheduled() {
    let list = list_of(&["a.txt", "b.txt", "dir/c.txt"]);
    let error = validate(&list, &names(&["a2.txt", "b.txt", "dir2/c.txt"])).unwrap_err();
    assert_eq!(
        error,
        RenameError::Conflicts(ConflictReport {
            duplicates: Vec::new(),
            ancestors: vec![renamed("dir", "dir2")],
        })
    );
}

#[test]
fn dry_run_reports_the_same_and_applies_nothing() {
    let list = list_of(&["a.txt", "b.txt", "dir/c.txt"]);
    let plan = validate(&list, &names(&["a2.txt", "b.txt", "dir/c2.txt"])).unwrap();
    let dry = plan.schedule(true);
    let run = plan.schedule(false);
    assert_eq!(dry.len(), run.len());
    for (d, r) in dry.iter().zip(run.iter()) {
        assert_eq!(d.from, r.from);
        assert_eq!(d.to, r.to);
        assert_eq!(d.line, r.line);
        assert!(!d.apply);
        assert!(r.apply);
    }
}

#[test]
fn dry_run_validates_alike() {
    let list = list_of(&["foo/bar.txt", "foo/baz.txt"]);
    let edited = names(&["qux/bar.txt", "foo/baz.txt"]);
    assert_eq!(validate(&list, &edited).unwrap_err(), validate(&list, &edited).unwrap_err());
}

#[test]
fn swap_passes_validation() {
    let list = list_of(&["a", "b"]);
    let plan = validate(&list, &names(&["b", "a"])).unwrap();
    assert_eq!(
        plan.schedule(false),
        vec![step("b", "a", "b -> a", true), step("a", "b", "a -> b", true)]
    );
}

#[test]
fn plan_keeps_the_pairing() {
    let list = list_of(&["b", "a"]);
    let plan = validate(&list, &names(&["x", "y"])).unwrap();
    assert_eq!(plan.originals(), &names(&["a", "b"]));
    assert_eq!(plan.targets(), &names(&["x", "y"]));
}

#[test]
fn lines_are_aligned_to_the_widest_original() {
    let list = list_of(&["a", "long-name", "mid"]);
    let plan = validate(&list, &names(&["a", "l", "m"])).unwrap();
    assert_eq!(
        plan.schedule(true),
        vec![
            step("mid", "m", "mid       -> m", false),
            step("long-name", "l", "long-name -> l", false),
        ]
    );
}

#[test]
fn width_is_in_bytes_and_fill_in_characters() {
    assert_eq!(widest(&names(&["ééé", "abcd"])), 6);
    assert_eq!(render_line("ééé", "x", 6), "ééé    -> x");
    assert_eq!(render_line("abcd", "y", 6), "abcd   -> y");
}

#[test]
fn line_is_not_cut_where_pad_is_short() {
    assert_eq!(render_line("abcdef", "g", 3), "abcdef -> g");
    assert_eq!(render_line("abc", "g", 3), "abc -> g");
    assert_eq!(render_line("", "", 0), " -> ");
    assert_eq!(render_line("", "x", 2), "   -> x");
}

#[test]
fn widest_of_nothing_is_zero() {
    assert_eq!(widest(&Vec::new()), 0);
    assert_eq!(widest(&names(&["", "ab", "a"])), 2);
}

#[test]
fn empty_input_has_its_line() {
    assert_eq!(RenameError::EmptyInput.lines(), names(&["no files provided on stdin"]));
}

#[test]
fn empty_report_has_no_lines() {
    let report = ConflictReport { duplicates: Vec::new(), ancestors: Vec::new() };
    assert!(report.is_empty());
    assert_eq!(report.lines(), Vec::<String>::new());
}

#[test]
fn decimal_digits_are_exact() {
    for n in [0usize, 1, 9, 10, 11, 99, 100, 101, 12345, 1_000_000, usize::MAX] {
        let mut line = String::from("n=");
        push_decimal(&mut line, n);
        assert_eq!(line, format!("n={n}"));
    }
}

#[test]
fn count_mismatch_line_has_large_counts() {
    let error = RenameError::CountMismatch { before: 1205, after: 0 };
    assert_eq!(error.lines(), names(&["had 1205 path(s) before, but 0 path(s) after"]));
}

#[test]
fn target_index_gathers_claimants() {
    let index = TargetIndex::new()
        .claim("a", "t")
        .claim("b", "s")
        .claim("c", "t")
        .claim("d", "r")
        .claim("e", "s")
        .claim("f", "t");
    assert_eq!(
        index.duplicates(),
        vec![duplicate("s", &["b", "e"]), duplicate("t", &["a", "c", "f"])]
    );
    assert_eq!(TargetIndex::new().duplicates(), Vec::new());
    assert_eq!(TargetIndex::new().claim("a", "b").duplicates(), Vec::new());
}

#[test]
fn renamed_parents_are_a_sorted_set() {
    let seen = RenamedParents::new()
        .note("z/1", "y/1")
        .note("plain", "other")
        .note("a/1", "b/1")
        .note("z/2", "y/2")
        .note("a/2", "a/3")
        .note("a/4", "0/4")
        .note("k", "j/k");
    assert_eq!(seen.conflicts(), vec![renamed("a", "0"), renamed("a", "b"), renamed("z", "y")]);
    assert_eq!(RenamedParents::new().conflicts(), Vec::new());
}

#[test]
fn pairs_are_ordered_by_first_then_second() {
    assert_eq!(compare_pairs("a", "z", "b", "a"), Rank::Before);
    assert_eq!(compare_pairs("a", "b", "a", "c"), Rank::Before);
    assert_eq!(compare_pairs("a", "b", "a", "b"), Rank::Same);
    assert_eq!(compare_pairs("a", "c", "a", "b"), Rank::After);
    assert_eq!(compare_pairs("b", "a", "a", "z"), Rank::After);
}

#[test]
fn copy_of_paths_is_equal() {
    let v = names(&["a", "b/c", ""]);
    assert_eq!(copy_paths(&v), v);
}
