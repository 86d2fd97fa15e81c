use std::collections::{BTreeMap, BTreeSet};

use edit_rename::collector::collect;
use edit_rename::executor::render_line;
use edit_rename::validator::validate;
use edit_rename::RenameError;

/// A small generator of repeatable numbers.
struct Dice(u64);

impl Dice {
    fn roll(&mut self, sides: usize) -> usize {
        self.0 = self.0.wrapping_mul(6364136223846793005).wrapping_add(1442695040888963407);
        ((self.0 >> 33) as usize) % sides
    }
}

const NAMES: [&str; 14] = [
    "a", "b", "c", "d/a", "d/b", "d/c/", "e/a", "e/b", "d/e/a", "é/a", "é/ü", "/r", "d//a", "f/",
];

fn parent(path: &str) -> Option<&str> {
    path.strip_suffix('/').unwrap_or(path).rsplit_once('/').map(|(stem, _)| stem)
}

/// What is to be printed for `before` and `after`, worked out with ordered
/// maps: the lines, and whether the edit is refused.
fn expected_outcome(before: &[String], after: &[String]) -> (Vec<String>, bool) {
    let mut lines = Vec::new();
    let mut refused = false;
    let mut parents = BTreeSet::new();
    let mut claims: BTreeMap<&str, Vec<&str>> = BTreeMap::new();
    for (b, a) in before.iter().zip(after.iter()) {
        let sources = claims.entry(a).or_default();
        sources.push(b);
        if sources.len() > 1 {
            refused = true;
        }
        if let Some((old, new)) = parent(b).zip(parent(a)) {
            if old != new {
                refused = true;
                parents.insert((old, new));
            }
        }
    }
    if claims.values().any(|sources| sources.len() > 1) {
        lines.push("duplicate renames:".to_string());
        for (target, sources) in claims.into_iter().filter(|(_, s)| s.len() > 1) {
            lines.push(format!("-> {target}"));
            for source in sources {
                lines.push(format!("<- {source}"));
            }
            lines.push(String::new());
        }
    }
    if !parents.is_empty() {
        let pad = parents.iter().map(|(b, _)| b.len()).max().unwrap();
        lines.push("inline renamed ancestors:".to_string());
        for (old, new) in parents {
            lines.push(format!("{old:<pad$} -> {new}"));
        }
    }
    if refused {
        return (lines, true);
    }
    let pad = before.iter().map(|p| p.len()).max().unwrap();
    for (b, a) in before.iter().rev().zip(after.iter().rev()) {
        if b == a {
            continue;
        }
        lines.push(format!("{b:<pad$} -> {a}"));
    }
    (lines, false)
}

fn outcome(before_raw: &[String], after: &[String], dry_run: bool) -> (Vec<String>, bool) {
    let list = collect(&before_raw.to_vec()).unwrap();
    match validate(&list, &after.to_vec()) {
        Ok(plan) => {
            let steps = plan.schedule(dry_run);
            for step in &steps {
                assert_eq!(step.apply, !dry_run);
                assert_ne!(step.from, step.to);
            }
            (steps.into_iter().map(|s| s.line).collect(), false)
        }
        Err(RenameError::Conflicts(report)) => (report.lines(), true),
        Err(other) => panic!("unexpected {other:?}"),
    }
}

#[test]
fn outcomes_agree_with_ordered_maps() {
    let mut dice = Dice(7);
    for _ in 0..3000 {
        let count = 1 + dice.roll(5);
        let mut before = BTreeSet::new();
        while before.len() < count {
            before.insert(NAMES[dice.roll(NAMES.len())].to_string());
        }
        let before: Vec<String> = before.into_iter().collect();
        let after: Vec<String> = before
            .iter()
            .map(|b| {
                if dice.roll(3) == 0 {
                    b.clone()
                } else {
                    NAMES[dice.roll(NAMES.len())].to_string()
                }
            })
            .collect();
        let expected = expected_outcome(&before, &after);
        assert_eq!(outcome(&before, &after, false), expected, "{before:?} to {after:?}");
        assert_eq!(outcome(&before, &after, true), expected, "{before:?} to {after:?}");
    }
}

#[test]
fn lines_agree_with_left_aligned_formatting() {
    let samples = ["", "a", "abc", "é", "ééé", "日本語", "dir/c.txt", "e\u{301}"];
    for from in samples {
        for to in samples {
            for pad in 0..12usize {
                assert_eq!(render_line(from, to, pad), format!("{from:<pad$} -> {to}"));
            }
        }
    }
}
