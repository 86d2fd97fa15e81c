//! The lines that tell the user what is wrong with an edited listing.

use vstd::prelude::*;
use vstd::string::StringExecFns;

use crate::error::{AncestorConflict, ConflictReport, DuplicateTarget, RenameError};
use crate::executor::{pad_width, render_line, report_line};
use crate::text::{byte_len, texts};

verus! {

/// The line above the duplicate targets.
pub open spec fn duplicates_title() -> Seq<char> {
    "duplicate renames:"@
}

/// The line above the renamed parents.
pub open spec fn ancestors_title() -> Seq<char> {
    "inline renamed ancestors:"@
}

/// The line that names a target.
pub open spec fn target_line(target: Seq<char>) -> Seq<char> {
    "-> "@ + target
}

/// The line that names one path that claims a target.
pub open spec fn source_line(source: Seq<char>) -> Seq<char> {
    "<- "@ + source
}

/// One line for each of `sources`.
pub open spec fn source_lines(sources: Seq<Seq<char>>) -> Seq<Seq<char>> {
    Seq::new(sources.len(), |i: int| source_line(sources[i]))
}

/// The lines on one duplicate target: the target, the paths that claim it,
/// and an empty line.
pub open spec fn duplicate_block(d: DuplicateTarget) -> Seq<Seq<char>> {
    seq![target_line(d.target@)] + source_lines(texts(d.sources@)) + seq![Seq::empty()]
}

/// The blocks of all of `found`, one after the other.
pub open spec fn duplicate_blocks(found: Seq<DuplicateTarget>) -> Seq<Seq<char>>
    decreases found.len(),
{
    if found.len() == 0 {
        Seq::empty()
    } else {
        duplicate_blocks(found.drop_last()) + duplicate_block(found.last())
    }
}

/// The original parents of `found`.
pub open spec fn old_parents(found: Seq<AncestorConflict>) -> Seq<Seq<char>> {
    Seq::new(found.len(), |k: int| found[k].before@)
}

/// One line for each renamed parent, the new parents aligned to the widest
/// original one.
pub open spec fn ancestor_lines(found: Seq<AncestorConflict>) -> Seq<Seq<char>> {
    Seq::new(
        found.len(),
        |k: int| report_line(found[k].before@, found[k].after@, pad_width(old_parents(found))),
    )
}

/// The lines of a report: the duplicate targets under their title, where
/// there are any, then the renamed parents under theirs, where there are any.
pub open spec fn report_lines(report: ConflictReport) -> Seq<Seq<char>> {
    (if report.duplicates.len() > 0 {
        seq![duplicates_title()] + duplicate_blocks(report.duplicates@)
    } else {
        Seq::empty()
    }) + (if report.ancestors.len() > 0 {
        seq![ancestors_title()] + ancestor_lines(report.ancestors@)
    } else {
        Seq::empty()
    })
}

/// `mark` followed by `rest`.
fn marked(mark: &str, rest: &str) -> (line: String)
    ensures
        line@ == mark@ + rest@,
{
    let mut line = mark.to_owned();
    line.append(rest);
    line
}

impl ConflictReport {
    /// Whether the report holds no conflict.
    pub fn is_empty(&self) -> (r: bool)
        ensures
            r == (self.duplicates.len() == 0 && self.ancestors.len() == 0),
    {
        self.duplicates.len() == 0 && self.ancestors.len() == 0
    }

    /// The report, line by line.
    pub fn lines(&self) -> (out: Vec<String>)
        ensures
            texts(out@) == report_lines(*self),
    {
        let mut out: Vec<String> = Vec::new();
        if self.duplicates.len() > 0 {
            out.push("duplicate renames:".to_owned());
            let ghost title = texts(out@);
            proof {
                assert(title =~= seq![duplicates_title()]);
            }
            for k in 0..self.duplicates.len()
                invariant
                    title == seq![duplicates_title()],
                    texts(out@) == title + duplicate_blocks(self.duplicates@.take(k as int)),
            {
                let d = &self.duplicates[k];
                let ghost start = texts(out@);
                out.push(marked("-> ", d.target.as_str()));
                proof {
                    assert(texts(out@) =~= start.push(target_line(d.target@)));
                    assert(source_lines(texts(d.sources@).take(0)) =~= Seq::<Seq<char>>::empty());
                }
                for i in 0..d.sources.len()
                    invariant
                        texts(out@) == start + seq![target_line(d.target@)] + source_lines(
                            texts(d.sources@).take(i as int),
                        ),
                {
                    let ghost prev = texts(out@);
                    out.push(marked("<- ", d.sources[i].as_str()));
                    proof {
                        let sources = texts(d.sources@);
                        assert(texts(out@) =~= prev.push(source_line(sources[i as int])));
                        assert(source_lines(sources.take(i + 1)) =~= source_lines(
                            sources.take(i as int),
                        ).push(source_line(sources[i as int])));
                    }
                }
                let ghost prev = texts(out@);
                out.push(String::new());
                proof {
                    let seen = self.duplicates@.take(k as int);
                    assert(texts(out@) =~= prev.push(Seq::<char>::empty()));
                    assert(texts(d.sources@).take(d.sources.len() as int) =~= texts(d.sources@));
                    assert(self.duplicates@.take(k + 1).drop_last() =~= seen);
                    assert(self.duplicates@.take(k + 1).last() == *d);
                    assert(texts(out@) =~= start + duplicate_block(*d));
                }
            }
            proof {
                assert(self.duplicates@.take(self.duplicates.len() as int) =~= self.duplicates@);
            }
        }
        let ghost first = texts(out@);
        if self.ancestors.len() > 0 {
            let ghost parents = old_parents(self.ancestors@);
            let mut pad: usize = 0;
            for k in 0..self.ancestors.len()
                invariant
                    parents == old_parents(self.ancestors@),
                    pad == pad_width(parents.take(k as int)),
            {
                proof {
                    assert(parents.take(k + 1).drop_last() =~= parents.take(k as int));
                }
                let w = byte_len(self.ancestors[k].before.as_str());
                if w > pad {
                    pad = w;
                }
            }
            proof {
                assert(parents.take(self.ancestors.len() as int) =~= parents);
            }
            out.push("inline renamed ancestors:".to_owned());
            proof {
                assert(texts(out@) =~= first.push(ancestors_title()));
            }
            for k in 0..self.ancestors.len()
                invariant
                    pad == pad_width(old_parents(self.ancestors@)),
                    texts(out@) == first + seq![ancestors_title()] + ancestor_lines(
                        self.ancestors@,
                    ).take(k as int),
            {
                let c = &self.ancestors[k];
                let ghost prev = texts(out@);
                out.push(render_line(c.before.as_str(), c.after.as_str(), pad));
                proof {
                    let all = ancestor_lines(self.ancestors@);
                    assert(texts(out@) =~= prev.push(all[k as int]));
                    assert(all.take(k + 1) =~= all.take(k as int).push(all[k as int]));
                }
            }
            proof {
                assert(ancestor_lines(self.ancestors@).take(self.ancestors.len() as int)
                    =~= ancestor_lines(self.ancestors@));
            }
        }
        proof {
            assert(texts(out@) =~= report_lines(*self));
        }
        out
    }
}

/// The decimal digit for `d`, which is below ten.
pub open spec fn digit(d: nat) -> char {
    if d == 0 {
        '0'
    } else if d == 1 {
        '1'
    } else if d == 2 {
        '2'
    } else if d == 3 {
        '3'
    } else if d == 4 {
        '4'
    } else if d == 5 {
        '5'
    } else if d == 6 {
        '6'
    } else if d == 7 {
        '7'
    } else if d == 8 {
        '8'
    } else {
        '9'
    }
}

/// `n` in decimal digits, without leading zeros.
pub open spec fn decimal(n: nat) -> Seq<char>
    decreases n,
{
    if n < 10 {
        seq![digit(n)]
    } else {
        decimal(n / 10).push(digit(n % 10))
    }
}

/// What is said where no path was given.
pub open spec fn empty_input_line() -> Seq<char> {
    "no files provided on stdin"@
}

/// What is said where `after` entries came back for `before` paths.
pub open spec fn count_mismatch_line(before: nat, after: nat) -> Seq<char> {
    "had "@ + decimal(before) + " path(s) before, but "@ + decimal(after) + " path(s) after"@
}

/// The lines that tell the user of `error`.
pub open spec fn error_lines(error: RenameError) -> Seq<Seq<char>> {
    match error {
        RenameError::EmptyInput => seq![empty_input_line()],
        RenameError::CountMismatch { before, after } => seq![
            count_mismatch_line(before as nat, after as nat),
        ],
        RenameError::Conflicts(report) => report_lines(report),
    }
}

/// The decimal digit for `d`.
fn digit_of(d: usize) -> (c: char)
    requires
        d < 10,
    ensures
        c == digit(d as nat),
{
    match d {
        0 => '0',
        1 => '1',
        2 => '2',
        3 => '3',
        4 => '4',
        5 => '5',
        6 => '6',
        7 => '7',
        8 => '8',
        _ => '9',
    }
}

/// Adds `n` in decimal digits to the end of `line`.
pub fn push_decimal(line: &mut String, n: usize)
    ensures
        final(line)@ == old(line)@ + decimal(n as nat),
{
    // the digits below the leading one, the lowest first
    let mut low: Vec<char> = Vec::new();
    let mut m: usize = n;
    while m >= 10
        invariant
            decimal(n as nat) == decimal(m as nat) + low@.reverse(),
        decreases m,
    {
        let d = digit_of(m % 10);
        proof {
            assert(low@.push(d).reverse() =~= seq![d] + low@.reverse());
            assert(decimal(m as nat) == decimal((m / 10) as nat).push(d));
            assert(decimal((m / 10) as nat).push(d) + low@.reverse() =~= decimal((m / 10) as nat)
                + (seq![d] + low@.reverse()));
        }
        low.push(d);
        m = m / 10;
    }
    line.push(digit_of(m));
    let mut j: usize = low.len();
    while j > 0
        invariant
            j <= low.len(),
            m < 10,
            line@ == old(line)@ + seq![digit(m as nat)] + low@.reverse().take(low.len() - j),
        decreases j,
    {
        j = j - 1;
        line.push(low[j]);
        proof {
            let r = low@.reverse();
            assert(r.take(low.len() - j) =~= r.take(low.len() - j - 1).push(low@[j as int]));
        }
    }
    proof {
        assert(low@.reverse().take(low.len() as int) =~= low@.reverse());
        assert(line@ =~= old(line)@ + decimal(n as nat));
    }
}

impl RenameError {
    /// What to tell the user, line by line.
    pub fn lines(&self) -> (out: Vec<String>)
        ensures
            texts(out@) == error_lines(*self),
    {
        match self {
            RenameError::EmptyInput => {
                let mut out: Vec<String> = Vec::new();
                out.push("no files provided on stdin".to_owned());
                proof {
                    assert(texts(out@) =~= seq![empty_input_line()]);
                }
                out
            },
            RenameError::CountMismatch { before, after } => {
                let mut line = "had ".to_owned();
                push_decimal(&mut line, *before);
                line.append(" path(s) before, but ");
                push_decimal(&mut line, *after);
                line.append(" path(s) after");
                let mut out: Vec<String> = Vec::new();
                out.push(line);
                proof {
                    assert(texts(out@) =~= seq![count_mismatch_line(*before as nat, *after as nat)]);
                }
                out
            },
            RenameError::Conflicts(report) => report.lines(),
        }
    }
}

} // verus!
