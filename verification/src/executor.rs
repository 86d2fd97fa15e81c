//! The executor: the renames of a plan, in the order in which they are safe,
//! each with the line that reports it.

use vstd::prelude::*;
use vstd::string::{StrSliceExecFns, StringExecFns};

use crate::text::{byte_len, texts, width};
use crate::validator::RenamePlan;

verus! {

/// One rename of a plan.
#[derive(Clone, Debug, PartialEq, Eq)]
pub struct RenameStep {
    /// The path as it is.
    pub from: String,
    /// The path as it shall be.
    pub to: String,
    /// The line that reports the rename.
    pub line: String,
    /// Whether the rename is to be carried out, or reported only.
    pub apply: bool,
}

/// An original path with its new name.
pub type Move = (Seq<char>, Seq<char>);

/// The renames that a pairing asks for, in descending order of the original
/// path. An entry that was left as it is asks for none.
pub open spec fn moves(before: Seq<Seq<char>>, after: Seq<Seq<char>>) -> Seq<Move>
    decreases before.len(),
{
    if before.len() == 0 || before.len() != after.len() {
        Seq::empty()
    } else {
        let rest = moves(before.drop_last(), after.drop_last());
        if before.last() != after.last() {
            seq![(before.last(), after.last())] + rest
        } else {
            rest
        }
    }
}

/// The width of the widest of `paths`, in bytes; 0 where there is none.
pub open spec fn pad_width(paths: Seq<Seq<char>>) -> nat
    decreases paths.len(),
{
    if paths.len() == 0 {
        0
    } else {
        let rest = pad_width(paths.drop_last());
        if width(paths.last()) > rest {
            width(paths.last())
        } else {
            rest
        }
    }
}

/// `n` spaces.
pub open spec fn spaces(n: nat) -> Seq<char> {
    Seq::new(n, |i: int| ' ')
}

/// `p`, filled up with spaces at its end to `pad` characters; `p` itself where
/// it has that many or more.
pub open spec fn padded(p: Seq<char>, pad: nat) -> Seq<char> {
    if pad > p.len() {
        p + spaces((pad - p.len()) as nat)
    } else {
        p
    }
}

/// What stands between the two paths of a reported line.
pub open spec fn arrow() -> Seq<char> {
    " -> "@
}

/// The line that reports a rename of `from` to `to`, aligned to `pad`.
pub open spec fn report_line(from: Seq<char>, to: Seq<char>, pad: nat) -> Seq<char> {
    padded(from, pad) + arrow() + to
}

/// The step for the move `m` of a run whose widest original path is `pad` wide.
pub open spec fn step_of(step: RenameStep, m: Move, pad: nat, dry_run: bool) -> bool {
    &&& step.from@ == m.0
    &&& step.to@ == m.1
    &&& step.line@ == report_line(m.0, m.1, pad)
    &&& step.apply == !dry_run
}

/// `steps` are the steps of the pairing of `before` with `after`: one for each
/// move, in the order of `moves`, all aligned to the widest original path.
pub open spec fn schedule_of(
    before: Seq<Seq<char>>,
    after: Seq<Seq<char>>,
    dry_run: bool,
    steps: Seq<RenameStep>,
) -> bool {
    &&& steps.len() == moves(before, after).len()
    &&& forall|k: int|
        0 <= k < steps.len() ==> step_of(
            #[trigger] steps[k],
            moves(before, after)[k],
            pad_width(before),
            dry_run,
        )
}

/// The width of the widest of `paths`.
pub fn widest(paths: &Vec<String>) -> (pad: usize)
    ensures
        pad == pad_width(texts(paths@)),
{
    let ghost s = texts(paths@);
    let mut pad: usize = 0;
    for i in 0..paths.len()
        invariant
            s == texts(paths@),
            pad == pad_width(s.take(i as int)),
    {
        proof {
            assert(s.take(i + 1).drop_last() =~= s.take(i as int));
        }
        let w = byte_len(paths[i].as_str());
        if w > pad {
            pad = w;
        }
    }
    proof {
        assert(s.take(paths.len() as int) =~= s);
    }
    pad
}

/// The line that reports a rename of `from` to `to`, aligned to `pad`.
pub fn render_line(from: &str, to: &str, pad: usize) -> (line: String)
    ensures
        line@ == report_line(from@, to@, pad as nat),
{
    let mut line = from.to_owned();
    let n = from.unicode_len();
    if pad > n {
        let gap: usize = pad - n;
        for i in 0..gap
            invariant
                line@ == from@ + spaces(i as nat),
        {
            line.push(' ');
            proof {
                assert(from@ + spaces((i + 1) as nat) =~= (from@ + spaces(i as nat)).push(' '));
            }
        }
    } else {
        proof {
            assert(from@ + spaces(0) =~= from@);
        }
    }
    line.append(" -> ");
    line.append(to);
    line
}

impl RenamePlan {
    /// The renames of the plan in the order in which to carry them out, the
    /// deepest paths first, each with its report.
    ///
    /// With `dry_run` the same steps are returned, none of them to be applied.
    pub fn schedule(&self, dry_run: bool) -> (steps: Vec<RenameStep>)
        ensures
            schedule_of(self.before(), self.after(), dry_run, steps@),
    {
        let before = self.originals();
        let after = self.targets();
        let ghost b = texts(before@);
        let ghost a = texts(after@);
        let pad = widest(before);
        let mut steps: Vec<RenameStep> = Vec::new();
        let mut i: usize = before.len();
        proof {
            assert(b.take(i as int) =~= b);
            assert(a.take(i as int) =~= a);
        }
        while i > 0
            invariant
                b == texts(before@),
                a == texts(after@),
                before.len() == after.len(),
                i <= before.len(),
                pad == pad_width(b),
                steps.len() + moves(b.take(i as int), a.take(i as int)).len() == moves(b, a).len(),
                forall|k: int|
                    0 <= k < steps.len() ==> step_of(
                        #[trigger] steps[k],
                        moves(b, a)[k],
                        pad as nat,
                        dry_run,
                    ),
                forall|k: int|
                    0 <= k < moves(b.take(i as int), a.take(i as int)).len() ==> moves(
                        b.take(i as int),
                        a.take(i as int),
                    )[k] == moves(b, a)[steps.len() + k],
            decreases i,
        {
            let ghost tail = moves(b.take(i as int), a.take(i as int));
            i = i - 1;
            proof {
                assert(b.take(i + 1).drop_last() =~= b.take(i as int));
                assert(a.take(i + 1).drop_last() =~= a.take(i as int));
            }
            if !(before[i] == after[i]) {
                let ghost done = steps.len();
                let step = RenameStep {
                    from: before[i].clone(),
                    to: after[i].clone(),
                    line: render_line(before[i].as_str(), after[i].as_str(), pad),
                    apply: !dry_run,
                };
                steps.push(step);
                proof {
                    let rest = moves(b.take(i as int), a.take(i as int));
                    assert(tail == seq![(b[i as int], a[i as int])] + rest);
                    assert(tail[0] == moves(b, a)[done + 0]);
                    assert forall|k: int| 0 <= k < rest.len() implies rest[k] == moves(
                        b,
                        a,
                    )[steps.len() + k] by {
                        assert(rest[k] == tail[k + 1]);
                        assert(tail[k + 1] == moves(b, a)[done + (k + 1)]);
                    }
                }
            }
        }
        steps
    }
}

} // verus!
