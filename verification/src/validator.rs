//! The validator: from the original list and the edited entries to a plan,
//! or to every reason why there is none.

use vstd::prelude::*;

use crate::collector::PathList;
use crate::error::{AncestorConflict, ConflictReport, DuplicateTarget, RenameError};
use crate::renamed::{ancestors_of, pairs, renamed_ancestor, RenamedParents};
use crate::targets::{claimed_twice, copy_paths, duplicates_of, TargetIndex};
use crate::text::{ascending, texts};

verus! {

/// No edited value occurs at two positions.
pub open spec fn injective(after: Seq<Seq<char>>) -> bool {
    forall|i: int, j: int| 0 <= i < j < after.len() ==> after[i] != after[j]
}

/// No entry was moved to another parent.
pub open spec fn parents_kept(before: Seq<Seq<char>>, after: Seq<Seq<char>>) -> bool {
    forall|i: int|
        0 <= i < before.len() && i < after.len() ==> #[trigger] renamed_ancestor(
            before[i],
            after[i],
        ) is None
}

/// The edited entries `after` can be applied to the original paths `before`:
/// there is one for each path, no two paths get the same name, and every
/// entry stays under its parent.
pub open spec fn accepted(before: Seq<Seq<char>>, after: Seq<Seq<char>>) -> bool {
    &&& before.len() == after.len()
    &&& injective(after)
    &&& parents_kept(before, after)
}

/// A validated pairing of original paths with their new names.
#[derive(Debug)]
pub struct RenamePlan {
    before: Vec<String>,
    after: Vec<String>,
}

impl RenamePlan {
    #[verifier::type_invariant]
    spec fn well_formed(self) -> bool {
        &&& self.before.len() > 0
        &&& ascending(texts(self.before@))
        &&& accepted(texts(self.before@), texts(self.after@))
    }

    /// The original paths, in ascending order.
    pub closed spec fn before(&self) -> Seq<Seq<char>> {
        texts(self.before@)
    }

    /// The new names, each at the position of its original path.
    pub closed spec fn after(&self) -> Seq<Seq<char>> {
        texts(self.after@)
    }

    /// The original paths, in ascending order.
    pub fn originals(&self) -> (r: &Vec<String>)
        ensures
            texts(r@) == self.before(),
            r.len() > 0,
            ascending(self.before()),
            accepted(self.before(), self.after()),
    {
        proof {
            use_type_invariant(self);
        }
        &self.before
    }

    /// The new names, each at the position of its original path.
    pub fn targets(&self) -> (r: &Vec<String>)
        ensures
            texts(r@) == self.after(),
            r.len() == self.before().len(),
    {
        proof {
            use_type_invariant(self);
        }
        &self.after
    }
}

/// A list of duplicates is empty exactly where the edited values are injective.
pub proof fn lemma_no_duplicates(
    before: Seq<Seq<char>>,
    after: Seq<Seq<char>>,
    found: Seq<DuplicateTarget>,
)
    requires
        duplicates_of(before, after, found),
    ensures
        found.len() == 0 <==> injective(after),
{
    if found.len() > 0 {
        let t = found[0].target@;
        assert(claimed_twice(after, t));
    }
    if !injective(after) {
        let (i, j) = choose|i: int, j: int| 0 <= i < j < after.len() && after[i] == after[j];
        assert(claimed_twice(after, after[i]));
    }
}

/// A list of renamed parents is empty exactly where every entry kept its parent.
pub proof fn lemma_no_renamed(
    before: Seq<Seq<char>>,
    after: Seq<Seq<char>>,
    found: Seq<AncestorConflict>,
)
    requires
        ancestors_of(before, after, found),
    ensures
        found.len() == 0 <==> parents_kept(before, after),
{
    if found.len() > 0 {
        let p = pairs(found)[0];
        assert(pairs(found).contains(p));
    }
    if !parents_kept(before, after) {
        let i = choose|i: int|
            0 <= i < before.len() && i < after.len() && !(#[trigger] renamed_ancestor(
                before[i],
                after[i],
            ) is None);
        let p = renamed_ancestor(before[i], after[i])->0;
        assert(pairs(found).contains(p));
    }
}

/// Pairs each original path with the edited entry at its position and checks
/// the pairing.
///
/// A plan is returned exactly where the entries are `accepted`. Where their
/// number differs from that of the paths, the error gives both numbers and
/// nothing else is looked at. Otherwise the error lists every duplicate
/// target and every renamed parent of the whole listing.
pub fn validate(list: &PathList, edited: &Vec<String>) -> (r: Result<RenamePlan, RenameError>)
    ensures
        r is Ok <==> accepted(list@, texts(edited@)),
        match r {
            Ok(plan) => plan.before() == list@ && plan.after() == texts(edited@),
            Err(RenameError::CountMismatch { before, after }) => {
                &&& before == list@.len()
                &&& after == edited.len()
                &&& before != after
            },
            Err(RenameError::Conflicts(report)) => {
                &&& list@.len() == edited.len()
                &&& duplicates_of(list@, texts(edited@), report.duplicates@)
                &&& ancestors_of(list@, texts(edited@), report.ancestors@)
            },
            Err(RenameError::EmptyInput) => false,
        },
{
    let paths = list.paths();
    let ghost b = list@;
    let ghost a = texts(edited@);
    if paths.len() != edited.len() {
        return Err(RenameError::CountMismatch { before: paths.len(), after: edited.len() });
    }
    let mut index = TargetIndex::new();
    let mut renamed = RenamedParents::new();
    proof {
        assert(b.take(0) =~= Seq::<Seq<char>>::empty());
        assert(a.take(0) =~= Seq::<Seq<char>>::empty());
    }
    for i in 0..paths.len()
        invariant
            b == texts(paths@),
            a == texts(edited@),
            paths.len() == edited.len(),
            index.before() == b.take(i as int),
            index.after() == a.take(i as int),
            renamed.before() == b.take(i as int),
            renamed.after() == a.take(i as int),
    {
        let from = paths[i].as_str();
        let to = edited[i].as_str();
        index = index.claim(from, to);
        renamed = renamed.note(from, to);
        proof {
            assert(b.take(i + 1) =~= b.take(i as int).push(from@));
            assert(a.take(i + 1) =~= a.take(i as int).push(to@));
        }
    }
    proof {
        assert(b.take(paths.len() as int) =~= b);
        assert(a.take(paths.len() as int) =~= a);
    }
    let duplicates = index.duplicates();
    let ancestors = renamed.conflicts();
    proof {
        lemma_no_duplicates(b, a, duplicates@);
        lemma_no_renamed(b, a, ancestors@);
    }
    if duplicates.len() > 0 || ancestors.len() > 0 {
        return Err(RenameError::Conflicts(ConflictReport { duplicates, ancestors }));
    }
    Ok(RenamePlan { before: copy_paths(paths), after: copy_paths(edited) })
}

} // verus!
