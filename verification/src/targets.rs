//! Which original paths claim which edited value.

use vstd::prelude::*;

use crate::error::DuplicateTarget;
use crate::text::{ascending, lemma_precedes_asymmetric, locate, precedes, texts};

verus! {

/// The original paths that were edited to `target`, in the order of the list.
///
/// `before` and `after` are paired by position.
pub open spec fn claimants(
    before: Seq<Seq<char>>,
    after: Seq<Seq<char>>,
    target: Seq<char>,
) -> Seq<Seq<char>>
    decreases after.len(),
{
    if after.len() == 0 || before.len() != after.len() {
        Seq::empty()
    } else {
        let rest = claimants(before.drop_last(), after.drop_last(), target);
        if after.last() == target {
            rest.push(before.last())
        } else {
            rest
        }
    }
}

/// `target` occurs at two positions of `after`.
pub open spec fn claimed_twice(after: Seq<Seq<char>>, target: Seq<char>) -> bool {
    exists|i: int, j: int| 0 <= i < j < after.len() && after[i] == target && after[j] == target
}

/// `found` lists the targets that are claimed twice or more: each of them once,
/// in ascending order of target, with all its claimants, and no other target.
pub open spec fn duplicates_of(
    before: Seq<Seq<char>>,
    after: Seq<Seq<char>>,
    found: Seq<DuplicateTarget>,
) -> bool {
    &&& forall|k: int|
        0 <= k < found.len() ==> {
            &&& claimed_twice(after, (#[trigger] found[k]).target@)
            &&& texts(found[k].sources@) == claimants(before, after, found[k].target@)
        }
    &&& forall|k: int, l: int|
        0 <= k < l < found.len() ==> precedes(
            (#[trigger] found[k]).target@,
            (#[trigger] found[l]).target@,
        )
    &&& forall|t: Seq<char>| #[trigger]
        claimed_twice(after, t) ==> exists|k: int|
            0 <= k < found.len() && (#[trigger] found[k]).target@ == t
}

/// A target has a claimant where it occurs, and two or more where it occurs twice.
pub proof fn lemma_claimants_count(before: Seq<Seq<char>>, after: Seq<Seq<char>>, target: Seq<char>)
    requires
        before.len() == after.len(),
    ensures
        claimants(before, after, target).len() >= 1 <==> after.contains(target),
        claimants(before, after, target).len() >= 2 <==> claimed_twice(after, target),
    decreases after.len(),
{
    if after.len() > 0 {
        let b = before.drop_last();
        let a = after.drop_last();
        let n = after.len() - 1;
        lemma_claimants_count(b, a, target);
        if a.contains(target) {
            let i = choose|i: int| 0 <= i < a.len() && a[i] == target;
            assert(after[i] == target);
        }
        if after.contains(target) && after.last() != target {
            let i = choose|i: int| 0 <= i < after.len() && after[i] == target;
            assert(a[i] == target);
        }
        if claimed_twice(a, target) {
            let (i, j) = choose|i: int, j: int|
                0 <= i < j < a.len() && a[i] == target && a[j] == target;
            assert(after[i] == target && after[j] == target);
        }
        if claimed_twice(after, target) {
            let (i, j) = choose|i: int, j: int|
                0 <= i < j < after.len() && after[i] == target && after[j] == target;
            assert(a[i] == target);
            if j < n {
                assert(a[j] == target);
            }
        }
        if after.last() == target && a.contains(target) {
            let i = choose|i: int| 0 <= i < a.len() && a[i] == target;
            assert(after[i] == target && after[n] == target);
        }
    } else {
        assert(!after.contains(target));
    }
}

/// The claimants of `target` once one more pair is added at the end.
pub proof fn lemma_claimants_push(
    before: Seq<Seq<char>>,
    after: Seq<Seq<char>>,
    from: Seq<char>,
    to: Seq<char>,
    target: Seq<char>,
)
    requires
        before.len() == after.len(),
    ensures
        claimants(before.push(from), after.push(to), target) == if to == target {
            claimants(before, after, target).push(from)
        } else {
            claimants(before, after, target)
        },
{
    assert(before.push(from).drop_last() =~= before);
    assert(after.push(to).drop_last() =~= after);
}

/// In a sorted sequence a path stands at one position only.
pub proof fn lemma_ascending_distinct(s: Seq<Seq<char>>, i: int, j: int)
    requires
        ascending(s),
        0 <= i < s.len(),
        0 <= j < s.len(),
        s[i] == s[j],
    ensures
        i == j,
{
    if i < j {
        assert(precedes(s[i], s[j]));
        lemma_precedes_asymmetric(s[i], s[j]);
    } else if j < i {
        assert(precedes(s[j], s[i]));
        lemma_precedes_asymmetric(s[j], s[i]);
    }
}

/// The edited values seen so far, each with the original paths that claim it.
///
/// The targets are kept in ascending order; `claims[k]` belongs to `targets[k]`.
pub struct TargetIndex {
    targets: Vec<String>,
    claims: Vec<Vec<String>>,
    before: Ghost<Seq<Seq<char>>>,
    after: Ghost<Seq<Seq<char>>>,
}

impl TargetIndex {
    #[verifier::type_invariant]
    spec fn well_formed(self) -> bool {
        self.indexes(self.before@, self.after@)
    }

    /// The index holds exactly the pairs of `before` and `after`.
    spec fn indexes(self, before: Seq<Seq<char>>, after: Seq<Seq<char>>) -> bool {
        &&& before.len() == after.len()
        &&& self.targets.len() == self.claims.len()
        &&& ascending(texts(self.targets@))
        &&& forall|k: int|
            0 <= k < self.targets.len() ==> texts((#[trigger] self.claims[k])@) == claimants(
                before,
                after,
                self.targets[k]@,
            )
        &&& forall|t: Seq<char>| texts(self.targets@).contains(t) <==> after.contains(t)
    }

    /// The original paths of the pairs recorded so far, in the order in which
    /// they came.
    pub closed spec fn before(&self) -> Seq<Seq<char>> {
        self.before@
    }

    /// The edited values of the pairs recorded so far, each at the position of
    /// its original path.
    pub closed spec fn after(&self) -> Seq<Seq<char>> {
        self.after@
    }

    /// An index of no pairs.
    pub fn new() -> (r: Self)
        ensures
            r.before() == Seq::<Seq<char>>::empty(),
            r.after() == Seq::<Seq<char>>::empty(),
    {
        let r = TargetIndex {
            targets: Vec::new(),
            claims: Vec::new(),
            before: Ghost(Seq::empty()),
            after: Ghost(Seq::empty()),
        };
        proof {
            assert forall|t: Seq<char>|
                texts(r.targets@).contains(t) <==> Seq::<Seq<char>>::empty().contains(t) by {}
        }
        r
    }

    /// Records that `from` was edited to `to`.
    pub fn claim(self, from: &str, to: &str) -> (r: Self)
        ensures
            r.before() == self.before().push(from@),
            r.after() == self.after().push(to@),
    {
        proof {
            use_type_invariant(&self);
        }
        let ghost before = self.before@;
        let ghost after = self.after@;
        let mut targets = self.targets;
        let mut claims = self.claims;
        let ghost b2 = before.push(from@);
        let ghost a2 = after.push(to@);
        let ghost old_targets = texts(targets@);
        let ghost old_claims = claims@;
        let (found, at) = locate(&targets, to);
                proof {
            assert forall|t: Seq<char>| a2.contains(t) <==> (after.contains(t) || t == to@) by {
                if after.contains(t) {
                    let i = choose|i: int| 0 <= i < after.len() && after[i] == t;
                    assert(a2[i] == t);
                }
                if t == to@ {
                    assert(a2[a2.len() - 1] == t);
                }
                if a2.contains(t) {
                    let i = choose|i: int| 0 <= i < a2.len() && a2[i] == t;
                    if i < after.len() {
                        assert(after[i] == t);
                    }
                }
            }
        }
        if found {
            claims[at].push(from.to_owned());
            proof {
                assert(old_targets[at as int] == to@);
                assert(old_targets.contains(to@));
                assert forall|k: int| 0 <= k < targets.len() implies texts(
                    (#[trigger] claims[k])@,
                ) == claimants(b2, a2, targets[k]@) by {
                    lemma_claimants_push(before, after, from@, to@, targets[k]@);
                    if k == at {
                        assert(texts(claims[k]@) =~= texts(old_claims[k]@).push(from@));
                    } else {
                        assert(claims[k] == old_claims[k]);
                        if old_targets[k] == to@ {
                            lemma_ascending_distinct(old_targets, k, at as int);
                        }
                    }
                }
            }
        } else {
            let mut first: Vec<String> = Vec::new();
            first.push(from.to_owned());
            targets.insert(at, to.to_owned());
            claims.insert(at, first);
            proof {
                let new_targets = texts(targets@);
                assert(new_targets =~= old_targets.insert(at as int, to@));
                assert forall|i: int, j: int| 0 <= i < j < new_targets.len() implies precedes(
                    #[trigger] new_targets[i],
                    #[trigger] new_targets[j],
                ) by {
                    if i < at && j > at {
                        assert(precedes(old_targets[i], old_targets[j - 1]));
                    } else if i < at && j < at {
                        assert(precedes(old_targets[i], old_targets[j]));
                    } else if i > at {
                        assert(precedes(old_targets[i - 1], old_targets[j - 1]));
                    } else if i == at {
                        assert(new_targets[j] == old_targets[j - 1]);
                    } else {
                        assert(new_targets[i] == old_targets[i]);
                    }
                }
                assert forall|t: Seq<char>| new_targets.contains(t) <==> a2.contains(t) by {
                    if new_targets.contains(t) {
                        let i = choose|i: int| 0 <= i < new_targets.len() && new_targets[i] == t;
                        if i < at {
                            assert(old_targets[i] == t);
                        } else if i > at {
                            assert(old_targets[i - 1] == t);
                        }
                    }
                    if old_targets.contains(t) {
                        let i = choose|i: int| 0 <= i < old_targets.len() && old_targets[i] == t;
                        if i < at {
                            assert(new_targets[i] == t);
                        } else {
                            assert(new_targets[i + 1] == t);
                        }
                    }
                    if t == to@ {
                        assert(new_targets[at as int] == t);
                    }
                }
                assert forall|k: int| 0 <= k < targets.len() implies texts(
                    (#[trigger] claims[k])@,
                ) == claimants(b2, a2, targets[k]@) by {
                    lemma_claimants_push(before, after, from@, to@, targets[k]@);
                    if k == at {
                        lemma_claimants_count(before, after, to@);
                        assert(claimants(before, after, to@) =~= Seq::<Seq<char>>::empty());
                        assert(texts(claims[k]@) =~= Seq::<Seq<char>>::empty().push(from@));
                    } else if k < at {
                        assert(claims[k] == old_claims[k]);
                        assert(new_targets[k] == old_targets[k]);
                    } else {
                        assert(claims[k] == old_claims[k - 1]);
                        assert(new_targets[k] == old_targets[k - 1]);
                        assert(old_targets.contains(old_targets[k - 1]));
                    }
                }
            }
        }
        TargetIndex { targets, claims, before: Ghost(b2), after: Ghost(a2) }
    }

    /// The targets that two or more paths claim, in ascending order, each
    /// with its claimants.
    pub fn duplicates(&self) -> (found: Vec<DuplicateTarget>)
        ensures
            duplicates_of(self.before(), self.after(), found@),
    {
        proof {
            use_type_invariant(self);
        }
        let ghost before = self.before@;
        let ghost after = self.after@;
        let ghost targets = texts(self.targets@);
        let mut found: Vec<DuplicateTarget> = Vec::new();
        for k in 0..self.targets.len()
            invariant
                self.indexes(before, after),
                targets == texts(self.targets@),
                forall|m: int|
                    0 <= m < found.len() ==> {
                        &&& claimed_twice(after, (#[trigger] found[m]).target@)
                        &&& texts(found[m].sources@) == claimants(before, after, found[m].target@)
                    },
                forall|m: int, l: int|
                    0 <= m < l < found.len() ==> precedes(
                        (#[trigger] found[m]).target@,
                        (#[trigger] found[l]).target@,
                    ),
                forall|m: int, i: int|
                    0 <= m < found.len() && k <= i < targets.len() ==> precedes(
                        (#[trigger] found[m]).target@,
                        #[trigger] targets[i],
                    ),
                forall|i: int|
                    0 <= i < k && self.claims[i].len() >= 2 ==> exists|m: int|
                        0 <= m < found.len() && (#[trigger] found[m]).target@ == targets[i],
        {
            let ghost old_found = found@;
            if self.claims[k].len() >= 2 {
                let entry = DuplicateTarget {
                    target: self.targets[k].clone(),
                    sources: copy_paths(&self.claims[k]),
                };
                found.push(entry);
                proof {
                    let t = targets[k as int];
                    let last = old_found.len() as int;
                    assert(found[last].target@ == t);
                    assert(texts(self.claims[k as int]@).len() >= 2);
                    lemma_claimants_count(before, after, t);
                    assert forall|m: int, l: int| 0 <= m < l < found.len() implies precedes(
                        (#[trigger] found[m]).target@,
                        (#[trigger] found[l]).target@,
                    ) by {
                        if l == last {
                            assert(found[m] == old_found[m]);
                            assert(precedes(old_found[m].target@, targets[k as int]));
                        } else {
                            assert(found[m] == old_found[m] && found[l] == old_found[l]);
                        }
                    }
                    assert forall|m: int, i: int|
                        0 <= m < found.len() && k + 1 <= i < targets.len() implies precedes(
                        (#[trigger] found[m]).target@,
                        #[trigger] targets[i],
                    ) by {
                        if m == last {
                            assert(precedes(targets[k as int], targets[i]));
                        } else {
                            assert(found[m] == old_found[m]);
                        }
                    }
                    assert forall|i: int| 0 <= i < k + 1 && self.claims[i].len() >= 2 implies exists|
                        m: int,
                    |
                        0 <= m < found.len() && (#[trigger] found[m]).target@ == targets[i] by {
                        if i == k {
                            assert(found[last].target@ == targets[i]);
                        } else {
                            let m = choose|m: int|
                                0 <= m < old_found.len() && (#[trigger] old_found[m]).target@
                                    == targets[i];
                            assert(found[m] == old_found[m]);
                        }
                    }
                }
            }
        }
        proof {
            assert forall|t: Seq<char>| #[trigger] claimed_twice(after, t) implies exists|m: int|
                0 <= m < found.len() && (#[trigger] found[m]).target@ == t by {
                lemma_claimants_count(before, after, t);
                assert(targets.contains(t));
                let i = choose|i: int| 0 <= i < targets.len() && targets[i] == t;
                assert(texts(self.claims[i]@).len() >= 2);
            }
        }
        found
    }
}

/// A copy of `v`.
pub fn copy_paths(v: &Vec<String>) -> (r: Vec<String>)
    ensures
        r@ == v@,
{
    let mut r: Vec<String> = Vec::new();
    for i in 0..v.len()
        invariant
            r@ == v@.take(i as int),
    {
        r.push(v[i].clone());
    }
    r
}

} // verus!
