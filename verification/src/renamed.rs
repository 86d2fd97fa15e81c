//! Directories renamed in passing: entries whose parent was edited.

use vstd::prelude::*;

use crate::ancestor::{ancestor, get_ancestor};
use crate::error::AncestorConflict;
use crate::text::{
    compare, lemma_precedes_asymmetric, lemma_precedes_total, lemma_precedes_transitive, precedes,
    Rank,
};

verus! {

/// The parent of an original path with the parent of its edited value.
pub type Renamed = (Seq<char>, Seq<char>);

/// The parents of `before` and `after`, where both have one and the two differ.
pub open spec fn renamed_ancestor(before: Seq<char>, after: Seq<char>) -> Option<Renamed> {
    match (ancestor(before), ancestor(after)) {
        (Some(b), Some(a)) => if b != a {
            Some((b, a))
        } else {
            None
        },
        _ => None,
    }
}

/// The two parents that a conflict names.
pub open spec fn pair_of(c: AncestorConflict) -> Renamed {
    (c.before@, c.after@)
}

/// The pairs of a sequence of conflicts.
pub open spec fn pairs(found: Seq<AncestorConflict>) -> Seq<Renamed> {
    Seq::new(found.len(), |k: int| pair_of(found[k]))
}

/// The order on pairs: by the first path, then by the second.
pub open spec fn pair_precedes(x: Renamed, y: Renamed) -> bool {
    precedes(x.0, y.0) || (x.0 == y.0 && precedes(x.1, y.1))
}

/// Every pair comes before all that follow it.
pub open spec fn pairs_ascending(s: Seq<Renamed>) -> bool {
    forall|k: int, l: int| 0 <= k < l < s.len() ==> pair_precedes(#[trigger] s[k], #[trigger] s[l])
}

/// `found` lists the renamed parents of the plan: each distinct pair once, in
/// ascending order, and nothing else.
pub open spec fn ancestors_of(
    before: Seq<Seq<char>>,
    after: Seq<Seq<char>>,
    found: Seq<AncestorConflict>,
) -> bool {
    &&& pairs_ascending(pairs(found))
    &&& forall|p: Renamed| #[trigger]
        pairs(found).contains(p) <==> exists|i: int|
            0 <= i < before.len() && i < after.len() && #[trigger] renamed_ancestor(
                before[i],
                after[i],
            ) == Some(p)
}

/// No pair comes before itself, nor two pairs each before the other.
pub proof fn lemma_pair_asymmetric(x: Renamed, y: Renamed)
    requires
        pair_precedes(x, y),
    ensures
        !pair_precedes(y, x),
        x != y,
{
    if precedes(x.0, y.0) {
        lemma_precedes_asymmetric(x.0, y.0);
    } else {
        lemma_precedes_asymmetric(x.1, y.1);
        if precedes(y.0, x.0) {
            lemma_precedes_asymmetric(y.0, x.0);
        }
    }
}

/// The order on pairs is transitive.
pub proof fn lemma_pair_transitive(x: Renamed, y: Renamed, z: Renamed)
    requires
        pair_precedes(x, y),
        pair_precedes(y, z),
    ensures
        pair_precedes(x, z),
{
    if precedes(x.0, y.0) && precedes(y.0, z.0) {
        lemma_precedes_transitive(x.0, y.0, z.0);
    } else if x.0 == y.0 && y.0 == z.0 {
        lemma_precedes_transitive(x.1, y.1, z.1);
    }
}

/// How the pair (`b1`, `a1`) stands to the pair (`b2`, `a2`).
pub open spec fn pair_rank(x: Renamed, y: Renamed) -> Rank {
    if x == y {
        Rank::Same
    } else if pair_precedes(x, y) {
        Rank::Before
    } else {
        Rank::After
    }
}

/// Compares two pairs of paths: by the first path, then by the second.
pub fn compare_pairs(b1: &str, a1: &str, b2: &str, a2: &str) -> (r: Rank)
    ensures
        r == pair_rank((b1@, a1@), (b2@, a2@)),
        r == Rank::After ==> pair_precedes((b2@, a2@), (b1@, a1@)),
{
    proof {
        lemma_precedes_total(b1@, b2@);
        lemma_precedes_total(a1@, a2@);
        if precedes(b1@, b2@) {
            lemma_precedes_asymmetric(b1@, b2@);
        }
        if precedes(b2@, b1@) {
            lemma_precedes_asymmetric(b2@, b1@);
        }
        if precedes(a1@, a2@) {
            lemma_precedes_asymmetric(a1@, a2@);
        }
        if precedes(a2@, a1@) {
            lemma_precedes_asymmetric(a2@, a1@);
        }
    }
    match compare(b1, b2) {
        Rank::Same => compare(a1, a2),
        other => other,
    }
}

/// Where the pair (`before`, `after`) stands in the sorted `found`: whether it is
/// there, and the position at which it is or would have to be put.
fn locate_pair(found: &Vec<AncestorConflict>, before: &str, after: &str) -> (r: (bool, usize))
    requires
        pairs_ascending(pairs(found@)),
    ensures
        r.1 <= found.len(),
        r.0 ==> r.1 < found.len() && pairs(found@)[r.1 as int] == (before@, after@),
        !r.0 ==> !pairs(found@).contains((before@, after@)),
        !r.0 ==> forall|i: int|
            0 <= i < r.1 ==> pair_precedes(#[trigger] pairs(found@)[i], (before@, after@)),
        !r.0 ==> forall|i: int|
            r.1 <= i < found.len() ==> pair_precedes((before@, after@), #[trigger] pairs(found@)[i]),
{
    let ghost s = pairs(found@);
    let ghost key = (before@, after@);
    let mut lo: usize = 0;
    let mut hi: usize = found.len();
    while lo < hi
        invariant
            s == pairs(found@),
            key == (before@, after@),
            pairs_ascending(s),
            lo <= hi <= found.len(),
            forall|i: int| 0 <= i < lo ==> pair_precedes(#[trigger] s[i], key),
            forall|i: int| hi <= i < s.len() ==> pair_precedes(key, #[trigger] s[i]),
        decreases hi - lo,
    {
        let mid: usize = lo + (hi - lo) / 2;
        let here = &found[mid];
        proof {
            assert(s[mid as int] == (here.before@, here.after@));
        }
        match compare_pairs(here.before.as_str(), here.after.as_str(), before, after) {
            Rank::Same => {
                return (true, mid);
            },
            Rank::Before => {
                proof {
                    assert forall|i: int| 0 <= i < mid + 1 implies pair_precedes(
                        #[trigger] s[i],
                        key,
                    ) by {
                        if i < mid {
                            assert(pair_precedes(s[i], s[mid as int]));
                            lemma_pair_transitive(s[i], s[mid as int], key);
                        }
                    }
                }
                lo = mid + 1;
            },
            Rank::After => {
                proof {
                    assert forall|i: int| mid <= i < s.len() implies pair_precedes(
                        key,
                        #[trigger] s[i],
                    ) by {
                        if mid < i {
                            assert(pair_precedes(s[mid as int], s[i]));
                            lemma_pair_transitive(key, s[mid as int], s[i]);
                        }
                    }
                }
                hi = mid;
            },
        }
    }
    proof {
        assert forall|i: int| 0 <= i < s.len() implies s[i] != key by {
            if i < lo {
                lemma_pair_asymmetric(s[i], key);
            } else {
                lemma_pair_asymmetric(key, s[i]);
            }
        }
    }
    (false, lo)
}

/// Adds the pair (`before`, `after`) to the sorted `found`, unless it is there.
fn record_renamed(found: &mut Vec<AncestorConflict>, before: &str, after: &str)
    requires
        pairs_ascending(pairs(old(found)@)),
    ensures
        pairs_ascending(pairs(final(found)@)),
        forall|p: Renamed|
            pairs(final(found)@).contains(p) <==> (pairs(old(found)@).contains(p) || p == (
                before@,
                after@,
            )),
{
    let ghost s = pairs(found@);
    let ghost key = (before@, after@);
    let (present, at) = locate_pair(found, before, after);
    if present {
        proof {
            assert(s.contains(key));
        }
    } else {
        found.insert(at, AncestorConflict { before: before.to_owned(), after: after.to_owned() });
        proof {
            let r = pairs(found@);
            assert(r =~= s.insert(at as int, key));
            assert forall|k: int, l: int| 0 <= k < l < r.len() implies pair_precedes(
                #[trigger] r[k],
                #[trigger] r[l],
            ) by {
                if k < at && l > at {
                    assert(pair_precedes(s[k], s[l - 1]));
                } else if k < at && l < at {
                    assert(pair_precedes(s[k], s[l]));
                } else if k > at {
                    assert(pair_precedes(s[k - 1], s[l - 1]));
                } else if k == at {
                    assert(r[l] == s[l - 1]);
                } else {
                    assert(r[k] == s[k]);
                }
            }
            assert forall|p: Renamed| r.contains(p) <==> (s.contains(p) || p == key) by {
                if r.contains(p) {
                    let i = choose|i: int| 0 <= i < r.len() && r[i] == p;
                    if i < at {
                        assert(s[i] == p);
                    } else if i > at {
                        assert(s[i - 1] == p);
                    }
                }
                if s.contains(p) {
                    let i = choose|i: int| 0 <= i < s.len() && s[i] == p;
                    if i < at {
                        assert(r[i] == p);
                    } else {
                        assert(r[i + 1] == p);
                    }
                }
                if p == key {
                    assert(r[at as int] == p);
                }
            }
        }
    }
}

/// The parents that were renamed in the pairs seen so far, each pair once, in
/// ascending order.
pub struct RenamedParents {
    found: Vec<AncestorConflict>,
    before: Ghost<Seq<Seq<char>>>,
    after: Ghost<Seq<Seq<char>>>,
}

impl RenamedParents {
    #[verifier::type_invariant]
    spec fn well_formed(self) -> bool {
        &&& self.before@.len() == self.after@.len()
        &&& ancestors_of(self.before@, self.after@, self.found@)
    }

    /// The original paths of the pairs seen so far, in the order in which they
    /// came.
    pub closed spec fn before(&self) -> Seq<Seq<char>> {
        self.before@
    }

    /// The edited values of the pairs seen so far, each at the position of its
    /// original path.
    pub closed spec fn after(&self) -> Seq<Seq<char>> {
        self.after@
    }

    /// No pair was seen yet.
    pub fn new() -> (r: Self)
        ensures
            r.before() == Seq::<Seq<char>>::empty(),
            r.after() == Seq::<Seq<char>>::empty(),
    {
        let found: Vec<AncestorConflict> = Vec::new();
        proof {
            assert forall|p: Renamed| !pairs(found@).contains(p) by {}
        }
        RenamedParents { found, before: Ghost(Seq::empty()), after: Ghost(Seq::empty()) }
    }

    /// Looks at the pair of `from` and `to`: where both have a parent and the
    /// two parents differ, the pair of the parents is recorded.
    pub fn note(self, from: &str, to: &str) -> (r: Self)
        ensures
            r.before() == self.before().push(from@),
            r.after() == self.after().push(to@),
    {
        proof {
            use_type_invariant(&self);
        }
        let ghost b = self.before@;
        let ghost a = self.after@;
        let ghost b2 = b.push(from@);
        let ghost a2 = a.push(to@);
        let ghost seen = pairs(self.found@);
        let mut found = self.found;
        let mut moved: bool = false;
        match (get_ancestor(from), get_ancestor(to)) {
            (Some(old_parent), Some(new_parent)) => {
                if compare(old_parent, new_parent) != Rank::Same {
                    record_renamed(&mut found, old_parent, new_parent);
                    moved = true;
                }
            },
            _ => {},
        }
        proof {
            let n = b.len() as int;
            let here = renamed_ancestor(from@, to@);
            assert(moved <==> here is Some);
            assert forall|p: Renamed| #[trigger]
                pairs(found@).contains(p) <==> exists|i: int|
                    0 <= i < b2.len() && i < a2.len() && #[trigger] renamed_ancestor(b2[i], a2[i])
                        == Some(p) by {
                if seen.contains(p) {
                    let i = choose|i: int|
                        0 <= i < b.len() && i < a.len() && #[trigger] renamed_ancestor(b[i], a[i])
                            == Some(p);
                    assert(0 <= i < b2.len() && i < a2.len() && renamed_ancestor(b2[i], a2[i])
                        == Some(p));
                }
                if here == Some(p) {
                    assert(0 <= n < b2.len() && n < a2.len() && renamed_ancestor(b2[n], a2[n])
                        == Some(p));
                }
                if exists|i: int|
                    0 <= i < b2.len() && i < a2.len() && #[trigger] renamed_ancestor(b2[i], a2[i])
                        == Some(p) {
                    let i = choose|i: int|
                        0 <= i < b2.len() && i < a2.len() && #[trigger] renamed_ancestor(
                            b2[i],
                            a2[i],
                        ) == Some(p);
                    if i < n {
                        assert(renamed_ancestor(b[i], a[i]) == Some(p));
                        assert(seen.contains(p));
                    }
                }
            }
        }
        RenamedParents { found, before: Ghost(b2), after: Ghost(a2) }
    }

    /// The renamed parents of all pairs seen, each distinct pair once, in
    /// ascending order.
    pub fn conflicts(self) -> (found: Vec<AncestorConflict>)
        ensures
            ancestors_of(self.before(), self.after(), found@),
    {
        proof {
            use_type_invariant(&self);
        }
        self.found
    }
}

} // verus!
