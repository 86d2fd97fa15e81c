//! The collector: from the paths as given to the sorted list that is edited.

use vstd::prelude::*;

use crate::error::RenameError;
use crate::text::{ascending, compare, locate, precedes, same_members, texts, Rank};

verus! {

/// The paths to rename: at least one, in ascending order, none twice.
#[derive(Debug)]
pub struct PathList {
    paths: Vec<String>,
}

impl View for PathList {
    type V = Seq<Seq<char>>;

    closed spec fn view(&self) -> Seq<Seq<char>> {
        texts(self.paths@)
    }
}

impl PathList {
    #[verifier::type_invariant]
    spec fn well_formed(self) -> bool {
        &&& self.paths.len() > 0
        &&& ascending(texts(self.paths@))
    }

    /// The paths, in ascending order.
    pub fn paths(&self) -> (r: &Vec<String>)
        ensures
            texts(r@) == self@,
            r.len() > 0,
            ascending(self@),
    {
        proof {
            use_type_invariant(self);
        }
        &self.paths
    }

    /// The number of paths.
    pub fn len(&self) -> (n: usize)
        ensures
            n == self@.len(),
            n > 0,
    {
        proof {
            use_type_invariant(self);
        }
        self.paths.len()
    }
}

/// The argument that stands for "read the paths from standard input".
pub open spec fn stdin_mark() -> Seq<char> {
    "-"@
}

/// Whether the arguments ask for the paths to be read from standard input:
/// they do where the mark is the one argument.
pub fn reads_stdin(args: &Vec<String>) -> (r: bool)
    ensures
        r == (args.len() == 1 && args[0]@ == stdin_mark()),
{
    args.len() == 1 && compare(args[0].as_str(), "-") == Rank::Same
}

/// Putting `key` at the place `locate` names keeps a sorted sequence sorted and
/// adds `key` to its members, nothing else.
proof fn lemma_insert_sorted(s: Seq<Seq<char>>, at: int, key: Seq<char>)
    requires
        ascending(s),
        0 <= at <= s.len(),
        forall|i: int| 0 <= i < at ==> precedes(#[trigger] s[i], key),
        forall|i: int| at <= i < s.len() ==> precedes(key, #[trigger] s[i]),
    ensures
        ascending(s.insert(at, key)),
        forall|t: Seq<char>| s.insert(at, key).contains(t) <==> (s.contains(t) || t == key),
{
    let r = s.insert(at, key);
    assert forall|i: int, j: int| 0 <= i < j < r.len() implies precedes(
        #[trigger] r[i],
        #[trigger] r[j],
    ) by {
        if i < at && j > at {
            assert(precedes(s[i], s[j - 1]));
        } else if i < at && j < at {
            assert(precedes(s[i], s[j]));
        } else if i > at {
            assert(precedes(s[i - 1], s[j - 1]));
        }
    }
    assert forall|t: Seq<char>| r.contains(t) <==> (s.contains(t) || t == key) by {
        if r.contains(t) {
            let i = choose|i: int| 0 <= i < r.len() && r[i] == t;
            if i < at {
                assert(s[i] == t);
            } else if i > at {
                assert(s[i - 1] == t);
            }
        }
        if s.contains(t) {
            let i = choose|i: int| 0 <= i < s.len() && s[i] == t;
            if i < at {
                assert(r[i] == t);
            } else {
                assert(r[i + 1] == t);
            }
        }
        if t == key {
            assert(r[at] == t);
        }
    }
}

/// The members of a sequence with one more path at its end.
proof fn lemma_push_members(a: Seq<Seq<char>>, key: Seq<char>)
    ensures
        forall|t: Seq<char>| a.push(key).contains(t) <==> (a.contains(t) || t == key),
{
    let b = a.push(key);
    assert forall|t: Seq<char>| b.contains(t) <==> (a.contains(t) || t == key) by {
        if a.contains(t) {
            let i = choose|i: int| 0 <= i < a.len() && a[i] == t;
            assert(b[i] == t);
        }
        if t == key {
            assert(b[b.len() - 1] == t);
        }
        if b.contains(t) {
            let i = choose|i: int| 0 <= i < b.len() && b[i] == t;
            if i < a.len() {
                assert(a[i] == t);
            }
        }
    }
}

/// Sorts the given paths and drops the repeats.
///
/// Fails with `EmptyInput` exactly where no path is given. Otherwise the
/// list holds every given path once, in ascending order, and nothing else.
pub fn collect(raw: &Vec<String>) -> (r: Result<PathList, RenameError>)
    ensures
        match r {
            Ok(list) => {
                &&& raw.len() > 0
                &&& list@.len() > 0
                &&& ascending(list@)
                &&& same_members(list@, texts(raw@))
            },
            Err(RenameError::EmptyInput) => raw.len() == 0,
            Err(_) => false,
        },
{
    if raw.len() == 0 {
        return Err(RenameError::EmptyInput);
    }
    let mut paths: Vec<String> = Vec::new();
    let ghost all = texts(raw@);
    for n in 0..raw.len()
        invariant
            all == texts(raw@),
            ascending(texts(paths@)),
            same_members(texts(paths@), all.take(n as int)),
    {
        let (found, at) = locate(&paths, raw[n].as_str());
        let ghost key = raw[n as int]@;
        let ghost old_vec = paths@;
        let ghost old_paths = texts(old_vec);
        proof {
            assert(all.take(n + 1) =~= all.take(n as int).push(key));
            lemma_push_members(all.take(n as int), key);
        }
        if found {
            proof {
                assert(old_paths[at as int] == key);
                assert(old_paths.contains(key));
            }
        } else {
            paths.insert(at, raw[n].clone());
            proof {
                assert(texts(paths@) =~= old_paths.insert(at as int, key));
                assert forall|i: int| 0 <= i < at implies precedes(#[trigger] old_paths[i], key) by {
                    assert(precedes(old_vec[i]@, key));
                }
                assert forall|i: int| at <= i < old_paths.len() implies precedes(
                    key,
                    #[trigger] old_paths[i],
                ) by {
                    assert(precedes(key, old_vec[i]@));
                }
                lemma_insert_sorted(old_paths, at as int, key);
            }
        }
        assert(same_members(texts(paths@), all.take(n + 1))) by {
            assert forall|t: Seq<char>| texts(paths@).contains(t) <==> all.take(n + 1).contains(t) by {
                assert(old_paths.contains(t) <==> all.take(n as int).contains(t));
            }
        }
    }
    proof {
        assert(all.take(raw.len() as int) =~= all);
        assert(all.contains(all[0]));
    }
    Ok(PathList { paths })
}

} // verus!
