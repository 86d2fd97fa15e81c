//! The immediate parent of a path.

use vstd::prelude::*;
use vstd::std_specs::iter::IteratorSpec;
use vstd::string::StrSliceExecFns;

verus! {

/// The character that separates the components of a path.
pub open spec fn separator() -> char {
    '/'
}

/// `p` without one trailing separator, if it ends in one.
pub open spec fn without_trailing_separator(p: Seq<char>) -> Seq<char> {
    if p.len() > 0 && p.last() == separator() {
        p.drop_last()
    } else {
        p
    }
}

/// The position of the last separator in `t`, or -1 where `t` holds none.
pub open spec fn last_separator(t: Seq<char>) -> int
    decreases t.len(),
{
    if t.len() == 0 {
        -1
    } else if t.last() == separator() {
        t.len() - 1
    } else {
        last_separator(t.drop_last())
    }
}

/// The parent of `p`: what stands before the last separator, once a trailing
/// separator is set aside. A path without a separator has no parent.
pub open spec fn ancestor(p: Seq<char>) -> Option<Seq<char>> {
    let t = without_trailing_separator(p);
    let k = last_separator(t);
    if k < 0 {
        None
    } else {
        Some(t.subrange(0, k))
    }
}

/// `last_separator` names a separator, none follows it, and it is -1 exactly
/// where there is none.
pub proof fn lemma_last_separator(t: Seq<char>)
    ensures
        -1 <= last_separator(t) < t.len(),
        last_separator(t) >= 0 ==> t[last_separator(t)] == separator(),
        forall|i: int| last_separator(t) < i < t.len() ==> t[i] != separator(),
    decreases t.len(),
{
    if t.len() > 0 && t.last() != separator() {
        lemma_last_separator(t.drop_last());
        assert forall|i: int| last_separator(t) < i < t.len() implies t[i] != separator() by {
            if i < t.len() - 1 {
                assert(t.drop_last()[i] == t[i]);
            }
        }
    }
}

/// An index that may be absent, as an integer: -1 stands for none.
pub open spec fn position(at: Option<usize>) -> int {
    match at {
        Some(k) => k as int,
        None => -1,
    }
}

/// The parent directory of `path`, or `None` where `path` names no directory.
pub fn get_ancestor(path: &str) -> (r: Option<&str>)
    ensures
        match r {
            Some(a) => ancestor(path@) == Some(a@),
            None => ancestor(path@) is None,
        },
{
    let n: usize = path.unicode_len();
    let mut i: usize = 0;
    // the last separator seen, and the last one before the latest character
    let mut last: Option<usize> = None;
    let mut before_last: Option<usize> = None;
    for c in it: path.chars()
        invariant
            n == path@.len(),
            it.seq() == path@,
            i == it.index(),
            last_separator(path@.take(i as int)) == position(last),
            i > 0 ==> last_separator(path@.take(i - 1)) == position(before_last),
    {
        proof {
            assert(path@.take(i + 1).drop_last() =~= path@.take(i as int));
        }
        before_last = last;
        if c == '/' {
            last = Some(i);
        }
        i = i + 1;
    }
    proof {
        assert(path@.take(n as int) =~= path@);
        if n > 0 {
            assert(path@.take(n - 1) =~= path@.drop_last());
        }
    }
    let cut: Option<usize> = if n > 0 && last == Some(n - 1) {
        before_last
    } else {
        last
    };
    proof {
        lemma_last_separator(without_trailing_separator(path@));
        lemma_last_separator(path@);
    }
    match cut {
        Some(k) => {
            let stem = path.substring_char(0, k);
            proof {
                let t = without_trailing_separator(path@);
                assert(t.subrange(0, k as int) =~= path@.subrange(0, k as int));
            }
            Some(stem)
        },
        None => None,
    }
}

} // verus!
