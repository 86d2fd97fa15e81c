//! Path text: the order on paths and small helpers on strings.
//!
//! A path is compared character by character, by code point, with no
//! normalisation; a proper prefix comes before any of its extensions.

use vstd::prelude::*;
use vstd::std_specs::iter::IteratorSpec;
use vstd::string::StringSliceAdditionalSpecFns;

verus! {

/// `String::push` of the standard library: the string afterwards is the
/// string before with `c` added at its end.
pub assume_specification[ String::push ](s: &mut String, c: char)
    ensures
        final(s)@ == old(s)@.push(c),
;

/// The length of `p` in bytes, which is what the alignment of reports goes by.
pub open spec fn width(p: Seq<char>) -> nat {
    vstd::utf8::encode_utf8(p).len()
}

/// The length of `s` in bytes.
pub fn byte_len(s: &str) -> (n: usize)
    ensures
        n == width(s@),
{
    s.as_bytes().len()
}

/// How the first of two paths stands to the second.
#[derive(Clone, Copy, Debug, PartialEq, Eq, Structural)]
pub enum Rank {
    Before,
    Same,
    After,
}

/// The code point of `c`.
pub open spec fn code(c: char) -> int {
    c as int
}

/// `a` and `b` hold the same characters at every position below `k`.
pub open spec fn agree_upto(a: Seq<char>, b: Seq<char>, k: int) -> bool {
    &&& 0 <= k <= a.len()
    &&& k <= b.len()
    &&& forall|i: int| 0 <= i < k ==> a[i] == b[i]
}

/// `k` is the first position at which `a` and `b` part, and `a` is the smaller there:
/// it has ended, or its character has the lower code point.
pub open spec fn precedes_at(a: Seq<char>, b: Seq<char>, k: int) -> bool {
    &&& agree_upto(a, b, k)
    &&& k < b.len()
    &&& (k == a.len() || code(a[k]) < code(b[k]))
}

/// The strict order on paths.
pub open spec fn precedes(a: Seq<char>, b: Seq<char>) -> bool {
    exists|k: int| precedes_at(a, b, k)
}

/// What `compare` returns for `a` and `b`.
pub open spec fn rank_of(a: Seq<char>, b: Seq<char>) -> Rank {
    if a == b {
        Rank::Same
    } else if precedes(a, b) {
        Rank::Before
    } else {
        Rank::After
    }
}

/// No path comes before itself.
pub proof fn lemma_precedes_irreflexive(a: Seq<char>)
    ensures
        !precedes(a, a),
{
    assert forall|k: int| !precedes_at(a, a, k) by {}
}

/// Two paths cannot each come before the other.
pub proof fn lemma_precedes_asymmetric(a: Seq<char>, b: Seq<char>)
    requires
        precedes(a, b),
    ensures
        !precedes(b, a),
        a != b,
{
    let k1 = choose|k: int| precedes_at(a, b, k);
    assert forall|k2: int| !precedes_at(b, a, k2) by {
        if precedes_at(b, a, k2) {
            if k1 < k2 {
                assert(b[k1] == a[k1]);
            } else if k2 < k1 {
                assert(a[k2] == b[k2]);
            }
        }
    }
    lemma_precedes_irreflexive(a);
}

/// The order is transitive.
pub proof fn lemma_precedes_transitive(a: Seq<char>, b: Seq<char>, c: Seq<char>)
    requires
        precedes(a, b),
        precedes(b, c),
    ensures
        precedes(a, c),
{
    let k1 = choose|k: int| precedes_at(a, b, k);
    let k2 = choose|k: int| precedes_at(b, c, k);
    if k1 <= k2 {
        assert forall|i: int| 0 <= i < k1 implies a[i] == c[i] by {
            assert(a[i] == b[i]);
            assert(b[i] == c[i]);
        }
        if k1 < k2 {
            assert(b[k1] == c[k1]);
        }
        assert(precedes_at(a, c, k1));
    } else {
        assert forall|i: int| 0 <= i < k2 implies a[i] == c[i] by {
            assert(a[i] == b[i]);
            assert(b[i] == c[i]);
        }
        assert(a[k2] == b[k2]);
        assert(precedes_at(a, c, k2));
    }
}

/// Two paths that agree below `k` are equal, or one comes before the other.
proof fn lemma_total_from(a: Seq<char>, b: Seq<char>, k: int)
    requires
        agree_upto(a, b, k),
    ensures
        a == b || precedes(a, b) || precedes(b, a),
    decreases a.len() - k,
{
    if k == a.len() {
        if k == b.len() {
            assert(a =~= b);
        } else {
            assert(precedes_at(a, b, k));
        }
    } else if k == b.len() {
        assert(agree_upto(b, a, k));
        assert(precedes_at(b, a, k));
    } else if a[k] == b[k] {
        lemma_total_from(a, b, k + 1);
    } else if code(a[k]) < code(b[k]) {
        assert(precedes_at(a, b, k));
    } else {
        assert(agree_upto(b, a, k));
        assert(precedes_at(b, a, k));
    }
}

/// The order is total: of two different paths one comes before the other.
pub proof fn lemma_precedes_total(a: Seq<char>, b: Seq<char>)
    ensures
        a == b || precedes(a, b) || precedes(b, a),
{
    lemma_total_from(a, b, 0);
}

/// Compares two paths character by character.
pub fn compare(a: &str, b: &str) -> (r: Rank)
    ensures
        r == rank_of(a@, b@),
{
    let mut ia = a.chars();
    let mut ib = b.chars();
    let ghost mut k: int = 0;
    loop
        invariant
            ia.obeys_prophetic_iter_laws(),
            ib.obeys_prophetic_iter_laws(),
            agree_upto(a@, b@, k),
            ia.remaining() == a@.skip(k),
            ib.remaining() == b@.skip(k),
            ia.decrease() is Some,
        decreases ia.decrease()->0,
    {
        let x = ia.next();
        let y = ib.next();
        match (x, y) {
            (None, None) => {
                proof {
                    assert(a@ =~= b@);
                }
                return Rank::Same;
            },
            (None, Some(_)) => {
                proof {
                    assert(precedes_at(a@, b@, k));
                    lemma_precedes_asymmetric(a@, b@);
                }
                return Rank::Before;
            },
            (Some(_), None) => {
                proof {
                    assert(agree_upto(b@, a@, k));
                    assert(precedes_at(b@, a@, k));
                    lemma_precedes_asymmetric(b@, a@);
                }
                return Rank::After;
            },
            (Some(p), Some(q)) => {
                proof {
                    assert(a@.skip(k)[0] == a@[k]);
                    assert(b@.skip(k)[0] == b@[k]);
                }
                if p < q {
                    proof {
                        assert(precedes_at(a@, b@, k));
                        lemma_precedes_asymmetric(a@, b@);
                    }
                    return Rank::Before;
                } else if q < p {
                    proof {
                        assert(agree_upto(b@, a@, k));
                        assert(precedes_at(b@, a@, k));
                        lemma_precedes_asymmetric(b@, a@);
                    }
                    return Rank::After;
                }
                proof {
                    assert(code(p) == code(q));
                    assert(a@.skip(k).drop_first() =~= a@.skip(k + 1));
                    assert(b@.skip(k).drop_first() =~= b@.skip(k + 1));
                    k = k + 1;
                }
            },
        }
    }
}

/// The texts of a sequence of strings.
pub open spec fn texts(v: Seq<String>) -> Seq<Seq<char>> {
    Seq::new(v.len(), |i: int| v[i]@)
}

/// Every path of `s` comes before all that follow it: `s` is sorted and
/// holds no path twice.
pub open spec fn ascending(s: Seq<Seq<char>>) -> bool {
    forall|i: int, j: int| 0 <= i < j < s.len() ==> precedes(#[trigger] s[i], #[trigger] s[j])
}

/// Two sequences hold the same paths, whatever their order and repeats.
pub open spec fn same_members(a: Seq<Seq<char>>, b: Seq<Seq<char>>) -> bool {
    forall|t: Seq<char>| a.contains(t) <==> b.contains(t)
}

/// Where `key` stands in the sorted `v`: whether it is there, and the
/// position at which it is, or at which it would have to be put.
pub(crate) fn locate(v: &Vec<String>, key: &str) -> (r: (bool, usize))
    requires
        ascending(texts(v@)),
    ensures
        r.1 <= v.len(),
        r.0 ==> r.1 < v.len() && v[r.1 as int]@ == key@,
        !r.0 ==> !texts(v@).contains(key@),
        forall|i: int| 0 <= i < r.1 ==> precedes(#[trigger] v[i]@, key@),
        forall|i: int| r.1 <= i < v.len() && !(r.0 && i == r.1) ==> precedes(key@, #[trigger] v[i]@),
{
    let ghost s = texts(v@);
    let mut lo: usize = 0;
    let mut hi: usize = v.len();
    while lo < hi
        invariant
            s == texts(v@),
            ascending(s),
            lo <= hi <= v.len(),
            forall|i: int| 0 <= i < lo ==> precedes(#[trigger] s[i], key@),
            forall|i: int| hi <= i < s.len() ==> precedes(key@, #[trigger] s[i]),
        decreases hi - lo,
    {
        let mid: usize = lo + (hi - lo) / 2;
        match compare(v[mid].as_str(), key) {
            Rank::Same => {
                proof {
                    assert(s[mid as int] == key@);
                    assert forall|i: int| 0 <= i < mid implies precedes(#[trigger] v[i]@, key@) by {
                        assert(precedes(s[i], s[mid as int]));
                    }
                    assert forall|i: int| mid < i < v.len() implies precedes(
                        key@,
                        #[trigger] v[i]@,
                    ) by {
                        assert(precedes(s[mid as int], s[i]));
                    }
                }
                return (true, mid);
            },
            Rank::Before => {
                proof {
                    assert forall|i: int| 0 <= i < mid + 1 implies precedes(#[trigger] s[i], key@) by {
                        if i < mid {
                            assert(precedes(s[i], s[mid as int]));
                            lemma_precedes_transitive(s[i], s[mid as int], key@);
                        }
                    }
                }
                lo = mid + 1;
            },
            Rank::After => {
                proof {
                    lemma_precedes_total(s[mid as int], key@);
                    assert forall|i: int| mid <= i < s.len() implies precedes(key@, #[trigger] s[i]) by {
                        if mid < i {
                            assert(precedes(s[mid as int], s[i]));
                            lemma_precedes_transitive(key@, s[mid as int], s[i]);
                        }
                    }
                }
                hi = mid;
            },
        }
    }
    proof {
        assert forall|i: int| 0 <= i < s.len() implies s[i] != key@ by {
            if i < lo {
                assert(precedes(s[i], key@));
                lemma_precedes_asymmetric(s[i], key@);
            } else {
                assert(precedes(key@, s[i]));
                lemma_precedes_asymmetric(key@, s[i]);
            }
        }
        assert forall|i: int| 0 <= i < lo implies precedes(#[trigger] v[i]@, key@) by {
            assert(precedes(s[i], key@));
        }
        assert forall|i: int| lo <= i < v.len() implies precedes(key@, #[trigger] v[i]@) by {
            assert(precedes(key@, s[i]));
        }
    }
    (false, lo)
}

} // verus!
