//! What holds of the library as a whole, proved from the contracts of its parts.

use vstd::prelude::*;

use crate::executor::{moves, schedule_of, RenameStep};
use crate::listing::{
    body, entries, is_entry, kept, lemma_entries_line, listing, newline, notice_ignored,
    notice_order, notice_stems, single_line, without_return,
};
use crate::renamed::renamed_ancestor;
use crate::targets::lemma_ascending_distinct;
use crate::text::{
    ascending, lemma_precedes_asymmetric, lemma_precedes_irreflexive, precedes, same_members,
};
use crate::validator::accepted;

verus! {

/// A sorted list is settled by its members: two sorted lists that hold the same
/// paths are the same list.
pub proof fn lemma_sorted_unique(a: Seq<Seq<char>>, b: Seq<Seq<char>>)
    requires
        ascending(a),
        ascending(b),
        same_members(a, b),
    ensures
        a == b,
    decreases a.len(),
{
    if a.len() == 0 {
        if b.len() > 0 {
            assert(b.contains(b[0]));
        }
        assert(a =~= b);
    } else {
        assert(a.contains(a[0]));
        let x = a.last();
        let y = b.last();
        assert(a.contains(x));
        assert(b.contains(y));
        let j = choose|j: int| 0 <= j < b.len() && b[j] == x;
        let i = choose|i: int| 0 <= i < a.len() && a[i] == y;
        if j < b.len() - 1 {
            assert(precedes(b[j], b[b.len() - 1]));
            if i < a.len() - 1 {
                assert(precedes(a[i], a[a.len() - 1]));
                lemma_precedes_asymmetric(x, y);
            } else {
                lemma_precedes_irreflexive(x);
            }
        }
        assert(x == y);
        let a1 = a.drop_last();
        let b1 = b.drop_last();
        assert forall|t: Seq<char>| a1.contains(t) <==> b1.contains(t) by {
            if a1.contains(t) {
                let k = choose|k: int| 0 <= k < a1.len() && a1[k] == t;
                assert(a[k] == t);
                assert(a.contains(t));
                let m = choose|m: int| 0 <= m < b.len() && b[m] == t;
                if m == b.len() - 1 {
                    assert(precedes(a[k], a[a.len() - 1]));
                    lemma_precedes_irreflexive(x);
                }
                assert(b1[m] == t);
            }
            if b1.contains(t) {
                let k = choose|k: int| 0 <= k < b1.len() && b1[k] == t;
                assert(b[k] == t);
                assert(b.contains(t));
                let m = choose|m: int| 0 <= m < a.len() && a[m] == t;
                if m == a.len() - 1 {
                    assert(precedes(b[k], b[b.len() - 1]));
                    lemma_precedes_irreflexive(y);
                }
                assert(a1[m] == t);
            }
        }
        assert forall|p: int, q: int| 0 <= p < q < a1.len() implies precedes(
            #[trigger] a1[p],
            #[trigger] a1[q],
        ) by {
            assert(precedes(a[p], a[q]));
        }
        assert forall|p: int, q: int| 0 <= p < q < b1.len() implies precedes(
            #[trigger] b1[p],
            #[trigger] b1[q],
        ) by {
            assert(precedes(b[p], b[q]));
        }
        lemma_sorted_unique(a1, b1);
        assert(a =~= a1.push(x));
        assert(b =~= b1.push(y));
    }
}

/// The collected list depends on which paths were given, not on their order
/// nor on how often each was given: inputs with the same members are
/// collected to the same list.
pub proof fn law_collect_ignores_order_and_repeats(
    first: Seq<Seq<char>>,
    second: Seq<Seq<char>>,
    first_list: Seq<Seq<char>>,
    second_list: Seq<Seq<char>>,
)
    requires
        same_members(first, second),
        ascending(first_list),
        same_members(first_list, first),
        ascending(second_list),
        same_members(second_list, second),
    ensures
        first_list == second_list,
{
    assert forall|t: Seq<char>| first_list.contains(t) <==> second_list.contains(t) by {
        assert(first_list.contains(t) <==> first.contains(t));
        assert(first.contains(t) <==> second.contains(t));
        assert(second_list.contains(t) <==> second.contains(t));
    }
    lemma_sorted_unique(first_list, second_list);
}

/// A listing that comes back as it went out is accepted and asks for no
/// rename.
pub proof fn law_unedited_listing_renames_nothing(paths: Seq<Seq<char>>)
    requires
        ascending(paths),
    ensures
        accepted(paths, paths),
        moves(paths, paths).len() == 0,
{
    assert forall|i: int, j: int| 0 <= i < j < paths.len() implies paths[i] != paths[j] by {
        if paths[i] == paths[j] {
            lemma_ascending_distinct(paths, i, j);
        }
    }
    assert forall|i: int| 0 <= i < paths.len() implies #[trigger] renamed_ancestor(
        paths[i],
        paths[i],
    ) is None by {}
    lemma_identity_moves(paths);
}

/// Entries that were all left as they are ask for no rename.
proof fn lemma_identity_moves(paths: Seq<Seq<char>>)
    ensures
        moves(paths, paths).len() == 0,
    decreases paths.len(),
{
    if paths.len() > 0 {
        lemma_identity_moves(paths.drop_last());
    }
}

/// A path can stand in a listing as it is: it is an entry on one line, and
/// it does not end in a carriage return.
pub open spec fn listable(path: Seq<char>) -> bool {
    &&& is_entry(path)
    &&& single_line(path)
    &&& path.last() != '\r'
}

/// The entries of the lines of listable paths are those paths.
proof fn lemma_entries_body(paths: Seq<Seq<char>>)
    requires
        forall|i: int| 0 <= i < paths.len() ==> listable(#[trigger] paths[i]),
    ensures
        entries(body(paths)) == paths,
    decreases paths.len(),
{
    if paths.len() == 0 {
        assert(entries(body(paths)) =~= paths);
    } else {
        let rest = paths.drop_first();
        assert forall|i: int| 0 <= i < rest.len() implies listable(#[trigger] rest[i]) by {
            assert(rest[i] == paths[i + 1]);
        }
        lemma_entries_body(rest);
        assert(listable(paths[0]));
        lemma_entries_line(paths[0], body(rest));
        assert(seq![paths[0]] + rest =~= paths);
    }
}

/// The lines of advice are comments, each on one line.
proof fn lemma_notices()
    ensures
        single_line(notice_ignored()),
        single_line(notice_order()),
        single_line(notice_stems()),
        kept(without_return(notice_ignored())).len() == 0,
        kept(without_return(notice_order())).len() == 0,
        kept(without_return(notice_stems())).len() == 0,
{
    reveal_strlit("// empty lines and coments are ignored");
    reveal_strlit("// do not remove or reorder any lines");
    reveal_strlit("// do not edit anything other than file stems");
}

/// Read back unchanged, the listing of a list gives the paths of the list,
/// where each of them can stand in a listing as it is.
pub proof fn law_listing_round_trip(paths: Seq<Seq<char>>)
    requires
        forall|i: int| 0 <= i < paths.len() ==> listable(#[trigger] paths[i]),
    ensures
        entries(listing(paths)) == paths,
{
    let rest3 = newline() + body(paths);
    let rest2 = notice_stems() + newline() + rest3;
    let rest1 = notice_order() + newline() + rest2;
    lemma_notices();
    lemma_entries_body(paths);
    assert(listing(paths) =~= notice_ignored() + newline() + rest1);
    lemma_entries_line(notice_ignored(), rest1);
    lemma_entries_line(notice_order(), rest2);
    lemma_entries_line(notice_stems(), rest3);
    assert(rest3 =~= Seq::<char>::empty() + newline() + body(paths));
    lemma_entries_line(Seq::<char>::empty(), body(paths));
    assert(entries(listing(paths)) =~= paths);
}

/// A listing that the editor hands back as it got it is accepted and asks for
/// no rename, where each path of the list can stand in a listing as it is.
pub proof fn law_unedited_text_renames_nothing(paths: Seq<Seq<char>>)
    requires
        ascending(paths),
        forall|i: int| 0 <= i < paths.len() ==> listable(#[trigger] paths[i]),
    ensures
        accepted(paths, entries(listing(paths))),
        moves(paths, entries(listing(paths))).len() == 0,
{
    law_listing_round_trip(paths);
    law_unedited_listing_renames_nothing(paths);
}

/// A dry run reports what a run would do, line for line, and applies nothing
/// of it; a run applies every step that it reports.
pub proof fn law_dry_run_reports_the_same(
    before: Seq<Seq<char>>,
    after: Seq<Seq<char>>,
    dry: Seq<RenameStep>,
    run: Seq<RenameStep>,
)
    requires
        schedule_of(before, after, true, dry),
        schedule_of(before, after, false, run),
    ensures
        dry.len() == run.len(),
        forall|k: int|
            0 <= k < dry.len() ==> {
                &&& (#[trigger] dry[k]).from@ == run[k].from@
                &&& dry[k].to@ == run[k].to@
                &&& dry[k].line@ == run[k].line@
                &&& !dry[k].apply
                &&& run[k].apply
            },
{
}

/// The renames of a plan: one for each entry that was changed and for no
/// other, the original paths in strictly descending order.
pub proof fn law_moves_descend(before: Seq<Seq<char>>, after: Seq<Seq<char>>)
    requires
        ascending(before),
        before.len() == after.len(),
    ensures
        forall|k: int|
            0 <= k < moves(before, after).len() ==> (#[trigger] moves(before, after)[k]).0 != moves(
                before,
                after,
            )[k].1,
        forall|k: int|
            0 <= k < moves(before, after).len() ==> exists|i: int|
                0 <= i < before.len() && (before[i], after[i]) == #[trigger] moves(before, after)[k],
        forall|i: int|
            0 <= i < before.len() && before[i] != after[i] ==> moves(before, after).contains(
                (#[trigger] before[i], after[i]),
            ),
        forall|k: int, l: int|
            0 <= k < l < moves(before, after).len() ==> precedes(
                (#[trigger] moves(before, after)[l]).0,
                (#[trigger] moves(before, after)[k]).0,
            ),
    decreases before.len(),
{
    let all = moves(before, after);
    if before.len() > 0 {
        let b = before.drop_last();
        let a = after.drop_last();
        let n = before.len() - 1;
        let rest = moves(b, a);
        assert forall|p: int, q: int| 0 <= p < q < b.len() implies precedes(
            #[trigger] b[p],
            #[trigger] b[q],
        ) by {
            assert(precedes(before[p], before[q]));
        }
        law_moves_descend(b, a);
        let shift: int = if before.last() != after.last() {
            1
        } else {
            0
        };
        assert forall|k: int| shift <= k < all.len() implies all[k] == rest[k - shift] by {}
        assert forall|k: int| 0 <= k < all.len() implies exists|i: int|
            0 <= i < before.len() && (before[i], after[i]) == #[trigger] all[k] by {
            if k < shift {
                assert((before[n], after[n]) == all[k]);
            } else {
                let i = choose|i: int| 0 <= i < b.len() && (b[i], a[i]) == rest[k - shift];
                assert((before[i], after[i]) == all[k]);
            }
        }
        assert forall|i: int| 0 <= i < before.len() && before[i] != after[i] implies all.contains(
            (#[trigger] before[i], after[i]),
        ) by {
            if i == n {
                assert(all[0] == (before[i], after[i]));
            } else {
                assert(b[i] != a[i]);
                assert(rest.contains((b[i], a[i])));
                let k = choose|k: int| 0 <= k < rest.len() && rest[k] == (b[i], a[i]);
                assert(all[k + shift] == (before[i], after[i]));
            }
        }
        assert forall|k: int, l: int| 0 <= k < l < all.len() implies precedes(
            (#[trigger] all[l]).0,
            (#[trigger] all[k]).0,
        ) by {
            if k < shift {
                let i = choose|i: int| 0 <= i < b.len() && (b[i], a[i]) == rest[l - shift];
                assert(precedes(before[i], before[n]));
            } else {
                assert(precedes(rest[l - shift].0, rest[k - shift].0));
            }
        }
    }
}

} // verus!
