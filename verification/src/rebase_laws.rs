//! What rebasing keeps, whatever the order in which operations are held.
use vstd::prelude::*;

use crate::conflict;
use crate::lane_file;
use crate::ops;
use crate::ops::Op;
use crate::rebase;
use crate::text;
use crate::types::LaneErrorView;
use crate::upkeep;

verus! {

/// Of two operations with different numbers one is applied before the other.
proof fn lemma_before_total(a: Op, b: Op)
    requires
        a.id != b.id,
    ensures
        ops::op_before(a, b) || ops::op_before(b, a),
{
    text::lemma_text_lt_total(a.key, b.key);
}

/// Operations with different numbers have one order.
proof fn lemma_one_order(a: Seq<Op>, b: Seq<Op>)
    requires
        ops::in_order(a),
        ops::in_order(b),
        lane_file::numbered(a),
        lane_file::numbered(b),
        forall|op: Op| #[trigger] a.contains(op) <==> b.contains(op),
    ensures
        a == b,
    decreases a.len(),
{
    if a.len() == 0 {
        if b.len() > 0 {
            assert(b.contains(b[0]));
            assert(a.contains(b[0]));
        }
        assert(a =~= b);
    } else {
        assert(a.contains(a[0]));
        assert(b.contains(a[0]));
        let k = choose|k: int| 0 <= k < b.len() && b[k] == a[0];
        assert(b.contains(b[0]));
        assert(a.contains(b[0]));
        let m = choose|m: int| 0 <= m < a.len() && a[m] == b[0];
        assert(a[0] == b[0]) by {
            if k > 0 && m > 0 {
                assert(a[0].id != a[m].id);
                lemma_before_total(a[0], b[0]);
                assert(!ops::op_before(a[m], a[0]));
                assert(!ops::op_before(b[k], b[0]));
            }
        }
        let x = a.drop_first();
        let y = b.drop_first();
        assert(forall|i: int| 0 <= i < x.len() ==> x[i] == a[i + 1]);
        assert(forall|i: int| 0 <= i < y.len() ==> y[i] == b[i + 1]);
        assert forall|op: Op| #[trigger] x.contains(op) <==> y.contains(op) by {
            if x.contains(op) {
                let i = choose|i: int| 0 <= i < x.len() && x[i] == op;
                assert(a[0].id != a[i + 1].id);
                assert(a.contains(op));
                let j = choose|j: int| 0 <= j < b.len() && b[j] == op;
                assert(j > 0);
                assert(y[j - 1] == op);
            }
            if y.contains(op) {
                let j = choose|j: int| 0 <= j < y.len() && y[j] == op;
                assert(b[0].id != b[j + 1].id);
                assert(b.contains(op));
                assert(a.contains(op));
                let i = choose|i: int| 0 <= i < a.len() && a[i] == op;
                assert(i > 0);
                assert(x[i - 1] == op);
            }
        }
        lemma_one_order(x, y);
        assert(a =~= seq![a[0]] + x);
        assert(b =~= seq![b[0]] + y);
    }
}

/// Sorting keeps operations and their different numbers.
proof fn lemma_sorted_numbered(list: Seq<Op>)
    requires
        lane_file::numbered(list),
    ensures
        ops::in_order(ops::sort_ops(list)),
        lane_file::numbered(ops::sort_ops(list)),
        forall|op: Op| #[trigger] ops::sort_ops(list).contains(op) <==> list.contains(op),
{
    let sorted = ops::sort_ops(list);
    ops::lemma_sort_ops(list);
    ops::lemma_sort_ops_multiset(list);
    assert(list.no_duplicates());
    list.lemma_multiset_has_no_duplicates();
    sorted.lemma_multiset_has_no_duplicates_conv();
    assert forall|i: int| 0 <= i < sorted.len() implies 0 <= (#[trigger] sorted[i]).id
        <= u64::MAX by {
        assert(sorted.contains(sorted[i]));
        let k = choose|k: int| 0 <= k < list.len() && list[k] == sorted[i];
        assert(0 <= list[k].id <= u64::MAX);
    }
    assert forall|i: int, j: int| 0 <= i < j < sorted.len() implies (#[trigger] sorted[i]).id != (
    #[trigger] sorted[j]).id by {
        assert(sorted.contains(sorted[i]) && sorted.contains(sorted[j]));
        let k = choose|k: int| 0 <= k < list.len() && list[k] == sorted[i];
        let m = choose|m: int| 0 <= m < list.len() && list[m] == sorted[j];
        assert(sorted[i] != sorted[j]);
        if k < m {
            assert(list[k].id != list[m].id);
        } else {
            assert(list[m].id != list[k].id);
        }
    }
}

/// What a filter keeps of a sorted list is the sorted list of what it keeps.
proof fn lemma_sorted_part(all: Seq<Op>, part: Seq<Op>, keep: spec_fn(Op) -> bool)
    requires
        rebase::tidy(all),
        lane_file::numbered(all),
        lane_file::numbered(part),
        forall|op: Op| #[trigger] part.contains(op) <==> all.contains(op) && keep(op),
    ensures
        all.filter(keep) == ops::sort_ops(part),
{
    broadcast use vstd::seq_lib::group_filter_ensures;

    let kept = all.filter(keep);
    rebase::lemma_filter_tidy(all, keep, 0);
    upkeep::lemma_filter_numbered(all, keep);
    lemma_sorted_numbered(part);
    assert forall|op: Op| #[trigger] kept.contains(op) <==> ops::sort_ops(part).contains(op) by {
        if kept.contains(op) {
            let i = choose|i: int| 0 <= i < kept.len() && kept[i] == op;
            rebase::lemma_filter_elements(all, keep);
            assert(keep(kept[i]) && all.contains(kept[i]));
            assert(part.contains(op));
        }
        if ops::sort_ops(part).contains(op) {
            assert(part.contains(op));
            let i = choose|i: int| 0 <= i < all.len() && all[i] == op;
            all.lemma_filter_contains(keep, i);
        }
    }
    lemma_one_order(kept, ops::sort_ops(part));
}

/// The operations of a lane, as they are applied, have keys that increase.
pub open spec fn keys_increase(list: Seq<Op>) -> bool {
    let sorted = ops::sort_ops(list);
    forall|i: int, j: int|
        0 <= i < j < sorted.len() ==> text::text_lt(
            (#[trigger] sorted[i]).key,
            (#[trigger] sorted[j]).key,
        )
}

/// Rebasing does not depend on the order in which the promoted operations are held.
proof fn lemma_rebased_sorted(lane: Seq<char>, retained: Seq<Op>, promoted: Seq<Op>)
    ensures
        rebase::rebased(lane, retained, lane, promoted) == rebase::rebased(
            lane,
            retained,
            lane,
            ops::sort_ops(promoted),
        ),
{
    let sorted = ops::sort_ops(promoted);
    assert forall|op: Op| #[trigger] rebase::rebased_start(lane, op, lane, promoted)
        == rebase::rebased_start(lane, op, lane, sorted) by {
        rebase::lemma_sum_sorted(promoted, rebase::shift_by(lane, op, lane));
    }
    assert(rebase::rebased(lane, retained, lane, promoted) =~= rebase::rebased(
        lane,
        retained,
        lane,
        sorted,
    ));
}

/// Sorting and rebasing can be exchanged where the rebased operations are in order.
proof fn lemma_sort_of_rebased(lane: Seq<char>, retained: Seq<Op>, promoted: Seq<Op>)
    requires
        lane_file::numbered(retained),
        ops::in_order(rebase::rebased(lane, ops::sort_ops(retained), lane, promoted)),
    ensures
        ops::sort_ops(rebase::rebased(lane, retained, lane, promoted)) == rebase::rebased(
            lane,
            ops::sort_ops(retained),
            lane,
            promoted,
        ),
{
    let sorted = ops::sort_ops(retained);
    let moved = rebase::rebased(lane, retained, lane, promoted);
    let wanted = rebase::rebased(lane, sorted, lane, promoted);
    lemma_sorted_numbered(retained);
    assert(lane_file::numbered(moved)) by {
        assert(forall|i: int| 0 <= i < moved.len() ==> moved[i].id == retained[i].id);
    }
    assert(lane_file::numbered(wanted)) by {
        assert(forall|i: int| 0 <= i < wanted.len() ==> wanted[i].id == sorted[i].id);
    }
    lemma_sorted_numbered(moved);
    assert forall|op: Op| #[trigger] ops::sort_ops(moved).contains(op) <==> wanted.contains(op) by {
        if moved.contains(op) {
            let i = choose|i: int| 0 <= i < moved.len() && moved[i] == op;
            assert(retained.contains(retained[i]));
            assert(sorted.contains(retained[i]));
            let j = choose|j: int| 0 <= j < sorted.len() && sorted[j] == retained[i];
            assert(wanted[j] == op);
        }
        if wanted.contains(op) {
            let j = choose|j: int| 0 <= j < wanted.len() && wanted[j] == op;
            assert(sorted.contains(sorted[j]));
            assert(retained.contains(sorted[j]));
            let i = choose|i: int| 0 <= i < retained.len() && retained[i] == sorted[j];
            assert(moved[i] == op);
        }
    }
    lemma_one_order(ops::sort_ops(moved), wanted);
}

/// Where some operations of a lane are promoted, rebasing the others gives operations that turn
/// the new base into what all of them made of the old one. Only their places change. The order in
/// which the two parts are held does not matter.
pub proof fn law_rebasing_the_rest_keeps_the_view(
    path: Seq<char>,
    lane: Seq<char>,
    base: Seq<u8>,
    promoted: Seq<Op>,
    rest: Seq<Op>,
    full: Seq<u8>,
    next: Seq<u8>,
)
    requires
        base.len() <= usize::MAX,
        next.len() <= usize::MAX,
        forall|i: int|
            0 <= i < promoted.len() ==> 0 <= (#[trigger] promoted[i]).start && 0 <= promoted[i].len,
        forall|i: int| 0 <= i < rest.len() ==> 0 <= (#[trigger] rest[i]).start && 0 <= rest[i].len,
        lane_file::numbered(promoted + rest),
        keys_increase(promoted + rest),
        ops::rendered(path, base, promoted + rest) == Ok::<Seq<u8>, LaneErrorView>(full),
        ops::rendered(path, base, promoted) == Ok::<Seq<u8>, LaneErrorView>(next),
    ensures
        ({
            let outcome = rebase::rebase_result(path, lane, rest, lane, promoted);
            let moved = outcome->Ok_0;
            &&& outcome is Ok
            &&& moved.len() == rest.len()
            &&& forall|i: int|
                0 <= i < rest.len() ==> #[trigger] moved[i] == rest[i].at(moved[i].start)
            &&& ops::rendered(path, next, moved) == Ok::<Seq<u8>, LaneErrorView>(full)
        }),
{
    let n = base.len() as int;
    let both = promoted + rest;
    let all = ops::sort_ops(both);
    let s = ops::sort_ops(promoted);
    let r = ops::sort_ops(rest);
    assert forall|i: int| 0 <= i < both.len() implies 0 <= (#[trigger] both[i]).start && 0
        <= both[i].len by {
        if i < promoted.len() {
            assert(both[i] == promoted[i]);
        } else {
            assert(both[i] == rest[i - promoted.len()]);
        }
    }
    conflict::lemma_rendered_ok(path, base, both);
    conflict::lemma_sort_apart(both);
    conflict::lemma_sort_within(both, n);
    lemma_sorted_numbered(both);
    assert(rebase::tidy(all)) by {
        assert(forall|i: int| 0 <= i < all.len() ==> 0 <= (#[trigger] all[i]).start);
    }
    assert forall|i: int, j: int|
        0 <= i < promoted.len() && 0 <= j < rest.len() implies promoted[i].id != rest[j].id by {
        assert(both[i].id != both[promoted.len() + j].id);
    }
    assert(lane_file::numbered(promoted)) by {
        assert(forall|i: int| 0 <= i < promoted.len() ==> promoted[i] == both[i]);
    }
    assert(lane_file::numbered(rest)) by {
        assert(forall|i: int| 0 <= i < rest.len() ==> rest[i] == both[promoted.len() + i]);
    }
    let chosen = |op: Op| promoted.contains(op);
    let others = |op: Op| !promoted.contains(op);
    assert forall|op: Op| #[trigger] promoted.contains(op) <==> all.contains(op) && chosen(op) by {
        if promoted.contains(op) {
            let i = choose|i: int| 0 <= i < promoted.len() && promoted[i] == op;
            assert(both[i] == op);
            assert(both.contains(op));
        }
    }
    assert forall|op: Op| #[trigger] rest.contains(op) <==> all.contains(op) && others(op) by {
        if rest.contains(op) {
            let j = choose|j: int| 0 <= j < rest.len() && rest[j] == op;
            assert(both[promoted.len() + j] == op);
            assert(both.contains(op));
            if promoted.contains(op) {
                let i = choose|i: int| 0 <= i < promoted.len() && promoted[i] == op;
                assert(promoted[i].id != rest[j].id);
            }
        }
        if all.contains(op) && others(op) {
            assert(both.contains(op));
            let k = choose|k: int| 0 <= k < both.len() && both[k] == op;
            if k < promoted.len() {
                assert(promoted[k] == op);
            } else {
                assert(rest[k - promoted.len()] == op);
            }
        }
    }
    lemma_sorted_part(all, promoted, chosen);
    lemma_sorted_part(all, rest, others);
    rebase::lemma_split_tidy(all, chosen, others, n);
    rebase::lemma_merge_of_split(lane, all, chosen, others);
    ops::lemma_sort_ops_of_sorted(s);
    assert(ops::rendered(path, base, s) == ops::rendered(path, base, promoted));
    assert(next == ops::render_from(base, 0, s));
    rebase::lemma_edits_compose(path, base, lane, r, lane, s);
    rebase::lemma_rebased_tidy(lane, r, lane, s, n);
    lemma_rebased_sorted(lane, rest, promoted);
    lemma_sort_of_rebased(lane, rest, s);
    let moved = rebase::rebased(lane, rest, lane, promoted);
    let wanted = rebase::rebased(lane, r, lane, s);
    ops::lemma_sort_ops_of_sorted(wanted);
    assert(ops::sort_ops(moved) == wanted);
    rebase::lemma_rebased_fits(lane, r, lane, s, n);
    conflict::lemma_no_fault(s, 0, n);
    rebase::lemma_render_len(base, 0, s);
    lemma_sorted_numbered(rest);
    assert forall|i: int| 0 <= i < rest.len() implies 0 <= rebase::rebased_start(
        lane,
        #[trigger] rest[i],
        lane,
        promoted,
    ) <= u64::MAX by {
        assert(rest.contains(rest[i]));
        assert(r.contains(rest[i]));
        let j = choose|j: int| 0 <= j < r.len() && r[j] == rest[i];
        assert(0 <= wanted[j].start && wanted[j].end() <= next.len());
        rebase::lemma_sum_sorted(promoted, rebase::shift_by(lane, rest[i], lane));
    }
}

} // verus!
