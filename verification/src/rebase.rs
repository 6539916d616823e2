//! Moving operations onto a base that other operations have changed.
use vstd::prelude::*;

use crate::conflict;
use crate::ops;
use crate::ops::{FileOp, Op};
use crate::text;
use crate::text::{text_order, TextOrder};
use crate::types::{LaneError, LaneErrorView};

verus! {

/// Operations and the lane they belong to.
#[derive(Clone, Copy)]
pub struct RebaseOpSet<'a> {
    pub lane: &'a str,
    pub ops: &'a Vec<FileOp>,
}

/// The order in which operations of several lanes are applied: by position, length and key, then
/// by lane, then by number.
pub open spec fn before_across(a_lane: Seq<char>, a: Op, b_lane: Seq<char>, b: Op) -> bool {
    a.start < b.start || (a.start == b.start && (a.len < b.len || (a.len == b.len && (text::text_lt(
        a.key,
        b.key,
    ) || (a.key == b.key && (text::text_lt(a_lane, b_lane) || (a_lane == b_lane && a.id < b.id)))))))
}

/// Whether a promoted operation moves the position of a retained one: an insertion moves what is
/// applied after it, and a range moves what lies behind it.
pub open spec fn shifts(retained_lane: Seq<char>, op: Op, promoted_lane: Seq<char>, promoted: Op) -> bool {
    if promoted.len == 0 {
        promoted.start < op.start || (promoted.start == op.start && before_across(
            promoted_lane,
            promoted,
            retained_lane,
            op,
        ))
    } else {
        promoted.end() <= op.start
    }
}

/// By how much an operation lengthens the file.
pub open spec fn growth(op: Op) -> int {
    op.inserted.len() - op.len
}

/// By how much a promoted operation moves a retained one.
pub open spec fn shift_by(retained_lane: Seq<char>, op: Op, promoted_lane: Seq<char>) -> spec_fn(
    Op,
) -> int {
    |promoted: Op|
        if shifts(retained_lane, op, promoted_lane, promoted) {
            growth(promoted)
        } else {
            0
        }
}

/// The sum of a quantity over operations.
pub open spec fn sum_by(list: Seq<Op>, f: spec_fn(Op) -> int) -> int
    decreases list.len(),
{
    if list.len() == 0 {
        0
    } else {
        f(list[0]) + sum_by(list.drop_first(), f)
    }
}

/// The position of a retained operation in the promoted file.
pub open spec fn rebased_start(
    retained_lane: Seq<char>,
    op: Op,
    promoted_lane: Seq<char>,
    promoted: Seq<Op>,
) -> int {
    op.start + sum_by(promoted, shift_by(retained_lane, op, promoted_lane))
}

/// The retained operations at their positions in the promoted file.
pub open spec fn rebased(
    retained_lane: Seq<char>,
    retained: Seq<Op>,
    promoted_lane: Seq<char>,
    promoted: Seq<Op>,
) -> Seq<Op> {
    retained.map_values(
        |op: Op| op.at(rebased_start(retained_lane, op, promoted_lane, promoted)),
    )
}

/// Some retained operation would get a position that is none.
pub open spec fn rebase_overflows(
    retained_lane: Seq<char>,
    retained: Seq<Op>,
    promoted_lane: Seq<char>,
    promoted: Seq<Op>,
) -> bool {
    exists|i: int|
        0 <= i < retained.len() && !(0 <= rebased_start(
            retained_lane,
            #[trigger] retained[i],
            promoted_lane,
            promoted,
        ) <= u64::MAX)
}

/// The retained operations in the promoted file, or the error where a position is none.
pub open spec fn rebase_result(
    path: Seq<char>,
    retained_lane: Seq<char>,
    retained: Seq<Op>,
    promoted_lane: Seq<char>,
    promoted: Seq<Op>,
) -> Result<Seq<Op>, LaneErrorView> {
    if rebase_overflows(retained_lane, retained, promoted_lane, promoted) {
        Err(LaneErrorView::OperationOutOfBounds(path))
    } else {
        Ok(rebased(retained_lane, retained, promoted_lane, promoted))
    }
}

/// Whether `a` is applied before `b`, across lanes.
pub fn compare_ops_for_render(a_lane: &str, a: &FileOp, b_lane: &str, b: &FileOp) -> (r: bool)
    ensures
        r == before_across(a_lane@, a@, b_lane@, b@),
{
    if a.base_start != b.base_start {
        return a.base_start < b.base_start;
    }
    if a.base_len != b.base_len {
        return a.base_len < b.base_len;
    }
    proof {
        text::lemma_text_lt_irreflexive(a.order_key@);
        text::lemma_text_lt_irreflexive(a_lane@);
    }
    match text_order(a.order_key.as_str(), b.order_key.as_str()) {
        TextOrder::Before => {
            true
        },
        TextOrder::After => {
            false
        },
        TextOrder::Same => {
            match text_order(a_lane, b_lane) {
                TextOrder::Before => {
                    true
                },
                TextOrder::After => {
                    false
                },
                TextOrder::Same => {
                    a.id < b.id
                },
            }
        },
    }
}

/// Whether a promoted operation moves the position of a retained one.
pub fn promoted_op_shifts_start(
    retained_lane: &str,
    op: &FileOp,
    promoted_lane: &str,
    promoted_op: &FileOp,
) -> (r: bool)
    ensures
        r == shifts(retained_lane@, op@, promoted_lane@, promoted_op@),
{
    if promoted_op.base_len == 0 {
        promoted_op.base_start < op.base_start || (promoted_op.base_start == op.base_start
            && compare_ops_for_render(promoted_lane, promoted_op, retained_lane, op))
    } else {
        promoted_op.base_len <= op.base_start && promoted_op.base_start <= op.base_start
            - promoted_op.base_len
    }
}

/// The position of one retained operation in the promoted file, if it is one.
fn rebase_start(retained_lane: &str, op: &FileOp, promoted: RebaseOpSet<'_>) -> (r: Option<u64>)
    ensures
        match r {
            Some(start) => start == rebased_start(
                retained_lane@,
                op@,
                promoted.lane@,
                ops::ops_view(promoted.ops@),
            ),
            None => !(0 <= rebased_start(
                retained_lane@,
                op@,
                promoted.lane@,
                ops::ops_view(promoted.ops@),
            ) <= u64::MAX),
        },
{
    let ghost all = ops::ops_view(promoted.ops@);
    let ghost f = shift_by(retained_lane@, op@, promoted.lane@);
    let mut added: u128 = 0;
    let mut removed: u128 = 0;
    let mut i: usize = 0;
    assert(all.subrange(0, all.len() as int) =~= all);
    while i < promoted.ops.len()
        invariant
            i <= promoted.ops@.len(),
            all == ops::ops_view(promoted.ops@),
            f == shift_by(retained_lane@, op@, promoted.lane@),
            added <= i * 0xffff_ffff_ffff_ffff,
            removed <= i * 0xffff_ffff_ffff_ffff,
            sum_by(all, f) == added - removed + sum_by(all.subrange(i as int, all.len() as int), f),
        decreases promoted.ops@.len() - i,
    {
        let promoted_op = &promoted.ops[i];
        proof {
            let rest = all.subrange(i as int, all.len() as int);
            assert(rest[0] == promoted_op@);
            assert(rest.drop_first() =~= all.subrange(i + 1, all.len() as int));
        }
        if promoted_op_shifts_start(retained_lane, op, promoted.lane, promoted_op) {
            added = added + promoted_op.inserted.len() as u128;
            removed = removed + promoted_op.base_len as u128;
        }
        i = i + 1;
    }
    let reached: u128 = op.base_start as u128 + added;
    if reached < removed || reached - removed > 0xffff_ffff_ffff_ffff {
        None
    } else {
        Some((reached - removed) as u64)
    }
}

/// Moves the retained operations onto the file that the promoted operations made.
pub fn rebase_ops_after_promotion(
    path: &str,
    retained: RebaseOpSet<'_>,
    promoted: RebaseOpSet<'_>,
) -> (r: Result<Vec<FileOp>, LaneError>)
    ensures
        match r {
            Ok(moved) => rebase_result(
                path@,
                retained.lane@,
                ops::ops_view(retained.ops@),
                promoted.lane@,
                ops::ops_view(promoted.ops@),
            ) == Ok::<Seq<Op>, LaneErrorView>(ops::ops_view(moved@)),
            Err(error) => rebase_result(
                path@,
                retained.lane@,
                ops::ops_view(retained.ops@),
                promoted.lane@,
                ops::ops_view(promoted.ops@),
            ) == Err::<Seq<Op>, LaneErrorView>(error@),
        },
{
    let ghost kept = ops::ops_view(retained.ops@);
    let ghost all = ops::ops_view(promoted.ops@);
    let mut moved: Vec<FileOp> = Vec::new();
    let mut i: usize = 0;
    while i < retained.ops.len()
        invariant
            i <= retained.ops@.len(),
            kept == ops::ops_view(retained.ops@),
            all == ops::ops_view(promoted.ops@),
            moved@.len() == i,
            forall|k: int|
                0 <= k < i ==> (#[trigger] moved@[k])@ == kept[k].at(
                    rebased_start(retained.lane@, kept[k], promoted.lane@, all),
                ) && 0 <= rebased_start(retained.lane@, kept[k], promoted.lane@, all) <= u64::MAX,
        decreases retained.ops@.len() - i,
    {
        let op = &retained.ops[i];
        assert(kept[i as int] == op@);
        match rebase_start(retained.lane, op, promoted) {
            Some(start) => {
                let mut copy = op.copy();
                assert(copy@ == op@);
                copy.base_start = start;
                assert(copy@ =~= op@.at(start as int));
                moved.push(copy);
            },
            None => {
                return Err(LaneError::OperationOutOfBounds { path: path.to_owned() });
            },
        }
        i = i + 1;
    }
    proof {
        assert forall|k: int| 0 <= k < kept.len() implies 0 <= rebased_start(
            retained.lane@,
            #[trigger] kept[k],
            promoted.lane@,
            all,
        ) <= u64::MAX by {
            assert(moved@[k]@.start == rebased_start(retained.lane@, kept[k], promoted.lane@, all));
        }
        assert(ops::ops_view(moved@) =~= rebased(retained.lane@, kept, promoted.lane@, all));
    }
    Ok(moved)
}

proof fn lemma_sum_insert(list: Seq<Op>, at: int, op: Op, f: spec_fn(Op) -> int)
    requires
        0 <= at <= list.len(),
    ensures
        sum_by(list.insert(at, op), f) == sum_by(list, f) + f(op),
    decreases list.len(),
{
    let longer = list.insert(at, op);
    if at == 0 {
        assert(longer.drop_first() =~= list);
    } else {
        lemma_sum_insert(list.drop_first(), at - 1, op, f);
        assert(longer.drop_first() =~= list.drop_first().insert(at - 1, op));
    }
}

/// Sorting does not change a sum.
pub proof fn lemma_sum_sorted(list: Seq<Op>, f: spec_fn(Op) -> int)
    ensures
        sum_by(ops::sort_ops(list), f) == sum_by(list, f),
    decreases list.len(),
{
    if list.len() > 0 {
        let rest = list.drop_last();
        let op = list.last();
        lemma_sum_sorted(rest, f);
        let at = conflict::lemma_insert_op_place(ops::sort_ops(rest), op);
        lemma_sum_insert(ops::sort_ops(rest), at, op, f);
        lemma_sum_insert(rest, rest.len() as int, op, f);
        assert(rest.insert(rest.len() as int, op) =~= list);
    }
}

proof fn lemma_sum_difference(
    list: Seq<Op>,
    f: spec_fn(Op) -> int,
    g: spec_fn(Op) -> int,
    h: spec_fn(Op) -> int,
)
    requires
        forall|op: Op| #[trigger] h(op) == f(op) - g(op),
    ensures
        sum_by(list, h) == sum_by(list, f) - sum_by(list, g),
    decreases list.len(),
{
    if list.len() > 0 {
        lemma_sum_difference(list.drop_first(), f, g, h);
        assert(h(list[0]) == f(list[0]) - g(list[0]));
    }
}

/// Ranges that follow each other inside `lo..hi` and not before `from` take no more room than
/// there is, so a quantity that is negative only for them, and then by no more than their length,
/// sums up to no less than that.
proof fn lemma_packed_sum(list: Seq<Op>, g: spec_fn(Op) -> int, lo: int, hi: int, from: int)
    requires
        ops::in_order(list),
        conflict::all_apart(list),
        forall|i: int|
            0 <= i < list.len() ==> {
                &&& from <= (#[trigger] list[i]).start
                &&& 0 <= list[i].len
                &&& g(list[i]) >= 0 || (lo <= list[i].start && list[i].end() <= hi && g(list[i])
                    >= -list[i].len)
            },
    ensures
        ({
            let begin = if lo > from {
                lo
            } else {
                from
            };
            sum_by(list, g) >= -(if hi > begin {
                hi - begin
            } else {
                0
            })
        }),
    decreases list.len(),
{
    if list.len() > 0 {
        let op = list[0];
        let rest = list.drop_first();
        conflict::lemma_drop_first(list, 0);
        assert forall|i: int| 0 <= i < rest.len() implies {
            &&& op.end() <= (#[trigger] rest[i]).start
            &&& 0 <= rest[i].len
            &&& g(rest[i]) >= 0 || (lo <= rest[i].start && rest[i].end() <= hi && g(rest[i])
                >= -rest[i].len)
        } by {
            assert(rest[i] == list[i + 1]);
            assert(conflict::apart(list[0], list[i + 1]));
            assert(!ops::op_before(list[i + 1], list[0]));
            conflict::lemma_ordered_apart(list[0], list[i + 1]);
        }
        lemma_packed_sum(rest, g, lo, hi, op.end());
        assert(g(list[0]) >= 0 || (lo <= list[0].start && list[0].end() <= hi && g(list[0])
            >= -list[0].len));
    }
}

/// In one lane the order across lanes is the order inside the lane.
pub proof fn lemma_before_same_lane(lane: Seq<char>, a: Op, b: Op)
    ensures
        before_across(lane, a, lane, b) == ops::op_before(a, b),
{
    text::lemma_text_lt_irreflexive(lane);
}

/// An operation of one lane that comes before one of another lane also comes before everything
/// that does not come before the latter.
proof fn lemma_before_later(p_lane: Seq<char>, p: Op, r_lane: Seq<char>, a: Op, b: Op)
    requires
        before_across(p_lane, p, r_lane, a),
        !ops::op_before(b, a),
    ensures
        before_across(p_lane, p, r_lane, b),
{
    text::lemma_text_lt_total(a.key, b.key);
    if text::text_lt(p.key, a.key) && text::text_lt(a.key, b.key) {
        text::lemma_text_lt_transitive(p.key, a.key, b.key);
    }
}

/// What does not come after an operation of its lane comes before whatever that one comes before.
proof fn lemma_earlier_before(p_lane: Seq<char>, p: Op, q: Op, r_lane: Seq<char>, b: Op)
    requires
        before_across(p_lane, q, r_lane, b),
        !ops::op_before(q, p),
    ensures
        before_across(p_lane, p, r_lane, b),
{
    text::lemma_text_lt_total(p.key, q.key);
    if text::text_lt(p.key, q.key) && text::text_lt(q.key, b.key) {
        text::lemma_text_lt_transitive(p.key, q.key, b.key);
    }
}

/// For operations that are apart, moving is the same as coming before.
proof fn lemma_shifts_is_before(r_lane: Seq<char>, r: Op, p_lane: Seq<char>, p: Op)
    requires
        conflict::apart(p, r),
        0 <= p.len,
        0 <= r.len,
    ensures
        shifts(r_lane, r, p_lane, p) == before_across(p_lane, p, r_lane, r),
        before_across(p_lane, p, r_lane, r) ==> p.end() <= r.start,
        !before_across(p_lane, p, r_lane, r) ==> r.end() <= p.start,
{
}

/// Two retained operations in order: the second begins after the first in the promoted file too.
proof fn lemma_rebased_pair(
    r_lane: Seq<char>,
    a: Op,
    b: Op,
    p_lane: Seq<char>,
    promoted: Seq<Op>,
)
    requires
        conflict::apart(a, b),
        !ops::op_before(b, a),
        0 <= a.start,
        0 <= a.len,
        0 <= b.len,
        conflict::all_apart(promoted),
        forall|i: int|
            0 <= i < promoted.len() ==> {
                &&& conflict::apart(#[trigger] promoted[i], a)
                &&& conflict::apart(promoted[i], b)
                &&& 0 <= promoted[i].start
                &&& 0 <= promoted[i].len
            },
    ensures
        rebased_start(r_lane, a, p_lane, promoted) + a.len <= rebased_start(
            r_lane,
            b,
            p_lane,
            promoted,
        ),
{
    let sorted = ops::sort_ops(promoted);
    let f = shift_by(r_lane, b, p_lane);
    let g = shift_by(r_lane, a, p_lane);
    let h = |op: Op| f(op) - g(op);
    ops::lemma_sort_ops(promoted);
    conflict::lemma_sort_apart(promoted);
    lemma_sum_sorted(promoted, f);
    lemma_sum_sorted(promoted, g);
    lemma_sum_difference(sorted, f, g, h);
    conflict::lemma_ordered_apart(a, b);
    let from = 0int;
    assert forall|i: int| 0 <= i < sorted.len() implies {
        &&& from <= (#[trigger] sorted[i]).start
        &&& 0 <= sorted[i].len
        &&& h(sorted[i]) >= 0 || (a.end() <= sorted[i].start && sorted[i].end() <= b.start && h(
            sorted[i],
        ) >= -sorted[i].len)
    } by {
        let p = sorted[i];
        assert(sorted.contains(p));
        let k = choose|k: int| 0 <= k < promoted.len() && promoted[k] == p;
        assert(conflict::apart(promoted[k], a));
        lemma_shifts_is_before(r_lane, a, p_lane, p);
        lemma_shifts_is_before(r_lane, b, p_lane, p);
        if before_across(p_lane, p, r_lane, a) {
            lemma_before_later(p_lane, p, r_lane, a, b);
        }
    }
    lemma_packed_sum(sorted, h, a.end(), b.start, from);
}

/// Retained operations that are apart from the promoted ones can be applied to the promoted file:
/// they lie inside it, and they are apart from each other as before.
pub proof fn lemma_rebased_fits(
    r_lane: Seq<char>,
    retained: Seq<Op>,
    p_lane: Seq<char>,
    promoted: Seq<Op>,
    len: int,
)
    requires
        conflict::all_within(promoted, len),
        conflict::all_apart(promoted),
        conflict::all_within(retained, len),
        conflict::all_apart(retained),
        conflict::lists_apart(promoted, retained),
    ensures
        conflict::all_within(
            rebased(r_lane, retained, p_lane, promoted),
            len + sum_by(promoted, |op: Op| growth(op)),
        ),
        conflict::all_apart(rebased(r_lane, retained, p_lane, promoted)),
{
    let moved = rebased(r_lane, retained, p_lane, promoted);
    let new_len = len + sum_by(promoted, |op: Op| growth(op));
    assert forall|i: int, j: int| 0 <= i < j < moved.len() implies conflict::apart(
        #[trigger] moved[i],
        #[trigger] moved[j],
    ) by {
        let a = retained[i];
        let b = retained[j];
        assert(conflict::apart(a, b));
        assert forall|k: int| 0 <= k < promoted.len() implies {
            &&& conflict::apart(#[trigger] promoted[k], a)
            &&& conflict::apart(promoted[k], b)
            &&& 0 <= promoted[k].start
            &&& 0 <= promoted[k].len
        } by {}
        if !ops::op_before(b, a) {
            lemma_rebased_pair(r_lane, a, b, p_lane, promoted);
        } else {
            ops::lemma_op_before_asymmetric(b, a);
            lemma_rebased_pair(r_lane, b, a, p_lane, promoted);
        }
    }
    assert forall|i: int| 0 <= i < moved.len() implies 0 <= (#[trigger] moved[i]).start && 0
        <= moved[i].len && moved[i].end() <= new_len by {
        lemma_rebased_bounds(r_lane, retained[i], p_lane, promoted, len);
    }
}

/// A retained operation stays inside the promoted file.
proof fn lemma_rebased_bounds(
    r_lane: Seq<char>,
    r: Op,
    p_lane: Seq<char>,
    promoted: Seq<Op>,
    len: int,
)
    requires
        conflict::all_within(promoted, len),
        conflict::all_apart(promoted),
        0 <= r.start,
        0 <= r.len,
        r.end() <= len,
        forall|i: int| 0 <= i < promoted.len() ==> conflict::apart(#[trigger] promoted[i], r),
    ensures
        0 <= rebased_start(r_lane, r, p_lane, promoted),
        rebased_start(r_lane, r, p_lane, promoted) + r.len <= len + sum_by(
            promoted,
            |op: Op| growth(op),
        ),
{
    let sorted = ops::sort_ops(promoted);
    let f = |op: Op| growth(op);
    let g = shift_by(r_lane, r, p_lane);
    let h = |op: Op| f(op) - g(op);
    ops::lemma_sort_ops(promoted);
    conflict::lemma_sort_apart(promoted);
    conflict::lemma_sort_within(promoted, len);
    lemma_sum_sorted(promoted, f);
    lemma_sum_sorted(promoted, g);
    lemma_sum_difference(sorted, f, g, h);
    assert forall|i: int| 0 <= i < sorted.len() implies {
        &&& 0 <= (#[trigger] sorted[i]).start
        &&& 0 <= sorted[i].len
        &&& g(sorted[i]) >= 0 || (0 <= sorted[i].start && sorted[i].end() <= r.start && g(sorted[i])
            >= -sorted[i].len)
        &&& h(sorted[i]) >= 0 || (r.end() <= sorted[i].start && sorted[i].end() <= len && h(
            sorted[i],
        ) >= -sorted[i].len)
    } by {
        let p = sorted[i];
        assert(sorted.contains(p));
        let k = choose|k: int| 0 <= k < promoted.len() && promoted[k] == p;
        assert(conflict::apart(promoted[k], r));
        lemma_shifts_is_before(r_lane, r, p_lane, p);
    }
    lemma_packed_sum(sorted, g, 0, r.start, 0);
    lemma_packed_sum(sorted, h, r.end(), len, 0);
}

/// The length of a rendered file.
pub proof fn lemma_render_len(base: Seq<u8>, cursor: int, list: Seq<Op>)
    requires
        0 <= cursor <= base.len(),
        ops::render_fault(base.len() as int, cursor, list) is None,
        forall|i: int| 0 <= i < list.len() ==> 0 <= (#[trigger] list[i]).start && 0 <= list[i].len,
    ensures
        ops::render_from(base, cursor, list).len() == base.len() - cursor + sum_by(
            list,
            |op: Op| growth(op),
        ),
    decreases list.len(),
{
    if list.len() > 0 {
        let rest = list.drop_first();
        assert(forall|i: int| 0 <= i < rest.len() ==> rest[i] == list[i + 1]);
        lemma_render_len(base, list[0].end(), rest);
    }
}

/// The operations of two lanes in the order in which they are applied.
pub open spec fn merged(a_lane: Seq<char>, a: Seq<Op>, b_lane: Seq<char>, b: Seq<Op>) -> Seq<Op>
    decreases a.len() + b.len(),
{
    if a.len() == 0 {
        b
    } else if b.len() == 0 {
        a
    } else if before_across(a_lane, a[0], b_lane, b[0]) {
        seq![a[0]] + merged(a_lane, a.drop_first(), b_lane, b)
    } else {
        seq![b[0]] + merged(a_lane, a, b_lane, b.drop_first())
    }
}

/// Operations moved by a distance.
pub open spec fn moved_by(list: Seq<Op>, distance: int) -> Seq<Op> {
    list.map_values(|op: Op| op.at(op.start + distance))
}

/// Bytes in front of the base move everything along.
proof fn lemma_render_behind(front: Seq<u8>, base: Seq<u8>, cursor: int, list: Seq<Op>)
    requires
        0 <= cursor <= base.len(),
        ops::render_fault(base.len() as int, cursor, list) is None,
        forall|i: int| 0 <= i < list.len() ==> 0 <= (#[trigger] list[i]).start && 0 <= list[i].len,
    ensures
        ops::render_from(front + base, front.len() + cursor, moved_by(list, front.len() as int))
            == ops::render_from(base, cursor, list),
    decreases list.len(),
{
    let whole = front + base;
    let k = front.len() as int;
    let moved = moved_by(list, k);
    if list.len() == 0 {
        assert(whole.subrange(k + cursor, whole.len() as int) =~= base.subrange(
            cursor,
            base.len() as int,
        ));
    } else {
        let rest = list.drop_first();
        assert(forall|i: int| 0 <= i < rest.len() ==> rest[i] == list[i + 1]);
        lemma_render_behind(front, base, list[0].end(), rest);
        assert(moved.drop_first() =~= moved_by(rest, k));
        assert(whole.subrange(k + cursor, moved[0].start) =~= base.subrange(cursor, list[0].start));
    }
}

/// Starting later leaves out the bytes in between.
proof fn lemma_render_later(base: Seq<u8>, from: int, to: int, list: Seq<Op>)
    requires
        0 <= from <= to <= base.len(),
        list.len() > 0 ==> to <= list[0].start <= base.len(),
    ensures
        ops::render_from(base, from, list) == base.subrange(from, to) + ops::render_from(base, to, list),
{
    if list.len() == 0 {
        assert(base.subrange(from, base.len() as int) =~= base.subrange(from, to) + base.subrange(
            to,
            base.len() as int,
        ));
    } else {
        assert(base.subrange(from, list[0].start) =~= base.subrange(from, to) + base.subrange(
            to,
            list[0].start,
        ));
        assert(ops::render_from(base, from, list) =~= base.subrange(from, to) + ops::render_from(
            base,
            to,
            list,
        ));
    }
}

/// Retained operations relative to position `cursor` of the base.
pub open spec fn rebased_from(
    cursor: int,
    r_lane: Seq<char>,
    retained: Seq<Op>,
    p_lane: Seq<char>,
    promoted: Seq<Op>,
) -> Seq<Op> {
    retained.map_values(
        |op: Op| op.at(rebased_start(r_lane, op, p_lane, promoted) - cursor),
    )
}

/// From `cursor` on, applying the promoted operations and then the retained ones where they have
/// moved gives the same bytes as applying both together.
proof fn lemma_compose_from(
    base: Seq<u8>,
    cursor: int,
    r_lane: Seq<char>,
    retained: Seq<Op>,
    p_lane: Seq<char>,
    promoted: Seq<Op>,
)
    requires
        0 <= cursor <= base.len() <= usize::MAX,
        ops::in_order(promoted),
        ops::in_order(retained),
        ops::render_fault(base.len() as int, cursor, promoted) is None,
        ops::render_fault(base.len() as int, cursor, retained) is None,
        conflict::all_within(promoted, base.len() as int),
        conflict::all_within(retained, base.len() as int),
        conflict::lists_apart(promoted, retained),
        ops::render_from(base, cursor, promoted).len() <= usize::MAX,
    ensures
        ops::render_from(
            ops::render_from(base, cursor, promoted),
            0,
            rebased_from(cursor, r_lane, retained, p_lane, promoted),
        ) == ops::render_from(base, cursor, merged(p_lane, promoted, r_lane, retained)),
    decreases promoted.len() + retained.len(),
{
    let n = base.len() as int;
    let file = ops::render_from(base, cursor, promoted);
    let moved = rebased_from(cursor, r_lane, retained, p_lane, promoted);
    conflict::lemma_fault_free(promoted, cursor, n);
    conflict::lemma_fault_free(retained, cursor, n);
    if promoted.len() == 0 {
        let front = base.subrange(0, cursor);
        assert(base =~= front + file);
        assert(moved_by(moved, cursor) =~= retained);
        lemma_no_fault_moved(retained, cursor, n);
        assert(moved =~= moved_by(retained, -cursor));
        lemma_render_behind(front, file, 0, moved);
    } else if retained.len() == 0 {
        assert(file.subrange(0, file.len() as int) =~= file);
    } else if before_across(p_lane, promoted[0], r_lane, retained[0]) {
        let p = promoted[0];
        let rest = promoted.drop_first();
        assert(conflict::apart(promoted[0], retained[0]));
        lemma_shifts_is_before(r_lane, retained[0], p_lane, p);
        conflict::lemma_drop_first(promoted, n);
        let front = base.subrange(cursor, p.start) + p.inserted;
        let later = ops::render_from(base, p.end(), rest);
        assert(file =~= front + later);
        assert(forall|i: int| 0 <= i < rest.len() ==> rest[i] == promoted[i + 1]);
        assert(ops::render_fault(n, p.end(), retained) is None);
        lemma_compose_from(base, p.end(), r_lane, retained, p_lane, rest);
        let relative = rebased_from(p.end(), r_lane, retained, p_lane, rest);
        assert forall|i: int| 0 <= i < retained.len() implies rebased_start(
            r_lane,
            #[trigger] retained[i],
            p_lane,
            promoted,
        ) == rebased_start(r_lane, retained[i], p_lane, rest) + growth(p) by {
            if i > 0 {
                assert(!ops::op_before(retained[i], retained[0]));
                lemma_before_later(p_lane, p, r_lane, retained[0], retained[i]);
            }
            assert(conflict::apart(promoted[0], retained[i]));
            lemma_shifts_is_before(r_lane, retained[i], p_lane, p);
        }
        assert(moved =~= moved_by(relative, front.len() as int));
        lemma_relative_fits(base, p.end(), r_lane, retained, p_lane, rest);
        lemma_render_behind(front, later, 0, relative);
        if moved.len() > 0 {
            assert(moved[0].start == relative[0].start + front.len());
            assert(relative[0].end() <= later.len());
        }
        lemma_render_later(file, 0, front.len() as int, moved);
        assert(file.subrange(0, front.len() as int) =~= front);
        let both = merged(p_lane, promoted, r_lane, retained);
        assert(both.drop_first() =~= merged(p_lane, rest, r_lane, retained));
        assert(ops::render_from(base, cursor, both) =~= front + ops::render_from(
            base,
            p.end(),
            both.drop_first(),
        ));
    } else {
        let r = retained[0];
        let rest = retained.drop_first();
        assert(conflict::apart(promoted[0], retained[0]));
        lemma_shifts_is_before(r_lane, r, p_lane, promoted[0]);
        conflict::lemma_drop_first(retained, n);
        assert(forall|i: int| 0 <= i < rest.len() ==> rest[i] == retained[i + 1]);
        let front = base.subrange(cursor, r.end());
        let later = ops::render_from(base, r.end(), promoted);
        lemma_render_later(base, cursor, r.end(), promoted);
        assert(file =~= front + later);
        assert(ops::render_fault(n, r.end(), promoted) is None);
        lemma_compose_from(base, r.end(), r_lane, rest, p_lane, promoted);
        assert(sum_by(promoted, shift_by(r_lane, r, p_lane)) == 0) by {
            assert forall|i: int| 0 <= i < promoted.len() implies !shifts(
                r_lane,
                r,
                p_lane,
                #[trigger] promoted[i],
            ) by {
                assert(conflict::apart(promoted[i], retained[0]));
                lemma_shifts_is_before(r_lane, r, p_lane, promoted[i]);
                if before_across(p_lane, promoted[i], r_lane, r) {
                    if i > 0 {
                        assert(!ops::op_before(promoted[i], promoted[0]));
                        lemma_earlier_before(p_lane, promoted[0], promoted[i], r_lane, r);
                    }
                }
            }
            lemma_sum_zero(promoted, shift_by(r_lane, r, p_lane));
        }
        let relative = rebased_from(r.end(), r_lane, rest, p_lane, promoted);
        assert(moved[0] == r.at(r.start - cursor));
        assert(moved.drop_first() =~= moved_by(relative, front.len() as int));
        lemma_relative_fits(base, r.end(), r_lane, rest, p_lane, promoted);
        lemma_render_behind(front, later, 0, relative);
        assert(file.subrange(0, r.start - cursor) =~= base.subrange(cursor, r.start));
        let both = merged(p_lane, promoted, r_lane, retained);
        assert(both.drop_first() =~= merged(p_lane, promoted, r_lane, rest));
    }
}

proof fn lemma_sum_zero(list: Seq<Op>, f: spec_fn(Op) -> int)
    requires
        forall|i: int| 0 <= i < list.len() ==> f(#[trigger] list[i]) == 0,
    ensures
        sum_by(list, f) == 0,
    decreases list.len(),
{
    if list.len() > 0 {
        let rest = list.drop_first();
        assert(forall|i: int| 0 <= i < rest.len() ==> rest[i] == list[i + 1]);
        lemma_sum_zero(rest, f);
        assert(f(list[0]) == 0);
    }
}

/// Moving operations towards the front with the base keeps them applicable.
proof fn lemma_no_fault_moved(list: Seq<Op>, cursor: int, len: int)
    requires
        ops::render_fault(len, cursor, list) is None,
        0 <= cursor <= len,
        forall|i: int| 0 <= i < list.len() ==> 0 <= (#[trigger] list[i]).start && 0 <= list[i].len,
    ensures
        ops::render_fault(len - cursor, 0, moved_by(list, -cursor)) is None,
        forall|i: int|
            0 <= i < list.len() ==> 0 <= (#[trigger] moved_by(list, -cursor)[i]).start,
{
    conflict::lemma_fault_free(list, cursor, len);
    lemma_no_fault_moved_from(list, cursor, len, cursor);
}

proof fn lemma_no_fault_moved_from(list: Seq<Op>, cursor: int, len: int, distance: int)
    requires
        ops::render_fault(len, cursor, list) is None,
        0 <= distance <= cursor <= len,
        forall|i: int| 0 <= i < list.len() ==> 0 <= (#[trigger] list[i]).start && 0 <= list[i].len,
    ensures
        ops::render_fault(len - distance, cursor - distance, moved_by(list, -distance)) is None,
    decreases list.len(),
{
    if list.len() > 0 {
        let rest = list.drop_first();
        assert(forall|i: int| 0 <= i < rest.len() ==> rest[i] == list[i + 1]);
        lemma_no_fault_moved_from(rest, list[0].end(), len, distance);
        assert(moved_by(list, -distance).drop_first() =~= moved_by(rest, -distance));
    }
}

/// Retained operations behind `cursor` can be applied to what the promoted ones make of the rest.
proof fn lemma_relative_fits(
    base: Seq<u8>,
    cursor: int,
    r_lane: Seq<char>,
    retained: Seq<Op>,
    p_lane: Seq<char>,
    promoted: Seq<Op>,
)
    requires
        0 <= cursor <= base.len() <= usize::MAX,
        ops::in_order(promoted),
        ops::in_order(retained),
        ops::render_fault(base.len() as int, cursor, promoted) is None,
        ops::render_fault(base.len() as int, cursor, retained) is None,
        conflict::all_within(promoted, base.len() as int),
        conflict::all_within(retained, base.len() as int),
        conflict::lists_apart(promoted, retained),
        ops::render_from(base, cursor, promoted).len() <= usize::MAX,
    ensures
        ({
            let relative = rebased_from(cursor, r_lane, retained, p_lane, promoted);
            let later = ops::render_from(base, cursor, promoted);
            &&& ops::render_fault(later.len() as int, 0, relative) is None
            &&& forall|i: int|
                0 <= i < relative.len() ==> 0 <= (#[trigger] relative[i]).start && 0 <= relative[i].len
                    && relative[i].end() <= later.len()
        }),
{
    let n = base.len() as int;
    let relative = rebased_from(cursor, r_lane, retained, p_lane, promoted);
    let later = ops::render_from(base, cursor, promoted);
    conflict::lemma_fault_free(promoted, cursor, n);
    conflict::lemma_fault_free(retained, cursor, n);
    lemma_render_len(base, cursor, promoted);
    assert forall|i: int| 0 <= i < relative.len() implies 0 <= (#[trigger] relative[i]).start && 0
        <= relative[i].len && relative[i].end() <= later.len() by {
        let r = retained[i];
        lemma_rebased_bounds(r_lane, r, p_lane, promoted, n);
        let g = shift_by(r_lane, r, p_lane);
        assert forall|k: int| 0 <= k < promoted.len() implies {
            &&& cursor <= (#[trigger] promoted[k]).start
            &&& 0 <= promoted[k].len
            &&& g(promoted[k]) >= 0 || (0 <= promoted[k].start && promoted[k].end() <= r.start && g(
                promoted[k],
            ) >= -promoted[k].len)
        } by {
            assert(conflict::apart(promoted[k], retained[i]));
            lemma_shifts_is_before(r_lane, r, p_lane, promoted[k]);
        }
        lemma_packed_sum(promoted, g, 0, r.start, cursor);
    }
    assert forall|i: int, j: int| 0 <= i < j < relative.len() implies (#[trigger] relative[i]).end() <= (
    #[trigger] relative[j]).start by {
        assert(!ops::op_before(retained[j], retained[i]));
        assert(conflict::apart(retained[i], retained[j]));
        assert forall|k: int| 0 <= k < promoted.len() implies {
            &&& conflict::apart(#[trigger] promoted[k], retained[i])
            &&& conflict::apart(promoted[k], retained[j])
            &&& 0 <= promoted[k].start
            &&& 0 <= promoted[k].len
        } by {}
        lemma_rebased_pair(r_lane, retained[i], retained[j], p_lane, promoted);
    }
    lemma_chain_fits(relative, 0, later.len() as int);
}

/// Operations that follow each other inside the base can be applied in that order.
proof fn lemma_chain_fits(list: Seq<Op>, cursor: int, len: int)
    requires
        len <= usize::MAX,
        conflict::all_within(list, len),
        forall|i: int| 0 <= i < list.len() ==> cursor <= (#[trigger] list[i]).start,
        forall|i: int, j: int|
            0 <= i < j < list.len() ==> (#[trigger] list[i]).end() <= (#[trigger] list[j]).start,
    ensures
        ops::render_fault(len, cursor, list) is None,
    decreases list.len(),
{
    if list.len() > 0 {
        let rest = list.drop_first();
        assert(forall|i: int| 0 <= i < rest.len() ==> rest[i] == list[i + 1]);
        assert(list[0].end() <= len);
        lemma_chain_fits(rest, list[0].end(), len);
    }
}

/// Operations as a lane writes them: in order, apart, and with keys that increase.
pub open spec fn tidy(list: Seq<Op>) -> bool {
    &&& ops::in_order(list)
    &&& conflict::all_apart(list)
    &&& forall|i: int, j: int|
        0 <= i < j < list.len() ==> text::text_lt((#[trigger] list[i]).key, (#[trigger] list[j]).key)
    &&& forall|i: int| 0 <= i < list.len() ==> 0 <= (#[trigger] list[i]).start && 0 <= list[i].len
}

/// Rebasing keeps operations tidy.
pub proof fn lemma_rebased_tidy(
    r_lane: Seq<char>,
    retained: Seq<Op>,
    p_lane: Seq<char>,
    promoted: Seq<Op>,
    len: int,
)
    requires
        tidy(retained),
        conflict::all_within(promoted, len),
        conflict::all_apart(promoted),
        conflict::all_within(retained, len),
        conflict::lists_apart(promoted, retained),
    ensures
        tidy(rebased(r_lane, retained, p_lane, promoted)),
{
    let moved = rebased(r_lane, retained, p_lane, promoted);
    lemma_rebased_fits(r_lane, retained, p_lane, promoted, len);
    assert forall|i: int, j: int| 0 <= i < j < moved.len() implies !ops::op_before(
        #[trigger] moved[j],
        #[trigger] moved[i],
    ) by {
        assert(!ops::op_before(retained[j], retained[i]));
        assert(conflict::apart(retained[i], retained[j]));
        assert forall|k: int| 0 <= k < promoted.len() implies {
            &&& conflict::apart(#[trigger] promoted[k], retained[i])
            &&& conflict::apart(promoted[k], retained[j])
            &&& 0 <= promoted[k].start
            &&& 0 <= promoted[k].len
        } by {}
        lemma_rebased_pair(r_lane, retained[i], retained[j], p_lane, promoted);
        assert(text::text_lt(retained[i].key, retained[j].key));
        text::lemma_text_lt_irreflexive(retained[i].key);
        if text::text_lt(retained[j].key, retained[i].key) {
            text::lemma_text_lt_transitive(retained[i].key, retained[j].key, retained[i].key);
        }
    }
    assert forall|i: int, j: int| 0 <= i < j < moved.len() implies text::text_lt(
        (#[trigger] moved[i]).key,
        (#[trigger] moved[j]).key,
    ) by {
        assert(text::text_lt(retained[i].key, retained[j].key));
    }
}

/// Edits that do not touch compose: where the operations of two lanes are apart, applying those of
/// the one to the base and those of the other, where they have moved, to the result gives the same
/// bytes as applying all of them together to the base.
pub proof fn lemma_edits_compose(
    path: Seq<char>,
    base: Seq<u8>,
    r_lane: Seq<char>,
    retained: Seq<Op>,
    p_lane: Seq<char>,
    promoted: Seq<Op>,
)
    requires
        base.len() <= usize::MAX,
        ops::render_from(base, 0, promoted).len() <= usize::MAX,
        tidy(promoted),
        tidy(retained),
        conflict::all_within(promoted, base.len() as int),
        conflict::all_within(retained, base.len() as int),
        conflict::lists_apart(promoted, retained),
    ensures
        ops::rendered(path, base, promoted) is Ok,
        ops::rendered(
            path,
            ops::rendered(path, base, promoted)->Ok_0,
            rebased(r_lane, retained, p_lane, promoted),
        ) == Ok::<Seq<u8>, LaneErrorView>(
            ops::render_from(base, 0, merged(p_lane, promoted, r_lane, retained)),
        ),
{
    let n = base.len() as int;
    let moved = rebased(r_lane, retained, p_lane, promoted);
    let file = ops::render_from(base, 0, promoted);
    ops::lemma_sort_ops_of_sorted(promoted);
    conflict::lemma_no_fault(promoted, 0, n);
    conflict::lemma_no_fault(retained, 0, n);
    lemma_compose_from(base, 0, r_lane, retained, p_lane, promoted);
    assert(rebased_from(0, r_lane, retained, p_lane, promoted) =~= moved);
    lemma_rebased_tidy(r_lane, retained, p_lane, promoted, n);
    lemma_rebased_fits(r_lane, retained, p_lane, promoted, n);
    lemma_render_len(base, 0, promoted);
    ops::lemma_sort_ops_of_sorted(moved);
    conflict::lemma_no_fault(moved, 0, file.len() as int);
}

/// Filtering a list is filtering its first element and the rest.
proof fn lemma_filter_front(list: Seq<Op>, keep: spec_fn(Op) -> bool)
    requires
        list.len() > 0,
    ensures
        list.filter(keep) == (if keep(list[0]) {
            seq![list[0]]
        } else {
            Seq::<Op>::empty()
        }) + list.drop_first().filter(keep),
{
    let front = seq![list[0]];
    let rest = list.drop_first();
    assert(list =~= front + rest);
    Seq::filter_distributes_over_add(front, rest, keep);
    assert(front.filter(keep) =~= (if keep(list[0]) {
        seq![list[0]]
    } else {
        Seq::<Op>::empty()
    })) by {
        reveal(Seq::filter);
        reveal_with_fuel(Seq::filter, 2);
        assert(front.drop_last() =~= Seq::<Op>::empty());
    }
}

/// What a filter keeps passes it and stood in the list.
pub proof fn lemma_filter_elements(list: Seq<Op>, keep: spec_fn(Op) -> bool)
    ensures
        forall|i: int|
            0 <= i < list.filter(keep).len() ==> keep(#[trigger] list.filter(keep)[i]) && list.contains(
                list.filter(keep)[i],
            ),
    decreases list.len(),
{
    reveal(Seq::filter);
    if list.len() > 0 {
        let rest = list.drop_last();
        let kept = list.filter(keep);
        lemma_filter_elements(rest, keep);
        assert forall|i: int| 0 <= i < kept.len() implies keep(#[trigger] kept[i]) && list.contains(
            kept[i],
        ) by {
            if i < rest.filter(keep).len() {
                assert(rest.filter(keep)[i] == kept[i]);
                let k = choose|k: int| 0 <= k < rest.len() && rest[k] == kept[i];
                assert(list[k] == kept[i]);
            } else {
                assert(list[list.len() - 1] == kept[i]);
            }
        }
    }
}

/// In a tidy list each operation strictly precedes the later ones.
proof fn lemma_tidy_strict(list: Seq<Op>, i: int, j: int)
    requires
        tidy(list),
        0 <= i < j < list.len(),
    ensures
        ops::op_before(list[i], list[j]),
{
    assert(!ops::op_before(list[j], list[i]));
    assert(text::text_lt(list[i].key, list[j].key));
}

proof fn lemma_tidy_rest(list: Seq<Op>)
    requires
        tidy(list),
        list.len() > 0,
    ensures
        tidy(list.drop_first()),
{
    let rest = list.drop_first();
    conflict::lemma_drop_first(list, 0);
    assert(forall|i: int| 0 <= i < rest.len() ==> rest[i] == list[i + 1]);
    assert forall|i: int, j: int| 0 <= i < j < rest.len() implies text::text_lt(
        (#[trigger] rest[i]).key,
        (#[trigger] rest[j]).key,
    ) by {
        assert(text::text_lt(list[i + 1].key, list[j + 1].key));
    }
}

/// Merging the chosen operations of a lane with the others gives all of them back.
pub proof fn lemma_merge_of_split(
    lane: Seq<char>,
    list: Seq<Op>,
    chosen: spec_fn(Op) -> bool,
    others: spec_fn(Op) -> bool,
)
    requires
        tidy(list),
        forall|op: Op| #[trigger] others(op) == !chosen(op),
    ensures
        merged(lane, list.filter(chosen), lane, list.filter(others)) == list,
    decreases list.len(),
{
    if list.len() == 0 {
        reveal(Seq::filter);
        assert(merged(lane, list.filter(chosen), lane, list.filter(others)) =~= list);
    } else {
        let first = list[0];
        let rest = list.drop_first();
        lemma_tidy_rest(list);
        lemma_merge_of_split(lane, rest, chosen, others);
        lemma_filter_front(list, chosen);
        lemma_filter_front(list, others);
        lemma_filter_elements(rest, chosen);
        lemma_filter_elements(rest, others);
        let a = list.filter(chosen);
        let b = list.filter(others);
        let a1 = rest.filter(chosen);
        let b1 = rest.filter(others);
        assert(list =~= seq![first] + rest);
        if chosen(first) {
            assert(b =~= b1);
            assert(a.drop_first() =~= a1);
            if b.len() > 0 {
                assert(rest.contains(b1[0]));
                let j = choose|j: int| 0 <= j < rest.len() && rest[j] == b1[0];
                lemma_tidy_strict(list, 0, j + 1);
                lemma_before_same_lane(lane, first, b[0]);
            } else {
                assert(merged(lane, a1, lane, b1) =~= a1);
                assert(a =~= list);
            }
        } else {
            assert(others(first));
            assert(a =~= a1);
            assert(b.drop_first() =~= b1);
            if a.len() > 0 {
                assert(rest.contains(a1[0]));
                let j = choose|j: int| 0 <= j < rest.len() && rest[j] == a1[0];
                lemma_tidy_strict(list, 0, j + 1);
                ops::lemma_op_before_asymmetric(first, a[0]);
                lemma_before_same_lane(lane, a[0], first);
            } else {
                assert(merged(lane, a1, lane, b1) =~= b1);
                assert(b =~= list);
            }
        }
    }
}

/// Some of the operations of a tidy list, and the others, are tidy and apart from each other.
pub proof fn lemma_split_tidy(
    list: Seq<Op>,
    chosen: spec_fn(Op) -> bool,
    others: spec_fn(Op) -> bool,
    len: int,
)
    requires
        tidy(list),
        conflict::all_within(list, len),
        forall|op: Op| #[trigger] others(op) == !chosen(op),
    ensures
        tidy(list.filter(chosen)),
        tidy(list.filter(others)),
        conflict::all_within(list.filter(chosen), len),
        conflict::all_within(list.filter(others), len),
        conflict::lists_apart(list.filter(chosen), list.filter(others)),
{
    lemma_filter_tidy(list, chosen, len);
    lemma_filter_tidy(list, others, len);
    lemma_filter_elements(list, chosen);
    lemma_filter_elements(list, others);
    let a = list.filter(chosen);
    let b = list.filter(others);
    assert forall|i: int, j: int| 0 <= i < a.len() && 0 <= j < b.len() implies conflict::apart(
        #[trigger] a[i],
        #[trigger] b[j],
    ) by {
        assert(list.contains(a[i]));
        assert(list.contains(b[j]));
        let x = choose|x: int| 0 <= x < list.len() && list[x] == a[i];
        let y = choose|y: int| 0 <= y < list.len() && list[y] == b[j];
        assert(chosen(a[i]) && others(b[j]));
        if x < y {
            assert(conflict::apart(list[x], list[y]));
        } else {
            assert(conflict::apart(list[y], list[x]));
        }
    }
}

/// Leaving operations out keeps a list tidy.
pub proof fn lemma_filter_tidy(list: Seq<Op>, keep: spec_fn(Op) -> bool, len: int)
    requires
        tidy(list),
    ensures
        tidy(list.filter(keep)),
        conflict::all_within(list, len) ==> conflict::all_within(list.filter(keep), len),
    decreases list.len(),
{
    if list.len() == 0 {
        reveal(Seq::filter);
        assert(list.filter(keep) =~= list);
    } else {
        let rest = list.drop_first();
        let kept = rest.filter(keep);
        let all = list.filter(keep);
        lemma_tidy_rest(list);
        lemma_filter_tidy(rest, keep, len);
        lemma_filter_front(list, keep);
        lemma_filter_elements(rest, keep);
        assert(forall|i: int| 0 <= i < rest.len() ==> rest[i] == list[i + 1]);
        if conflict::all_within(list, len) {
            conflict::lemma_drop_first(list, len);
        }
        if keep(list[0]) {
            assert forall|i: int, j: int| 0 <= i < j < all.len() implies {
                &&& !ops::op_before(#[trigger] all[j], #[trigger] all[i])
                &&& conflict::apart(all[i], all[j])
                &&& text::text_lt(all[i].key, all[j].key)
            } by {
                assert(all[j] == kept[j - 1]);
                if i > 0 {
                    assert(all[i] == kept[i - 1]);
                } else {
                    assert(rest.contains(kept[j - 1]));
                    let k = choose|k: int| 0 <= k < rest.len() && rest[k] == kept[j - 1];
                    assert(list[k + 1] == all[j]);
                    assert(list[0] == all[0]);
                    assert(!ops::op_before(list[k + 1], list[0]));
                    assert(conflict::apart(list[0], list[k + 1]));
                    assert(text::text_lt(list[0].key, list[k + 1].key));
                }
            }
            assert forall|i: int| 0 <= i < all.len() implies 0 <= (#[trigger] all[i]).start && 0
                <= all[i].len by {
                if i > 0 {
                    assert(all[i] == kept[i - 1]);
                } else {
                    assert(all[0] == list[0]);
                }
            }
            if conflict::all_within(list, len) {
                assert forall|i: int| 0 <= i < all.len() implies 0 <= (#[trigger] all[i]).start && 0
                    <= all[i].len && all[i].end() <= len by {
                    if i > 0 {
                        assert(all[i] == kept[i - 1]);
                    } else {
                        assert(all[0] == list[0]);
                    }
                }
            }
        } else {
            assert(all =~= kept);
        }
    }
}

} // verus!
