//! When operations can be applied together.
use vstd::prelude::*;

use crate::ops;
use crate::ops::{sorted_ops, FileOp, Op};
use crate::order_key;
use crate::order_key::is_valid_order_key;
use crate::types::{DecodeError, DecodeErrorView, LaneOpKind};

verus! {

/// One operation ends before the other begins. An insertion at the edge of a range is apart from
/// it, and so are two insertions at one place.
pub open spec fn apart(a: Op, b: Op) -> bool {
    a.end() <= b.start || b.end() <= a.start
}

/// Any two operations are apart.
pub open spec fn all_apart(ops: Seq<Op>) -> bool {
    forall|i: int, j: int| 0 <= i < j < ops.len() ==> apart(#[trigger] ops[i], #[trigger] ops[j])
}

/// Every operation of the one list is apart from every operation of the other.
pub open spec fn lists_apart(a: Seq<Op>, b: Seq<Op>) -> bool {
    forall|i: int, j: int|
        0 <= i < a.len() && 0 <= j < b.len() ==> apart(#[trigger] a[i], #[trigger] b[j])
}

/// Every operation lies inside a base of `len` bytes.
pub open spec fn all_within(ops: Seq<Op>, len: int) -> bool {
    forall|i: int|
        0 <= i < ops.len() ==> 0 <= (#[trigger] ops[i]).start && 0 <= ops[i].len && ops[i].end() <= len
}

/// Two operations conflict where there is no base, or where they are not apart.
pub open spec fn conflicting(a: Op, b: Op, base_missing: bool) -> bool {
    base_missing || !apart(a, b)
}

/// Some operation of the one list conflicts with some operation of the other.
pub open spec fn lists_conflict(a: Seq<Op>, b: Seq<Op>, base_missing: bool) -> bool {
    exists|i: int, j: int|
        0 <= i < a.len() && 0 <= j < b.len() && conflicting(#[trigger] a[i], #[trigger] b[j], base_missing)
}

/// What an operation does.
pub open spec fn kind_of(op: Op, base_missing: bool) -> LaneOpKind {
    if base_missing {
        LaneOpKind::Create
    } else if op.len == 0 {
        LaneOpKind::Insert
    } else if op.inserted.len() == 0 {
        LaneOpKind::Delete
    } else {
        LaneOpKind::Replace
    }
}

/// Whether two operations conflict is the same either way round.
pub proof fn law_conflicting_is_symmetric(a: Op, b: Op, base_missing: bool)
    ensures
        conflicting(a, b, base_missing) == conflicting(b, a, base_missing),
{
}

/// Whether two operations conflict.
pub fn ops_conflict(left: &FileOp, right: &FileOp, base_missing: bool) -> (r: bool)
    requires
        left@.end() <= u64::MAX,
        right@.end() <= u64::MAX,
    ensures
        r == conflicting(left@, right@, base_missing),
{
    if base_missing {
        return true;
    }
    let left_end: u64 = left.base_start + left.base_len;
    let right_end: u64 = right.base_start + right.base_len;
    if left.base_len == 0 && right.base_len == 0 {
        return false;
    }
    if left.base_len == 0 {
        return right.base_start < left.base_start && left.base_start < right_end;
    }
    if right.base_len == 0 {
        return left.base_start < right.base_start && right.base_start < left_end;
    }
    left.base_start < right_end && right.base_start < left_end
}

/// The ends of a list of operations are positions.
pub open spec fn ends_fit(ops: Seq<Op>) -> bool {
    forall|i: int| 0 <= i < ops.len() ==> (#[trigger] ops[i]).end() <= u64::MAX
}

/// Whether `op` conflicts with one of `others`.
pub open spec fn conflicts_with_any(op: Op, others: Seq<Op>, base_missing: bool) -> bool {
    exists|j: int| 0 <= j < others.len() && conflicting(op, #[trigger] others[j], base_missing)
}

/// Whether `op` conflicts with one of `others`.
pub fn op_conflicts_with_any(op: &FileOp, others: &Vec<FileOp>, base_missing: bool) -> (r: bool)
    requires
        op@.end() <= u64::MAX,
        ends_fit(ops::ops_view(others@)),
    ensures
        r == conflicts_with_any(op@, ops::ops_view(others@), base_missing),
{
    let ghost all = ops::ops_view(others@);
    let mut j: usize = 0;
    while j < others.len()
        invariant
            j <= others@.len(),
            all == ops::ops_view(others@),
            op@.end() <= u64::MAX,
            ends_fit(all),
            forall|k: int| 0 <= k < j ==> !conflicting(op@, #[trigger] all[k], base_missing),
        decreases others@.len() - j,
    {
        assert(all[j as int] == others@[j as int]@);
        if ops_conflict(op, &others[j], base_missing) {
            return true;
        }
        j = j + 1;
    }
    false
}

/// Whether two lists of operations conflict.
pub fn entries_conflict(left: &Vec<FileOp>, right: &Vec<FileOp>, base_missing: bool) -> (r: bool)
    requires
        ends_fit(ops::ops_view(left@)),
        ends_fit(ops::ops_view(right@)),
    ensures
        r == lists_conflict(ops::ops_view(left@), ops::ops_view(right@), base_missing),
{
    let ghost a = ops::ops_view(left@);
    let ghost b = ops::ops_view(right@);
    let mut i: usize = 0;
    while i < left.len()
        invariant
            i <= left@.len(),
            a == ops::ops_view(left@),
            b == ops::ops_view(right@),
            ends_fit(a),
            ends_fit(b),
            forall|k: int, m: int|
                0 <= k < i && 0 <= m < b.len() ==> !conflicting(
                    #[trigger] a[k],
                    #[trigger] b[m],
                    base_missing,
                ),
        decreases left@.len() - i,
    {
        assert(a[i as int] == left@[i as int]@);
        if op_conflicts_with_any(&left[i], right, base_missing) {
            let ghost j = choose|j: int| 0 <= j < b.len() && conflicting(a[i as int], #[trigger] b[j], base_missing);
            assert(conflicting(a[i as int], b[j], base_missing));
            return true;
        }
        i = i + 1;
    }
    false
}

/// What an operation does.
pub fn op_kind(op: &FileOp, base_missing: bool) -> (r: LaneOpKind)
    ensures
        r == kind_of(op@, base_missing),
{
    if base_missing {
        LaneOpKind::Create
    } else if op.base_len == 0 {
        LaneOpKind::Insert
    } else if op.inserted.len() == 0 {
        LaneOpKind::Delete
    } else {
        LaneOpKind::Replace
    }
}

/// The first reason to refuse sorted stored operations from `cursor` on, if there is one.
pub open spec fn validation_fault(cursor: int, ops: Seq<Op>) -> Option<DecodeErrorView>
    decreases ops.len(),
{
    if ops.len() == 0 {
        None
    } else if ops[0].end() > u64::MAX {
        Some(DecodeErrorView::OperationOutOfBounds)
    } else if !order_key::valid_key(ops[0].key) {
        Some(DecodeErrorView::InvalidOrderKey)
    } else if ops[0].start < cursor {
        Some(DecodeErrorView::OperationConflict)
    } else {
        validation_fault(ops[0].end(), ops.drop_first())
    }
}

/// Why stored operations are refused, if they are.
pub open spec fn stored_fault(ops: Seq<Op>) -> Option<DecodeErrorView> {
    validation_fault(0, ops::sort_ops(ops))
}

/// Accepts operations whose ends are positions, whose keys are keys and that are apart.
pub fn validate_ops(ops: &Vec<FileOp>) -> (r: Result<(), DecodeError>)
    ensures
        match r {
            Ok(()) => stored_fault(ops::ops_view(ops@)) is None,
            Err(error) => stored_fault(ops::ops_view(ops@)) == Some(error@),
        },
{
    let sorted = sorted_ops(ops);
    let ghost all = ops::refs_view(sorted@);
    let mut cursor: u64 = 0;
    let mut i: usize = 0;
    assert(all.subrange(0, all.len() as int) =~= all);
    while i < sorted.len()
        invariant
            i <= sorted@.len(),
            all == ops::refs_view(sorted@),
            all == ops::sort_ops(ops::ops_view(ops@)),
            validation_fault(0, all) == validation_fault(
                cursor as int,
                all.subrange(i as int, all.len() as int),
            ),
        decreases sorted@.len() - i,
    {
        let op = sorted[i];
        let ghost rest = all.subrange(i as int, all.len() as int);
        assert(rest[0] == op@);
        assert(rest.drop_first() =~= all.subrange(i + 1, all.len() as int));
        if op.base_len > u64::MAX - op.base_start {
            return Err(DecodeError::OperationOutOfBounds);
        }
        if !is_valid_order_key(op.order_key.as_str()) {
            return Err(DecodeError::InvalidOrderKey);
        }
        if op.base_start < cursor {
            return Err(DecodeError::OperationConflict);
        }
        cursor = op.base_start + op.base_len;
        i = i + 1;
    }
    Ok(())
}

/// The operations that change something.
pub open spec fn effective_ops(ops: Seq<Op>) -> Seq<Op> {
    ops.filter(|op: Op| !op.is_noop())
}

/// Accepts valid operations and drops those that change nothing.
pub fn normalize_ops_checked(ops: Vec<FileOp>) -> (r: Result<Vec<FileOp>, DecodeError>)
    ensures
        match r {
            Ok(kept) => stored_fault(ops::ops_view(ops@)) is None && ops::ops_view(kept@) == effective_ops(
                ops::ops_view(ops@),
            ),
            Err(error) => stored_fault(ops::ops_view(ops@)) == Some(error@),
        },
{
    match validate_ops(&ops) {
        Err(error) => Err(error),
        Ok(()) => {
            let ghost all = ops::ops_view(ops@);
            let ghost keep = |op: Op| !op.is_noop();
            let mut kept: Vec<FileOp> = Vec::new();
            let mut i: usize = 0;
            assert(all.subrange(0, 0) =~= Seq::<Op>::empty());
            assert(ops::ops_view(kept@) =~= all.subrange(0, 0).filter(keep)) by {
                reveal(Seq::filter);
            }
            while i < ops.len()
                invariant
                    i <= ops@.len(),
                    all == ops::ops_view(ops@),
                    keep == (|op: Op| !op.is_noop()),
                    ops::ops_view(kept@) == all.subrange(0, i as int).filter(keep),
                decreases ops@.len() - i,
            {
                proof {
                    assert(all.subrange(0, i + 1).drop_last() =~= all.subrange(0, i as int));
                    assert(all[i as int] == ops@[i as int]@);
                    reveal(Seq::filter);
                }
                if ops[i].base_len > 0 || ops[i].inserted.len() > 0 {
                    let ghost before = ops::ops_view(kept@);
                    kept.push(ops[i].copy());
                    assert(ops::ops_view(kept@) =~= before.push(ops@[i as int]@));
                }
                i = i + 1;
            }
            assert(all.subrange(0, i as int) =~= all);
            Ok(kept)
        },
    }
}

/// Inserting into a list adds the pairs with the new operation and no others.
proof fn lemma_all_apart_insert(list: Seq<Op>, at: int, op: Op)
    requires
        0 <= at <= list.len(),
    ensures
        all_apart(list.insert(at, op)) <==> all_apart(list.push(op)),
{
    let a = list.insert(at, op);
    let b = list.push(op);
    if all_apart(b) {
        assert forall|i: int, j: int| 0 <= i < j < a.len() implies apart(
            #[trigger] a[i],
            #[trigger] a[j],
        ) by {
            let i0 = if i < at { i } else if i == at { list.len() as int } else { i - 1 };
            let j0 = if j < at { j } else if j == at { list.len() as int } else { j - 1 };
            assert(a[i] == b[i0] && a[j] == b[j0]);
            if i0 < j0 {
                assert(apart(b[i0], b[j0]));
            } else {
                assert(apart(b[j0], b[i0]));
            }
        }
    }
    if all_apart(a) {
        assert forall|i: int, j: int| 0 <= i < j < b.len() implies apart(
            #[trigger] b[i],
            #[trigger] b[j],
        ) by {
            let i0 = if i == list.len() { at } else if i < at { i } else { i + 1 };
            let j0 = if j == list.len() { at } else if j < at { j } else { j + 1 };
            assert(b[i] == a[i0] && b[j] == a[j0]);
            if i0 < j0 {
                assert(apart(a[i0], a[j0]));
            } else {
                assert(apart(a[j0], a[i0]));
            }
        }
    }
}

/// The place where [`ops::insert_op`] puts an operation.
pub proof fn lemma_insert_op_place(sorted: Seq<Op>, op: Op) -> (at: int)
    ensures
        0 <= at <= sorted.len(),
        ops::insert_op(sorted, op) == sorted.insert(at, op),
    decreases sorted.len(),
{
    if sorted.len() > 0 && ops::op_before(op, sorted.last()) {
        let at = lemma_insert_op_place(sorted.drop_last(), op);
        assert(sorted.insert(at, op) =~= sorted.drop_last().insert(at, op).push(sorted.last()));
        at
    } else {
        assert(sorted.insert(sorted.len() as int, op) =~= sorted.push(op));
        sorted.len() as int
    }
}

/// Sorting does not change whether operations are apart.
pub proof fn lemma_sort_apart(list: Seq<Op>)
    ensures
        all_apart(ops::sort_ops(list)) <==> all_apart(list),
    decreases list.len(),
{
    if list.len() > 0 {
        let rest = list.drop_last();
        let op = list.last();
        let sorted = ops::sort_ops(rest);
        lemma_sort_apart(rest);
        ops::lemma_sort_ops(rest);
        let at = lemma_insert_op_place(sorted, op);
        lemma_all_apart_insert(sorted, at, op);
        assert(list =~= rest.push(op));
        let a = sorted.push(op);
        if all_apart(a) {
            assert forall|i: int, j: int| 0 <= i < j < list.len() implies apart(
                #[trigger] list[i],
                #[trigger] list[j],
            ) by {
                lemma_apart_prefix(sorted, op);
                if j < rest.len() {
                    assert(apart(rest[i], rest[j]));
                } else {
                    assert(rest.contains(rest[i]));
                    let k = choose|k: int| 0 <= k < sorted.len() && sorted[k] == rest[i];
                    assert(apart(a[k], a[sorted.len() as int]));
                }
            }
        }
        if all_apart(list) {
            lemma_apart_prefix(rest, op);
            assert forall|i: int, j: int| 0 <= i < j < a.len() implies apart(
                #[trigger] a[i],
                #[trigger] a[j],
            ) by {
                if j < sorted.len() {
                    assert(apart(sorted[i], sorted[j]));
                } else {
                    assert(sorted.contains(sorted[i]));
                    let k = choose|k: int| 0 <= k < rest.len() && rest[k] == sorted[i];
                    assert(apart(list[k], list[rest.len() as int]));
                }
            }
        }
    }
}

proof fn lemma_apart_prefix(list: Seq<Op>, op: Op)
    requires
        all_apart(list.push(op)),
    ensures
        all_apart(list),
{
    assert forall|i: int, j: int| 0 <= i < j < list.len() implies apart(
        #[trigger] list[i],
        #[trigger] list[j],
    ) by {
        assert(apart(list.push(op)[i], list.push(op)[j]));
    }
}

/// Sorting does not change whether operations lie inside the base.
pub proof fn lemma_sort_within(list: Seq<Op>, len: int)
    ensures
        all_within(ops::sort_ops(list), len) <==> all_within(list, len),
{
    ops::lemma_sort_ops(list);
    let sorted = ops::sort_ops(list);
    if all_within(list, len) {
        assert forall|i: int| 0 <= i < sorted.len() implies 0 <= (#[trigger] sorted[i]).start && 0
            <= sorted[i].len && sorted[i].end() <= len by {
            assert(sorted.contains(sorted[i]));
            let k = choose|k: int| 0 <= k < list.len() && list[k] == sorted[i];
            assert(list[k].end() <= len);
        }
    }
    if all_within(sorted, len) {
        assert forall|i: int| 0 <= i < list.len() implies 0 <= (#[trigger] list[i]).start && 0
            <= list[i].len && list[i].end() <= len by {
            assert(list.contains(list[i]));
            let k = choose|k: int| 0 <= k < sorted.len() && sorted[k] == list[i];
            assert(sorted[k].end() <= len);
        }
    }
}

/// Two operations in order that are apart: the first ends where the second begins or earlier.
pub proof fn lemma_ordered_apart(a: Op, b: Op)
    requires
        apart(a, b),
        !ops::op_before(b, a),
        0 <= a.len,
        0 <= b.len,
    ensures
        a.end() <= b.start,
{
}

/// Operations in order, apart, inside the base and not before `cursor` can be applied.
pub proof fn lemma_no_fault(sorted: Seq<Op>, cursor: int, len: int)
    requires
        ops::in_order(sorted),
        all_apart(sorted),
        all_within(sorted, len),
        forall|i: int| 0 <= i < sorted.len() ==> cursor <= (#[trigger] sorted[i]).start,
        len <= usize::MAX,
    ensures
        ops::render_fault(len, cursor, sorted) is None,
    decreases sorted.len(),
{
    if sorted.len() > 0 {
        let rest = sorted.drop_first();
        assert(sorted[0].end() <= len);
        assert forall|i: int| 0 <= i < rest.len() implies sorted[0].end() <= (#[trigger] rest[i]).start by {
            assert(rest[i] == sorted[i + 1]);
            assert(apart(sorted[0], sorted[i + 1]));
            assert(!ops::op_before(sorted[i + 1], sorted[0]));
            lemma_ordered_apart(sorted[0], sorted[i + 1]);
        }
        lemma_drop_first(sorted, len);
        lemma_no_fault(rest, sorted[0].end(), len);
    }
}

pub proof fn lemma_drop_first(sorted: Seq<Op>, len: int)
    requires
        sorted.len() > 0,
    ensures
        ops::in_order(sorted) ==> ops::in_order(sorted.drop_first()),
        all_apart(sorted) ==> all_apart(sorted.drop_first()),
        all_within(sorted, len) ==> all_within(sorted.drop_first(), len),
{
    let rest = sorted.drop_first();
    assert(forall|i: int| 0 <= i < rest.len() ==> rest[i] == sorted[i + 1]);
    if ops::in_order(sorted) {
        assert forall|i: int, j: int| 0 <= i < j < rest.len() implies !ops::op_before(
            #[trigger] rest[j],
            #[trigger] rest[i],
        ) by {
            assert(!ops::op_before(sorted[j + 1], sorted[i + 1]));
        }
    }
    if all_apart(sorted) {
        assert forall|i: int, j: int| 0 <= i < j < rest.len() implies apart(
            #[trigger] rest[i],
            #[trigger] rest[j],
        ) by {
            assert(apart(sorted[i + 1], sorted[j + 1]));
        }
    }
}

/// Operations that can be applied from `cursor` on lie behind it, inside the base, and are apart.
pub proof fn lemma_fault_free(sorted: Seq<Op>, cursor: int, len: int)
    requires
        ops::render_fault(len, cursor, sorted) is None,
        forall|i: int| 0 <= i < sorted.len() ==> 0 <= (#[trigger] sorted[i]).start && 0 <= sorted[i].len,
    ensures
        all_apart(sorted),
        all_within(sorted, len),
        forall|i: int| 0 <= i < sorted.len() ==> cursor <= (#[trigger] sorted[i]).start,
        forall|i: int, j: int|
            0 <= i < j < sorted.len() ==> (#[trigger] sorted[i]).end() <= (#[trigger] sorted[j]).start,
    decreases sorted.len(),
{
    if sorted.len() > 0 {
        let rest = sorted.drop_first();
        assert(forall|i: int| 0 <= i < rest.len() ==> rest[i] == sorted[i + 1]);
        lemma_fault_free(rest, sorted[0].end(), len);
        assert forall|i: int| 0 <= i < sorted.len() implies 0 <= (#[trigger] sorted[i]).start && 0
            <= sorted[i].len && sorted[i].end() <= len && cursor <= sorted[i].start by {
            if i > 0 {
                assert(sorted[i] == rest[i - 1]);
            }
        }
        assert forall|i: int, j: int| 0 <= i < j < sorted.len() implies (#[trigger] sorted[i]).end() <= (
        #[trigger] sorted[j]).start by {
            assert(sorted[j] == rest[j - 1]);
            if i > 0 {
                assert(sorted[i] == rest[i - 1]);
            }
        }
    }
}

/// Operations in any order can be applied if and only if they lie inside the base and are apart.
pub proof fn lemma_rendered_ok(path: Seq<char>, base: Seq<u8>, list: Seq<Op>)
    requires
        base.len() <= usize::MAX,
        forall|i: int| 0 <= i < list.len() ==> 0 <= (#[trigger] list[i]).start && 0 <= list[i].len,
    ensures
        ops::rendered(path, base, list) is Ok <==> all_within(list, base.len() as int) && all_apart(list),
{
    let sorted = ops::sort_ops(list);
    ops::lemma_sort_ops(list);
    lemma_sort_apart(list);
    lemma_sort_within(list, base.len() as int);
    if all_within(list, base.len() as int) && all_apart(list) {
        lemma_no_fault(sorted, 0, base.len() as int);
    }
    if ops::rendered(path, base, list) is Ok {
        assert forall|i: int| 0 <= i < sorted.len() implies 0 <= (#[trigger] sorted[i]).start && 0
            <= sorted[i].len by {
            assert(sorted.contains(sorted[i]));
            let k = choose|k: int| 0 <= k < list.len() && list[k] == sorted[i];
            assert(0 <= list[k].start);
        }
        lemma_fault_free(sorted, 0, base.len() as int);
    }
}

/// Operations that storage accepts are sound and apart.
pub proof fn lemma_stored_ok(list: Seq<Op>)
    requires
        forall|i: int| 0 <= i < list.len() ==> 0 <= (#[trigger] list[i]).start && 0 <= list[i].len,
    ensures
        stored_fault(list) is None <==> (forall|i: int|
            0 <= i < list.len() ==> ops::sound_op(#[trigger] list[i])) && all_apart(list),
{
    let sorted = ops::sort_ops(list);
    ops::lemma_sort_ops(list);
    lemma_sort_apart(list);
    assert forall|i: int| 0 <= i < sorted.len() implies 0 <= (#[trigger] sorted[i]).start && 0
        <= sorted[i].len by {
        assert(sorted.contains(sorted[i]));
        let k = choose|k: int| 0 <= k < list.len() && list[k] == sorted[i];
        assert(0 <= list[k].start);
    }
    if stored_fault(list) is None {
        lemma_valid_sorted(sorted, 0);
        assert forall|i: int| 0 <= i < list.len() implies ops::sound_op(#[trigger] list[i]) by {
            assert(list.contains(list[i]));
            let k = choose|k: int| 0 <= k < sorted.len() && sorted[k] == list[i];
            assert(ops::sound_op(sorted[k]));
        }
    }
    if (forall|i: int| 0 <= i < list.len() ==> ops::sound_op(#[trigger] list[i])) && all_apart(list) {
        assert forall|i: int| 0 <= i < sorted.len() implies ops::sound_op(#[trigger] sorted[i]) by {
            assert(sorted.contains(sorted[i]));
            let k = choose|k: int| 0 <= k < list.len() && list[k] == sorted[i];
            assert(ops::sound_op(list[k]));
        }
        lemma_sorted_valid(sorted, 0);
    }
}

proof fn lemma_valid_sorted(sorted: Seq<Op>, cursor: int)
    requires
        validation_fault(cursor, sorted) is None,
        forall|i: int| 0 <= i < sorted.len() ==> 0 <= (#[trigger] sorted[i]).start && 0 <= sorted[i].len,
    ensures
        forall|i: int| 0 <= i < sorted.len() ==> ops::sound_op(#[trigger] sorted[i]) && cursor <= sorted[i].start,
        all_apart(sorted),
    decreases sorted.len(),
{
    if sorted.len() > 0 {
        let rest = sorted.drop_first();
        assert(forall|i: int| 0 <= i < rest.len() ==> rest[i] == sorted[i + 1]);
        lemma_valid_sorted(rest, sorted[0].end());
        assert forall|i: int| 0 <= i < sorted.len() implies ops::sound_op(#[trigger] sorted[i]) && cursor
            <= sorted[i].start by {
            if i > 0 {
                assert(sorted[i] == rest[i - 1]);
            }
        }
        assert forall|i: int, j: int| 0 <= i < j < sorted.len() implies apart(
            #[trigger] sorted[i],
            #[trigger] sorted[j],
        ) by {
            assert(sorted[j] == rest[j - 1]);
            if i > 0 {
                assert(sorted[i] == rest[i - 1]);
                assert(apart(rest[i - 1], rest[j - 1]));
            }
        }
    }
}

proof fn lemma_sorted_valid(sorted: Seq<Op>, cursor: int)
    requires
        ops::in_order(sorted),
        all_apart(sorted),
        forall|i: int| 0 <= i < sorted.len() ==> ops::sound_op(#[trigger] sorted[i]) && cursor <= sorted[i].start,
    ensures
        validation_fault(cursor, sorted) is None,
    decreases sorted.len(),
{
    if sorted.len() > 0 {
        let rest = sorted.drop_first();
        assert(ops::sound_op(sorted[0]));
        assert forall|i: int| 0 <= i < rest.len() implies ops::sound_op(#[trigger] rest[i]) && sorted[0].end()
            <= rest[i].start by {
            assert(rest[i] == sorted[i + 1]);
            assert(apart(sorted[0], sorted[i + 1]));
            assert(!ops::op_before(sorted[i + 1], sorted[0]));
            lemma_ordered_apart(sorted[0], sorted[i + 1]);
        }
        lemma_drop_first(sorted, 0);
        lemma_sorted_valid(rest, sorted[0].end());
    }
}

} // verus!
