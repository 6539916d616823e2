//! Operations in the order in which they take effect, and groups of operations that conflict.
use vstd::prelude::*;

use crate::cli::output::{
    ReviewActionInput, ReviewActionInputView, ReviewActionKind, ReviewActionOutput,
    ReviewActionView, ReviewConflictOutput, ReviewConflictView, ReviewOpOutput, ReviewOpState,
    ReviewOpView, ReviewOrderedOpOutput, ReviewOrderedOpView,
};
use crate::lists;
use crate::lists::Copied;
use crate::sorting;
use crate::sorting::{sort_list, Ranked};
use crate::text;
use crate::text::{contains_text, rsplit_once, text_eq, text_order, TextOrder};
use crate::text_map;
use crate::text_map::{map_keys, TextMap};
use crate::types::{LaneOpKind, LaneOpSummary, OpSummaryView};

verus! {

/// Operations are listed by order key, range, lane and name.
pub open spec fn summary_before(a: OpSummaryView, b: OpSummaryView) -> bool {
    if a.order_key != b.order_key {
        text::text_lt(a.order_key, b.order_key)
    } else if a.base_start != b.base_start {
        a.base_start < b.base_start
    } else if a.base_end != b.base_end {
        a.base_end < b.base_end
    } else if a.lane != b.lane {
        text::text_lt(a.lane, b.lane)
    } else {
        text::text_lt(a.op_id, b.op_id)
    }
}

/// Whether one operation is listed before another.
pub fn summary_is_before(a: &LaneOpSummary, b: &LaneOpSummary) -> (r: bool)
    ensures
        r == summary_before(a@, b@),
{
    proof {
        text::lemma_text_lt_irreflexive(a@.order_key);
        text::lemma_text_lt_irreflexive(a@.lane);
        text::lemma_text_lt_irreflexive(a@.op_id);
    }
    match text_order(a.order_key.as_str(), b.order_key.as_str()) {
        TextOrder::Before => true,
        TextOrder::After => false,
        TextOrder::Same => if a.base_start != b.base_start {
            a.base_start < b.base_start
        } else if a.base_end != b.base_end {
            a.base_end < b.base_end
        } else {
            match text_order(a.lane.as_str(), b.lane.as_str()) {
                TextOrder::Before => true,
                TextOrder::After => false,
                TextOrder::Same => match text_order(a.op_id.as_str(), b.op_id.as_str()) {
                    TextOrder::Before => true,
                    _ => false,
                },
            }
        },
    }
}

proof fn lemma_text_weak(a: Seq<char>, b: Seq<char>, c: Seq<char>)
    ensures
        text::text_lt(a, b) ==> !text::text_lt(b, a),
        !text::text_lt(a, a),
        text::text_lt(a, c) ==> text::text_lt(a, b) || text::text_lt(b, c),
        a == b || text::text_lt(a, b) || text::text_lt(b, a),
{
    text::lemma_text_lt_irreflexive(a);
    text::lemma_text_lt_total(a, b);
    text::lemma_text_lt_total(b, c);
    if text::text_lt(a, b) && text::text_lt(b, a) {
        text::lemma_text_lt_transitive(a, b, a);
    }
    if text::text_lt(b, a) && text::text_lt(a, c) {
        text::lemma_text_lt_transitive(b, a, c);
    }
}

proof fn lemma_summary_order(a: OpSummaryView, b: OpSummaryView, c: OpSummaryView)
    ensures
        summary_before(a, b) ==> !summary_before(b, a),
        summary_before(a, c) ==> summary_before(a, b) || summary_before(b, c),
{
    lemma_text_weak(a.order_key, b.order_key, c.order_key);
    lemma_text_weak(b.order_key, a.order_key, c.order_key);
    lemma_text_weak(b.order_key, c.order_key, a.order_key);
    lemma_text_weak(a.lane, b.lane, c.lane);
    lemma_text_weak(b.lane, a.lane, c.lane);
    lemma_text_weak(b.lane, c.lane, a.lane);
    lemma_text_weak(a.op_id, b.op_id, c.op_id);
    lemma_text_weak(b.op_id, a.op_id, c.op_id);
}

impl Ranked for ReviewOpOutput {
    open spec fn before(a: ReviewOpView, b: ReviewOpView) -> bool {
        summary_before(a.op, b.op)
    }

    fn is_before(&self, other: &Self) -> (r: bool) {
        summary_is_before(&self.op, &other.op)
    }

    proof fn lemma_asymmetric(a: ReviewOpView, b: ReviewOpView) {
        lemma_summary_order(a.op, b.op, b.op);
    }

    proof fn lemma_weak(a: ReviewOpView, b: ReviewOpView, c: ReviewOpView) {
        lemma_summary_order(a.op, b.op, c.op);
    }
}

impl Ranked for ReviewOrderedOpOutput {
    open spec fn before(a: ReviewOrderedOpView, b: ReviewOrderedOpView) -> bool {
        summary_before(a.op, b.op)
    }

    fn is_before(&self, other: &Self) -> (r: bool) {
        summary_is_before(&self.op, &other.op)
    }

    proof fn lemma_asymmetric(a: ReviewOrderedOpView, b: ReviewOrderedOpView) {
        lemma_summary_order(a.op, b.op, b.op);
    }

    proof fn lemma_weak(a: ReviewOrderedOpView, b: ReviewOrderedOpView, c: ReviewOrderedOpView) {
        lemma_summary_order(a.op, b.op, c.op);
    }
}

/// Whether an operation deletes the whole file.
pub open spec fn deletes_file(op: OpSummaryView) -> bool {
    op.kind == LaneOpKind::Delete && text::split_last(op.op_id, ':') == Some(
        (op.lane, "delete"@),
    )
}

fn is_whole_file_delete(op: &LaneOpSummary) -> (r: bool)
    ensures
        r == deletes_file(op@),
{
    match op.kind {
        LaneOpKind::Delete => match rsplit_once(op.op_id.as_str(), ':') {
            Some((lane, suffix)) => text_eq(lane.as_str(), op.lane.as_str()) && text_eq(
                suffix.as_str(),
                "delete",
            ),
            None => false,
        },
        _ => false,
    }
}

/// Whether ranges of the base overlap. An empty range overlaps one that it lies strictly inside,
/// and no other empty one.
pub open spec fn ranges_overlap(a: OpSummaryView, b: OpSummaryView) -> bool {
    let a_empty = a.base_start == a.base_end;
    let b_empty = b.base_start == b.base_end;
    if a_empty && b_empty {
        false
    } else if a_empty {
        b.base_start < a.base_start < b.base_end
    } else if b_empty {
        a.base_start < b.base_start < a.base_end
    } else {
        a.base_start < b.base_end && b.base_start < a.base_end
    }
}

/// Whether two operations cannot both be accepted as they are.
pub open spec fn clashing(a: OpSummaryView, b: OpSummaryView) -> bool {
    if a.path != b.path {
        false
    } else if deletes_file(a) || deletes_file(b) {
        a.conflicts_with.contains(b.lane) || b.conflicts_with.contains(a.lane)
    } else if a.kind == LaneOpKind::Create || b.kind == LaneOpKind::Create {
        true
    } else {
        ranges_overlap(a, b)
    }
}

fn review_ops_conflict(left: &LaneOpSummary, right: &LaneOpSummary) -> (r: bool)
    ensures
        r == clashing(left@, right@),
{
    if !text_eq(left.path.as_str(), right.path.as_str()) {
        return false;
    }
    if is_whole_file_delete(left) || is_whole_file_delete(right) {
        return contains_text(&left.conflicts_with, right.lane.as_str()) || contains_text(
            &right.conflicts_with,
            left.lane.as_str(),
        );
    }
    let creates = match (left.kind, right.kind) {
        (LaneOpKind::Create, _) => true,
        (_, LaneOpKind::Create) => true,
        _ => false,
    };
    if creates {
        return true;
    }
    let left_empty = left.base_start == left.base_end;
    let right_empty = right.base_start == right.base_end;
    if left_empty && right_empty {
        return false;
    }
    if left_empty {
        return right.base_start < left.base_start && left.base_start < right.base_end;
    }
    if right_empty {
        return left.base_start < right.base_start && right.base_start < left.base_end;
    }
    left.base_start < right.base_end && right.base_start < left.base_end
}

/// Whether two operations of a list clash.
pub open spec fn linked(ops: Seq<ReviewOpView>, i: int, j: int) -> bool {
    0 <= i < ops.len() && 0 <= j < ops.len() && clashing(ops[i].op, ops[j].op)
}

/// Whether one operation leads to another by at most `steps` clashes.
pub open spec fn leads_to(ops: Seq<ReviewOpView>, i: int, j: int, steps: nat) -> bool
    decreases steps,
{
    if steps == 0 {
        i == j
    } else {
        leads_to(ops, i, j, (steps - 1) as nat) || exists|k: int|
            leads_to(ops, i, k, (steps - 1) as nat) && #[trigger] linked(ops, k, j)
    }
}

/// Whether two operations belong together: one leads to the other by clashes.
pub open spec fn grouped(ops: Seq<ReviewOpView>, i: int, j: int) -> bool {
    exists|steps: nat| #[trigger] leads_to(ops, i, j, steps)
}

/// Whether an operation is the first of its group.
pub open spec fn opens_group(ops: Seq<ReviewOpView>, i: int) -> bool {
    forall|j: int| 0 <= j < i ==> !#[trigger] grouped(ops, j, i)
}

/// Of the first `n` operations, those in the group of operation `i`.
pub open spec fn members_upto(ops: Seq<ReviewOpView>, i: int, n: int) -> Seq<ReviewOpView>
    decreases n,
{
    if n <= 0 {
        Seq::empty()
    } else if grouped(ops, i, n - 1) {
        members_upto(ops, i, n - 1).push(ops[n - 1])
    } else {
        members_upto(ops, i, n - 1)
    }
}

/// The group of operation `i`, in order.
pub open spec fn group_of(ops: Seq<ReviewOpView>, i: int) -> Seq<ReviewOpView> {
    sorting::ordered::<ReviewOpOutput>(members_upto(ops, i, ops.len() as int))
}

proof fn lemma_step(ops: Seq<ReviewOpView>, i: int, k: int, j: int)
    requires
        grouped(ops, i, k),
        linked(ops, k, j),
    ensures
        grouped(ops, i, j),
{
    let steps = choose|steps: nat| #[trigger] leads_to(ops, i, k, steps);
    assert(leads_to(ops, i, j, (steps + 1) as nat));
}

proof fn lemma_grouped_self(ops: Seq<ReviewOpView>, i: int)
    ensures
        grouped(ops, i, i),
{
    assert(leads_to(ops, i, i, 0));
}

/// A set of operations that clashes do not leave holds everything that its members lead to.
proof fn lemma_closed(ops: Seq<ReviewOpView>, flags: Seq<bool>, i: int, j: int, steps: nat)
    requires
        flags.len() == ops.len(),
        0 <= i < ops.len(),
        flags[i],
        leads_to(ops, i, j, steps),
        forall|a: int, b: int| 0 <= a < ops.len() && flags[a] && #[trigger] linked(ops, a, b) ==> flags[b],
    ensures
        0 <= j < ops.len(),
        flags[j],
    decreases steps,
{
    if steps > 0 {
        let fewer = (steps - 1) as nat;
        if leads_to(ops, i, j, fewer) {
            lemma_closed(ops, flags, i, j, fewer);
        } else {
            let k = choose|k: int| leads_to(ops, i, k, fewer) && #[trigger] linked(ops, k, j);
            lemma_closed(ops, flags, i, k, fewer);
        }
    }
}

/// Distinct numbers below `n` are at most `n`.
proof fn lemma_distinct_bound(list: Seq<usize>, n: nat)
    requires
        list.no_duplicates(),
        forall|i: int| 0 <= i < list.len() ==> (#[trigger] list[i]) < n,
    ensures
        list.len() <= n,
{
    let ints = list.map_values(|x: usize| x as int);
    assert(ints.no_duplicates()) by {
        assert forall|i: int, j: int| 0 <= i < ints.len() && 0 <= j < ints.len() && i != j implies ints[i]
            != ints[j] by {
            assert(list[i] != list[j]);
        }
    }
    ints.unique_seq_to_set();
    let range = vstd::set_lib::set_int_range(0, n as int);
    vstd::set_lib::lemma_int_range(0, n as int);
    assert(ints.to_set().subset_of(range)) by {
        assert forall|x: int| ints.to_set().contains(x) implies range.contains(x) by {
            let i = choose|i: int| 0 <= i < ints.len() && ints[i] == x;
            assert(list[i] < n);
        }
    }
    vstd::set_lib::lemma_len_subset(ints.to_set(), range);
}

/// Marks the operations in the group of one.
pub(crate) fn mark_group(ops: &Vec<ReviewOpOutput>, index: usize) -> (r: Vec<bool>)
    requires
        index < ops@.len(),
    ensures
        r@.len() == ops@.len(),
        forall|j: int|
            0 <= j < ops@.len() ==> (#[trigger] r@[j]) == grouped(
                sorting::views(ops@),
                index as int,
                j,
            ),
{
    let ghost all = sorting::views(ops@);
    let n: usize = ops.len();
    let mut flags: Vec<bool> = Vec::new();
    let mut filled: usize = 0;
    while filled < n
        invariant
            filled <= n,
            flags@.len() == filled,
            forall|j: int| 0 <= j < filled ==> !(#[trigger] flags@[j]),
        decreases n - filled,
    {
        flags.push(false);
        filled = filled + 1;
    }
    flags.set(index, true);
    let mut members: Vec<usize> = Vec::new();
    members.push(index);
    let mut next: usize = 0;
    proof {
        lemma_grouped_self(all, index as int);
        lemma_distinct_bound(members@, n as nat);
        assert(members@[0] == index);
    }
    while next < members.len()
        invariant
            index < n == ops@.len() == flags@.len(),
            all == sorting::views(ops@),
            next <= members@.len() <= n,
            flags@[index as int],
            members@.no_duplicates(),
            forall|m: int| 0 <= m < members@.len() ==> (#[trigger] members@[m]) < n && flags@[members@[m] as int],
            forall|j: int| 0 <= j < n && #[trigger] flags@[j] ==> grouped(all, index as int, j)
                && members@.contains(j as usize),
            forall|m: int, b: int|
                0 <= m < next && #[trigger] linked(all, members@[m] as int, b) ==> flags@[b],
        decreases n - next,
    {
        let current: usize = members[next];
        let mut candidate: usize = 0;
        assert(flags@[current as int]);
        while candidate < n
            invariant
                index < n == ops@.len() == flags@.len(),
                all == sorting::views(ops@),
                next < members@.len() <= n,
                current == members@[next as int],
                current < n,
                grouped(all, index as int, current as int),
                candidate <= n,
                flags@[index as int],
                members@.no_duplicates(),
                forall|m: int| 0 <= m < members@.len() ==> (#[trigger] members@[m]) < n && flags@[members@[m] as int],
                forall|j: int| 0 <= j < n && #[trigger] flags@[j] ==> grouped(all, index as int, j)
                    && members@.contains(j as usize),
                forall|m: int, b: int|
                    0 <= m < next && #[trigger] linked(all, members@[m] as int, b) ==> flags@[b],
                forall|b: int|
                    0 <= b < candidate && #[trigger] linked(all, current as int, b) ==> flags@[b],
            decreases n - candidate,
        {
            let clash = review_ops_conflict(&ops[current].op, &ops[candidate].op);
            proof {
                assert(all[current as int].op == ops@[current as int]@.op);
                assert(all[candidate as int].op == ops@[candidate as int]@.op);
                assert(clash == linked(all, current as int, candidate as int));
            }
            if !flags[candidate] && clash {
                let ghost members0 = members@;
                let ghost flags0 = flags@;
                proof {
                    lemma_step(all, index as int, current as int, candidate as int);
                    if members0.contains(candidate) {
                        let m = choose|m: int| 0 <= m < members0.len() && members0[m] == candidate;
                        assert(flags0[members0[m] as int]);
                    }
                }
                flags.set(candidate, true);
                members.push(candidate);
                proof {
                    assert(members@[members0.len() as int] == candidate);
                    assert(members@.no_duplicates());
                    lemma_distinct_bound(members@, n as nat);
                    assert forall|j: int| 0 <= j < n && #[trigger] flags@[j] implies grouped(
                        all,
                        index as int,
                        j,
                    ) && members@.contains(j as usize) by {
                        if j != candidate {
                            assert(flags0[j]);
                            let m = choose|m: int| 0 <= m < members0.len() && members0[m] == j as usize;
                            assert(members@[m] == j as usize);
                        }
                    }
                    assert forall|m: int, b: int|
                        0 <= m < next && #[trigger] linked(all, members@[m] as int, b) implies flags@[b] by {
                        assert(members@[m] == members0[m]);
                        assert(linked(all, members0[m] as int, b));
                        assert(flags0[b]);
                    }
                }
            }
            candidate = candidate + 1;
        }
        next = next + 1;
    }
    proof {
        assert forall|a: int, b: int|
            0 <= a < all.len() && flags@[a] && #[trigger] linked(all, a, b) implies flags@[b] by {
            assert(members@.contains(a as usize));
            let m = choose|m: int| 0 <= m < members@.len() && members@[m] == a as usize;
            assert(linked(all, members@[m] as int, b));
        }
        assert forall|j: int| 0 <= j < n implies (#[trigger] flags@[j]) == grouped(
            all,
            index as int,
            j,
        ) by {
            if grouped(all, index as int, j) {
                let steps = choose|steps: nat| #[trigger] leads_to(all, index as int, j, steps);
                lemma_closed(all, flags@, index as int, j, steps);
            }
        }
    }
    flags
}

proof fn lemma_grouped_transitive(ops: Seq<ReviewOpView>, a: int, b: int, c: int, steps: nat)
    requires
        grouped(ops, a, b),
        leads_to(ops, b, c, steps),
    ensures
        grouped(ops, a, c),
    decreases steps,
{
    if steps > 0 {
        let fewer = (steps - 1) as nat;
        if leads_to(ops, b, c, fewer) {
            lemma_grouped_transitive(ops, a, b, c, fewer);
        } else {
            let k = choose|k: int| leads_to(ops, b, k, fewer) && #[trigger] linked(ops, k, c);
            lemma_grouped_transitive(ops, a, b, k, fewer);
            lemma_step(ops, a, k, c);
        }
    }
}

/// The names of the given words.
pub fn words(list: Vec<&str>) -> (r: Vec<String>)
    ensures
        text::texts(r@) == text::strs(list@),
{
    let mut r: Vec<String> = Vec::new();
    let mut i: usize = 0;
    while i < list.len()
        invariant
            i <= list@.len(),
            r@.len() == i,
            forall|k: int| 0 <= k < i ==> (#[trigger] r@[k])@ == list@[k]@,
        decreases list@.len() - i,
    {
        r.push(list[i].to_owned());
        i = i + 1;
    }
    assert(text::texts(r@) =~= text::strs(list@));
    r
}

/// The file that replacement bytes are read from.
pub open spec fn replacement_input() -> ReviewActionInputView {
    ReviewActionInputView { name: "with_file"@, placeholder: "<replacement-file>"@ }
}

fn replacement_inputs() -> (r: Vec<ReviewActionInput>)
    ensures
        sorting::views(r@) == seq![replacement_input()],
{
    let mut r: Vec<ReviewActionInput> = Vec::new();
    r.push(
        ReviewActionInput {
            name: "with_file".to_owned(),
            placeholder: "<replacement-file>".to_owned(),
        },
    );
    assert(sorting::views(r@) =~= seq![replacement_input()]);
    r
}

/// An action on a lane as a whole.
pub open spec fn lane_action(kind: ReviewActionKind, word: Seq<char>, lane: Seq<char>) -> ReviewActionView {
    ReviewActionView {
        kind,
        command: seq![word, lane],
        lane: Some(lane),
        path: None,
        op_ids: Seq::empty(),
        required_inputs: Seq::empty(),
    }
}

/// Accepts the clean operations of a lane.
pub open spec fn accept_clean_of(lane: Seq<char>) -> ReviewActionView {
    lane_action(ReviewActionKind::Accept, "accept"@, lane)
}

/// Discards a lane.
pub open spec fn discard_of(lane: Seq<char>) -> ReviewActionView {
    lane_action(ReviewActionKind::Discard, "discard"@, lane)
}

fn action_on_lane(kind: ReviewActionKind, word: &str, lane: &str) -> (r: ReviewActionOutput)
    ensures
        r@ == lane_action(kind, word@, lane@),
{
    let command = words(vec![word, lane]);
    assert(text::texts(command@) =~= seq![word@, lane@]);
    let r = ReviewActionOutput {
        kind,
        command,
        lane: Some(lane.to_owned()),
        path: None,
        op_ids: Vec::new(),
        required_inputs: Vec::new(),
    };
    assert(r@ =~= lane_action(kind, word@, lane@));
    r
}

/// Accepts the clean operations of a lane.
pub fn accept_clean_action(lane: &str) -> (r: ReviewActionOutput)
    ensures
        r@ == accept_clean_of(lane@),
{
    action_on_lane(ReviewActionKind::Accept, "accept", lane)
}

/// Discards a lane.
pub fn discard_action(lane: &str) -> (r: ReviewActionOutput)
    ensures
        r@ == discard_of(lane@),
{
    action_on_lane(ReviewActionKind::Discard, "discard", lane)
}

/// Shows the details of an operation.
pub open spec fn detail_of(op: OpSummaryView) -> ReviewActionView {
    ReviewActionView {
        kind: ReviewActionKind::Detail,
        command: seq!["review"@, op.lane, op.path, op.op_id],
        lane: Some(op.lane),
        path: Some(op.path),
        op_ids: seq![op.op_id],
        required_inputs: Seq::empty(),
    }
}

/// Accepts an operation with other bytes in its place.
pub open spec fn accept_replacement_of(op: OpSummaryView) -> ReviewActionView {
    ReviewActionView {
        kind: ReviewActionKind::Accept,
        command: seq![
            "accept"@,
            op.lane,
            op.path,
            op.op_id,
            "--with-file"@,
            "<replacement-file>"@,
        ],
        lane: Some(op.lane),
        path: Some(op.path),
        op_ids: seq![op.op_id],
        required_inputs: seq![replacement_input()],
    }
}

/// Shows the details of an operation.
pub fn detail_action(op: &ReviewOpOutput) -> (r: ReviewActionOutput)
    ensures
        r@ == detail_of(op@.op),
{
    let command = words(
        vec!["review", op.op.lane.as_str(), op.op.path.as_str(), op.op.op_id.as_str()],
    );
    let op_ids = words(vec![op.op.op_id.as_str()]);
    assert(text::texts(command@) =~= detail_of(op@.op).command);
    assert(text::texts(op_ids@) =~= detail_of(op@.op).op_ids);
    let r = ReviewActionOutput {
        kind: ReviewActionKind::Detail,
        command,
        lane: Some(op.op.lane.clone()),
        path: Some(op.op.path.clone()),
        op_ids,
        required_inputs: Vec::new(),
    };
    assert(r@ =~= detail_of(op@.op));
    r
}

/// Accepts an operation with other bytes in its place.
pub fn accept_replacement_op_action(op: &ReviewOpOutput) -> (r: ReviewActionOutput)
    ensures
        r@ == accept_replacement_of(op@.op),
{
    let command = words(
        vec![
            "accept",
            op.op.lane.as_str(),
            op.op.path.as_str(),
            op.op.op_id.as_str(),
            "--with-file",
            "<replacement-file>",
        ],
    );
    let op_ids = words(vec![op.op.op_id.as_str()]);
    assert(text::texts(command@) =~= accept_replacement_of(op@.op).command);
    assert(text::texts(op_ids@) =~= accept_replacement_of(op@.op).op_ids);
    ReviewActionOutput {
        kind: ReviewActionKind::Accept,
        command,
        lane: Some(op.op.lane.clone()),
        path: Some(op.op.path.clone()),
        op_ids,
        required_inputs: replacement_inputs(),
    }
}

/// The names of operations.
pub open spec fn op_names(ops: Seq<ReviewOpView>) -> Seq<Seq<char>> {
    ops.map_values(|op: ReviewOpView| op.op.op_id)
}

/// A selection of operations as command arguments.
pub open spec fn selection_args(ops: Seq<ReviewOpView>) -> Seq<Seq<char>>
    decreases ops.len(),
{
    if ops.len() == 0 {
        Seq::empty()
    } else {
        selection_args(ops.drop_last()) + seq!["--op"@, ops.last().op.op_id]
    }
}

/// Accepts several operations at one path with other bytes in their place.
pub open spec fn accept_group_of(ops: Seq<ReviewOpView>) -> ReviewActionView {
    ReviewActionView {
        kind: ReviewActionKind::Accept,
        command: seq!["accept"@, ops[0].op.path] + selection_args(ops) + seq![
            "--with-file"@,
            "<replacement-file>"@,
        ],
        lane: None,
        path: Some(ops[0].op.path),
        op_ids: op_names(ops),
        required_inputs: seq![replacement_input()],
    }
}

fn accept_replacement_ops_action(ops: &Vec<ReviewOpOutput>) -> (r: ReviewActionOutput)
    requires
        ops@.len() > 0,
    ensures
        r@ == accept_group_of(sorting::views(ops@)),
{
    let ghost all = sorting::views(ops@);
    let path = ops[0].op.path.as_str();
    let mut command = words(vec!["accept", path]);
    let mut op_ids: Vec<String> = Vec::new();
    let mut i: usize = 0;
    proof {
        assert(text::texts(command@) =~= seq!["accept"@, path@] + selection_args(
            all.subrange(0, 0),
        ));
    }
    while i < ops.len()
        invariant
            i <= ops@.len(),
            all == sorting::views(ops@),
            text::texts(command@) == seq!["accept"@, path@] + selection_args(
                all.subrange(0, i as int),
            ),
            op_ids@.len() == i,
            forall|k: int| 0 <= k < i ==> (#[trigger] op_ids@[k])@ == all[k].op.op_id,
        decreases ops@.len() - i,
    {
        let ghost before = text::texts(command@);
        let id = &ops[i].op.op_id;
        command.push("--op".to_owned());
        command.push(id.clone());
        op_ids.push(id.clone());
        proof {
            assert(all.subrange(0, i + 1).drop_last() =~= all.subrange(0, i as int));
            assert(all.subrange(0, i + 1).last() == ops@[i as int]@);
            assert(text::texts(command@) =~= before + seq!["--op"@, id@]);
            assert(text::texts(command@) =~= seq!["accept"@, path@] + selection_args(
                all.subrange(0, i + 1),
            ));
        }
        i = i + 1;
    }
    let ghost before = text::texts(command@);
    command.push("--with-file".to_owned());
    command.push("<replacement-file>".to_owned());
    proof {
        assert(all.subrange(0, i as int) =~= all);
        assert(all[0].op.path == path@);
        assert(text::texts(command@) =~= before + seq!["--with-file"@, "<replacement-file>"@]);
        assert(text::texts(op_ids@) =~= op_names(all));
    }
    ReviewActionOutput {
        kind: ReviewActionKind::Accept,
        command,
        lane: None,
        path: Some(path.to_owned()),
        op_ids,
        required_inputs: replacement_inputs(),
    }
}

/// The least start of the ranges; 0 where there are none.
pub open spec fn least_start(ops: Seq<ReviewOpView>) -> int
    decreases ops.len(),
{
    if ops.len() == 0 {
        0
    } else if ops.len() == 1 || ops.last().op.base_start < least_start(ops.drop_last()) {
        ops.last().op.base_start
    } else {
        least_start(ops.drop_last())
    }
}

/// The greatest end of the ranges; 0 where there are none.
pub open spec fn greatest_end(ops: Seq<ReviewOpView>) -> int
    decreases ops.len(),
{
    if ops.len() == 0 {
        0
    } else if ops.len() == 1 || ops.last().op.base_end > greatest_end(ops.drop_last()) {
        ops.last().op.base_end
    } else {
        greatest_end(ops.drop_last())
    }
}

/// The lanes of operations.
pub open spec fn lanes_of(ops: Seq<ReviewOpView>) -> Set<Seq<char>> {
    Set::new(|lane: Seq<char>| exists|i: int| 0 <= i < ops.len() && (#[trigger] ops[i]).op.lane == lane)
}

/// What can be done with each of the operations.
pub open spec fn op_actions(ops: Seq<ReviewOpView>) -> Seq<ReviewActionView>
    decreases ops.len(),
{
    if ops.len() == 0 {
        Seq::empty()
    } else {
        op_actions(ops.drop_last()) + seq![
            detail_of(ops.last().op),
            accept_replacement_of(ops.last().op),
        ]
    }
}

/// What can be done with a group.
pub open spec fn group_actions(ops: Seq<ReviewOpView>) -> Seq<ReviewActionView> {
    if ops.len() > 1 {
        seq![accept_group_of(ops)] + op_actions(ops)
    } else {
        op_actions(ops)
    }
}

/// A group of operations as it is listed.
pub open spec fn conflict_of(ops: Seq<ReviewOpView>) -> ReviewConflictView {
    ReviewConflictView {
        range_start: least_start(ops),
        range_end: greatest_end(ops),
        lanes: text_map::listing(lanes_of(ops)),
        actions: group_actions(ops),
        ops,
    }
}

fn group_range(ops: &Vec<ReviewOpOutput>) -> (r: (u64, u64))
    ensures
        r.0 == least_start(sorting::views(ops@)),
        r.1 == greatest_end(sorting::views(ops@)),
{
    let ghost all = sorting::views(ops@);
    let mut start: u64 = 0;
    let mut end: u64 = 0;
    let mut i: usize = 0;
    while i < ops.len()
        invariant
            i <= ops@.len(),
            all == sorting::views(ops@),
            start == least_start(all.subrange(0, i as int)),
            end == greatest_end(all.subrange(0, i as int)),
        decreases ops@.len() - i,
    {
        let op = &ops[i].op;
        proof {
            assert(all.subrange(0, i + 1).drop_last() =~= all.subrange(0, i as int));
            assert(all.subrange(0, i + 1).last() == ops@[i as int]@);
        }
        if i == 0 || op.base_start < start {
            start = op.base_start;
        }
        if i == 0 || op.base_end > end {
            end = op.base_end;
        }
        i = i + 1;
    }
    assert(all.subrange(0, i as int) =~= all);
    (start, end)
}

fn group_lanes(ops: &Vec<ReviewOpOutput>) -> (r: Vec<String>)
    ensures
        text::texts(r@) == text_map::listing(lanes_of(sorting::views(ops@))),
{
    let ghost all = sorting::views(ops@);
    let mut lanes: TextMap<()> = TextMap::new();
    let mut i: usize = 0;
    while i < ops.len()
        invariant
            i <= ops@.len(),
            all == sorting::views(ops@),
            lanes.wf(),
            forall|k: Seq<char>| #[trigger]
                lanes@.contains_key(k) <==> (exists|j: int|
                    0 <= j < i && (#[trigger] all[j]).op.lane == k),
        decreases ops@.len() - i,
    {
        assert(all[i as int].op.lane == ops@[i as int].op.lane@);
        let _ = lanes.insert(ops[i].op.lane.clone(), ());
        i = i + 1;
    }
    proof {
        lanes.lemma_wf();
        assert(lanes@.dom() =~= lanes_of(all));
    }
    map_keys(&lanes)
}

fn review_conflict_output(ops: Vec<ReviewOpOutput>) -> (r: ReviewConflictOutput)
    ensures
        r@ == conflict_of(sorting::views(ops@)),
{
    let ghost all = sorting::views(ops@);
    let (range_start, range_end) = group_range(&ops);
    let lanes = group_lanes(&ops);
    let mut actions: Vec<ReviewActionOutput> = Vec::new();
    if ops.len() > 1 {
        actions.push(accept_replacement_ops_action(&ops));
    }
    let ghost first = sorting::views(actions@);
    let mut i: usize = 0;
    assert(first + op_actions(all.subrange(0, 0)) =~= first);
    while i < ops.len()
        invariant
            i <= ops@.len(),
            all == sorting::views(ops@),
            sorting::views(actions@) == first + op_actions(all.subrange(0, i as int)),
        decreases ops@.len() - i,
    {
        let ghost before = sorting::views(actions@);
        actions.push(detail_action(&ops[i]));
        actions.push(accept_replacement_op_action(&ops[i]));
        proof {
            assert(all.subrange(0, i + 1).drop_last() =~= all.subrange(0, i as int));
            assert(all.subrange(0, i + 1).last() == ops@[i as int]@);
            assert(sorting::views(actions@) =~= before + seq![
                detail_of(all[i as int].op),
                accept_replacement_of(all[i as int].op),
            ]);
            assert(sorting::views(actions@) =~= first + op_actions(all.subrange(0, i + 1)));
        }
        i = i + 1;
    }
    proof {
        assert(all.subrange(0, i as int) =~= all);
        assert(sorting::views(actions@) =~= group_actions(all));
    }
    ReviewConflictOutput { range_start, range_end, lanes, actions, ops }
}

/// Groups are listed by range and by the order key of their first operation.
pub open spec fn conflict_before(a: ReviewConflictView, b: ReviewConflictView) -> bool {
    if a.range_start != b.range_start {
        a.range_start < b.range_start
    } else if a.range_end != b.range_end {
        a.range_end < b.range_end
    } else {
        text::text_lt(first_key(a), first_key(b))
    }
}

/// The order key of the first operation.
pub open spec fn first_key(conflict: ReviewConflictView) -> Seq<char> {
    if conflict.ops.len() == 0 {
        Seq::empty()
    } else {
        conflict.ops[0].op.order_key
    }
}

fn first_order_key(conflict: &ReviewConflictOutput) -> (r: &str)
    ensures
        r@ == first_key(conflict@),
{
    if conflict.ops.len() == 0 {
        proof {
            reveal_strlit("");
            assert(""@ =~= Seq::<char>::empty());
        }
        ""
    } else {
        assert(conflict@.ops[0] == conflict.ops@[0]@);
        conflict.ops[0].op.order_key.as_str()
    }
}

impl Ranked for ReviewConflictOutput {
    open spec fn before(a: ReviewConflictView, b: ReviewConflictView) -> bool {
        conflict_before(a, b)
    }

    fn is_before(&self, other: &Self) -> (r: bool) {
        proof {
            text::lemma_text_lt_irreflexive(first_key(self@));
        }
        if self.range_start != other.range_start {
            self.range_start < other.range_start
        } else if self.range_end != other.range_end {
            self.range_end < other.range_end
        } else {
            match text_order(first_order_key(self), first_order_key(other)) {
                TextOrder::Before => true,
                _ => false,
            }
        }
    }

    proof fn lemma_asymmetric(a: ReviewConflictView, b: ReviewConflictView) {
        lemma_text_weak(first_key(a), first_key(b), first_key(b));
    }

    proof fn lemma_weak(a: ReviewConflictView, b: ReviewConflictView, c: ReviewConflictView) {
        lemma_text_weak(first_key(a), first_key(b), first_key(c));
    }
}

/// The groups that the first `n` operations open.
pub open spec fn groups_upto(ops: Seq<ReviewOpView>, n: int) -> Seq<ReviewConflictView>
    decreases n,
{
    if n <= 0 {
        Seq::empty()
    } else if opens_group(ops, n - 1) {
        groups_upto(ops, n - 1).push(conflict_of(group_of(ops, n - 1)))
    } else {
        groups_upto(ops, n - 1)
    }
}

/// The groups into which clashes divide operations, in order.
pub open spec fn conflict_groups(ops: Seq<ReviewOpView>) -> Seq<ReviewConflictView> {
    sorting::ordered::<ReviewConflictOutput>(groups_upto(ops, ops.len() as int))
}

fn marked_ops(ops: &Vec<ReviewOpOutput>, flags: &Vec<bool>, index: usize) -> (r: Vec<ReviewOpOutput>)
    requires
        flags@.len() == ops@.len(),
        forall|j: int|
            0 <= j < ops@.len() ==> (#[trigger] flags@[j]) == grouped(
                sorting::views(ops@),
                index as int,
                j,
            ),
    ensures
        sorting::views(r@) == members_upto(sorting::views(ops@), index as int, ops@.len() as int),
{
    let ghost all = sorting::views(ops@);
    let mut r: Vec<ReviewOpOutput> = Vec::new();
    let mut i: usize = 0;
    assert(sorting::views(r@) =~= Seq::empty());
    while i < ops.len()
        invariant
            i <= ops@.len() == flags@.len(),
            all == sorting::views(ops@),
            forall|j: int|
                0 <= j < ops@.len() ==> (#[trigger] flags@[j]) == grouped(all, index as int, j),
            sorting::views(r@) == members_upto(all, index as int, i as int),
        decreases ops@.len() - i,
    {
        if flags[i] {
            let op = ops[i].copied();
            proof {
                lists::lemma_views_push(r@, op);
            }
            r.push(op);
        }
        i = i + 1;
    }
    r
}

/// Divides operations into the groups of those that clash.
pub fn conflict_groups_for_path(ops: &Vec<ReviewOpOutput>) -> (r: Vec<ReviewConflictOutput>)
    ensures
        sorting::views(r@) == conflict_groups(sorting::views(ops@)),
{
    let ghost all = sorting::views(ops@);
    let n: usize = ops.len();
    let mut groups: Vec<ReviewConflictOutput> = Vec::new();
    let mut covered: Vec<bool> = Vec::new();
    let mut filled: usize = 0;
    while filled < n
        invariant
            filled <= n,
            covered@.len() == filled,
            forall|j: int| 0 <= j < filled ==> !(#[trigger] covered@[j]),
        decreases n - filled,
    {
        covered.push(false);
        filled = filled + 1;
    }
    let mut index: usize = 0;
    assert(sorting::views(groups@) =~= Seq::empty());
    while index < n
        invariant
            index <= n == ops@.len() == covered@.len(),
            all == sorting::views(ops@),
            sorting::views(groups@) == groups_upto(all, index as int),
            forall|j: int|
                0 <= j < n ==> (#[trigger] covered@[j]) == (exists|k: int|
                    0 <= k < index && #[trigger] grouped(all, k, j)),
        decreases n - index,
    {
        let ghost covered0 = covered@;
        if !covered[index] {
            let flags = mark_group(ops, index);
            let members = marked_ops(ops, &flags, index);
            let group = review_conflict_output(sort_list(members));
            proof {
                assert(opens_group(all, index as int));
                lists::lemma_views_push(groups@, group);
            }
            groups.push(group);
            let mut j: usize = 0;
            while j < n
                invariant
                    j <= n == covered@.len() == flags@.len() == covered0.len(),
                    forall|k: int|
                        0 <= k < j ==> (#[trigger] covered@[k]) == (covered0[k] || flags@[k]),
                    forall|k: int| j <= k < n ==> (#[trigger] covered@[k]) == covered0[k],
                decreases n - j,
            {
                let seen = covered[j] || flags[j];
                covered.set(j, seen);
                j = j + 1;
            }
            proof {
                assert forall|j: int| 0 <= j < n implies (#[trigger] covered@[j]) == (exists|k: int|
                    0 <= k < index + 1 && #[trigger] grouped(all, k, j)) by {
                    if covered0[j] {
                        let k = choose|k: int| 0 <= k < index && #[trigger] grouped(all, k, j);
                        assert(0 <= k < index + 1 && grouped(all, k, j));
                    }
                    if flags@[j] {
                        assert(grouped(all, index as int, j));
                    }
                }
            }
        } else {
            proof {
                let k = choose|k: int| 0 <= k < index && #[trigger] grouped(all, k, index as int);
                assert(!opens_group(all, index as int));
                assert forall|j: int| 0 <= j < n implies (#[trigger] covered@[j]) == (exists|k: int|
                    0 <= k < index + 1 && #[trigger] grouped(all, k, j)) by {
                    if covered0[j] {
                        let m = choose|m: int| 0 <= m < index && #[trigger] grouped(all, m, j);
                        assert(0 <= m < index + 1 && grouped(all, m, j));
                    }
                    if grouped(all, index as int, j) {
                        let steps = choose|steps: nat| #[trigger] leads_to(
                            all,
                            index as int,
                            j,
                            steps,
                        );
                        lemma_grouped_transitive(all, k, index as int, j, steps);
                        assert(0 <= k < index && grouped(all, k, j));
                    }
                }
            }
        }
        index = index + 1;
    }
    sort_list(groups)
}

/// The number of the group that holds an operation; the last one counts.
pub open spec fn group_number(conflicts: Seq<ReviewConflictView>, name: Seq<char>) -> Option<nat>
    decreases conflicts.len(),
{
    if conflicts.len() == 0 {
        None
    } else if op_names(conflicts.last().ops).contains(name) {
        Some(conflicts.len())
    } else {
        group_number(conflicts.drop_last(), name)
    }
}

/// An operation with the number of its group.
pub open spec fn numbered(conflicts: Seq<ReviewConflictView>, op: ReviewOpView) -> ReviewOrderedOpView {
    let group = group_number(conflicts, op.op.op_id);
    ReviewOrderedOpView {
        state: if group is Some {
            ReviewOpState::Conflicted
        } else {
            ReviewOpState::Clean
        },
        conflict_group: group,
        op: op.op,
        base: op.base,
        inserted: op.inserted,
    }
}

/// The operations of all groups.
pub open spec fn conflict_ops(conflicts: Seq<ReviewConflictView>) -> Seq<ReviewOpView>
    decreases conflicts.len(),
{
    if conflicts.len() == 0 {
        Seq::empty()
    } else {
        conflict_ops(conflicts.drop_last()) + conflicts.last().ops
    }
}

/// All operations at a path with the numbers of their groups, in order.
pub open spec fn ordered_path_ops(
    clean: Seq<ReviewOpView>,
    conflicts: Seq<ReviewConflictView>,
) -> Seq<ReviewOrderedOpView> {
    sorting::ordered::<ReviewOrderedOpOutput>(
        (clean + conflict_ops(conflicts)).map_values(|op: ReviewOpView| numbered(conflicts, op)),
    )
}

fn names_op(ops: &Vec<ReviewOpOutput>, name: &str) -> (r: bool)
    ensures
        r == op_names(sorting::views(ops@)).contains(name@),
{
    let ghost names = op_names(sorting::views(ops@));
    let mut i: usize = 0;
    while i < ops.len()
        invariant
            i <= ops@.len(),
            names == op_names(sorting::views(ops@)),
            forall|k: int| 0 <= k < i ==> (#[trigger] names[k]) != name@,
        decreases ops@.len() - i,
    {
        assert(names[i as int] == ops@[i as int].op.op_id@);
        if text_eq(ops[i].op.op_id.as_str(), name) {
            return true;
        }
        i = i + 1;
    }
    false
}

fn number_of_group(conflicts: &Vec<ReviewConflictOutput>, name: &str) -> (r: Option<usize>)
    ensures
        crate::vfs::opt_size(r) == group_number(sorting::views(conflicts@), name@),
{
    let ghost all = sorting::views(conflicts@);
    let mut n: usize = conflicts.len();
    assert(all.subrange(0, n as int) =~= all);
    while n > 0
        invariant
            n <= conflicts@.len(),
            all == sorting::views(conflicts@),
            group_number(all, name@) == group_number(all.subrange(0, n as int), name@),
        decreases n,
    {
        proof {
            assert(all.subrange(0, n as int).drop_last() =~= all.subrange(0, n - 1));
            assert(all.subrange(0, n as int).last() == conflicts@[n - 1]@);
        }
        if names_op(&conflicts[n - 1].ops, name) {
            return Some(n);
        }
        n = n - 1;
    }
    None
}

fn number_op(op: &ReviewOpOutput, conflicts: &Vec<ReviewConflictOutput>) -> (r:
    ReviewOrderedOpOutput)
    ensures
        r@ == numbered(sorting::views(conflicts@), op@),
{
    let conflict_group = number_of_group(conflicts, op.op.op_id.as_str());
    let state = match conflict_group {
        Some(_) => ReviewOpState::Conflicted,
        None => ReviewOpState::Clean,
    };
    ReviewOrderedOpOutput {
        state,
        conflict_group,
        op: op.op.copied(),
        base: op.base.copied(),
        inserted: op.inserted.copied(),
    }
}

/// All operations at a path with the numbers of their groups, in order.
pub fn ordered_ops_for_path(
    clean_ops: &Vec<ReviewOpOutput>,
    conflicts: &Vec<ReviewConflictOutput>,
) -> (r: Vec<ReviewOrderedOpOutput>)
    ensures
        sorting::views(r@) == ordered_path_ops(
            sorting::views(clean_ops@),
            sorting::views(conflicts@),
        ),
{
    let ghost clean = sorting::views(clean_ops@);
    let ghost groups = sorting::views(conflicts@);
    let ghost number = |op: ReviewOpView| numbered(groups, op);
    let mut ops: Vec<ReviewOrderedOpOutput> = Vec::new();
    let mut i: usize = 0;
    assert(sorting::views(ops@) =~= clean.subrange(0, 0).map_values(number));
    while i < clean_ops.len()
        invariant
            i <= clean_ops@.len(),
            clean == sorting::views(clean_ops@),
            groups == sorting::views(conflicts@),
            number == (|op: ReviewOpView| numbered(groups, op)),
            sorting::views(ops@) == clean.subrange(0, i as int).map_values(number),
        decreases clean_ops@.len() - i,
    {
        let op = number_op(&clean_ops[i], conflicts);
        proof {
            lists::lemma_views_push(ops@, op);
            assert(clean.subrange(0, i + 1).map_values(number) =~= clean.subrange(
                0,
                i as int,
            ).map_values(number).push(op@));
        }
        ops.push(op);
        i = i + 1;
    }
    assert(clean.subrange(0, i as int) =~= clean);
    let mut g: usize = 0;
    assert(clean + conflict_ops(groups.subrange(0, 0)) =~= clean);
    while g < conflicts.len()
        invariant
            g <= conflicts@.len(),
            groups == sorting::views(conflicts@),
            number == (|op: ReviewOpView| numbered(groups, op)),
            sorting::views(ops@) == (clean + conflict_ops(groups.subrange(0, g as int))).map_values(
                number,
            ),
        decreases conflicts@.len() - g,
    {
        let group = &conflicts[g].ops;
        let ghost before = clean + conflict_ops(groups.subrange(0, g as int));
        let ghost more = sorting::views(group@);
        let mut j: usize = 0;
        assert((before + more.subrange(0, 0)) =~= before);
        while j < group.len()
            invariant
                j <= group@.len(),
                groups == sorting::views(conflicts@),
                more == sorting::views(group@),
                number == (|op: ReviewOpView| numbered(groups, op)),
                sorting::views(ops@) == (before + more.subrange(0, j as int)).map_values(number),
            decreases group@.len() - j,
        {
            let op = number_op(&group[j], conflicts);
            proof {
                lists::lemma_views_push(ops@, op);
                assert(before + more.subrange(0, j + 1) =~= (before + more.subrange(
                    0,
                    j as int,
                )).push(more[j as int]));
                assert((before + more.subrange(0, j + 1)).map_values(number) =~= (before
                    + more.subrange(0, j as int)).map_values(number).push(op@));
            }
            ops.push(op);
            j = j + 1;
        }
        proof {
            assert(more.subrange(0, j as int) =~= more);
            assert(groups.subrange(0, g + 1).drop_last() =~= groups.subrange(0, g as int));
            assert(groups.subrange(0, g + 1).last() == conflicts@[g as int]@);
            assert(clean + conflict_ops(groups.subrange(0, g + 1)) =~= before + more);
        }
        g = g + 1;
    }
    assert(groups.subrange(0, g as int) =~= groups);
    sort_list(ops)
}

/// Clashing goes both ways.
pub proof fn law_clashing_is_symmetric(a: OpSummaryView, b: OpSummaryView)
    ensures
        clashing(a, b) == clashing(b, a),
{
}

proof fn lemma_leads_from(ops: Seq<ReviewOpView>, i: int, j: int, steps: nat)
    requires
        leads_to(ops, i, j, steps),
    ensures
        grouped(ops, j, i),
    decreases steps,
{
    if steps == 0 {
        lemma_grouped_self(ops, i);
    } else {
        let fewer = (steps - 1) as nat;
        if leads_to(ops, i, j, fewer) {
            lemma_leads_from(ops, i, j, fewer);
        } else {
            let k = choose|k: int| leads_to(ops, i, k, fewer) && #[trigger] linked(ops, k, j);
            lemma_leads_from(ops, i, k, fewer);
            law_clashing_is_symmetric(ops[k].op, ops[j].op);
            lemma_grouped_self(ops, j);
            lemma_step(ops, j, j, k);
            let more = choose|steps: nat| #[trigger] leads_to(ops, k, i, steps);
            lemma_grouped_transitive(ops, j, k, i, more);
        }
    }
}

/// Every operation is in the group that some operation, itself or an earlier one, opens.
pub proof fn law_groups_cover(ops: Seq<ReviewOpView>, i: int)
    requires
        0 <= i < ops.len(),
    ensures
        exists|k: int| 0 <= k <= i && #[trigger] opens_group(ops, k) && grouped(ops, k, i),
    decreases i,
{
    if opens_group(ops, i) {
        lemma_grouped_self(ops, i);
    } else {
        let j = choose|j: int| 0 <= j < i && #[trigger] grouped(ops, j, i);
        law_groups_cover(ops, j);
        let k = choose|k: int| 0 <= k <= j && #[trigger] opens_group(ops, k) && grouped(ops, k, j);
        let steps = choose|steps: nat| #[trigger] leads_to(ops, j, i, steps);
        lemma_grouped_transitive(ops, k, j, i, steps);
        assert(opens_group(ops, k) && grouped(ops, k, i));
    }
}

/// No operation is in two groups.
pub proof fn law_groups_are_disjoint(ops: Seq<ReviewOpView>, i: int, j: int, m: int)
    requires
        0 <= i < ops.len(),
        0 <= j < ops.len(),
        opens_group(ops, i),
        opens_group(ops, j),
        grouped(ops, i, m),
        grouped(ops, j, m),
    ensures
        i == j,
{
    let to_i = choose|steps: nat| #[trigger] leads_to(ops, i, m, steps);
    let to_j = choose|steps: nat| #[trigger] leads_to(ops, j, m, steps);
    lemma_leads_from(ops, i, m, to_i);
    lemma_leads_from(ops, j, m, to_j);
    let from_i = choose|steps: nat| #[trigger] leads_to(ops, m, i, steps);
    let from_j = choose|steps: nat| #[trigger] leads_to(ops, m, j, steps);
    lemma_grouped_transitive(ops, j, m, i, from_i);
    lemma_grouped_transitive(ops, i, m, j, from_j);
}

} // verus!
