//! Names of operations, and selections by name.
use vstd::prelude::*;

use crate::bytes::byte_range;
use crate::numbers;
use crate::numbers::{decimal, padded_decimal, parse_u64};
use crate::ops;
use crate::ops::{FileOp, Op};
use crate::text;
use crate::text::{rsplit_once, text_eq};
use crate::types::{LaneError, LaneErrorView};

verus! {

/// What an operation name refers to inside a lane.
#[derive(Clone, Copy, Debug, PartialEq, Eq, Structural)]
pub enum ParsedOpId {
    Present(u64),
    Delete,
}

/// The part of a name after its last colon if the part before it is `lane`, or the whole name if
/// it has no colon.
pub open spec fn op_id_suffix(lane: Seq<char>, op_id: Seq<char>) -> Option<Seq<char>> {
    match text::split_last(op_id, ':') {
        Some((op_lane, suffix)) => if op_lane == lane {
            Some(suffix)
        } else {
            None
        },
        None => Some(op_id),
    }
}

/// What a name refers to in `lane`, if it refers to anything.
pub open spec fn parsed_op_id(lane: Seq<char>, op_id: Seq<char>) -> Option<ParsedOpId> {
    match op_id_suffix(lane, op_id) {
        None => None,
        Some(suffix) => if suffix == "delete"@ {
            Some(ParsedOpId::Delete)
        } else {
            match numbers::parsed_number(suffix, u64::MAX as nat) {
                Some(id) => Some(ParsedOpId::Present(id as u64)),
                None => None,
            }
        },
    }
}

/// Reads an operation name.
pub fn parse_lane_op_id(lane: &str, op_id: &str) -> (r: Option<ParsedOpId>)
    ensures
        r == parsed_op_id(lane@, op_id@),
{
    let suffix: String = match rsplit_once(op_id, ':') {
        Some((op_lane, suffix)) => {
            if !text_eq(op_lane.as_str(), lane) {
                return None;
            }
            suffix
        },
        None => op_id.to_owned(),
    };
    if text_eq(suffix.as_str(), "delete") {
        Some(ParsedOpId::Delete)
    } else {
        match parse_u64(suffix.as_str()) {
            Some(id) => Some(ParsedOpId::Present(id)),
            None => None,
        }
    }
}

/// The name of an operation.
pub open spec fn op_name(lane: Seq<char>, id: int) -> Seq<char> {
    lane + ":"@ + numbers::decimal_text(id as nat)
}

/// The name of the operation that deletes the whole file.
pub open spec fn delete_name(lane: Seq<char>) -> Seq<char> {
    lane + ":delete"@
}

/// The text by which operations are listed: position, key, lane and number.
pub open spec fn listing_key(lane: Seq<char>, op: Op) -> Seq<char> {
    numbers::zero_padded(numbers::decimal_text(op.start as nat), 20) + ":"@ + op.key + ":"@ + lane
        + ":"@ + numbers::zero_padded(numbers::decimal_text(op.id as nat), 20)
}

/// The name of an operation.
pub fn op_id_for(lane: &str, op: &FileOp) -> (r: String)
    ensures
        r@ == op_name(lane@, op@.id),
{
    let mut r = lane.to_owned();
    r.append(":");
    r.append(decimal(op.id).as_str());
    r
}

/// The name of the operation that deletes the whole file.
pub fn delete_op_id_for(lane: &str) -> (r: String)
    ensures
        r@ == delete_name(lane@),
{
    lane.to_owned().concat(":delete")
}

/// The text by which an operation is listed.
pub fn order_key(lane: &str, op: &FileOp) -> (r: String)
    ensures
        r@ == listing_key(lane@, op@),
{
    let mut r = padded_decimal(op.base_start, 20);
    r.append(":");
    r.append(op.order_key.as_str());
    r.append(":");
    r.append(lane);
    r.append(":");
    r.append(padded_decimal(op.id, 20).as_str());
    r
}

/// Reading the name of an operation gives its number.
pub proof fn law_op_name_is_read_back(lane: Seq<char>, id: int)
    requires
        0 <= id <= u64::MAX,
    ensures
        parsed_op_id(lane, op_name(lane, id)) == Some(ParsedOpId::Present(id as u64)),
{
    let digits = numbers::decimal_text(id as nat);
    let name = op_name(lane, id);
    reveal_strlit(":");
    reveal_strlit("delete");
    numbers::lemma_decimal_digits(id as nat);
    numbers::lemma_decimal_round_trip(id as nat, u64::MAX as nat);
    let at = lane.len() as int;
    assert(name[at] == ':');
    assert forall|j: int| at < j < name.len() implies name[j] != ':' by {
        assert(numbers::is_digit(digits[j - at - 1]));
    }
    text::lemma_split_last(name, ':', at);
    assert(name.contains(':'));
    assert(name.subrange(0, at) =~= lane);
    assert(name.subrange(at + 1, name.len() as int) =~= digits);
    assert(numbers::is_digit(digits[0]));
    assert(digits[0] != "delete"@[0]);
}

/// Reading the name of a deletion gives a deletion.
pub proof fn law_delete_name_is_read_back(lane: Seq<char>)
    ensures
        parsed_op_id(lane, delete_name(lane)) == Some(ParsedOpId::Delete),
        text::split_last(delete_name(lane), ':') == Some((lane, "delete"@)),
{
    let name = delete_name(lane);
    reveal_strlit(":delete");
    reveal_strlit("delete");
    let at = lane.len() as int;
    assert(name[at] == ':');
    text::lemma_split_last(name, ':', at);
    assert(name.contains(':'));
    assert(name.subrange(0, at) =~= lane);
    assert(name.subrange(at + 1, name.len() as int) =~= "delete"@);
}

/// The highest number among operations, or zero.
pub open spec fn max_id(ops: Seq<Op>) -> int
    decreases ops.len(),
{
    if ops.len() == 0 {
        0
    } else {
        let before = max_id(ops.drop_last());
        if ops.last().id > before {
            ops.last().id
        } else {
            before
        }
    }
}

/// A number that no operation has yet.
pub fn next_file_op_id(ops: &Vec<FileOp>) -> (r: u64)
    requires
        max_id(ops::ops_view(ops@)) < u64::MAX,
    ensures
        r == max_id(ops::ops_view(ops@)) + 1,
{
    let ghost all = ops::ops_view(ops@);
    let mut highest: u64 = 0;
    let mut i: usize = 0;
    assert(all.subrange(0, 0) =~= Seq::<Op>::empty());
    while i < ops.len()
        invariant
            i <= ops@.len(),
            all == ops::ops_view(ops@),
            highest == max_id(all.subrange(0, i as int)),
        decreases ops@.len() - i,
    {
        assert(all.subrange(0, i + 1).drop_last() =~= all.subrange(0, i as int));
        assert(all.subrange(0, i + 1).last() == ops@[i as int]@);
        if ops[i].id > highest {
            highest = ops[i].id;
        }
        i = i + 1;
    }
    assert(all.subrange(0, i as int) =~= all);
    highest + 1
}

/// The error for a name that refers to nothing.
pub fn operation_missing(path: &str, op_id: &str) -> (r: LaneError)
    ensures
        r@ == LaneErrorView::OperationMissing(path@, op_id@),
{
    LaneError::OperationMissing { path: path.to_owned(), op_id: op_id.to_owned() }
}

/// Some operation has the number `id`.
pub open spec fn has_id(ops: Seq<Op>, id: int) -> bool {
    exists|i: int| 0 <= i < ops.len() && (#[trigger] ops[i]).id == id
}

/// The position of the first operation with the number `id`.
pub open spec fn is_first_with_id(ops: Seq<Op>, id: int, at: int) -> bool {
    &&& 0 <= at < ops.len()
    &&& ops[at].id == id
    &&& forall|i: int| 0 <= i < at ==> (#[trigger] ops[i]).id != id
}

/// The position of the first operation with the number `id`.
pub fn find_op(ops: &Vec<FileOp>, id: u64) -> (r: Option<usize>)
    ensures
        match r {
            Some(at) => is_first_with_id(ops::ops_view(ops@), id as int, at as int),
            None => !has_id(ops::ops_view(ops@), id as int),
        },
{
    let ghost all = ops::ops_view(ops@);
    let mut i: usize = 0;
    while i < ops.len()
        invariant
            i <= ops@.len(),
            all == ops::ops_view(ops@),
            forall|k: int| 0 <= k < i ==> (#[trigger] all[k]).id != id,
        decreases ops@.len() - i,
    {
        assert(all[i as int] == ops@[i as int]@);
        if ops[i].id == id {
            return Some(i);
        }
        i = i + 1;
    }
    None
}

/// A name that refers to one of the operations.
pub open spec fn names_present(lane: Seq<char>, ops: Seq<Op>, op_id: Seq<char>) -> bool {
    match parsed_op_id(lane, op_id) {
        Some(ParsedOpId::Present(id)) => has_id(ops, id as int),
        _ => false,
    }
}

/// The first name that refers to none of the operations, if there is one.
pub open spec fn first_unknown(lane: Seq<char>, ops: Seq<Op>, op_ids: Seq<Seq<char>>) -> Option<Seq<char>>
    decreases op_ids.len(),
{
    if op_ids.len() == 0 {
        None
    } else if !names_present(lane, ops, op_ids[0]) {
        Some(op_ids[0])
    } else {
        first_unknown(lane, ops, op_ids.drop_first())
    }
}

/// Whether the number `id` is named.
pub open spec fn is_selected(lane: Seq<char>, op_ids: Seq<Seq<char>>, id: int) -> bool {
    exists|i: int|
        0 <= i < op_ids.len() && parsed_op_id(lane, #[trigger] op_ids[i]) == Some(
            ParsedOpId::Present(id as u64),
        )
}

/// The named operations, in their own order.
pub open spec fn selected_ops(lane: Seq<char>, ops: Seq<Op>, op_ids: Seq<Seq<char>>) -> Seq<Op> {
    ops.filter(|op: Op| is_selected(lane, op_ids, op.id))
}

/// The operations that are not named, in their own order.
pub open spec fn unselected_ops(lane: Seq<char>, ops: Seq<Op>, op_ids: Seq<Seq<char>>) -> Seq<Op> {
    ops.filter(|op: Op| !is_selected(lane, op_ids, op.id))
}

/// The selection that names make, or the first name that refers to nothing.
pub open spec fn present_selection(
    path: Seq<char>,
    lane: Seq<char>,
    ops: Seq<Op>,
    op_ids: Seq<Seq<char>>,
) -> Result<Seq<Op>, LaneErrorView> {
    match first_unknown(lane, ops, op_ids) {
        Some(op_id) => Err(LaneErrorView::OperationMissing(path, op_id)),
        None => Ok(selected_ops(lane, ops, op_ids)),
    }
}

/// Whether `id` is in `ids`.
pub fn contains_id(ids: &Vec<u64>, id: u64) -> (r: bool)
    ensures
        r == ids@.contains(id),
{
    let mut i: usize = 0;
    while i < ids.len()
        invariant
            i <= ids@.len(),
            forall|k: int| 0 <= k < i ==> ids@[k] != id,
        decreases ids@.len() - i,
    {
        if ids[i] == id {
            assert(ids@[i as int] == id);
            return true;
        }
        i = i + 1;
    }
    false
}

/// The numbers that names refer to, or the first name that refers to nothing.
pub fn selected_ids(path: &str, lane: &str, ops: &Vec<FileOp>, op_ids: &Vec<String>) -> (r: Result<
    Vec<u64>,
    LaneError,
>)
    ensures
        match r {
            Ok(ids) => first_unknown(lane@, ops::ops_view(ops@), text::texts(op_ids@)) is None
                && forall|id: u64| #[trigger]
                ids@.contains(id) <==> is_selected(lane@, text::texts(op_ids@), id as int),
            Err(error) => match first_unknown(lane@, ops::ops_view(ops@), text::texts(op_ids@)) {
                Some(op_id) => error@ == LaneErrorView::OperationMissing(path@, op_id),
                None => false,
            },
        },
{
    let ghost all = ops::ops_view(ops@);
    let ghost names = text::texts(op_ids@);
    let mut ids: Vec<u64> = Vec::new();
    let mut i: usize = 0;
    assert(names.subrange(0, names.len() as int) =~= names);
    while i < op_ids.len()
        invariant
            i <= op_ids@.len(),
            all == ops::ops_view(ops@),
            names == text::texts(op_ids@),
            first_unknown(lane@, all, names) == first_unknown(
                lane@,
                all,
                names.subrange(i as int, names.len() as int),
            ),
            ids@.len() == i,
            forall|k: int|
                0 <= k < i ==> parsed_op_id(lane@, #[trigger] names[k]) == Some(
                    ParsedOpId::Present(ids@[k]),
                ),
        decreases op_ids@.len() - i,
    {
        let name = op_ids[i].as_str();
        let ghost rest = names.subrange(i as int, names.len() as int);
        proof {
            assert(rest[0] == name@);
            assert(rest.drop_first() =~= names.subrange(i + 1, names.len() as int));
        }
        match parse_lane_op_id(lane, name) {
            Some(ParsedOpId::Present(id)) => {
                match find_op(ops, id) {
                    Some(at) => {
                        assert(all[at as int].id == id);
                        ids.push(id);
                    },
                    None => {
                        return Err(operation_missing(path, name));
                    },
                }
            },
            _ => {
                return Err(operation_missing(path, name));
            },
        }
        i = i + 1;
    }
    proof {
        assert forall|id: u64| #[trigger] ids@.contains(id) <==> is_selected(
            lane@,
            names,
            id as int,
        ) by {
            if ids@.contains(id) {
                let k = choose|k: int| 0 <= k < ids@.len() && ids@[k] == id;
                assert(parsed_op_id(lane@, names[k]) == Some(ParsedOpId::Present(id)));
            }
            if is_selected(lane@, names, id as int) {
                let k = choose|k: int|
                    0 <= k < names.len() && parsed_op_id(lane@, #[trigger] names[k]) == Some(
                        ParsedOpId::Present(id),
                    );
                assert(ids@[k] == id);
            }
        }
    }
    Ok(ids)
}

/// The operations whose numbers are in `ids`, or those whose numbers are not.
pub fn ops_by_id(ops: &Vec<FileOp>, ids: &Vec<u64>, wanted: bool) -> (r: Vec<FileOp>)
    ensures
        ops::ops_view(r@) == ops::ops_view(ops@).filter(
            |op: Op| ids@.contains(op.id as u64) == wanted,
        ),
{
    let ghost all = ops::ops_view(ops@);
    let ghost keep = |op: Op| ids@.contains(op.id as u64) == wanted;
    let mut kept: Vec<FileOp> = Vec::new();
    let mut i: usize = 0;
    assert(all.subrange(0, 0) =~= Seq::<Op>::empty());
    assert(ops::ops_view(kept@) =~= all.subrange(0, 0).filter(keep)) by {
        reveal(Seq::filter);
    }
    while i < ops.len()
        invariant
            i <= ops@.len(),
            all == ops::ops_view(ops@),
            keep == (|op: Op| ids@.contains(op.id as u64) == wanted),
            ops::ops_view(kept@) == all.subrange(0, i as int).filter(keep),
        decreases ops@.len() - i,
    {
        proof {
            assert(all.subrange(0, i + 1).drop_last() =~= all.subrange(0, i as int));
            assert(all[i as int] == ops@[i as int]@);
            reveal(Seq::filter);
        }
        if contains_id(ids, ops[i].id) == wanted {
            let ghost before = ops::ops_view(kept@);
            kept.push(ops[i].copy());
            assert(ops::ops_view(kept@) =~= before.push(ops@[i as int]@));
        }
        i = i + 1;
    }
    assert(all.subrange(0, i as int) =~= all);
    kept
}

/// Filters that agree on the elements of a list keep the same elements.
pub proof fn lemma_filter_same(list: Seq<Op>, p: spec_fn(Op) -> bool, q: spec_fn(Op) -> bool)
    requires
        forall|i: int| 0 <= i < list.len() ==> p(#[trigger] list[i]) == q(list[i]),
    ensures
        list.filter(p) == list.filter(q),
    decreases list.len(),
{
    reveal(Seq::filter);
    if list.len() > 0 {
        let rest = list.drop_last();
        assert(forall|i: int| 0 <= i < rest.len() ==> rest[i] == list[i]);
        lemma_filter_same(rest, p, q);
        assert(p(list[list.len() - 1]) == q(list[list.len() - 1]));
    }
}

/// The named operations, or the first name that refers to nothing.
pub fn selected_present_ops(
    path: &str,
    lane: &str,
    ops: &Vec<FileOp>,
    op_ids: &Vec<String>,
) -> (r: Result<Vec<FileOp>, LaneError>)
    ensures
        match r {
            Ok(kept) => present_selection(path@, lane@, ops::ops_view(ops@), text::texts(op_ids@))
                == Ok::<Seq<Op>, LaneErrorView>(ops::ops_view(kept@)),
            Err(error) => present_selection(path@, lane@, ops::ops_view(ops@), text::texts(op_ids@))
                == Err::<Seq<Op>, LaneErrorView>(error@),
        },
{
    match selected_ids(path, lane, ops, op_ids) {
        Err(error) => Err(error),
        Ok(ids) => {
            let kept = ops_by_id(ops, &ids, true);
            proof {
                lemma_selected_filter(lane@, ops@, text::texts(op_ids@), ids@);
            }
            Ok(kept)
        },
    }
}

/// Numbers that mirror the names select the same operations.
pub proof fn lemma_selected_filter(
    lane: Seq<char>,
    list: Seq<FileOp>,
    names: Seq<Seq<char>>,
    ids: Seq<u64>,
)
    requires
        forall|id: u64| #[trigger] ids.contains(id) <==> is_selected(lane, names, id as int),
    ensures
        ops::ops_view(list).filter(|op: Op| ids.contains(op.id as u64) == true) == selected_ops(
            lane,
            ops::ops_view(list),
            names,
        ),
        ops::ops_view(list).filter(|op: Op| ids.contains(op.id as u64) == false) == unselected_ops(
            lane,
            ops::ops_view(list),
            names,
        ),
{
    let all = ops::ops_view(list);
    assert forall|i: int| 0 <= i < all.len() implies ids.contains((#[trigger] all[i]).id as u64)
        == is_selected(lane, names, all[i].id) by {
        assert(all[i].id == list[i].id);
        assert(ids.contains(list[i].id) <==> is_selected(lane, names, list[i].id as int));
    }
    lemma_filter_same(
        all,
        |op: Op| ids.contains(op.id as u64) == true,
        |op: Op| is_selected(lane, names, op.id),
    );
    lemma_filter_same(
        all,
        |op: Op| ids.contains(op.id as u64) == false,
        |op: Op| !is_selected(lane, names, op.id),
    );
}

/// The first name that does not refer to the deletion, if there is one.
pub open spec fn first_not_delete(lane: Seq<char>, op_ids: Seq<Seq<char>>) -> Option<Seq<char>>
    decreases op_ids.len(),
{
    if op_ids.len() == 0 {
        None
    } else if parsed_op_id(lane, op_ids[0]) != Some(ParsedOpId::Delete) {
        Some(op_ids[0])
    } else {
        first_not_delete(lane, op_ids.drop_first())
    }
}

/// Accepts names that all refer to the deletion of the file.
pub fn ensure_delete_selection(path: &str, lane: &str, op_ids: &Vec<String>) -> (r: Result<
    (),
    LaneError,
>)
    ensures
        match r {
            Ok(()) => first_not_delete(lane@, text::texts(op_ids@)) is None,
            Err(error) => match first_not_delete(lane@, text::texts(op_ids@)) {
                Some(op_id) => error@ == LaneErrorView::OperationMissing(path@, op_id),
                None => false,
            },
        },
{
    let ghost names = text::texts(op_ids@);
    let mut i: usize = 0;
    assert(names.subrange(0, names.len() as int) =~= names);
    while i < op_ids.len()
        invariant
            i <= op_ids@.len(),
            names == text::texts(op_ids@),
            first_not_delete(lane@, names) == first_not_delete(
                lane@,
                names.subrange(i as int, names.len() as int),
            ),
        decreases op_ids@.len() - i,
    {
        let name = op_ids[i].as_str();
        proof {
            let rest = names.subrange(i as int, names.len() as int);
            assert(rest[0] == name@);
            assert(rest.drop_first() =~= names.subrange(i + 1, names.len() as int));
        }
        match parse_lane_op_id(lane, name) {
            Some(ParsedOpId::Delete) => {},
            _ => {
                return Err(operation_missing(path, name));
            },
        }
        i = i + 1;
    }
    Ok(())
}

/// The base bytes that an operation replaces, or the error where it leaves the base.
pub open spec fn op_base_bytes(path: Seq<char>, base: Seq<u8>, op: Op) -> Result<
    Seq<u8>,
    LaneErrorView,
> {
    if op.end() > base.len() {
        Err(LaneErrorView::OperationOutOfBounds(path))
    } else {
        Ok(base.subrange(op.start, op.end()))
    }
}

/// The base bytes that an operation replaces.
pub fn base_slice_for_op(path: &str, base: &[u8], op: &FileOp) -> (r: Result<Vec<u8>, LaneError>)
    ensures
        ops::bytes_result(r) == op_base_bytes(path@, base@, op@),
{
    let len: u64 = base.len() as u64;
    if op.base_start > len || op.base_len > len - op.base_start {
        return Err(LaneError::OperationOutOfBounds { path: path.to_owned() });
    }
    let start: usize = op.base_start as usize;
    let end: usize = start + op.base_len as usize;
    Ok(byte_range(base, start, end))
}

} // verus!
