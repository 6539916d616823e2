//! Byte operations against a base file: ordering, rendering, conflicts and identifiers.
use vstd::prelude::*;
use vstd::slice::slice_to_vec;

use crate::bytes::append_range;
use crate::order_key;
use crate::text;
use crate::text::{text_order, TextOrder};
use crate::types::{FileOpStorageSnapshot, LaneError, LaneErrorView};

verus! {

/// Replaces `base_len` bytes of the base at `base_start` by `inserted`.
#[derive(Debug, PartialEq, Eq)]
pub struct FileOp {
    pub id: u64,
    pub base_start: u64,
    pub base_len: u64,
    pub order_key: String,
    pub inserted: Vec<u8>,
}

/// A [`FileOp`] as a mathematical value.
#[verifier::ext_equal]
pub struct Op {
    pub id: int,
    pub start: int,
    pub len: int,
    pub key: Seq<char>,
    pub inserted: Seq<u8>,
}

impl View for FileOp {
    type V = Op;

    open spec fn view(&self) -> Op {
        Op {
            id: self.id as int,
            start: self.base_start as int,
            len: self.base_len as int,
            key: self.order_key@,
            inserted: self.inserted@,
        }
    }
}

impl View for FileOpStorageSnapshot {
    type V = Op;

    open spec fn view(&self) -> Op {
        Op {
            id: self.id as int,
            start: self.base_start as int,
            len: self.base_len as int,
            key: self.order_key@,
            inserted: self.inserted@,
        }
    }
}

impl Op {
    /// The position after the last base byte that is replaced.
    pub open spec fn end(self) -> int {
        self.start + self.len
    }

    /// Whether the operation changes nothing.
    pub open spec fn is_noop(self) -> bool {
        self.len == 0 && self.inserted.len() == 0
    }

    /// The same operation at another position.
    pub open spec fn at(self, start: int) -> Op {
        Op { start, ..self }
    }
}

/// The operations of a list.
pub open spec fn ops_view(ops: Seq<FileOp>) -> Seq<Op> {
    ops.map_values(|op: FileOp| op@)
}

/// The operations of a list of references.
pub open spec fn refs_view(ops: Seq<&FileOp>) -> Seq<Op> {
    ops.map_values(|op: &FileOp| op@)
}

/// The operations of a stored list.
pub open spec fn stored_ops_view(ops: Seq<FileOpStorageSnapshot>) -> Seq<Op> {
    ops.map_values(|op: FileOpStorageSnapshot| op@)
}

/// The order in which operations of one lane are applied: by position, length, key and number.
pub open spec fn op_before(a: Op, b: Op) -> bool {
    a.start < b.start || (a.start == b.start && (a.len < b.len || (a.len == b.len && (text::text_lt(
        a.key,
        b.key,
    ) || (a.key == b.key && a.id < b.id)))))
}

/// `sorted` with `op` put in after everything that does not come after it.
pub open spec fn insert_op(sorted: Seq<Op>, op: Op) -> Seq<Op>
    decreases sorted.len(),
{
    if sorted.len() > 0 && op_before(op, sorted.last()) {
        insert_op(sorted.drop_last(), op).push(sorted.last())
    } else {
        sorted.push(op)
    }
}

/// The operations in the order of [`op_before`]; equals stay as they were.
pub open spec fn sort_ops(ops: Seq<Op>) -> Seq<Op>
    decreases ops.len(),
{
    if ops.len() == 0 {
        Seq::empty()
    } else {
        insert_op(sort_ops(ops.drop_last()), ops.last())
    }
}

/// No operation comes before an earlier one.
pub open spec fn in_order(ops: Seq<Op>) -> bool {
    forall|i: int, j: int| 0 <= i < j < ops.len() ==> !op_before(#[trigger] ops[j], #[trigger] ops[i])
}

pub proof fn lemma_op_before_irreflexive(a: Op)
    ensures
        !op_before(a, a),
{
    text::lemma_text_lt_irreflexive(a.key);
}

pub proof fn lemma_op_before_asymmetric(a: Op, b: Op)
    requires
        op_before(a, b),
    ensures
        !op_before(b, a),
{
    if op_before(b, a) {
        lemma_op_before_transitive(a, b, a);
        lemma_op_before_irreflexive(a);
    }
}

pub proof fn lemma_op_before_transitive(a: Op, b: Op, c: Op)
    requires
        op_before(a, b),
        op_before(b, c),
    ensures
        op_before(a, c),
{
    if text::text_lt(a.key, b.key) && text::text_lt(b.key, c.key) {
        text::lemma_text_lt_transitive(a.key, b.key, c.key);
    }
}

/// What does not come after `b` does not come after anything that does not come before `b`.
pub proof fn lemma_not_before_transitive(a: Op, b: Op, c: Op)
    requires
        !op_before(b, a),
        !op_before(c, b),
    ensures
        !op_before(c, a),
{
    if op_before(c, a) {
        text::lemma_text_lt_total(a.key, b.key);
        text::lemma_text_lt_total(b.key, c.key);
        if text::text_lt(c.key, a.key) && text::text_lt(a.key, b.key) {
            text::lemma_text_lt_transitive(c.key, a.key, b.key);
        }
        if text::text_lt(b.key, c.key) && text::text_lt(c.key, a.key) {
            text::lemma_text_lt_transitive(b.key, c.key, a.key);
        }
    }
}

/// Putting an operation in at the right place is what [`insert_op`] does.
pub proof fn lemma_insert_op_at(sorted: Seq<Op>, op: Op, at: int)
    requires
        0 <= at <= sorted.len(),
        forall|i: int| at <= i < sorted.len() ==> op_before(op, #[trigger] sorted[i]),
        at > 0 ==> !op_before(op, sorted[at - 1]),
    ensures
        insert_op(sorted, op) == sorted.insert(at, op),
    decreases sorted.len(),
{
    if at == sorted.len() {
        assert(sorted.insert(at, op) =~= sorted.push(op));
    } else {
        assert(op_before(op, sorted[sorted.len() - 1]));
        lemma_insert_op_at(sorted.drop_last(), op, at);
        assert(sorted.insert(at, op) =~= sorted.drop_last().insert(at, op).push(sorted.last()));
    }
}

/// Sorting keeps the operations.
pub proof fn lemma_insert_op_multiset(sorted: Seq<Op>, op: Op)
    ensures
        insert_op(sorted, op).to_multiset() == sorted.to_multiset().insert(op),
        insert_op(sorted, op).len() == sorted.len() + 1,
    decreases sorted.len(),
{
    broadcast use vstd::seq_lib::group_to_multiset_ensures;

    if sorted.len() > 0 && op_before(op, sorted.last()) {
        let rest = sorted.drop_last();
        lemma_insert_op_multiset(rest, op);
        assert(sorted =~= rest.push(sorted.last()));
        assert(sorted.to_multiset() =~= rest.to_multiset().insert(sorted.last()));
        assert(insert_op(sorted, op).to_multiset() =~= sorted.to_multiset().insert(op));
    }
}

pub proof fn lemma_sort_ops_multiset(ops: Seq<Op>)
    ensures
        sort_ops(ops).to_multiset() == ops.to_multiset(),
        sort_ops(ops).len() == ops.len(),
    decreases ops.len(),
{
    broadcast use vstd::seq_lib::group_to_multiset_ensures;

    if ops.len() > 0 {
        lemma_sort_ops_multiset(ops.drop_last());
        lemma_insert_op_multiset(sort_ops(ops.drop_last()), ops.last());
        assert(ops =~= ops.drop_last().push(ops.last()));
    } else {
        assert(sort_ops(ops) =~= ops);
    }
}

pub proof fn lemma_insert_op_in_order(sorted: Seq<Op>, op: Op)
    requires
        in_order(sorted),
    ensures
        in_order(insert_op(sorted, op)),
        forall|x: Op|
            #![trigger insert_op(sorted, op).contains(x)]
            #![trigger sorted.contains(x)]
            insert_op(sorted, op).contains(x) <==> (sorted.contains(x) || x == op),
    decreases sorted.len(),
{
    if sorted.len() > 0 && op_before(op, sorted.last()) {
        let rest = sorted.drop_last();
        let last = sorted.last();
        let inner = insert_op(rest, op);
        lemma_insert_op_in_order(rest, op);
        let whole = inner.push(last);
        assert forall|i: int, j: int| 0 <= i < j < whole.len() implies !op_before(
            #[trigger] whole[j],
            #[trigger] whole[i],
        ) by {
            if j < inner.len() {
                assert(whole[i] == inner[i] && whole[j] == inner[j]);
            } else {
                assert(inner.contains(inner[i]));
                assert(whole[i] == inner[i]);
                if whole[i] == op {
                    lemma_op_before_asymmetric(op, last);
                } else {
                    assert(rest.contains(whole[i]));
                    let k = choose|k: int| 0 <= k < rest.len() && rest[k] == whole[i];
                    assert(sorted[k] == whole[i]);
                    assert(sorted[sorted.len() - 1] == last);
                }
            }
        }
        assert forall|x: Op| whole.contains(x) <==> (sorted.contains(x) || x == op) by {
            if whole.contains(x) {
                let k = choose|k: int| 0 <= k < whole.len() && whole[k] == x;
                if k < inner.len() {
                    assert(inner.contains(x));
                    if rest.contains(x) {
                        let m = choose|m: int| 0 <= m < rest.len() && rest[m] == x;
                        assert(sorted[m] == x);
                    }
                } else {
                    assert(sorted[sorted.len() - 1] == x);
                }
            }
            if sorted.contains(x) {
                let k = choose|k: int| 0 <= k < sorted.len() && sorted[k] == x;
                if k < rest.len() {
                    assert(rest[k] == x);
                    assert(inner.contains(x));
                    let m = choose|m: int| 0 <= m < inner.len() && inner[m] == x;
                    assert(whole[m] == x);
                } else {
                    assert(whole[inner.len() as int] == x);
                }
            }
            if x == op {
                assert(inner.contains(op));
                let m = choose|m: int| 0 <= m < inner.len() && inner[m] == x;
                assert(whole[m] == x);
            }
        }
    } else {
        let whole = sorted.push(op);
        assert forall|i: int, j: int| 0 <= i < j < whole.len() implies !op_before(
            #[trigger] whole[j],
            #[trigger] whole[i],
        ) by {
            if j == sorted.len() {
                if i < sorted.len() - 1 {
                    assert(!op_before(sorted[sorted.len() - 1], sorted[i]));
                    lemma_not_before_transitive(sorted[i], sorted.last(), op);
                }
            }
        }
        assert forall|x: Op| whole.contains(x) <==> (sorted.contains(x) || x == op) by {
            if sorted.contains(x) {
                let k = choose|k: int| 0 <= k < sorted.len() && sorted[k] == x;
                assert(whole[k] == x);
            }
            assert(whole[sorted.len() as int] == op);
        }
    }
}

/// Sorting puts the operations in order and neither adds nor drops one.
pub proof fn lemma_sort_ops(ops: Seq<Op>)
    ensures
        in_order(sort_ops(ops)),
        sort_ops(ops).len() == ops.len(),
        forall|x: Op|
            #![trigger sort_ops(ops).contains(x)]
            #![trigger ops.contains(x)]
            sort_ops(ops).contains(x) <==> ops.contains(x),
    decreases ops.len(),
{
    lemma_sort_ops_multiset(ops);
    if ops.len() > 0 {
        let rest = ops.drop_last();
        lemma_sort_ops(rest);
        lemma_insert_op_in_order(sort_ops(rest), ops.last());
        assert forall|x: Op| sort_ops(ops).contains(x) <==> ops.contains(x) by {
            if ops.contains(x) {
                let k = choose|k: int| 0 <= k < ops.len() && ops[k] == x;
                if k < rest.len() {
                    assert(rest[k] == x);
                    assert(rest.contains(x));
                }
            }
            if rest.contains(x) {
                let k = choose|k: int| 0 <= k < rest.len() && rest[k] == x;
                assert(ops[k] == x);
            }
            assert(ops[ops.len() - 1] == ops.last());
        }
    }
}

/// Operations in order are sorted already.
pub proof fn lemma_sort_ops_of_sorted(ops: Seq<Op>)
    requires
        in_order(ops),
    ensures
        sort_ops(ops) == ops,
    decreases ops.len(),
{
    if ops.len() > 0 {
        let rest = ops.drop_last();
        assert(in_order(rest)) by {
            assert forall|i: int, j: int| 0 <= i < j < rest.len() implies !op_before(
                #[trigger] rest[j],
                #[trigger] rest[i],
            ) by {
                assert(rest[i] == ops[i] && rest[j] == ops[j]);
            }
        }
        lemma_sort_ops_of_sorted(rest);
        if rest.len() > 0 {
            assert(!op_before(ops[ops.len() - 1], ops[ops.len() - 2]));
        }
        assert(ops =~= rest.push(ops.last()));
    } else {
        assert(sort_ops(ops) =~= ops);
    }
}

/// Whether `a` is applied before `b`.
fn comes_before(a: &FileOp, b: &FileOp) -> (r: bool)
    ensures
        r == op_before(a@, b@),
{
    if a.base_start != b.base_start {
        return a.base_start < b.base_start;
    }
    if a.base_len != b.base_len {
        return a.base_len < b.base_len;
    }
    match text_order(a.order_key.as_str(), b.order_key.as_str()) {
        TextOrder::Before => {
            true
        },
        TextOrder::Same => {
            proof {
                text::lemma_text_lt_irreflexive(a.order_key@);
            }
            a.id < b.id
        },
        TextOrder::After => {
            false
        },
    }
}

/// References to the operations in the order in which they are applied.
pub fn sorted_ops<'a>(ops: &'a Vec<FileOp>) -> (r: Vec<&'a FileOp>)
    ensures
        refs_view(r@) == sort_ops(ops_view(ops@)),
{
    let mut sorted: Vec<&'a FileOp> = Vec::new();
    let mut i: usize = 0;
    let ghost all = ops_view(ops@);
    assert(all.subrange(0, 0) =~= Seq::<Op>::empty());
    assert(refs_view(sorted@) =~= sort_ops(all.subrange(0, 0)));
    while i < ops.len()
        invariant
            i <= ops@.len(),
            all == ops_view(ops@),
            refs_view(sorted@) == sort_ops(all.subrange(0, i as int)),
        decreases ops@.len() - i,
    {
        let op = &ops[i];
        let mut at: usize = sorted.len();
        while at > 0 && comes_before(op, sorted[at - 1])
            invariant
                at <= sorted@.len(),
                forall|k: int| at <= k < sorted@.len() ==> op_before(op@, (#[trigger] sorted@[k])@),
            decreases at,
        {
            at = at - 1;
        }
        proof {
            let before = refs_view(sorted@);
            assert forall|k: int| at <= k < before.len() implies op_before(op@, #[trigger] before[k]) by {
                assert(before[k] == sorted@[k]@);
            }
            if at > 0 {
                assert(before[at - 1] == sorted@[at - 1]@);
            }
            lemma_insert_op_at(before, op@, at as int);
            assert(all.subrange(0, i + 1).drop_last() =~= all.subrange(0, i as int));
            assert(all.subrange(0, i + 1).last() == op@);
        }
        let ghost before = refs_view(sorted@);
        sorted.insert(at, op);
        assert(refs_view(sorted@) =~= before.insert(at as int, op@));
        i = i + 1;
    }
    assert(all.subrange(0, i as int) =~= all);
    sorted
}

impl FileOp {
    /// A copy of the operation.
    pub fn copy(&self) -> (r: FileOp)
        ensures
            r@ == self@,
    {
        FileOp {
            id: self.id,
            base_start: self.base_start,
            base_len: self.base_len,
            order_key: self.order_key.clone(),
            inserted: slice_to_vec(self.inserted.as_slice()),
        }
    }

    /// The form in which the operation is stored.
    pub fn storage_snapshot(&self) -> (r: FileOpStorageSnapshot)
        ensures
            r@ == self@,
    {
        FileOpStorageSnapshot {
            id: self.id,
            base_start: self.base_start,
            base_len: self.base_len,
            order_key: self.order_key.clone(),
            inserted: slice_to_vec(self.inserted.as_slice()),
        }
    }

    /// The operation that was stored.
    pub fn from_storage_snapshot(snapshot: FileOpStorageSnapshot) -> (r: FileOp)
        ensures
            r@ == snapshot@,
    {
        FileOp {
            id: snapshot.id,
            base_start: snapshot.base_start,
            base_len: snapshot.base_len,
            order_key: snapshot.order_key,
            inserted: snapshot.inserted,
        }
    }
}

impl Clone for FileOp {
    fn clone(&self) -> (r: FileOp)
        ensures
            r@ == self@,
    {
        self.copy()
    }
}

/// A copy of a list of operations.
pub fn copy_ops(ops: &Vec<FileOp>) -> (r: Vec<FileOp>)
    ensures
        ops_view(r@) == ops_view(ops@),
{
    let mut r: Vec<FileOp> = Vec::new();
    let mut i: usize = 0;
    while i < ops.len()
        invariant
            i <= ops@.len(),
            r@.len() == i,
            forall|k: int| 0 <= k < i ==> (#[trigger] r@[k])@ == ops@[k]@,
        decreases ops@.len() - i,
    {
        r.push(ops[i].copy());
        i = i + 1;
    }
    assert(ops_view(r@) =~= ops_view(ops@));
    r
}

/// The bytes that sorted operations make of the base from `cursor` on.
pub open spec fn render_from(base: Seq<u8>, cursor: int, ops: Seq<Op>) -> Seq<u8>
    decreases ops.len(),
{
    if ops.len() == 0 {
        base.subrange(cursor, base.len() as int)
    } else {
        base.subrange(cursor, ops[0].start) + ops[0].inserted + render_from(
            base,
            ops[0].end(),
            ops.drop_first(),
        )
    }
}

/// Why operations cannot be applied.
pub enum RenderFault {
    OutOfBounds,
    Conflict,
}

/// The first reason why sorted operations cannot be applied from `cursor` on, if there is one: an
/// end that is no index, or a range that begins before the previous one ends or leaves the base.
pub open spec fn render_fault(base_len: int, cursor: int, ops: Seq<Op>) -> Option<RenderFault>
    decreases ops.len(),
{
    if ops.len() == 0 {
        None
    } else if ops[0].end() > usize::MAX {
        Some(RenderFault::OutOfBounds)
    } else if ops[0].start < cursor || ops[0].end() > base_len {
        Some(RenderFault::Conflict)
    } else {
        render_fault(base_len, ops[0].end(), ops.drop_first())
    }
}

/// What operations in any order make of the base.
pub open spec fn rendered(path: Seq<char>, base: Seq<u8>, ops: Seq<Op>) -> Result<
    Seq<u8>,
    LaneErrorView,
> {
    match render_fault(base.len() as int, 0, sort_ops(ops)) {
        Some(RenderFault::OutOfBounds) => Err(LaneErrorView::OperationOutOfBounds(path)),
        Some(RenderFault::Conflict) => Err(LaneErrorView::OperationConflict(path)),
        None => Ok(render_from(base, 0, sort_ops(ops))),
    }
}

/// The view of a result that carries bytes.
pub open spec fn bytes_result(r: Result<Vec<u8>, LaneError>) -> Result<Seq<u8>, LaneErrorView> {
    match r {
        Ok(bytes) => Ok(bytes@),
        Err(error) => Err(error@),
    }
}

/// Applies operations to the base.
pub fn render_ops(path: &str, base: &[u8], ops: &Vec<FileOp>) -> (r: Result<Vec<u8>, LaneError>)
    ensures
        bytes_result(r) == rendered(path@, base@, ops_view(ops@)),
{
    let sorted = sorted_ops(ops);
    let ghost all = refs_view(sorted@);
    let mut out: Vec<u8> = Vec::new();
    let mut cursor: usize = 0;
    let mut i: usize = 0;
    proof {
        assert(all.subrange(0, all.len() as int) =~= all);
        assert(out@ + render_from(base@, 0, all) =~= render_from(base@, 0, all));
    }
    while i < sorted.len()
        invariant
            i <= sorted@.len(),
            all == refs_view(sorted@),
            all == sort_ops(ops_view(ops@)),
            cursor <= base@.len(),
            render_fault(base@.len() as int, 0, all) == render_fault(
                base@.len() as int,
                cursor as int,
                all.subrange(i as int, all.len() as int),
            ),
            render_from(base@, 0, all) == out@ + render_from(
                base@,
                cursor as int,
                all.subrange(i as int, all.len() as int),
            ),
        decreases sorted@.len() - i,
    {
        let op = sorted[i];
        let ghost rest = all.subrange(i as int, all.len() as int);
        assert(rest[0] == op@);
        if op.base_start > usize::MAX as u64 || op.base_len > usize::MAX as u64 {
            return Err(LaneError::OperationOutOfBounds { path: path.to_owned() });
        }
        let start: usize = op.base_start as usize;
        let len: usize = op.base_len as usize;
        if len > usize::MAX - start {
            return Err(LaneError::OperationOutOfBounds { path: path.to_owned() });
        }
        let end: usize = start + len;
        if start < cursor || end > base.len() {
            return Err(LaneError::OperationConflict { path: path.to_owned() });
        }
        let ghost before = out@;
        append_range(&mut out, base, cursor, start);
        append_range(&mut out, op.inserted.as_slice(), 0, op.inserted.len());
        proof {
            assert(rest.drop_first() =~= all.subrange(i + 1, all.len() as int));
            assert(op.inserted@.subrange(0, op.inserted@.len() as int) =~= op@.inserted);
            assert(before + render_from(base@, cursor as int, rest) =~= out@ + render_from(
                base@,
                end as int,
                rest.drop_first(),
            ));
        }
        cursor = end;
        i = i + 1;
    }
    assert(all.subrange(i as int, all.len() as int) =~= Seq::<Op>::empty());
    append_range(&mut out, base, cursor, base.len());
    Ok(out)
}

/// An operation that storage accepts: its end is a position and its key is a key.
pub open spec fn sound_op(op: Op) -> bool {
    &&& 0 <= op.start
    &&& 0 <= op.len
    &&& op.end() <= u64::MAX
    &&& order_key::valid_key(op.key)
}

} // verus!
