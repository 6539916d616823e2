//! Operations from an edit script between two byte strings.
use vstd::prelude::*;
use vstd::slice::slice_to_vec;

use crate::bytes::{byte_range, bytes_eq};
use crate::conflict;
use crate::ops;
use crate::ops::FileOp;
use crate::order_key;
use crate::order_key::{first_fractional_key, next_fractional_key};
use crate::rebase;
use crate::text;

verus! {

/// A stretch of an edit script: whether the two sides are equal, and its bounds on each side.
#[derive(Clone, Copy, Debug, PartialEq, Eq)]
pub struct DiffSpan {
    pub equal: bool,
    pub old_start: usize,
    pub old_end: usize,
    pub new_start: usize,
    pub new_end: usize,
}

/// A [`DiffSpan`] as a mathematical value: equality, then the bounds in the order of the fields.
pub open spec fn span_view(span: DiffSpan) -> (bool, int, int, int, int) {
    (
        span.equal,
        span.old_start as int,
        span.old_end as int,
        span.new_start as int,
        span.new_end as int,
    )
}

/// The spans of a list.
pub open spec fn spans_view(spans: Seq<DiffSpan>) -> Seq<(bool, int, int, int, int)> {
    spans.map_values(|span: DiffSpan| span_view(span))
}

/// The edit script that `similar::capture_diff_slices` finds with `Algorithm::Myers`.
pub uninterp spec fn myers_spans(old: Seq<u8>, new: Seq<u8>) -> Seq<(bool, int, int, int, int)>;

/// The spans cover both sides without gaps from the given positions on, equal spans hold the same
/// bytes, and every other span is not empty.
pub open spec fn spans_cover(
    spans: Seq<(bool, int, int, int, int)>,
    old_from: int,
    new_from: int,
    old: Seq<u8>,
    new: Seq<u8>,
) -> bool
    decreases spans.len(),
{
    if spans.len() == 0 {
        old_from == old.len() && new_from == new.len()
    } else {
        let (equal, old_start, old_end, new_start, new_end) = spans[0];
        &&& old_start == old_from <= old_end <= old.len()
        &&& new_start == new_from <= new_end <= new.len()
        &&& equal ==> old.subrange(old_start, old_end) == new.subrange(new_start, new_end)
        &&& !equal ==> old_start < old_end || new_start < new_end
        &&& spans_cover(spans.drop_first(), old_end, new_end, old, new)
    }
}

/// `similar::capture_diff_slices` with `Algorithm::Myers`. Its result is named, and it is claimed
/// that the operations follow each other without gaps on both sides, that an operation tagged
/// equal joins equal bytes, and that any other operation deletes or inserts at least one byte.
#[verifier::external_body]
fn myers_diff(old: &[u8], new: &[u8]) -> (r: Vec<DiffSpan>)
    ensures
        spans_view(r@) == myers_spans(old@, new@),
        spans_cover(spans_view(r@), 0, 0, old@, new@),
{
    similar::capture_diff_slices(similar::Algorithm::Myers, old, new)
        .iter()
        .map(|op| op.as_tag_tuple())
        .map(|(tag, old, new)| DiffSpan {
            equal: tag == similar::DiffTag::Equal,
            old_start: old.start,
            old_end: old.end,
            new_start: new.start,
            new_end: new.end,
        })
        .collect()
}

/// One operation for each span that changes something, numbered from `id` on, with keys that
/// follow `key`.
pub open spec fn ops_of_spans(
    spans: Seq<(bool, int, int, int, int)>,
    content: Seq<u8>,
    id: int,
    key: Option<Seq<char>>,
) -> Seq<ops::Op>
    decreases spans.len(),
{
    if spans.len() == 0 {
        Seq::empty()
    } else {
        let (equal, old_start, old_end, new_start, new_end) = spans[0];
        if equal {
            ops_of_spans(spans.drop_first(), content, id, key)
        } else {
            seq![
                ops::Op {
                    id,
                    start: old_start,
                    len: old_end - old_start,
                    key: order_key::next_key(key),
                    inserted: content.subrange(new_start, new_end),
                },
            ] + ops_of_spans(spans.drop_first(), content, id + 1, Some(order_key::next_key(key)))
        }
    }
}

/// Whether bytes are taken for binary data.
pub open spec fn has_nul(bytes: Seq<u8>) -> bool {
    bytes.contains(0u8)
}

/// The single operation that replaces the whole base.
pub open spec fn coarse_ops(base: Seq<u8>, content: Seq<u8>) -> Seq<ops::Op> {
    if base == content {
        Seq::empty()
    } else {
        seq![
            ops::Op { id: 1, start: 0, len: base.len() as int, key: order_key::next_key(None), inserted: content },
        ]
    }
}

/// The operations that turn the base into the content.
pub open spec fn diff_ops(base: Seq<u8>, content: Seq<u8>, base_missing: bool) -> Seq<ops::Op> {
    if base_missing || has_nul(base) || has_nul(content) {
        coarse_ops(base, content)
    } else {
        ops_of_spans(myers_spans(base, content), content, 1, None)
    }
}

/// Whether `bytes` holds a NUL.
pub fn is_probably_binary(bytes: &[u8]) -> (r: bool)
    ensures
        r == has_nul(bytes@),
{
    let mut i: usize = 0;
    while i < bytes.len()
        invariant
            i <= bytes@.len(),
            forall|k: int| 0 <= k < i ==> bytes@[k] != 0,
        decreases bytes@.len() - i,
    {
        if bytes[i] == 0 {
            assert(bytes@[i as int] == 0);
            return true;
        }
        i = i + 1;
    }
    false
}

fn coarse_replace_ops(base: &[u8], content: &[u8]) -> (r: Vec<FileOp>)
    ensures
        ops::ops_view(r@) == coarse_ops(base@, content@),
{
    let mut r: Vec<FileOp> = Vec::new();
    if !bytes_eq(base, content) {
        r.push(
            FileOp {
                id: 1,
                base_start: 0,
                base_len: base.len() as u64,
                order_key: first_fractional_key(),
                inserted: slice_to_vec(content),
            },
        );
    }
    assert(ops::ops_view(r@) =~= coarse_ops(base@, content@));
    r
}

/// The operations between two contents are in order, can be applied to the first and then give
/// the second, are numbered from one on, and each of them is sound and changes something. Their
/// keys increase even where a colon follows them.
pub open spec fn diff_is_faithful(base: Seq<u8>, content: Seq<u8>, base_missing: bool) -> bool {
    let list = diff_ops(base, content, base_missing);
    &&& rebase::tidy(list)
    &&& ops::render_fault(base.len() as int, 0, list) is None
    &&& ops::render_from(base, 0, list) == content
    &&& forall|i: int|
        0 <= i < list.len() ==> ops::sound_op(#[trigger] list[i]) && !list[i].is_noop()
            && list[i].id == i + 1
    &&& forall|i: int, j: int|
        0 <= i < j < list.len() ==> text::text_lt(
            (#[trigger] list[i]).key.push(':'),
            (#[trigger] list[j]).key,
        )
}

/// The spans of an edit script that change something, in order.
pub open spec fn changed_spans(spans: Seq<(bool, int, int, int, int)>) -> Seq<
    (bool, int, int, int, int),
> {
    spans.filter(|span: (bool, int, int, int, int)| !span.0)
}

/// There is one operation for each span of an edit script that changes something: it takes the
/// bytes of the base that the span drops, and has those of the content that it brings. No byte of
/// the base that the script keeps lies in the range of an operation.
pub open spec fn follows_script(
    spans: Seq<(bool, int, int, int, int)>,
    content: Seq<u8>,
    list: Seq<ops::Op>,
) -> bool {
    let changed = changed_spans(spans);
    &&& list.len() == changed.len()
    &&& forall|i: int| 0 <= i < list.len() ==> {
        &&& (#[trigger] list[i]).start == changed[i].1
        &&& list[i].end() == changed[i].2
        &&& list[i].inserted == content.subrange(changed[i].3, changed[i].4)
    }
    &&& forall|s: int, i: int|
        0 <= s < spans.len() && (#[trigger] spans[s]).0 && 0 <= i < list.len() ==> (
        #[trigger] list[i]).end() <= spans[s].1 || spans[s].2 <= list[i].start
}

/// Operations touch no more than they must: over a base that is there, and where neither side
/// holds a NUL, they are those of the edit script. Otherwise the whole base is replaced at once,
/// unless nothing changes.
pub open spec fn touches_what_changed(
    base: Seq<u8>,
    content: Seq<u8>,
    base_missing: bool,
    list: Seq<ops::Op>,
) -> bool {
    if !base_missing && !base.contains(0u8) && !content.contains(0u8) {
        follows_script(myers_spans(base, content), content, list)
    } else {
        &&& list.len() == if base == content { 0int } else { 1int }
        &&& forall|i: int| 0 <= i < list.len() ==> {
            &&& (#[trigger] list[i]).start == 0
            &&& list[i].end() == base.len()
            &&& list[i].inserted == content
        }
    }
}

/// The operations of an edit script are one for each of its changes.
proof fn lemma_follows_script(
    spans: Seq<(bool, int, int, int, int)>,
    old_from: int,
    new_from: int,
    old: Seq<u8>,
    new: Seq<u8>,
    id: int,
    key: Option<Seq<char>>,
)
    requires
        spans_cover(spans, old_from, new_from, old, new),
    ensures
        follows_script(spans, new, ops_of_spans(spans, new, id, key)),
        forall|i: int|
            0 <= i < ops_of_spans(spans, new, id, key).len() ==> old_from <= (
            #[trigger] ops_of_spans(spans, new, id, key)[i]).start,
        forall|s: int| 0 <= s < spans.len() ==> old_from <= (#[trigger] spans[s]).1,
    decreases spans.len(),
{
    reveal(Seq::filter);
    let list = ops_of_spans(spans, new, id, key);
    if spans.len() == 0 {
        assert(changed_spans(spans) =~= Seq::empty());
    } else {
        let changes = |span: (bool, int, int, int, int)| !span.0;
        let rest = spans.drop_first();
        let first = seq![spans[0]];
        let (equal, old_start, old_end, new_start, new_end) = spans[0];
        assert(spans =~= first + rest);
        Seq::filter_distributes_over_add(first, rest, changes);
        assert(first.drop_last() =~= Seq::empty());
        assert(first.drop_last().filter(changes) =~= Seq::empty());
        if equal {
            lemma_follows_script(rest, old_end, new_end, old, new, id, key);
            assert(first.filter(changes) =~= Seq::empty());
            assert(changed_spans(spans) =~= changed_spans(rest));
        } else {
            let next = Some(order_key::next_key(key));
            lemma_follows_script(rest, old_end, new_end, old, new, id + 1, next);
            let more = ops_of_spans(rest, new, id + 1, next);
            assert(first.filter(changes) =~= first);
            assert(changed_spans(spans) =~= first + changed_spans(rest));
            assert(forall|i: int| 1 <= i < list.len() ==> list[i] == more[i - 1]);
            assert forall|i: int| 0 <= i < list.len() implies {
                &&& (#[trigger] list[i]).start == changed_spans(spans)[i].1
                &&& list[i].end() == changed_spans(spans)[i].2
                &&& list[i].inserted == new.subrange(
                    changed_spans(spans)[i].3,
                    changed_spans(spans)[i].4,
                )
            } by {
                if i > 0 {
                    assert(list[i] == more[i - 1]);
                    assert(changed_spans(spans)[i] == changed_spans(rest)[i - 1]);
                }
            }
        }
        assert(forall|s: int| 1 <= s < spans.len() ==> spans[s] == rest[s - 1]);
        let more = if equal {
            list
        } else {
            list.drop_first()
        };
        assert forall|s: int, i: int|
            0 <= s < spans.len() && (#[trigger] spans[s]).0 && 0 <= i < list.len() implies (
        #[trigger] list[i]).end() <= spans[s].1 || spans[s].2 <= list[i].start by {
            if s > 0 {
                assert(rest[s - 1] == spans[s]);
                if equal || i > 0 {
                    let j = if equal {
                        i
                    } else {
                        i - 1
                    };
                    assert(more[j] == list[i]);
                }
            }
        }
    }
}

/// Over a base that is there, and where neither side holds a NUL, there is exactly one operation
/// for each change of the edit script, with the bounds of that change, and none of them takes a
/// byte of the base that the script keeps. In every other case the whole base is replaced.
pub proof fn law_operations_touch_what_changed(base: Seq<u8>, content: Seq<u8>, base_missing: bool)
    requires
        base_missing || base.contains(0u8) || content.contains(0u8) || spans_cover(
            myers_spans(base, content),
            0,
            0,
            base,
            content,
        ),
    ensures
        touches_what_changed(base, content, base_missing, diff_ops(base, content, base_missing)),
{
    if !base_missing && !base.contains(0u8) && !content.contains(0u8) {
        lemma_follows_script(myers_spans(base, content), 0, 0, base, content, 1, None);
    }
}

/// The edit script between two contents covers both of them.
pub open spec fn script_covers(old: Seq<u8>, new: Seq<u8>) -> bool {
    spans_cover(myers_spans(old, new), 0, 0, old, new)
}

/// There are no more operations than bytes that they could touch.
proof fn lemma_few_ops(
    spans: Seq<(bool, int, int, int, int)>,
    old_from: int,
    new_from: int,
    old: Seq<u8>,
    new: Seq<u8>,
    id: int,
    key: Option<Seq<char>>,
)
    requires
        spans_cover(spans, old_from, new_from, old, new),
    ensures
        ops_of_spans(spans, new, id, key).len() <= (old.len() - old_from) + (new.len() - new_from),
    decreases spans.len(),
{
    if spans.len() > 0 {
        let (equal, old_start, old_end, new_start, new_end) = spans[0];
        let rest = spans.drop_first();
        if equal {
            lemma_few_ops(rest, old_end, new_end, old, new, id, key);
        } else {
            lemma_few_ops(
                rest,
                old_end,
                new_end,
                old,
                new,
                id + 1,
                Some(order_key::next_key(key)),
            );
        }
    }
}

/// There are no more operations between two contents than they have bytes.
pub proof fn lemma_few_changes(base: Seq<u8>, content: Seq<u8>, base_missing: bool)
    requires
        script_covers(base, content),
    ensures
        diff_ops(base, content, base_missing).len() <= base.len() + content.len(),
{
    if base_missing || has_nul(base) || has_nul(content) {
        if base != content && base.len() + content.len() == 0 {
            assert(base =~= content);
        }
    } else {
        lemma_few_ops(myers_spans(base, content), 0, 0, base, content, 1, None);
    }
}

/// The operations that turn `base` into `content`: one for each change that an edit script finds,
/// or a single one where either side is binary or there is no base.
pub fn diff_to_ops(base: &[u8], content: &[u8], base_missing: bool) -> (r: Vec<FileOp>)
    ensures
        ops::ops_view(r@) == diff_ops(base@, content@, base_missing),
        diff_is_faithful(base@, content@, base_missing),
        touches_what_changed(base@, content@, base_missing, ops::ops_view(r@)),
{
    let len: usize = base.len();
    assert(base@.len() == len);
    if base_missing || is_probably_binary(base) || is_probably_binary(content) {
        proof {
            lemma_diff_ops_render(base@, content@, base_missing);
            law_operations_touch_what_changed(base@, content@, base_missing);
        }
        return coarse_replace_ops(base, content);
    }
    let spans = myers_diff(base, content);
    proof {
        lemma_diff_ops_render(base@, content@, base_missing);
        law_operations_touch_what_changed(base@, content@, base_missing);
    }
    ops_for_spans(&spans, base, content)
}

/// The operations for the spans of an edit script from `base` to `content`.
pub fn ops_for_spans(spans: &Vec<DiffSpan>, base: &[u8], content: &[u8]) -> (r: Vec<FileOp>)
    requires
        spans_cover(spans_view(spans@), 0, 0, base@, content@),
    ensures
        ops::ops_view(r@) == ops_of_spans(spans_view(spans@), content@, 1, None),
{
    let ghost all = spans_view(spans@);
    let ghost total = ops_of_spans(all, content@, 1, None);
    let mut ops: Vec<FileOp> = Vec::new();
    let mut order_key: Option<String> = None;
    let mut i: usize = 0;
    let mut old_from: usize = 0;
    let mut new_from: usize = 0;
    proof {
        assert(all.subrange(0, all.len() as int) =~= all);
        assert(ops::ops_view(ops@) + total =~= total);
    }
    while i < spans.len()
        invariant
            i <= spans@.len(),
            ops@.len() <= i,
            all == spans_view(spans@),
            total == ops_of_spans(all, content@, 1, None),
            order_key matches Some(key) ==> order_key::valid_key(key@),
            spans_cover(
                all.subrange(i as int, all.len() as int),
                old_from as int,
                new_from as int,
                base@,
                content@,
            ),
            ops::ops_view(ops@) + ops_of_spans(
                all.subrange(i as int, all.len() as int),
                content@,
                ops@.len() as int + 1,
                text::opt_text(order_key),
            ) == total,
        decreases spans@.len() - i,
    {
        let span = spans[i];
        let ghost rest = all.subrange(i as int, all.len() as int);
        proof {
            assert(rest[0] == span_view(span));
            assert(rest.drop_first() =~= all.subrange(i + 1, all.len() as int));
        }
        if !span.equal {
            let next = match &order_key {
                Some(key) => next_fractional_key(Some(key.as_str())),
                None => next_fractional_key(None),
            };
            proof {
                match order_key {
                    Some(key) => {
                        order_key::lemma_next_key(key@);
                    },
                    None => {
                        order_key::lemma_next_key(Seq::empty());
                    },
                }
            }
            let op = FileOp {
                id: ops.len() as u64 + 1,
                base_start: span.old_start as u64,
                base_len: (span.old_end - span.old_start) as u64,
                order_key: next.clone(),
                inserted: byte_range(content, span.new_start, span.new_end),
            };
            let ghost before = ops::ops_view(ops@);
            let ghost made = op@;
            ops.push(op);
            proof {
                assert(ops::ops_view(ops@) =~= before.push(made));
                assert(before + ops_of_spans(
                    rest,
                    content@,
                    before.len() as int + 1,
                    text::opt_text(order_key),
                ) =~= ops::ops_view(ops@) + ops_of_spans(
                    rest.drop_first(),
                    content@,
                    before.len() as int + 2,
                    Some(next@),
                ));
            }
            order_key = Some(next);
        }
        old_from = span.old_end;
        new_from = span.new_end;
        i = i + 1;
    }
    assert(ops::ops_view(ops@) =~= total);
    ops
}

/// The operations of an edit script follow each other, have increasing keys after `key`, and
/// turn the rest of the old side into the rest of the new side.
proof fn lemma_spans_render(
    spans: Seq<(bool, int, int, int, int)>,
    cursor: int,
    old_from: int,
    new_from: int,
    old: Seq<u8>,
    new: Seq<u8>,
    id: int,
    key: Option<Seq<char>>,
)
    requires
        spans_cover(spans, old_from, new_from, old, new),
        0 <= cursor <= old_from,
        0 <= new_from,
        old.len() <= usize::MAX,
        key matches Some(k) ==> order_key::valid_key(k),
    ensures
        ({
            let ops = ops_of_spans(spans, new, id, key);
            &&& ops::render_fault(old.len() as int, cursor, ops) is None
            &&& ops::render_from(old, cursor, ops) == old.subrange(cursor, old_from) + new.subrange(
                new_from,
                new.len() as int,
            )
            &&& ops::in_order(ops)
            &&& forall|i: int, j: int|
                0 <= i < j < ops.len() ==> text::text_lt((#[trigger] ops[i]).key, (#[trigger] ops[j]).key)
                    && text::text_lt(ops[i].key.push(':'), ops[j].key)
            &&& forall|i: int| 0 <= i < ops.len() ==> {
                &&& old_from <= (#[trigger] ops[i]).start <= ops[i].end() <= old.len()
                &&& ops[i].len >= 0
                &&& !ops[i].is_noop()
                &&& order_key::valid_key(ops[i].key)
                &&& key matches Some(k) ==> text::text_lt(k, ops[i].key) && text::text_lt(
                    k.push(':'),
                    ops[i].key,
                )
                &&& ops[i].id == id + i
            }
        }),
    decreases spans.len(),
{
    let ops = ops_of_spans(spans, new, id, key);
    if spans.len() == 0 {
        assert(old.subrange(cursor, old.len() as int) =~= old.subrange(cursor, old_from) + new.subrange(
            new_from,
            new.len() as int,
        ));
    } else {
        let (equal, old_start, old_end, new_start, new_end) = spans[0];
        let rest = spans.drop_first();
        if equal {
            lemma_spans_render(rest, cursor, old_end, new_end, old, new, id, key);
            assert(old.subrange(cursor, old_end) =~= old.subrange(cursor, old_from) + old.subrange(
                old_start,
                old_end,
            ));
            assert(new.subrange(new_from, new.len() as int) =~= new.subrange(new_start, new_end)
                + new.subrange(new_end, new.len() as int));
            assert(old.subrange(cursor, old_end) + new.subrange(new_end, new.len() as int)
                =~= old.subrange(cursor, old_from) + new.subrange(new_from, new.len() as int));
        } else {
            match key {
                Some(k) => {
                    order_key::lemma_next_key(k);
                },
                None => {
                    order_key::lemma_next_key(Seq::empty());
                },
            }
            let mine = order_key::next_key(key);
            lemma_spans_render(rest, old_end, old_end, new_end, old, new, id + 1, Some(mine));
            let more = ops_of_spans(rest, new, id + 1, Some(mine));
            assert(ops.drop_first() =~= more);
            assert(old.subrange(old_end, old_end) =~= Seq::<u8>::empty());
            assert(ops::render_from(old, old_end, more) =~= new.subrange(new_end, new.len() as int));
            assert(new.subrange(new_from, new.len() as int) =~= new.subrange(new_start, new_end)
                + new.subrange(new_end, new.len() as int));
            assert(ops::render_from(old, cursor, ops) =~= old.subrange(cursor, old_from) + new.subrange(
                new_from,
                new.len() as int,
            ));
            assert forall|i: int| 0 <= i < ops.len() implies {
                &&& old_from <= (#[trigger] ops[i]).start <= ops[i].end() <= old.len()
                &&& ops[i].len >= 0
                &&& !ops[i].is_noop()
                &&& order_key::valid_key(ops[i].key)
                &&& key matches Some(k) ==> text::text_lt(k, ops[i].key) && text::text_lt(
                    k.push(':'),
                    ops[i].key,
                )
                &&& ops[i].id == id + i
            } by {
                if i > 0 {
                    assert(ops[i] == more[i - 1]);
                    if let Some(k) = key {
                        text::lemma_text_lt_transitive(k, mine, ops[i].key);
                        text::lemma_text_lt_transitive(k.push(':'), mine, ops[i].key);
                    }
                }
            }
            assert forall|i: int, j: int| 0 <= i < j < ops.len() implies !ops::op_before(
                #[trigger] ops[j],
                #[trigger] ops[i],
            ) && text::text_lt(ops[i].key, ops[j].key) && text::text_lt(
                ops[i].key.push(':'),
                ops[j].key,
            ) by {
                assert(ops[j] == more[j - 1]);
                if i > 0 {
                    assert(ops[i] == more[i - 1]);
                } else {
                    assert(text::text_lt(mine, ops[j].key));
                    text::lemma_text_lt_irreflexive(mine);
                    if text::text_lt(ops[j].key, mine) {
                        text::lemma_text_lt_transitive(mine, ops[j].key, mine);
                    }
                }
            }
        }
    }
}

/// Rendering the difference between two contents gives the second.
pub proof fn lemma_diff_ops_render(base: Seq<u8>, content: Seq<u8>, base_missing: bool)
    requires
        base.len() <= usize::MAX,
        base_missing || has_nul(base) || has_nul(content) || spans_cover(
            myers_spans(base, content),
            0,
            0,
            base,
            content,
        ),
    ensures
        diff_is_faithful(base, content, base_missing),
{
    let list = diff_ops(base, content, base_missing);
    if base_missing || has_nul(base) || has_nul(content) {
        order_key::lemma_next_key(Seq::empty());
        if base != content {
            assert(list.drop_first() =~= Seq::<ops::Op>::empty());
            assert(base.subrange(0, 0) =~= Seq::<u8>::empty());
            assert(base.subrange(base.len() as int, base.len() as int) =~= Seq::<u8>::empty());
            assert(ops::render_from(base, base.len() as int, list.drop_first()) =~= Seq::<u8>::empty());
            assert(ops::render_from(base, 0, list) =~= content);
            if base.len() == 0 && content.len() == 0 {
                assert(base =~= content);
            }
            reveal_with_fuel(ops::render_fault, 2);
        } else {
            assert(ops::render_from(base, 0, list) =~= content);
        }
    } else {
        lemma_spans_render(myers_spans(base, content), 0, 0, 0, base, content, 1, None);
        assert(base.subrange(0, 0) + content.subrange(0, content.len() as int) =~= content);
        conflict::lemma_fault_free(list, 0, base.len() as int);
    }
}

} // verus!
