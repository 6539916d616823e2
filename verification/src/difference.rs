//! What the operations of a lane list after it has been given content.
use vstd::prelude::*;

use crate::conflict;
use crate::diff;
use crate::lane_file;
use crate::lane_file::{Entry, File};
use crate::numbers;
use crate::op_id;
use crate::ops;
use crate::ops::Op;
use crate::order_key;
use crate::rebase;
use crate::repo;
use crate::repo::Repo;
use crate::text;
use crate::types::{LaneOpKind, OpSummaryView};

verus! {

/// How many bytes listed operations insert.
pub open spec fn inserted_total(listed: Seq<OpSummaryView>) -> int
    decreases listed.len(),
{
    if listed.len() == 0 {
        0
    } else {
        listed[0].inserted_len + inserted_total(listed.drop_first())
    }
}

/// How many bytes of the base listed operations replace.
pub open spec fn replaced_total(listed: Seq<OpSummaryView>) -> int
    decreases listed.len(),
{
    if listed.len() == 0 {
        0
    } else {
        listed[0].base_end - listed[0].base_start + replaced_total(listed.drop_first())
    }
}

/// What kind of operation a range and inserted bytes make.
pub open spec fn listed_kind(listed: OpSummaryView) -> LaneOpKind {
    if listed.base_start == listed.base_end {
        LaneOpKind::Insert
    } else if listed.inserted_len == 0 {
        LaneOpKind::Delete
    } else {
        LaneOpKind::Replace
    }
}

/// Listed operations tell how `content` differs from `base`: there are some, numbered from one
/// on, with ranges of the base that follow each other, with texts to sort them by that increase,
/// and with lengths that account for the difference in length.
pub open spec fn lists_difference(
    listed: Seq<OpSummaryView>,
    lane: Seq<char>,
    base: Seq<u8>,
    content: Seq<u8>,
) -> bool {
    &&& listed.len() > 0
    &&& forall|i: int| 0 <= i < listed.len() ==> {
        &&& (#[trigger] listed[i]).op_id == op_id::op_name(lane, i + 1)
        &&& 0 <= listed[i].base_start <= listed[i].base_end <= base.len()
        &&& listed[i].kind == listed_kind(listed[i])
    }
    &&& forall|i: int, j: int|
        0 <= i < j < listed.len() ==> (#[trigger] listed[i]).base_end <= (
        #[trigger] listed[j]).base_start && text::text_lt(listed[i].order_key, listed[j].order_key)
    &&& base.len() + inserted_total(listed) == content.len() + replaced_total(listed)
}

/// The totals of listed operations are those of the operations.
proof fn lemma_totals(listed: Seq<OpSummaryView>, list: Seq<Op>)
    requires
        listed.len() == list.len(),
        forall|i: int|
            0 <= i < list.len() ==> (#[trigger] listed[i]).base_end - listed[i].base_start
                == list[i].len && listed[i].inserted_len == list[i].inserted.len(),
    ensures
        inserted_total(listed) - replaced_total(listed) == rebase::sum_by(
            list,
            |op: Op| rebase::growth(op),
        ),
    decreases list.len(),
{
    if list.len() > 0 {
        assert(listed[0].inserted_len == list[0].inserted.len());
        let rest = listed.drop_first();
        assert forall|i: int| 0 <= i < list.len() - 1 implies (#[trigger] rest[i]).base_end
            - rest[i].base_start == list.drop_first()[i].len && rest[i].inserted_len
            == list.drop_first()[i].inserted.len() by {
            assert(rest[i] == listed[i + 1]);
        }
        lemma_totals(rest, list.drop_first());
    }
}

/// Of two operations the one that starts earlier, or at the same place with a smaller key, is
/// listed first.
proof fn lemma_listed_in_order(lane: Seq<char>, a: Op, b: Op)
    requires
        0 <= a.start <= b.start <= u64::MAX,
        order_key::valid_key(a.key),
        order_key::valid_key(b.key),
        text::text_lt(a.key.push(':'), b.key),
    ensures
        text::text_lt(op_id::listing_key(lane, a), op_id::listing_key(lane, b)),
{
    reveal_strlit(":");
    let front_a = numbers::zero_padded(numbers::decimal_text(a.start as nat), 20);
    let front_b = numbers::zero_padded(numbers::decimal_text(b.start as nat), 20);
    let rest_a = lane + ":"@ + numbers::zero_padded(numbers::decimal_text(a.id as nat), 20);
    let rest_b = lane + ":"@ + numbers::zero_padded(numbers::decimal_text(b.id as nat), 20);
    numbers::lemma_padded_len(a.start as nat);
    numbers::lemma_padded_len(b.start as nat);
    if a.start < b.start {
        numbers::lemma_padded_order(a.start as nat, b.start as nat);
        text::lemma_text_lt_irreflexive(front_a);
        assert(front_b.subrange(0, front_a.len() as int) =~= front_b);
        text::lemma_text_lt_extends(
            front_a,
            front_b,
            ":"@ + a.key + ":"@ + rest_a,
            ":"@ + b.key + ":"@ + rest_b,
        );
        assert(op_id::listing_key(lane, a) =~= front_a + (":"@ + a.key + ":"@ + rest_a));
        assert(op_id::listing_key(lane, b) =~= front_b + (":"@ + b.key + ":"@ + rest_b));
    } else {
        let key = a.key.push(':');
        if text::begins_with(b.key, key) {
            assert(b.key.subrange(0, key.len() as int)[a.key.len() as int] == ':');
            assert(order_key::is_key_char(b.key[a.key.len() as int]));
        }
        text::lemma_text_lt_extends(key, b.key, rest_a, ":"@ + rest_b);
        text::lemma_text_lt_behind(front_a + ":"@, key + rest_a, b.key + (":"@ + rest_b));
        assert(op_id::listing_key(lane, a) =~= (front_a + ":"@) + (key + rest_a));
        assert(op_id::listing_key(lane, b) =~= (front_a + ":"@) + (b.key + (":"@ + rest_b)));
    }
}

/// The operations of an entry that was made for `content` list how it differs from the base.
pub proof fn lemma_lists_difference(
    file: File,
    path: Seq<char>,
    lane: Seq<char>,
    base: Seq<u8>,
    content: Seq<u8>,
)
    requires
        lane_file::made_faithfully(Some(base), Some(content)),
        base != content,
        base.len() <= usize::MAX,
    ensures
        lists_difference(
            lane_file::entry_summaries(
                file,
                path,
                lane,
                lane_file::entry_for(Some(base), Some(content))->0,
                Some(base),
            ),
            lane,
            base,
            content,
        ),
{
    let list = diff::diff_ops(base, content, false);
    let listed = lane_file::entry_summaries(
        file,
        path,
        lane,
        lane_file::entry_for(Some(base), Some(content))->0,
        Some(base),
    );
    assert(diff::diff_is_faithful(base, content, false));
    assert forall|i: int| 0 <= i < list.len() implies 0 <= (#[trigger] list[i]).start && 0
        <= list[i].len by {
        assert(ops::sound_op(list[i]));
    }
    conflict::lemma_fault_free(list, 0, base.len() as int);
    rebase::lemma_render_len(base, 0, list);
    lemma_totals(listed, list);
    if list.len() == 0 {
        assert(ops::render_from(base, 0, list) =~= base);
    }
    assert forall|i: int| 0 <= i < listed.len() implies {
        &&& (#[trigger] listed[i]).op_id == op_id::op_name(lane, i + 1)
        &&& 0 <= listed[i].base_start <= listed[i].base_end <= base.len()
        &&& listed[i].kind == listed_kind(listed[i])
    } by {
        assert(ops::sound_op(list[i]));
    }
    assert forall|i: int, j: int| 0 <= i < j < listed.len() implies (#[trigger] listed[i]).base_end
        <= (#[trigger] listed[j]).base_start && text::text_lt(
        listed[i].order_key,
        listed[j].order_key,
    ) by {
        assert(ops::sound_op(list[i]) && ops::sound_op(list[j]));
        assert(text::text_lt(list[i].key.push(':'), list[j].key));
        assert(list[i].end() <= list[j].start);
        lemma_listed_in_order(lane, list[i], list[j]);
    }
}

/// Listed operations are those of the edit script: one for each of its changes, over the bytes of
/// the base that the change drops and with as many inserted bytes as it brings. Where there is no
/// base file, or a NUL on either side, it is one operation over all of the base.
pub open spec fn lists_changes(
    listed: Seq<OpSummaryView>,
    base: Option<Seq<u8>>,
    content: Seq<u8>,
) -> bool {
    let old = lane_file::base_bytes(base);
    let changed = diff::changed_spans(diff::myers_spans(old, content));
    if base is Some && !old.contains(0u8) && !content.contains(0u8) {
        &&& listed.len() == changed.len()
        &&& forall|i: int| 0 <= i < listed.len() ==> {
            &&& (#[trigger] listed[i]).base_start == changed[i].1
            &&& listed[i].base_end == changed[i].2
            &&& listed[i].inserted_len == content.subrange(changed[i].3, changed[i].4).len()
        }
    } else {
        &&& listed.len() == if old == content { 0int } else { 1int }
        &&& forall|i: int| 0 <= i < listed.len() ==> {
            &&& (#[trigger] listed[i]).base_start == 0
            &&& listed[i].base_end == old.len()
            &&& listed[i].inserted_len == content.len()
            &&& listed[i].kind is Create == base is None
        }
    }
}

/// After a lane has been given content that the base has not, its operations list what changed, and
/// over a base that is there how the two differ. After it has been given no content, they list the
/// deletion of the file.
pub open spec fn written_is_listed(
    after: Repo,
    path: Seq<char>,
    lane: Seq<char>,
    base: Option<Seq<u8>>,
    content: Option<Seq<u8>>,
) -> bool {
    let listed = repo::repo_change_ops(after, path, lane, base);
    &&& listed is Ok
    &&& base == content ==> listed->Ok_0.len() == 0
    &&& base is Some && content is Some && base != content ==> lists_difference(
        listed->Ok_0,
        lane,
        base->0,
        content->0,
    )
    &&& content is Some && base != content ==> lists_changes(listed->Ok_0, base, content->0)
    &&& base is Some && content is None ==> {
        &&& listed->Ok_0.len() == 1
        &&& listed->Ok_0[0].op_id == lane + ":delete"@
        &&& listed->Ok_0[0].kind == LaneOpKind::Delete
        &&& listed->Ok_0[0].base_start == 0
        &&& listed->Ok_0[0].base_end == base->0.len()
        &&& listed->Ok_0[0].inserted_len == 0
    }
}

/// Giving a lane content makes its operations list how it differs from the base.
pub proof fn lemma_written_is_listed(
    before: Repo,
    path: Seq<char>,
    lane: Seq<char>,
    base: Option<Seq<u8>>,
    content: Option<Seq<u8>>,
)
    requires
        repo::repo_replace(before, path, lane, base, content) is Ok,
        lane_file::made_faithfully(base, content),
        lane_file::base_bytes(base).len() <= usize::MAX,
    ensures
        written_is_listed(
            repo::repo_replace(before, path, lane, base, content)->Ok_0,
            path,
            lane,
            base,
            content,
        ),
{
    let after = repo::repo_replace(before, path, lane, base, content)->Ok_0;
    if base != content {
        let entry = lane_file::entry_for(base, content)->0;
        let lanes = repo::file_at(before, path, base).lanes.insert(lane, entry);
        assert(lanes.contains_key(lane));
        assert(lanes != Map::<Seq<char>, Entry>::empty());
        let listed = repo::repo_change_ops(after, path, lane, base)->Ok_0;
        assert(listed == lane_file::entry_summaries(after.files[path], path, lane, entry, base));
        if base is Some && content is Some {
            lemma_lists_difference(after.files[path], path, lane, base->0, content->0);
        }
        if content is Some {
            let list = entry->Present_0;
            assert(diff::touches_what_changed(
                lane_file::base_bytes(base),
                content->0,
                base is None,
                list,
            ));
            assert forall|i: int| 0 <= i < listed.len() implies (#[trigger] listed[i]).base_start
                == list[i].start && listed[i].base_end == list[i].end() && listed[i].inserted_len
                == list[i].inserted.len() by {}
        }
    }
}

} // verus!
