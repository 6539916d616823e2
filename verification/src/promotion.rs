//! Making the changes of a lane the new base, and carrying the other lanes along.
use vstd::prelude::*;

use crate::conflict;
use crate::conflict::entries_conflict;
use crate::lane_file;
use crate::lane_file::{
    base_or_empty, entry_for_content, BaseState, Entry, File, LaneEntry, LaneFile, LaneView,
};
use crate::op_id;
use crate::op_id::{
    ensure_delete_selection, find_op, next_file_op_id, operation_missing, ops_by_id,
    parse_lane_op_id, selected_ids, ParsedOpId,
};
use crate::ops;
use crate::ops::{render_ops, FileOp, Op};
use crate::rebase;
use crate::rebase::{rebase_ops_after_promotion, RebaseOpSet};
use crate::text;
use crate::text::text_eq;
use crate::text_map;
use crate::text_map::TextMap;
use crate::types::{LaneError, LaneErrorView};

verus! {

/// What becomes the new base: content as such, or the effect of operations that leave their lane.
#[derive(Clone, Copy)]
pub enum Promotion<'a> {
    Content,
    Ops { ops: &'a Vec<FileOp>, ids: &'a Vec<u64> },
}

/// A [`Promotion`] as a mathematical value.
pub enum PromotionView {
    Content,
    Ops { list: Seq<Op>, ids: Set<u64> },
}

impl<'a> View for Promotion<'a> {
    type V = PromotionView;

    open spec fn view(&self) -> PromotionView {
        match self {
            Promotion::Content => PromotionView::Content,
            Promotion::Ops { ops, ids } => PromotionView::Ops {
                list: ops::ops_view(ops@),
                ids: Set::new(|id: u64| ids@.contains(id)),
            },
        }
    }
}

/// The lanes of a file after one of them has got an entry, or lost it.
pub open spec fn with_entry(lanes: Map<Seq<char>, Entry>, lane: Seq<char>, entry: Option<Entry>) -> Map<
    Seq<char>,
    Entry,
> {
    match entry {
        Some(entry) => lanes.insert(lane, entry),
        None => lanes.remove(lane),
    }
}

/// The file after a lane has been given content, or the error where the base has changed.
pub open spec fn file_replace(
    file: File,
    path: Seq<char>,
    lane: Seq<char>,
    base: Option<Seq<u8>>,
    content: Option<Seq<u8>>,
) -> Result<File, LaneErrorView> {
    if file.base != lane_file::base_state(base) {
        Err(LaneErrorView::BaseChanged(path))
    } else {
        Ok(
            File {
                base: file.base,
                lanes: with_entry(file.lanes, lane, lane_file::entry_for(base, content)),
            },
        )
    }
}

/// What an entry shows, where it can be shown.
pub open spec fn shown(path: Seq<char>, base: Option<Seq<u8>>, entry: Entry) -> Option<Seq<u8>> {
    lane_file::entry_bytes(path, base, entry)->Ok_0
}

/// Whether retained operations cannot be moved onto the promoted base.
pub open spec fn cannot_move(
    base: Option<Seq<u8>>,
    promoted: Option<Seq<u8>>,
    p_list: Seq<Op>,
    r_list: Seq<Op>,
) -> bool {
    promoted is None || base is None || r_list.len() == 0 || conflict::lists_conflict(
        p_list,
        r_list,
        false,
    )
}

/// The entry of a lane with retained operations: they move along where they can, and otherwise
/// the lane keeps the bytes it showed.
pub open spec fn moved_entry(
    base: Option<Seq<u8>>,
    promoted: Option<Seq<u8>>,
    bytes: Option<Seq<u8>>,
    p_lane: Seq<char>,
    p_list: Seq<Op>,
    r_lane: Seq<char>,
    r_list: Seq<Op>,
) -> Option<Entry> {
    if cannot_move(base, promoted, p_list, r_list) {
        lane_file::entry_for(promoted, bytes)
    } else {
        Some(Entry::Present(rebase::rebased(r_lane, r_list, p_lane, p_list)))
    }
}

/// [`moved_entry`] with the errors that moving and applying can meet.
pub open spec fn moved_entry_result(
    path: Seq<char>,
    base: Option<Seq<u8>>,
    promoted: Option<Seq<u8>>,
    bytes: Option<Seq<u8>>,
    p_lane: Seq<char>,
    p_list: Seq<Op>,
    r_lane: Seq<char>,
    r_list: Seq<Op>,
) -> Result<Option<Entry>, LaneErrorView> {
    if cannot_move(base, promoted, p_list, r_list) {
        Ok(lane_file::entry_for(promoted, bytes))
    } else {
        match rebase::rebase_result(path, r_lane, r_list, p_lane, p_list) {
            Err(error) => Err(error),
            Ok(list) => match ops::rendered(path, lane_file::base_bytes(promoted), list) {
                Err(error) => Err(error),
                Ok(_) => Ok(Some(Entry::Present(list))),
            },
        }
    }
}

/// The view of a result that carries an optional entry.
pub open spec fn entry_result(r: Result<Option<LaneEntry>, LaneError>) -> Result<
    Option<Entry>,
    LaneErrorView,
> {
    match r {
        Ok(entry) => Ok(lane_file::opt_entry(entry)),
        Err(error) => Err(error@),
    }
}

/// The operations of a lane that are not among the promoted ones.
pub open spec fn kept_ops(list: Seq<Op>, ids: Set<u64>) -> Seq<Op> {
    list.filter(|op: Op| !ids.contains(op.id as u64))
}

/// The operations that a lane retains when `lane` is promoted.
pub open spec fn retained_ops(lane: Seq<char>, k: Seq<char>, list: Seq<Op>, ids: Set<u64>) -> Seq<Op> {
    if k == lane {
        kept_ops(list, ids)
    } else {
        list
    }
}

/// The entry that lane `k` has after the promotion of `lane`.
pub open spec fn next_entry(
    what: PromotionView,
    path: Seq<char>,
    base: Option<Seq<u8>>,
    promoted: Option<Seq<u8>>,
    lane: Seq<char>,
    k: Seq<char>,
    entry: Entry,
) -> Option<Entry> {
    match what {
        PromotionView::Content => if k == lane {
            None
        } else {
            lane_file::entry_for(promoted, shown(path, base, entry))
        },
        PromotionView::Ops { list, ids } => match entry {
            Entry::Deleted => lane_file::entry_for(promoted, None),
            Entry::Present(own) => {
                let retained = retained_ops(lane, k, own, ids);
                if k == lane && retained.len() == 0 {
                    None
                } else {
                    moved_entry(
                        base,
                        promoted,
                        shown(path, base, entry),
                        lane,
                        list,
                        k,
                        retained,
                    )
                }
            },
        },
    }
}

/// Whether lane `k` keeps showing the bytes it showed before the promotion because its operations
/// cannot move along.
pub open spec fn keeps_bytes(
    what: PromotionView,
    base: Option<Seq<u8>>,
    promoted: Option<Seq<u8>>,
    lane: Seq<char>,
    k: Seq<char>,
    entry: Entry,
) -> bool {
    match what {
        PromotionView::Content => k != lane,
        PromotionView::Ops { list, ids } => match entry {
            Entry::Deleted => true,
            Entry::Present(own) => {
                let retained = retained_ops(lane, k, own, ids);
                !(k == lane && retained.len() == 0) && cannot_move(base, promoted, list, retained)
            },
        },
    }
}

/// The error of the first lane, in order, that shows nothing, if there is one.
pub open spec fn snapshot_fault(
    path: Seq<char>,
    base: Option<Seq<u8>>,
    lanes: Map<Seq<char>, Entry>,
    keys: Seq<Seq<char>>,
) -> Option<LaneErrorView>
    decreases keys.len(),
{
    if keys.len() == 0 {
        None
    } else {
        match lane_file::entry_bytes(path, base, lanes[keys[0]]) {
            Err(error) => Some(error),
            Ok(_) => snapshot_fault(path, base, lanes, keys.drop_first()),
        }
    }
}

/// The lanes after a promotion.
pub open spec fn promoted_lanes(
    what: PromotionView,
    lanes: Map<Seq<char>, Entry>,
    path: Seq<char>,
    lane: Seq<char>,
    base: Option<Seq<u8>>,
    promoted: Option<Seq<u8>>,
) -> Map<Seq<char>, Entry> {
    Map::new(
        |k: Seq<char>|
            lanes.contains_key(k) && next_entry(what, path, base, promoted, lane, k, lanes[k]) is Some,
        |k: Seq<char>| next_entry(what, path, base, promoted, lane, k, lanes[k])->0,
    )
}

/// The new base and the file after a promotion, or why there is none.
pub open spec fn finish(
    what: PromotionView,
    file: File,
    path: Seq<char>,
    lane: Seq<char>,
    base: Option<Seq<u8>>,
    promoted: Option<Seq<u8>>,
) -> Result<(Option<Seq<u8>>, File), LaneErrorView> {
    match snapshot_fault(path, base, file.lanes, text_map::listing(file.lanes.dom())) {
        Some(error) => Err(error),
        None => Ok(
            (
                promoted,
                File {
                    base: lane_file::base_state(promoted),
                    lanes: promoted_lanes(what, file.lanes, path, lane, base, promoted),
                },
            ),
        ),
    }
}

/// The outcome of promoting operations that leave their lane by number.
pub open spec fn finish_ops(
    file: File,
    path: Seq<char>,
    lane: Seq<char>,
    base: Option<Seq<u8>>,
    list: Seq<Op>,
    ids: Set<u64>,
) -> Result<(Option<Seq<u8>>, File), LaneErrorView> {
    match ops::rendered(path, lane_file::base_bytes(base), list) {
        Err(error) => Err(error),
        Ok(bytes) => finish(PromotionView::Ops { list, ids }, file, path, lane, base, Some(bytes)),
    }
}

/// The numbers that names select.
pub open spec fn selected_set(lane: Seq<char>, names: Seq<Seq<char>>) -> Set<u64> {
    Set::new(|id: u64| op_id::is_selected(lane, names, id as int))
}

/// The outcome of promoting the named operations of a lane.
pub open spec fn file_promote_ops(
    file: File,
    path: Seq<char>,
    lane: Seq<char>,
    base: Option<Seq<u8>>,
    names: Seq<Seq<char>>,
) -> Result<(Option<Seq<u8>>, File), LaneErrorView> {
    if file.base != lane_file::base_state(base) {
        Err(LaneErrorView::BaseChanged(path))
    } else if names.len() == 0 {
        Err(LaneErrorView::EmptyOperationSelection)
    } else if !file.lanes.contains_key(lane) {
        Err(LaneErrorView::OperationMissing(path, names[0]))
    } else {
        match file.lanes[lane] {
            Entry::Present(list) => match op_id::first_unknown(lane, list, names) {
                Some(name) => Err(LaneErrorView::OperationMissing(path, name)),
                None => finish_ops(
                    file,
                    path,
                    lane,
                    base,
                    op_id::selected_ops(lane, list, names),
                    selected_set(lane, names),
                ),
            },
            Entry::Deleted => match op_id::first_not_delete(lane, names) {
                Some(name) => Err(LaneErrorView::OperationMissing(path, name)),
                None => finish(PromotionView::Content, file, path, lane, base, None),
            },
        }
    }
}

/// An operation with other bytes and a number that is not taken.
pub open spec fn resolved_op(list: Seq<Op>, target: Op, replacement: Seq<u8>) -> Op {
    Op { id: op_id::max_id(list) + 1, inserted: replacement, ..target }
}

/// The outcome of promoting one operation of a lane with other bytes in its place.
pub open spec fn file_resolve_op(
    file: File,
    path: Seq<char>,
    lane: Seq<char>,
    base: Option<Seq<u8>>,
    name: Seq<char>,
    replacement: Seq<u8>,
) -> Result<(Option<Seq<u8>>, File), LaneErrorView> {
    let missing = Err::<(Option<Seq<u8>>, File), LaneErrorView>(
        LaneErrorView::OperationMissing(path, name),
    );
    if file.base != lane_file::base_state(base) {
        Err(LaneErrorView::BaseChanged(path))
    } else if !file.lanes.contains_key(lane) {
        missing
    } else {
        match file.lanes[lane] {
            Entry::Present(list) => match op_id::parsed_op_id(lane, name) {
                Some(ParsedOpId::Present(id)) => if op_id::has_id(list, id as int) {
                    finish_ops(
                        file,
                        path,
                        lane,
                        base,
                        seq![
                            resolved_op(
                                list,
                                lane_file::op_with_id(list, id as int),
                                replacement,
                            ),
                        ],
                        set![id],
                    )
                } else {
                    missing
                },
                _ => missing,
            },
            Entry::Deleted => if op_id::parsed_op_id(lane, name) == Some(ParsedOpId::Delete) {
                finish(PromotionView::Content, file, path, lane, base, Some(replacement))
            } else {
                missing
            },
        }
    }
}

/// The view of the outcome of a promotion and of the file it leaves.
pub open spec fn promote_result(r: Result<Option<Vec<u8>>, LaneError>, file: File) -> Result<
    (Option<Seq<u8>>, File),
    LaneErrorView,
> {
    match r {
        Ok(bytes) => Ok((lane_file::opt_vec(bytes), file)),
        Err(error) => Err(error@),
    }
}

/// After the promotion, each lane whose operations could not move along shows what it showed, by
/// an entry that was made for it.
pub open spec fn bytes_are_kept(
    what: PromotionView,
    before: File,
    after: File,
    path: Seq<char>,
    lane: Seq<char>,
    base: Option<Seq<u8>>,
    promoted: Option<Seq<u8>>,
) -> bool {
    &&& forall|k: Seq<char>, any: Seq<char>|
        before.lanes.contains_key(k) && keeps_bytes(what, base, promoted, lane, k, before.lanes[k])
            ==> #[trigger] lane_file::file_read(after, any, k, promoted) == Ok::<
            Option<Seq<u8>>,
            LaneErrorView,
        >(shown(path, base, before.lanes[k]))
    &&& forall|k: Seq<char>| #[trigger]
        before.lanes.contains_key(k) && keeps_bytes(what, base, promoted, lane, k, before.lanes[k])
            ==> lane_file::made_faithfully(promoted, shown(path, base, before.lanes[k]))
}

/// Operations that can be moved onto the promoted base meet no error there, and a lane may hold
/// them.
pub proof fn lemma_moved_entry(
    path: Seq<char>,
    base: Seq<u8>,
    promoted: Seq<u8>,
    bytes: Option<Seq<u8>>,
    p_lane: Seq<char>,
    p_list: Seq<Op>,
    r_lane: Seq<char>,
    r_list: Seq<Op>,
)
    requires
        base.len() <= usize::MAX,
        promoted.len() <= usize::MAX,
        forall|i: int| 0 <= i < p_list.len() ==> 0 <= (#[trigger] p_list[i]).start && 0 <= p_list[i].len,
        ops::rendered(path, base, p_list) == Ok::<Seq<u8>, LaneErrorView>(promoted),
        lane_file::ops_ok(r_list),
        conflict::all_within(r_list, base.len() as int),
        !cannot_move(Some(base), Some(promoted), p_list, r_list),
    ensures
        moved_entry_result(path, Some(base), Some(promoted), bytes, p_lane, p_list, r_lane, r_list)
            == Ok::<Option<Entry>, LaneErrorView>(
            moved_entry(Some(base), Some(promoted), bytes, p_lane, p_list, r_lane, r_list),
        ),
        lane_file::ops_ok(rebase::rebased(r_lane, r_list, p_lane, p_list)),
{
    let n = base.len() as int;
    let moved = rebase::rebased(r_lane, r_list, p_lane, p_list);
    conflict::lemma_rendered_ok(path, base, p_list);
    assert forall|i: int, j: int| 0 <= i < p_list.len() && 0 <= j < r_list.len() implies conflict::apart(
        #[trigger] p_list[i],
        #[trigger] r_list[j],
    ) by {
        assert(!conflict::conflicting(p_list[i], r_list[j], false));
    }
    rebase::lemma_rebased_fits(r_lane, r_list, p_lane, p_list, n);
    let sorted = ops::sort_ops(p_list);
    ops::lemma_sort_ops(p_list);
    conflict::lemma_sort_within(p_list, n);
    rebase::lemma_render_len(base, 0, sorted);
    rebase::lemma_sum_sorted(p_list, |op: Op| rebase::growth(op));
    assert(promoted.len() == n + rebase::sum_by(p_list, |op: Op| rebase::growth(op)));
    assert forall|i: int| 0 <= i < r_list.len() implies 0 <= rebase::rebased_start(
        r_lane,
        #[trigger] r_list[i],
        p_lane,
        p_list,
    ) <= u64::MAX by {
        assert(moved[i].start == rebase::rebased_start(r_lane, r_list[i], p_lane, p_list));
        assert(0 <= moved[i].start && moved[i].end() <= promoted.len());
        assert(ops::sound_op(r_list[i]));
    }
    conflict::lemma_rendered_ok(path, promoted, moved);
    assert forall|i: int| 0 <= i < moved.len() implies ops::sound_op(#[trigger] moved[i])
        && !moved[i].is_noop() by {
        assert(ops::sound_op(r_list[i]));
        assert(moved[i].end() <= promoted.len());
    }
}

/// The entry of a lane with retained operations after a promotion.
pub fn rebased_entry_for_present_ops(
    path: &str,
    old_base: Option<&[u8]>,
    promoted_base: Option<&[u8]>,
    fallback_bytes: Option<Vec<u8>>,
    promoted: RebaseOpSet<'_>,
    retained: RebaseOpSet<'_>,
) -> (r: Result<Option<LaneEntry>, LaneError>)
    requires
        conflict::ends_fit(ops::ops_view(promoted.ops@)),
        conflict::ends_fit(ops::ops_view(retained.ops@)),
    ensures
        entry_result(r) == moved_entry_result(
            path@,
            lane_file::opt_slice(old_base),
            lane_file::opt_slice(promoted_base),
            lane_file::opt_vec(fallback_bytes),
            promoted.lane@,
            ops::ops_view(promoted.ops@),
            retained.lane@,
            ops::ops_view(retained.ops@),
        ),
        cannot_move(
            lane_file::opt_slice(old_base),
            lane_file::opt_slice(promoted_base),
            ops::ops_view(promoted.ops@),
            ops::ops_view(retained.ops@),
        ) ==> r is Ok && lane_file::entry_shows(
            lane_file::opt_slice(promoted_base),
            lane_file::opt_vec(fallback_bytes),
            lane_file::opt_entry(r->Ok_0),
        ) && lane_file::made_faithfully(
            lane_file::opt_slice(promoted_base),
            lane_file::opt_vec(fallback_bytes),
        ),
{
    let new_base: &[u8] = match promoted_base {
        None => {
            return Ok(entry_for_content(promoted_base, fallback_bytes));
        },
        Some(bytes) => bytes,
    };
    if old_base.is_none() || retained.ops.len() == 0 || entries_conflict(
        promoted.ops,
        retained.ops,
        false,
    ) {
        return Ok(entry_for_content(promoted_base, fallback_bytes));
    }
    match rebase_ops_after_promotion(path, retained, promoted) {
        Err(error) => Err(error),
        Ok(moved) => match render_ops(path, new_base, &moved) {
            Err(error) => Err(error),
            Ok(_) => Ok(Some(LaneEntry::Present(LaneView { ops: moved }))),
        },
    }
}

impl LaneFile {
    /// Gives a lane content in place of what it saw.
    pub fn replace(
        &mut self,
        path: &str,
        lane: &str,
        base: Option<&[u8]>,
        content: Option<Vec<u8>>,
    ) -> (r: Result<(), LaneError>)
        requires
            old(self).wf(),
        ensures
            final(self).wf(),
            match r {
                Ok(()) => {
                    &&& file_replace(
                        old(self)@,
                        path@,
                        lane@,
                        lane_file::opt_slice(base),
                        lane_file::opt_vec(content),
                    ) == Ok::<File, LaneErrorView>(final(self)@)
                    &&& forall|any: Seq<char>| #[trigger]
                        lane_file::file_read(final(self)@, any, lane@, lane_file::opt_slice(base))
                            == Ok::<Option<Seq<u8>>, LaneErrorView>(lane_file::opt_vec(content))
                    &&& lane_file::made_faithfully(
                        lane_file::opt_slice(base),
                        lane_file::opt_vec(content),
                    )
                },
                Err(error) => {
                    &&& file_replace(
                        old(self)@,
                        path@,
                        lane@,
                        lane_file::opt_slice(base),
                        lane_file::opt_vec(content),
                    ) == Err::<File, LaneErrorView>(error@)
                    &&& final(self)@ == old(self)@
                },
            },
    {
        match self.ensure_base(path, base) {
            Err(error) => {
                return Err(error);
            },
            Ok(()) => {},
        }
        let ghost before = self@;
        let ghost seen = lane_file::opt_vec(content);
        let entry = entry_for_content(base, content);
        let ghost next = lane_file::opt_entry(entry);
        match entry {
            Some(entry) => {
                let _ = self.lanes.insert(lane.to_owned(), entry);
                assert(self@.lanes =~= before.lanes.insert(lane@, next->0));
            },
            None => {
                let _ = self.lanes.remove(lane);
                assert(self@.lanes =~= before.lanes.remove(lane@));
            },
        }
        proof {
            assert forall|any: Seq<char>| #[trigger] lane_file::file_read(
                self@,
                any,
                lane@,
                lane_file::opt_slice(base),
            ) == Ok::<Option<Seq<u8>>, LaneErrorView>(seen) by {
                assert(lane_file::seen(any, lane_file::opt_slice(base), next) == Ok::<
                    Option<Seq<u8>>,
                    LaneErrorView,
                >(seen));
            }
        }
        Ok(())
    }

    /// What each lane shows, in order, or the error of the first that shows nothing.
    fn promotion_snapshots(&self, path: &str, base: Option<&[u8]>) -> (r: Result<
        Vec<Option<Vec<u8>>>,
        LaneError,
    >)
        requires
            self.wf(),
        ensures
            match r {
                Ok(list) => {
                    &&& snapshot_fault(
                        path@,
                        lane_file::opt_slice(base),
                        self@.lanes,
                        self.lanes.keys(),
                    ) is None
                    &&& list@.len() == self.lanes.keys().len()
                    &&& forall|i: int|
                        0 <= i < list@.len() ==> lane_file::entry_bytes(
                            path@,
                            lane_file::opt_slice(base),
                            self@.lanes[#[trigger] self.lanes.keys()[i]],
                        ) == Ok::<Option<Seq<u8>>, LaneErrorView>(lane_file::opt_vec(list@[i]))
                },
                Err(error) => snapshot_fault(
                    path@,
                    lane_file::opt_slice(base),
                    self@.lanes,
                    self.lanes.keys(),
                ) == Some(error@),
            },
    {
        let ghost keys = self.lanes.keys();
        let mut list: Vec<Option<Vec<u8>>> = Vec::new();
        let mut i: usize = 0;
        proof {
            self.lanes.lemma_wf();
            assert(keys.subrange(0, keys.len() as int) =~= keys);
        }
        while i < self.lanes.len()
            invariant
                i <= self.lanes.pairs().len(),
                self.wf(),
                keys == self.lanes.keys(),
                forall|k: int|
                    0 <= k < keys.len() ==> self@.lanes.contains_key(#[trigger] keys[k])
                        && self@.lanes[keys[k]] == self.lanes.pairs()[k].1@,
                list@.len() == i,
                forall|k: int|
                    0 <= k < i ==> lane_file::entry_bytes(
                        path@,
                        lane_file::opt_slice(base),
                        self@.lanes[#[trigger] keys[k]],
                    ) == Ok::<Option<Seq<u8>>, LaneErrorView>(lane_file::opt_vec(list@[k])),
                snapshot_fault(path@, lane_file::opt_slice(base), self@.lanes, keys)
                    == snapshot_fault(
                    path@,
                    lane_file::opt_slice(base),
                    self@.lanes,
                    keys.subrange(i as int, keys.len() as int),
                ),
            decreases self.lanes.pairs().len() - i,
        {
            proof {
                let rest = keys.subrange(i as int, keys.len() as int);
                assert(rest[0] == keys[i as int]);
                assert(rest.drop_first() =~= keys.subrange(i + 1, keys.len() as int));
            }
            match Self::read_entry(path, self.lanes.value_at(i), base) {
                Ok(bytes) => {
                    list.push(bytes);
                },
                Err(error) => {
                    return Err(error);
                },
            }
            i = i + 1;
        }
        Ok(list)
    }

    /// The entry of one lane after a promotion that no lane stands in the way of.
    fn entry_after(
        path: &str,
        base: Option<&[u8]>,
        promoted: Option<&[u8]>,
        lane: &str,
        what: Promotion<'_>,
        other: &str,
        entry: &LaneEntry,
        bytes: Option<Vec<u8>>,
    ) -> (r: Option<LaneEntry>)
        requires
            lane_file::entry_ok(entry@),
            lane_file::entry_bytes(path@, lane_file::opt_slice(base), entry@) == Ok::<
                Option<Seq<u8>>,
                LaneErrorView,
            >(lane_file::opt_vec(bytes)),
            what matches Promotion::Ops { ops, ids } ==> {
                &&& promoted is Some
                &&& ops::rendered(
                    path@,
                    lane_file::base_bytes(lane_file::opt_slice(base)),
                    ops::ops_view(ops@),
                ) == Ok::<Seq<u8>, LaneErrorView>(promoted->0@)
            },
        ensures
            lane_file::opt_entry(r) == next_entry(
                what@,
                path@,
                lane_file::opt_slice(base),
                lane_file::opt_slice(promoted),
                lane@,
                other@,
                entry@,
            ),
            lane_file::opt_entry(r) matches Some(e) ==> lane_file::entry_ok(e),
            keeps_bytes(
                what@,
                lane_file::opt_slice(base),
                lane_file::opt_slice(promoted),
                lane@,
                other@,
                entry@,
            ) ==> lane_file::entry_shows(
                lane_file::opt_slice(promoted),
                lane_file::opt_vec(bytes),
                lane_file::opt_entry(r),
            ) && lane_file::made_faithfully(
                lane_file::opt_slice(promoted),
                lane_file::opt_vec(bytes),
            ),
    {
        match what {
            Promotion::Content => {
                if text_eq(other, lane) {
                    None
                } else {
                    entry_for_content(promoted, bytes)
                }
            },
            Promotion::Ops { ops: list, ids } => {
                let old = base_or_empty(base);
                let old_len: usize = old.len();
                let ghost p_list = ops::ops_view(list@);
                let ghost id_set = Set::new(|id: u64| ids@.contains(id));
                proof {
                    assert forall|i: int| 0 <= i < p_list.len() implies 0 <= (
                    #[trigger] p_list[i]).start && 0 <= p_list[i].len by {
                        assert(p_list[i] == list@[i]@);
                    }
                    conflict::lemma_rendered_ok(path@, old@, p_list);
                    assert forall|i: int| 0 <= i < p_list.len() implies (#[trigger] p_list[i]).end()
                        <= u64::MAX by {}
                }
                match entry {
                    LaneEntry::Deleted => entry_for_content(promoted, bytes),
                    LaneEntry::Present(view) => {
                        let ghost own = ops::ops_view(view.ops@);
                        let same = text_eq(other, lane);
                        let retained: Vec<FileOp> = if same {
                            ops_by_id(&view.ops, ids, false)
                        } else {
                            ops::copy_ops(&view.ops)
                        };
                        let ghost r_list = ops::ops_view(retained@);
                        proof {
                            if same {
                                op_id::lemma_filter_same(
                                    own,
                                    |op: Op| ids@.contains(op.id as u64) == false,
                                    |op: Op| !id_set.contains(op.id as u64),
                                );
                            }
                            assert(r_list == retained_ops(lane@, other@, own, id_set));
                            assert forall|i: int| 0 <= i < own.len() implies 0 <= (
                            #[trigger] own[i]).start && 0 <= own[i].len by {
                                assert(ops::sound_op(own[i]));
                            }
                            conflict::lemma_rendered_ok(path@, old@, own);
                            if same {
                                lemma_kept_ok(own, |op: Op| !id_set.contains(op.id as u64), old@.len() as int);
                            }
                            assert(lane_file::ops_ok(r_list));
                            assert(conflict::all_within(r_list, old@.len() as int));
                            assert forall|i: int| 0 <= i < r_list.len() implies (
                            #[trigger] r_list[i]).end() <= u64::MAX by {
                                assert(ops::sound_op(r_list[i]));
                            }
                        }
                        if same && retained.len() == 0 {
                            return None;
                        }
                        let ghost shown_bytes = lane_file::opt_vec(bytes);
                        let moved = rebased_entry_for_present_ops(
                            path,
                            base,
                            promoted,
                            bytes,
                            RebaseOpSet { lane, ops: list },
                            RebaseOpSet { lane: other, ops: &retained },
                        );
                        proof {
                            let new_len = promoted->0.len();
                            if !cannot_move(
                                lane_file::opt_slice(base),
                                lane_file::opt_slice(promoted),
                                p_list,
                                r_list,
                            ) {
                                lemma_moved_entry(
                                    path@,
                                    old@,
                                    promoted->0@,
                                    shown_bytes,
                                    lane@,
                                    p_list,
                                    other@,
                                    r_list,
                                );
                            }
                        }
                        match moved {
                            Ok(entry) => entry,
                            Err(_) => None,
                        }
                    },
                }
            },
        }
    }

    /// Makes `promoted` the base and carries the lanes along.
    pub(crate) fn rebuild_after_base_promotion(
        &mut self,
        path: &str,
        lane: &str,
        base: Option<&[u8]>,
        promoted: Option<Vec<u8>>,
        what: Promotion<'_>,
    ) -> (r: Result<Option<Vec<u8>>, LaneError>)
        requires
            old(self).wf(),
            what matches Promotion::Ops { ops, ids } ==> {
                &&& promoted is Some
                &&& ops::rendered(
                    path@,
                    lane_file::base_bytes(lane_file::opt_slice(base)),
                    ops::ops_view(ops@),
                ) == Ok::<Seq<u8>, LaneErrorView>(promoted->0@)
            },
        ensures
            final(self).wf(),
            promote_result(r, final(self)@) == finish(
                what@,
                old(self)@,
                path@,
                lane@,
                lane_file::opt_slice(base),
                lane_file::opt_vec(promoted),
            ),
            r is Err ==> final(self)@ == old(self)@,
            r is Ok ==> bytes_are_kept(
                what@,
                old(self)@,
                final(self)@,
                path@,
                lane@,
                lane_file::opt_slice(base),
                lane_file::opt_vec(promoted),
            ),
    {
        let ghost before = self@;
        let ghost keys = self.lanes.keys();
        let ghost old_base = lane_file::opt_slice(base);
        proof {
            self.lanes.lemma_wf();
            assert(before.lanes.dom() =~= self.lanes@.dom());
        }
        let mut shown_list = match self.promotion_snapshots(path, base) {
            Err(error) => {
                return Err(error);
            },
            Ok(list) => list,
        };
        let promoted_base: Option<&[u8]> = match &promoted {
            Some(bytes) => Some(bytes.as_slice()),
            None => None,
        };
        let ghost new_base = lane_file::opt_vec(promoted);
        let ghost next = |k: Seq<char>|
            next_entry(what@, path@, old_base, new_base, lane@, k, before.lanes[k]);
        let mut lanes: TextMap<LaneEntry> = TextMap::new();
        let mut i: usize = 0;
        while i < self.lanes.len()
            invariant
                i <= self.lanes.pairs().len(),
                self.wf(),
                self@ == before,
                keys == self.lanes.keys(),
                shown_list@.len() == keys.len(),
                old_base == lane_file::opt_slice(base),
                new_base == lane_file::opt_vec(promoted),
                new_base == lane_file::opt_slice(promoted_base),
                what matches Promotion::Ops { ops, ids } ==> {
                    &&& promoted_base is Some
                    &&& ops::rendered(
                        path@,
                        lane_file::base_bytes(lane_file::opt_slice(base)),
                        ops::ops_view(ops@),
                    ) == Ok::<Seq<u8>, LaneErrorView>(promoted_base->0@)
                },
                next == (|k: Seq<char>|
                    next_entry(what@, path@, old_base, new_base, lane@, k, before.lanes[k])),
                text_map::sorted_texts(keys),
                forall|k: int|
                    0 <= k < keys.len() ==> before.lanes.contains_key(#[trigger] keys[k])
                        && before.lanes[keys[k]] == self.lanes.pairs()[k].1@,
                forall|k: int|
                    i <= k < keys.len() ==> lane_file::entry_bytes(
                        path@,
                        old_base,
                        before.lanes[#[trigger] keys[k]],
                    ) == Ok::<Option<Seq<u8>>, LaneErrorView>(lane_file::opt_vec(shown_list@[k])),
                lanes.wf(),
                forall|k: Seq<char>| #[trigger]
                    lane_file::entries(lanes@).contains_key(k) ==> lane_file::entry_ok(
                        lane_file::entries(lanes@)[k],
                    ) && next(k) == Some(lane_file::entries(lanes@)[k]) && before.lanes.contains_key(k),
                forall|m: int|
                    0 <= m < i ==> (lane_file::entries(lanes@).contains_key(#[trigger] keys[m])
                        <==> next(keys[m]) is Some),
                forall|m: int|
                    i <= m < keys.len() ==> !lane_file::entries(lanes@).contains_key(
                        #[trigger] keys[m],
                    ),
                forall|m: int, any: Seq<char>|
                    0 <= m < i && keeps_bytes(
                        what@,
                        old_base,
                        new_base,
                        lane@,
                        keys[m],
                        before.lanes[keys[m]],
                    ) ==> #[trigger] lane_file::seen(any, new_base, next(#[trigger] keys[m])) == Ok::<
                        Option<Seq<u8>>,
                        LaneErrorView,
                    >(shown(path@, old_base, before.lanes[keys[m]])),
                forall|m: int|
                    0 <= m < i && keeps_bytes(
                        what@,
                        old_base,
                        new_base,
                        lane@,
                        keys[m],
                        before.lanes[keys[m]],
                    ) ==> lane_file::made_faithfully(
                        new_base,
                        shown(path@, old_base, before.lanes[#[trigger] keys[m]]),
                    ),
            decreases self.lanes.pairs().len() - i,
        {
            let other = self.lanes.key_at(i);
            let mut bytes: Option<Vec<u8>> = None;
            std::mem::swap(&mut bytes, &mut shown_list[i]);
            assert(before.lanes.contains_key(keys[i as int]));
            let entry = Self::entry_after(
                path,
                base,
                promoted_base,
                lane,
                what,
                other,
                self.lanes.value_at(i),
                bytes,
            );
            let ghost held = lane_file::opt_entry(entry);
            let ghost built = lane_file::entries(lanes@);
            match entry {
                Some(entry) => {
                    let _ = lanes.insert(other.to_owned(), entry);
                    assert(lane_file::entries(lanes@) =~= built.insert(keys[i as int], held->0));
                },
                None => {},
            }
            proof {
                assert forall|m: int| 0 <= m < keys.len() && m != i implies keys[m] != keys[i as int] by {
                    text::lemma_text_lt_irreflexive(keys[i as int]);
                    if m < i {
                        assert(text::text_lt(keys[m], keys[i as int]));
                    } else {
                        assert(text::text_lt(keys[i as int], keys[m]));
                    }
                }
            }
            i = i + 1;
        }
        let base_state = BaseState::for_content(promoted_base);
        *self = LaneFile { base: base_state, lanes };
        proof {
            let after = promoted_lanes(what@, before.lanes, path@, lane@, old_base, new_base);
            assert forall|k: Seq<char>| #[trigger] after.contains_key(k) <==> self@.lanes.contains_key(k) by {
                if before.lanes.contains_key(k) {
                    assert(keys.contains(k));
                    let m = choose|m: int| 0 <= m < keys.len() && keys[m] == k;
                    assert(self@.lanes.contains_key(keys[m]) <==> next(keys[m]) is Some);
                }
            }
            assert forall|k: Seq<char>| #[trigger] after.contains_key(k) implies after[k]
                == self@.lanes[k] by {
                assert(self@.lanes.contains_key(k));
            }
            assert(self@.lanes =~= after);
            assert forall|k: Seq<char>, any: Seq<char>|
                before.lanes.contains_key(k) && keeps_bytes(
                    what@,
                    old_base,
                    new_base,
                    lane@,
                    k,
                    before.lanes[k],
                ) implies #[trigger] lane_file::file_read(self@, any, k, new_base) == Ok::<
                Option<Seq<u8>>,
                LaneErrorView,
            >(shown(path@, old_base, before.lanes[k])) by {
                assert(keys.contains(k));
                let m = choose|m: int| 0 <= m < keys.len() && keys[m] == k;
                assert(lane_file::seen(any, new_base, next(keys[m])) == Ok::<
                    Option<Seq<u8>>,
                    LaneErrorView,
                >(shown(path@, old_base, before.lanes[keys[m]])));
                assert(after.contains_key(k) <==> next(k) is Some);
            }
            assert forall|k: Seq<char>| #[trigger]
                before.lanes.contains_key(k) && keeps_bytes(
                    what@,
                    old_base,
                    new_base,
                    lane@,
                    k,
                    before.lanes[k],
                ) implies lane_file::made_faithfully(new_base, shown(path@, old_base, before.lanes[k])) by {
                assert(keys.contains(k));
                let m = choose|m: int| 0 <= m < keys.len() && keys[m] == k;
                assert(before.lanes[keys[m]] == before.lanes[k]);
            }
        }
        Ok(promoted)
    }

    /// Promotes operations that leave their lane by number.
    pub(crate) fn promote_selected_present_ops(
        &mut self,
        path: &str,
        lane: &str,
        base: Option<&[u8]>,
        list: &Vec<FileOp>,
        ids: &Vec<u64>,
    ) -> (r: Result<Option<Vec<u8>>, LaneError>)
        requires
            old(self).wf(),
        ensures
            final(self).wf(),
            promote_result(r, final(self)@) == finish_ops(
                old(self)@,
                path@,
                lane@,
                lane_file::opt_slice(base),
                ops::ops_view(list@),
                Set::new(|id: u64| ids@.contains(id)),
            ),
            r is Err ==> final(self)@ == old(self)@,
            r matches Ok(promoted) ==> bytes_are_kept(
                PromotionView::Ops {
                    list: ops::ops_view(list@),
                    ids: Set::new(|id: u64| ids@.contains(id)),
                },
                old(self)@,
                final(self)@,
                path@,
                lane@,
                lane_file::opt_slice(base),
                lane_file::opt_vec(promoted),
            ),
    {
        match render_ops(path, base_or_empty(base), list) {
            Err(error) => Err(error),
            Ok(bytes) => self.rebuild_after_base_promotion(
                path,
                lane,
                base,
                Some(bytes),
                Promotion::Ops { ops: list, ids },
            ),
        }
    }

    /// Promotes the named operations of a lane.
    pub fn promote_ops(
        &mut self,
        path: &str,
        lane: &str,
        base: Option<&[u8]>,
        op_ids: &Vec<String>,
    ) -> (r: Result<Option<Vec<u8>>, LaneError>)
        requires
            old(self).wf(),
        ensures
            final(self).wf(),
            promote_result(r, final(self)@) == file_promote_ops(
                old(self)@,
                path@,
                lane@,
                lane_file::opt_slice(base),
                text::texts(op_ids@),
            ),
            r is Err ==> final(self)@ == old(self)@,
            r matches Ok(promoted) ==> bytes_are_kept(
                promoted_by_name(old(self)@, lane@, text::texts(op_ids@)),
                old(self)@,
                final(self)@,
                path@,
                lane@,
                lane_file::opt_slice(base),
                lane_file::opt_vec(promoted),
            ),
    {
        match self.ensure_base(path, base) {
            Err(error) => {
                return Err(error);
            },
            Ok(()) => {},
        }
        if op_ids.len() == 0 {
            return Err(LaneError::EmptyOperationSelection);
        }
        let ghost names = text::texts(op_ids@);
        let ghost before = self@;
        assert(names[0] == op_ids@[0]@);
        let (list, ids) = match self.lanes.get(lane) {
            None => {
                return Err(operation_missing(path, op_ids[0].as_str()));
            },
            Some(LaneEntry::Present(view)) => {
                assert(before.lanes.contains_key(lane@));
                match selected_ids(path, lane, &view.ops, op_ids) {
                    Err(error) => {
                        return Err(error);
                    },
                    Ok(ids) => {
                        proof {
                            op_id::lemma_selected_filter(lane@, view.ops@, names, ids@);
                        }
                        (ops_by_id(&view.ops, &ids, true), ids)
                    },
                }
            },
            Some(LaneEntry::Deleted) => {
                assert(before.lanes.contains_key(lane@));
                match ensure_delete_selection(path, lane, op_ids) {
                    Err(error) => {
                        return Err(error);
                    },
                    Ok(()) => {
                        return self.rebuild_after_base_promotion(
                            path,
                            lane,
                            base,
                            None,
                            Promotion::Content,
                        );
                    },
                }
            },
        };
        assert(Set::new(|id: u64| ids@.contains(id)) =~= selected_set(lane@, names));
        self.promote_selected_present_ops(path, lane, base, &list, &ids)
    }

    /// Promotes one operation of a lane with other bytes in its place.
    pub fn resolve_op(
        &mut self,
        path: &str,
        lane: &str,
        base: Option<&[u8]>,
        name: &str,
        replacement: Vec<u8>,
    ) -> (r: Result<Option<Vec<u8>>, LaneError>)
        requires
            old(self).wf(),
            ids_can_grow(old(self)@, lane@),
        ensures
            final(self).wf(),
            promote_result(r, final(self)@) == file_resolve_op(
                old(self)@,
                path@,
                lane@,
                lane_file::opt_slice(base),
                name@,
                replacement@,
            ),
            r is Err ==> final(self)@ == old(self)@,
            r matches Ok(promoted) ==> bytes_are_kept(
                resolved_by_name(old(self)@, lane@, name@, replacement@),
                old(self)@,
                final(self)@,
                path@,
                lane@,
                lane_file::opt_slice(base),
                lane_file::opt_vec(promoted),
            ),
    {
        match self.ensure_base(path, base) {
            Err(error) => {
                return Err(error);
            },
            Ok(()) => {},
        }
        let ghost before = self@;
        let ghost bytes = replacement@;
        let mut list: Vec<FileOp> = Vec::new();
        let mut ids: Vec<u64> = Vec::new();
        match self.lanes.get(lane) {
            None => {
                return Err(operation_missing(path, name));
            },
            Some(LaneEntry::Deleted) => {
                assert(before.lanes.contains_key(lane@));
                match parse_lane_op_id(lane, name) {
                    Some(ParsedOpId::Delete) => {
                        return self.rebuild_after_base_promotion(
                            path,
                            lane,
                            base,
                            Some(replacement),
                            Promotion::Content,
                        );
                    },
                    _ => {
                        return Err(operation_missing(path, name));
                    },
                }
            },
            Some(LaneEntry::Present(view)) => {
                assert(before.lanes.contains_key(lane@));
                let ghost own = ops::ops_view(view.ops@);
                match parse_lane_op_id(lane, name) {
                    Some(ParsedOpId::Present(id)) => match find_op(&view.ops, id) {
                        None => {
                            return Err(operation_missing(path, name));
                        },
                        Some(at) => {
                            let target = &view.ops[at];
                            let resolved = FileOp {
                                id: next_file_op_id(&view.ops),
                                base_start: target.base_start,
                                base_len: target.base_len,
                                order_key: target.order_key.clone(),
                                inserted: replacement,
                            };
                            proof {
                                lane_file::lemma_op_with_id(own, id as int, at as int);
                                assert(own[at as int] == target@);
                                assert(resolved@ =~= resolved_op(own, target@, bytes));
                            }
                            let ghost made = resolved@;
                            list.push(resolved);
                            ids.push(id);
                            assert(ops::ops_view(list@) =~= seq![made]);
                            assert(Set::new(|x: u64| ids@.contains(x)) =~= set![id]) by {
                                assert(ids@ =~= seq![id]);
                                assert(ids@[0] == id);
                            }
                        },
                    },
                    _ => {
                        return Err(operation_missing(path, name));
                    },
                }
            },
        }
        self.promote_selected_present_ops(path, lane, base, &list, &ids)
    }
}

/// What the named operations of a lane promote.
pub open spec fn promoted_by_name(file: File, lane: Seq<char>, names: Seq<Seq<char>>) -> PromotionView {
    match file.lanes[lane] {
        Entry::Present(list) => PromotionView::Ops {
            list: op_id::selected_ops(lane, list, names),
            ids: selected_set(lane, names),
        },
        Entry::Deleted => PromotionView::Content,
    }
}

/// What a named operation of a lane promotes with other bytes in its place.
pub open spec fn resolved_by_name(
    file: File,
    lane: Seq<char>,
    name: Seq<char>,
    replacement: Seq<u8>,
) -> PromotionView {
    match file.lanes[lane] {
        Entry::Present(list) => match op_id::parsed_op_id(lane, name) {
            Some(ParsedOpId::Present(id)) => PromotionView::Ops {
                list: seq![
                    resolved_op(list, lane_file::op_with_id(list, id as int), replacement),
                ],
                ids: set![id],
            },
            _ => PromotionView::Content,
        },
        Entry::Deleted => PromotionView::Content,
    }
}

/// The lane has a number left for another operation.
pub open spec fn ids_can_grow(file: File, lane: Seq<char>) -> bool {
    file.lanes.contains_key(lane) ==> match file.lanes[lane] {
        Entry::Present(list) => op_id::max_id(list) < u64::MAX,
        Entry::Deleted => true,
    }
}

/// Some of the operations that a lane holds are operations that a lane may hold.
pub(crate) proof fn lemma_kept_ok(list: Seq<Op>, keep: spec_fn(Op) -> bool, len: int)
    requires
        lane_file::ops_ok(list),
        conflict::all_within(list, len),
    ensures
        lane_file::ops_ok(list.filter(keep)),
        conflict::all_within(list.filter(keep), len),
    decreases list.len(),
{
    reveal(Seq::filter);
    let kept = list.filter(keep);
    rebase::lemma_filter_elements(list, keep);
    assert forall|i: int| 0 <= i < kept.len() implies ops::sound_op(#[trigger] kept[i])
        && !kept[i].is_noop() && 0 <= kept[i].start && 0 <= kept[i].len && kept[i].end() <= len by {
        assert(list.contains(kept[i]));
        let k = choose|k: int| 0 <= k < list.len() && list[k] == kept[i];
        assert(ops::sound_op(list[k]));
    }
    if list.len() > 0 {
        let rest = list.drop_last();
        assert(forall|i: int| 0 <= i < rest.len() ==> rest[i] == list[i]);
        assert forall|i: int, j: int| 0 <= i < j < rest.len() implies conflict::apart(
            #[trigger] rest[i],
            #[trigger] rest[j],
        ) by {
            assert(conflict::apart(list[i], list[j]));
        }
        lemma_kept_ok(rest, keep, len);
        rebase::lemma_filter_elements(rest, keep);
        let before = rest.filter(keep);
        assert forall|i: int, j: int| 0 <= i < j < kept.len() implies conflict::apart(
            #[trigger] kept[i],
            #[trigger] kept[j],
        ) by {
            if j < before.len() {
                assert(conflict::apart(before[i], before[j]));
            } else {
                assert(rest.contains(before[i]));
                let k = choose|k: int| 0 <= k < rest.len() && rest[k] == before[i];
                assert(conflict::apart(list[k], list[list.len() - 1]));
            }
        }
    }
}

} // verus!
