//! Accepting operations of several lanes at one path with one replacement.
use vstd::prelude::*;

use crate::commit;
use crate::commit::{Promoted, PromotedFile};
use crate::conflict;
use crate::lane_file;
use crate::lane_file::{base_or_empty, BaseState, Entry, File, LaneEntry, LaneFile, LaneView};
use crate::op_id;
use crate::op_id::{find_op, operation_missing, ops_by_id, parse_lane_op_id, ParsedOpId};
use crate::ops;
use crate::ops::{FileOp, Op};
use crate::order_key;
use crate::order_key::first_fractional_key;
use crate::promotion;
use crate::promotion::{Promotion, PromotionView};
use crate::rebase;
use crate::repo;
use crate::repo::{LaneRepo, Repo};
use crate::sorting;
use crate::text;
use crate::text::text_eq;
use crate::text_map;
use crate::text_map::TextMap;
use crate::types::{LaneError, LaneErrorView};
use crate::upkeep;
use crate::vfs;
use crate::vfs::{normalize_repo_path, Fs, LaneFs, LaneFsError, LaneFsErrorView};

verus! {

/// An operation that is named together with its lane.
#[derive(Debug, PartialEq, Eq)]
pub struct LaneOpSelection {
    pub lane: String,
    pub op_id: String,
}

impl View for LaneOpSelection {
    type V = (Seq<char>, Seq<char>);

    open spec fn view(&self) -> (Seq<char>, Seq<char>) {
        (self.lane@, self.op_id@)
    }
}

/// The operation that deletes a whole file, as an operation on its bytes.
pub open spec fn whole_file(base: Option<Seq<u8>>) -> Op {
    Op {
        id: 0,
        start: 0,
        len: lane_file::base_bytes(base).len() as int,
        key: order_key::next_key(None),
        inserted: Seq::empty(),
    }
}

/// The operation that a lane and a name pick, if there is one.
pub open spec fn picked_op(file: File, base: Option<Seq<u8>>, pick: (Seq<char>, Seq<char>)) -> Option<Op> {
    if !file.lanes.contains_key(pick.0) {
        None
    } else {
        match (file.lanes[pick.0], op_id::parsed_op_id(pick.0, pick.1)) {
            (Entry::Present(list), Some(ParsedOpId::Present(id))) => if op_id::has_id(list, id as int) {
                Some(lane_file::op_with_id(list, id as int))
            } else {
                None
            },
            (Entry::Deleted, Some(ParsedOpId::Delete)) => Some(whole_file(base)),
            _ => None,
        }
    }
}

/// The first name that picks nothing, if there is one.
pub open spec fn first_unpicked(
    file: File,
    base: Option<Seq<u8>>,
    picks: Seq<(Seq<char>, Seq<char>)>,
) -> Option<Seq<char>>
    decreases picks.len(),
{
    if picks.len() == 0 {
        None
    } else if picked_op(file, base, picks[0]) is None {
        Some(picks[0].1)
    } else {
        first_unpicked(file, base, picks.drop_first())
    }
}

/// The operations that are picked.
pub open spec fn picked_ops(
    file: File,
    base: Option<Seq<u8>>,
    picks: Seq<(Seq<char>, Seq<char>)>,
) -> Seq<Op> {
    Seq::new(picks.len(), |i: int| picked_op(file, base, picks[i])->0)
}

/// Where the first of some operations starts.
pub open spec fn least_start(list: Seq<Op>) -> int
    decreases list.len(),
{
    if list.len() <= 1 {
        list[0].start
    } else {
        let before = least_start(list.drop_last());
        if list.last().start < before {
            list.last().start
        } else {
            before
        }
    }
}

/// Where the last of some operations ends.
pub open spec fn greatest_end(list: Seq<Op>) -> int
    decreases list.len(),
{
    if list.len() <= 1 {
        list[0].end()
    } else {
        let before = greatest_end(list.drop_last());
        if list.last().end() > before {
            list.last().end()
        } else {
            before
        }
    }
}

/// One operation in place of some: it covers the range from the first of them to the last.
pub open spec fn combined_op(list: Seq<Op>, replacement: Seq<u8>) -> Op {
    Op {
        id: list[0].id,
        start: least_start(list),
        len: greatest_end(list) - least_start(list),
        key: list[0].key,
        inserted: replacement,
    }
}

/// Whether the operation of lane `k` with the number `id` is picked.
pub open spec fn is_taken(picks: Seq<(Seq<char>, Seq<char>)>, k: Seq<char>, id: int) -> bool {
    exists|i: int|
        0 <= i < picks.len() && (#[trigger] picks[i]).0 == k && op_id::parsed_op_id(k, picks[i].1)
            == Some(ParsedOpId::Present(id as u64))
}

/// Whether the deletion of the file in lane `k` is picked.
pub open spec fn takes_delete(picks: Seq<(Seq<char>, Seq<char>)>, k: Seq<char>) -> bool {
    exists|i: int|
        0 <= i < picks.len() && (#[trigger] picks[i]).0 == k && op_id::parsed_op_id(k, picks[i].1)
            == Some(ParsedOpId::Delete)
}

/// The operations of lane `k` that are not picked.
pub open spec fn left_ops(picks: Seq<(Seq<char>, Seq<char>)>, k: Seq<char>, list: Seq<Op>) -> Seq<Op> {
    list.filter(|op: Op| !is_taken(picks, k, op.id))
}

/// What is left of the entry of lane `k` without what is picked.
pub open spec fn left_entry(picks: Seq<(Seq<char>, Seq<char>)>, k: Seq<char>, entry: Entry) -> Option<
    Entry,
> {
    match entry {
        Entry::Present(list) => if list.len() > 0 && left_ops(picks, k, list).len() == 0 {
            None
        } else {
            Some(Entry::Present(left_ops(picks, k, list)))
        },
        Entry::Deleted => if takes_delete(picks, k) {
            None
        } else {
            Some(Entry::Deleted)
        },
    }
}

/// What is left of a file without what is picked.
pub open spec fn left_file(file: File, picks: Seq<(Seq<char>, Seq<char>)>) -> File {
    File {
        base: file.base,
        lanes: Map::new(
            |k: Seq<char>|
                file.lanes.contains_key(k) && left_entry(picks, k, file.lanes[k]) is Some,
            |k: Seq<char>| left_entry(picks, k, file.lanes[k])->0,
        ),
    }
}

/// The first lane that is picked from and deletes the file, if there is one.
pub open spec fn first_deleting(file: File, picks: Seq<(Seq<char>, Seq<char>)>) -> Option<Seq<char>>
    decreases picks.len(),
{
    if picks.len() == 0 {
        None
    } else if file.lanes[picks[0].0] is Deleted {
        Some(picks[0].0)
    } else {
        first_deleting(file, picks.drop_first())
    }
}

/// The lane whose promotion the replacement counts as.
pub open spec fn combined_lane(file: File, picks: Seq<(Seq<char>, Seq<char>)>) -> Seq<char> {
    match first_deleting(file, picks) {
        Some(lane) => lane,
        None => picks[0].0,
    }
}

/// The outcome of making one replacement for picked operations part of the base: the operations
/// leave their lanes, and what is left of the lanes is carried along. Where the deletion of the
/// file is among them, the replacement is the whole file and what is left shows what it showed.
pub open spec fn file_combine_ops(
    file: File,
    path: Seq<char>,
    base: Option<Seq<u8>>,
    picks: Seq<(Seq<char>, Seq<char>)>,
    replacement: Seq<u8>,
) -> Result<(Option<Seq<u8>>, File), LaneErrorView> {
    if file.base != lane_file::base_state(base) {
        Err(LaneErrorView::BaseChanged(path))
    } else if picks.len() == 0 {
        Err(LaneErrorView::EmptyOperationSelection)
    } else {
        match first_unpicked(file, base, picks) {
            Some(name) => Err(LaneErrorView::OperationMissing(path, name)),
            None => match first_deleting(file, picks) {
                Some(lane) => promotion::finish(
                    PromotionView::Content,
                    left_file(file, picks),
                    path,
                    lane,
                    base,
                    Some(replacement),
                ),
                None => promotion::finish_ops(
                    left_file(file, picks),
                    path,
                    picks[0].0,
                    base,
                    seq![combined_op(picked_ops(file, base, picks), replacement)],
                    Set::empty(),
                ),
            },
        }
    }
}

/// What one replacement for picked operations promotes.
pub open spec fn combined_promotion(
    file: File,
    base: Option<Seq<u8>>,
    picks: Seq<(Seq<char>, Seq<char>)>,
    replacement: Seq<u8>,
) -> PromotionView {
    match first_deleting(file, picks) {
        Some(_) => PromotionView::Content,
        None => PromotionView::Ops {
            list: seq![combined_op(picked_ops(file, base, picks), replacement)],
            ids: Set::empty(),
        },
    }
}

/// A range is the tight one around some operations: it holds each of them, one of them starts where
/// it starts, and one of them ends where it ends.
pub open spec fn tight_range(list: Seq<Op>, start: int, end: int) -> bool {
    &&& forall|i: int|
        0 <= i < list.len() ==> start <= (#[trigger] list[i]).start && list[i].end() <= end
    &&& exists|i: int| 0 <= i < list.len() && (#[trigger] list[i]).start == start
    &&& exists|i: int| 0 <= i < list.len() && (#[trigger] list[i]).end() == end
}

/// The range of some operations is the tight one around them.
pub proof fn lemma_span(list: Seq<Op>)
    requires
        list.len() > 0,
        forall|i: int| 0 <= i < list.len() ==> ops::sound_op(#[trigger] list[i]),
    ensures
        0 <= least_start(list) <= greatest_end(list) <= u64::MAX,
        forall|i: int|
            0 <= i < list.len() ==> least_start(list) <= (#[trigger] list[i]).start && list[i].end()
                <= greatest_end(list),
        tight_range(list, least_start(list), greatest_end(list)),
    decreases list.len(),
{
    assert(ops::sound_op(list[0]));
    if list.len() > 1 {
        let rest = list.drop_last();
        assert forall|i: int| 0 <= i < rest.len() implies ops::sound_op(#[trigger] rest[i]) by {
            assert(rest[i] == list[i]);
        }
        lemma_span(rest);
        assert(ops::sound_op(list[list.len() - 1]));
        assert forall|i: int| 0 <= i < list.len() implies least_start(list) <= (
        #[trigger] list[i]).start && list[i].end() <= greatest_end(list) by {
            if i < rest.len() {
                assert(rest[i] == list[i]);
            }
        }
        assert(exists|i: int| 0 <= i < list.len() && (#[trigger] list[i]).start == least_start(list))
            by {
            if list.last().start < least_start(rest) {
                assert(list[list.len() - 1].start == least_start(list));
            } else {
                let i = choose|i: int|
                    0 <= i < rest.len() && (#[trigger] rest[i]).start == least_start(rest);
                assert(list[i].start == least_start(list));
            }
        }
        assert(exists|i: int| 0 <= i < list.len() && (#[trigger] list[i]).end() == greatest_end(list))
            by {
            if list.last().end() > greatest_end(rest) {
                assert(list[list.len() - 1].end() == greatest_end(list));
            } else {
                let i = choose|i: int|
                    0 <= i < rest.len() && (#[trigger] rest[i]).end() == greatest_end(rest);
                assert(list[i].end() == greatest_end(list));
            }
        }
    } else {
        assert(list[0].start == least_start(list));
        assert(list[0].end() == greatest_end(list));
    }
}

fn span(list: &Vec<FileOp>) -> (r: (u64, u64))
    requires
        list@.len() > 0,
        forall|i: int| 0 <= i < list@.len() ==> ops::sound_op((#[trigger] list@[i])@),
    ensures
        r.0 == least_start(ops::ops_view(list@)),
        r.1 == greatest_end(ops::ops_view(list@)),
        tight_range(ops::ops_view(list@), r.0 as int, r.1 as int),
{
    let ghost all = ops::ops_view(list@);
    proof {
        assert forall|i: int| 0 <= i < all.len() implies ops::sound_op(#[trigger] all[i]) by {
            assert(all[i] == list@[i]@);
        }
        lemma_span(all);
    }
    let mut start: u64 = list[0].base_start;
    assert(ops::sound_op(list@[0]@));
    let mut end: u64 = list[0].base_start + list[0].base_len;
    let mut i: usize = 1;
    assert(all.subrange(0, 1)[0] == list@[0]@);
    while i < list.len()
        invariant
            1 <= i <= list@.len(),
            all == ops::ops_view(list@),
            forall|k: int| 0 <= k < list@.len() ==> ops::sound_op((#[trigger] list@[k])@),
            start == least_start(all.subrange(0, i as int)),
            end == greatest_end(all.subrange(0, i as int)),
        decreases list@.len() - i,
    {
        proof {
            assert(all.subrange(0, i + 1).drop_last() =~= all.subrange(0, i as int));
            assert(all.subrange(0, i + 1).last() == list@[i as int]@);
            assert(ops::sound_op(list@[i as int]@));
        }
        if list[i].base_start < start {
            start = list[i].base_start;
        }
        let own_end: u64 = list[i].base_start + list[i].base_len;
        if own_end > end {
            end = own_end;
        }
        i = i + 1;
    }
    assert(all.subrange(0, i as int) =~= all);
    (start, end)
}

/// The numbers of the operations of a lane that are picked, and whether its deletion is.
fn taken_from(picks: &Vec<LaneOpSelection>, lane: &str) -> (r: (Vec<u64>, bool))
    ensures
        forall|id: u64| #[trigger]
            r.0@.contains(id) <==> is_taken(sorting::views(picks@), lane@, id as int),
        r.1 == takes_delete(sorting::views(picks@), lane@),
{
    let ghost all = sorting::views(picks@);
    let mut ids: Vec<u64> = Vec::new();
    let mut deletion: bool = false;
    let mut i: usize = 0;
    while i < picks.len()
        invariant
            i <= picks@.len(),
            all == sorting::views(picks@),
            forall|k: int, id: u64|
                0 <= k < i && (#[trigger] all[k]).0 == lane@ && op_id::parsed_op_id(lane@, all[k].1)
                    == Some(ParsedOpId::Present(id)) ==> #[trigger] ids@.contains(id),
            forall|id: u64| #[trigger] ids@.contains(id) ==> is_taken(all, lane@, id as int),
            deletion ==> takes_delete(all, lane@),
            !deletion ==> forall|k: int|
                0 <= k < i && (#[trigger] all[k]).0 == lane@ ==> op_id::parsed_op_id(lane@, all[k].1)
                    != Some(ParsedOpId::Delete),
        decreases picks@.len() - i,
    {
        assert(all[i as int] == picks@[i as int]@);
        if text_eq(picks[i].lane.as_str(), lane) {
            match parse_lane_op_id(lane, picks[i].op_id.as_str()) {
                Some(ParsedOpId::Present(id)) => {
                    let ghost before = ids@;
                    ids.push(id);
                    proof {
                        assert(is_taken(all, lane@, id as int));
                        assert(ids@ =~= before.push(id));
                        assert forall|x: u64| #[trigger] ids@.contains(x) <==> before.contains(x) || x
                            == id by {
                            if before.contains(x) {
                                let k = choose|k: int| 0 <= k < before.len() && before[k] == x;
                                assert(ids@[k] == x);
                            }
                            assert(ids@[before.len() as int] == id);
                        }
                    }
                },
                Some(ParsedOpId::Delete) => {
                    deletion = true;
                },
                None => {},
            }
        }
        i = i + 1;
    }
    proof {
        assert forall|id: u64| #[trigger] ids@.contains(id) <==> is_taken(all, lane@, id as int) by {
            if is_taken(all, lane@, id as int) {
                let k = choose|k: int|
                    0 <= k < all.len() && (#[trigger] all[k]).0 == lane@ && op_id::parsed_op_id(
                        lane@,
                        all[k].1,
                    ) == Some(ParsedOpId::Present(id as int as u64));
                assert(all[k].0 == lane@);
            }
        }
    }
    (ids, deletion)
}

impl LaneFile {
    fn pick(&self, base: Option<&[u8]>, pick: &LaneOpSelection) -> (r: Option<FileOp>)
        requires
            self.wf(),
        ensures
            picked_op(self@, lane_file::opt_slice(base), pick@) == (match r {
                Some(op) => Some(op@),
                None => None,
            }),
            r matches Some(op) ==> ops::sound_op(op@),
    {
        let lane = pick.lane.as_str();
        match self.lanes.get(lane) {
            None => None,
            Some(LaneEntry::Present(view)) => {
                assert(self@.lanes.contains_key(lane@));
                let ghost own = ops::ops_view(view.ops@);
                match parse_lane_op_id(lane, pick.op_id.as_str()) {
                    Some(ParsedOpId::Present(id)) => match find_op(&view.ops, id) {
                        Some(at) => {
                            proof {
                                lane_file::lemma_op_with_id(own, id as int, at as int);
                                assert(own[at as int] == view.ops@[at as int]@);
                                assert(ops::sound_op(own[at as int]));
                            }
                            Some(view.ops[at].copy())
                        },
                        None => None,
                    },
                    _ => None,
                }
            },
            Some(LaneEntry::Deleted) => {
                assert(self@.lanes.contains_key(lane@));
                match parse_lane_op_id(lane, pick.op_id.as_str()) {
                    Some(ParsedOpId::Delete) => {
                        let op = FileOp {
                            id: 0,
                            base_start: 0,
                            base_len: base_or_empty(base).len() as u64,
                            order_key: first_fractional_key(),
                            inserted: Vec::new(),
                        };
                        proof {
                            assert(op@.inserted =~= Seq::empty());
                            assert(op@ =~= whole_file(lane_file::opt_slice(base)));
                            order_key::lemma_next_key(Seq::empty());
                        }
                        Some(op)
                    },
                    _ => None,
                }
            },
        }
    }

    fn picked(&self, path: &str, base: Option<&[u8]>, picks: &Vec<LaneOpSelection>) -> (r: Result<
        Vec<FileOp>,
        LaneError,
    >)
        requires
            self.wf(),
        ensures
            match r {
                Ok(list) => {
                    &&& first_unpicked(self@, lane_file::opt_slice(base), sorting::views(picks@)) is None
                    &&& ops::ops_view(list@) == picked_ops(
                        self@,
                        lane_file::opt_slice(base),
                        sorting::views(picks@),
                    )
                    &&& forall|i: int| 0 <= i < list@.len() ==> ops::sound_op((#[trigger] list@[i])@)
                    &&& forall|i: int|
                        0 <= i < picks@.len() ==> self@.lanes.contains_key(
                            (#[trigger] picks@[i]).lane@,
                        )
                },
                Err(error) => match first_unpicked(
                    self@,
                    lane_file::opt_slice(base),
                    sorting::views(picks@),
                ) {
                    Some(name) => error@ == LaneErrorView::OperationMissing(path@, name),
                    None => false,
                },
            },
    {
        let ghost all = sorting::views(picks@);
        let ghost old_base = lane_file::opt_slice(base);
        let mut list: Vec<FileOp> = Vec::new();
        let mut i: usize = 0;
        assert(all.subrange(0, all.len() as int) =~= all);
        while i < picks.len()
            invariant
                i <= picks@.len(),
                self.wf(),
                all == sorting::views(picks@),
                old_base == lane_file::opt_slice(base),
                first_unpicked(self@, old_base, all) == first_unpicked(
                    self@,
                    old_base,
                    all.subrange(i as int, all.len() as int),
                ),
                list@.len() == i,
                forall|k: int|
                    0 <= k < i ==> picked_op(self@, old_base, all[k]) == Some((#[trigger] list@[k])@),
                forall|k: int| 0 <= k < i ==> ops::sound_op((#[trigger] list@[k])@),
                forall|k: int|
                    0 <= k < i ==> self@.lanes.contains_key((#[trigger] picks@[k]).lane@),
            decreases picks@.len() - i,
        {
            let ghost rest = all.subrange(i as int, all.len() as int);
            proof {
                assert(rest[0] == picks@[i as int]@);
                assert(rest.drop_first() =~= all.subrange(i + 1, all.len() as int));
            }
            match self.pick(base, &picks[i]) {
                None => {
                    return Err(operation_missing(path, picks[i].op_id.as_str()));
                },
                Some(op) => {
                    list.push(op);
                },
            }
            i = i + 1;
        }
        assert(ops::ops_view(list@) =~= picked_ops(self@, old_base, all));
        Ok(list)
    }

    fn deleting<'a>(&self, picks: &'a Vec<LaneOpSelection>) -> (r: Option<&'a str>)
        requires
            self.wf(),
            forall|i: int|
                0 <= i < picks@.len() ==> self@.lanes.contains_key((#[trigger] picks@[i]).lane@),
        ensures
            first_deleting(self@, sorting::views(picks@)) == (match r {
                Some(lane) => Some(lane@),
                None => None,
            }),
    {
        let ghost all = sorting::views(picks@);
        let mut i: usize = 0;
        assert(all.subrange(0, all.len() as int) =~= all);
        while i < picks.len()
            invariant
                i <= picks@.len(),
                self.wf(),
                forall|k: int|
                    0 <= k < picks@.len() ==> self@.lanes.contains_key((#[trigger] picks@[k]).lane@),
                all == sorting::views(picks@),
                first_deleting(self@, all) == first_deleting(
                    self@,
                    all.subrange(i as int, all.len() as int),
                ),
            decreases picks@.len() - i,
        {
            let ghost rest = all.subrange(i as int, all.len() as int);
            proof {
                assert(rest[0] == picks@[i as int]@);
                assert(rest.drop_first() =~= all.subrange(i + 1, all.len() as int));
                assert(self@.lanes.contains_key(picks@[i as int].lane@));
            }
            match self.lanes.get(picks[i].lane.as_str()) {
                Some(LaneEntry::Deleted) => {
                    return Some(picks[i].lane.as_str());
                },
                _ => {},
            }
            i = i + 1;
        }
        None
    }

    /// The lanes without what is picked from them.
    fn left(&self, base: Option<&[u8]>, picks: &Vec<LaneOpSelection>) -> (r: LaneFile)
        requires
            self.wf(),
            self@.base == lane_file::base_state(lane_file::opt_slice(base)),
        ensures
            r.wf(),
            r@ == left_file(self@, sorting::views(picks@)),
    {
        let ghost all = sorting::views(picks@);
        let ghost before = self@;
        let ghost keys = self.lanes.keys();
        let ghost next = |k: Seq<char>| left_entry(all, k, before.lanes[k]);
        let mut lanes: TextMap<LaneEntry> = TextMap::new();
        let mut i: usize = 0;
        proof {
            self.lanes.lemma_wf();
        }
        while i < self.lanes.len()
            invariant
                i <= self.lanes.pairs().len(),
                self.wf(),
                self@ == before,
                all == sorting::views(picks@),
                keys == self.lanes.keys(),
                next == (|k: Seq<char>| left_entry(all, k, before.lanes[k])),
                text_map::sorted_texts(keys),
                forall|k: int|
                    0 <= k < keys.len() ==> before.lanes.contains_key(#[trigger] keys[k])
                        && before.lanes[keys[k]] == self.lanes.pairs()[k].1@,
                lanes.wf(),
                forall|k: Seq<char>| #[trigger]
                    lane_file::entries(lanes@).contains_key(k) ==> lane_file::entry_ok(
                        lane_file::entries(lanes@)[k],
                    ) && next(k) == Some(lane_file::entries(lanes@)[k]) && before.lanes.contains_key(k),
                forall|m: int|
                    0 <= m < i ==> (lane_file::entries(lanes@).contains_key(#[trigger] keys[m])
                        <==> next(keys[m]) is Some),
                forall|m: int|
                    i <= m < keys.len() ==> !lane_file::entries(lanes@).contains_key(
                        #[trigger] keys[m],
                    ),
            decreases self.lanes.pairs().len() - i,
        {
            let lane = self.lanes.key_at(i);
            let ghost built = lane_file::entries(lanes@);
            let ghost name = keys[i as int];
            assert(before.lanes.contains_key(keys[i as int]));
            let (ids, deletion) = taken_from(picks, lane);
            let entry: Option<LaneEntry> = match self.lanes.value_at(i) {
                LaneEntry::Present(view) => {
                    let kept = ops_by_id(&view.ops, &ids, false);
                    proof {
                        let own = ops::ops_view(view.ops@);
                        let p = |op: Op| ids@.contains(op.id as u64) == false;
                        let q = |op: Op| !is_taken(all, lane@, op.id);
                        assert forall|k: int| 0 <= k < own.len() implies p(#[trigger] own[k]) == q(own[k]) by {
                            assert(own[k] == view.ops@[k]@);
                            assert(ids@.contains(view.ops@[k].id) <==> is_taken(
                                all,
                                lane@,
                                view.ops@[k].id as int,
                            ));
                        }
                        op_id::lemma_filter_same(own, p, q);
                        assert(lane_file::entry_ok(before.lanes[name]));
                        promotion::lemma_kept_ok(own, q, u64::MAX as int);
                    }
                    if view.ops.len() > 0 && kept.len() == 0 {
                        None
                    } else {
                        Some(LaneEntry::Present(LaneView { ops: kept }))
                    }
                },
                LaneEntry::Deleted => if deletion {
                    None
                } else {
                    Some(LaneEntry::Deleted)
                },
            };
            let ghost held = lane_file::opt_entry(entry);
            assert(next(name) == held);
            match entry {
                Some(entry) => {
                    let _ = lanes.insert(lane.to_owned(), entry);
                    assert(lane_file::entries(lanes@) =~= built.insert(name, held->0));
                },
                None => {},
            }
            proof {
                assert forall|m: int| 0 <= m < keys.len() && m != i implies keys[m] != name by {
                    text::lemma_text_lt_irreflexive(name);
                    if m < i {
                        assert(text::text_lt(keys[m], name));
                    } else {
                        assert(text::text_lt(name, keys[m]));
                    }
                }
            }
            i = i + 1;
        }
        let r = LaneFile { base: BaseState::for_content(base), lanes };
        proof {
            let after = left_file(before, all).lanes;
            assert forall|k: Seq<char>| #[trigger] after.contains_key(k) <==> r@.lanes.contains_key(k) by {
                if before.lanes.contains_key(k) {
                    assert(keys.contains(k));
                    let m = choose|m: int| 0 <= m < keys.len() && keys[m] == k;
                    assert(r@.lanes.contains_key(keys[m]) <==> next(keys[m]) is Some);
                }
            }
            assert forall|k: Seq<char>| #[trigger] after.contains_key(k) implies after[k] == r@.lanes[k] by {
                assert(r@.lanes.contains_key(k));
            }
            assert(r@.lanes =~= after);
        }
        r
    }

    /// Makes one replacement for operations of several lanes part of the base. The operations
    /// leave their lanes.
    pub fn combine_ops(
        &mut self,
        path: &str,
        base: Option<&[u8]>,
        picks: &Vec<LaneOpSelection>,
        replacement: Vec<u8>,
    ) -> (r: Result<Option<Vec<u8>>, LaneError>)
        requires
            old(self).wf(),
        ensures
            final(self).wf(),
            promotion::promote_result(r, final(self)@) == file_combine_ops(
                old(self)@,
                path@,
                lane_file::opt_slice(base),
                sorting::views(picks@),
                replacement@,
            ),
            r is Err ==> final(self)@ == old(self)@,
            r matches Ok(promoted) ==> promotion::bytes_are_kept(
                combined_promotion(
                    old(self)@,
                    lane_file::opt_slice(base),
                    sorting::views(picks@),
                    replacement@,
                ),
                left_file(old(self)@, sorting::views(picks@)),
                final(self)@,
                path@,
                combined_lane(old(self)@, sorting::views(picks@)),
                lane_file::opt_slice(base),
                lane_file::opt_vec(promoted),
            ),
    {
        match self.ensure_base(path, base) {
            Err(error) => {
                return Err(error);
            },
            Ok(()) => {},
        }
        if picks.len() == 0 {
            return Err(LaneError::EmptyOperationSelection);
        }
        let ghost all = sorting::views(picks@);
        let ghost bytes = replacement@;
        assert(all[0] == picks@[0]@);
        let found = match self.picked(path, base, picks) {
            Err(error) => {
                return Err(error);
            },
            Ok(found) => found,
        };
        let mut rest = self.left(base, picks);
        match self.deleting(picks) {
            Some(lane) => {
                return match rest.rebuild_after_base_promotion(
                    path,
                    lane,
                    base,
                    Some(replacement),
                    Promotion::Content,
                ) {
                    Err(error) => Err(error),
                    Ok(promoted) => {
                        *self = rest;
                        Ok(promoted)
                    },
                };
            },
            None => {},
        }
        let ghost list = ops::ops_view(found@);
        let (start, end) = span(&found);
        proof {
            assert forall|i: int| 0 <= i < list.len() implies ops::sound_op(#[trigger] list[i]) by {
                assert(list[i] == found@[i]@);
            }
            lemma_span(list);
            assert(list[0] == found@[0]@);
        }
        let op = FileOp {
            id: found[0].id,
            base_start: start,
            base_len: end - start,
            order_key: found[0].order_key.clone(),
            inserted: replacement,
        };
        assert(op@ =~= combined_op(list, bytes));
        let ghost made = op@;
        let mut combined: Vec<FileOp> = Vec::new();
        combined.push(op);
        assert(ops::ops_view(combined@) =~= seq![made]);
        let ids: Vec<u64> = Vec::new();
        assert(Set::new(|id: u64| ids@.contains(id)) =~= Set::<u64>::empty());
        match rest.promote_selected_present_ops(path, picks[0].lane.as_str(), base, &combined, &ids) {
            Err(error) => Err(error),
            Ok(promoted) => {
                *self = rest;
                Ok(promoted)
            },
        }
    }
}

/// The first lane that is picked from and does not exist, if there is one.
pub open spec fn first_missing_lane(repo: Repo, picks: Seq<(Seq<char>, Seq<char>)>) -> Option<Seq<char>>
    decreases picks.len(),
{
    if picks.len() == 0 {
        None
    } else if !repo.lanes.contains(picks[0].0) {
        Some(picks[0].0)
    } else {
        first_missing_lane(repo, picks.drop_first())
    }
}

/// The outcome of making one replacement for picked operations at a path part of the base.
pub open spec fn repo_combine_ops(
    repo: Repo,
    path: Seq<char>,
    base: Option<Seq<u8>>,
    picks: Seq<(Seq<char>, Seq<char>)>,
    replacement: Seq<u8>,
) -> Result<(Option<Seq<u8>>, Repo), LaneErrorView> {
    if picks.len() == 0 {
        Err(LaneErrorView::EmptyOperationSelection)
    } else {
        match first_missing_lane(repo, picks) {
            Some(lane) => Err(LaneErrorView::LaneMissing(lane)),
            None => if !repo.files.contains_key(path) {
                Err(LaneErrorView::OperationMissing(path, picks[0].1))
            } else {
                repo::repo_after(
                    repo,
                    path,
                    file_combine_ops(repo.files[path], path, base, picks, replacement),
                )
            },
        }
    }
}

/// After one replacement for picked operations, each lane whose other operations could not move
/// along shows at the path what it showed without the picked ones.
pub open spec fn lanes_keep_what_is_left(
    before: Repo,
    after: Repo,
    path: Seq<char>,
    base: Option<Seq<u8>>,
    picks: Seq<(Seq<char>, Seq<char>)>,
    replacement: Seq<u8>,
    promoted: Option<Seq<u8>>,
) -> bool {
    let left = left_file(before.files[path], picks);
    forall|k: Seq<char>|
        left.lanes.contains_key(k) && promotion::keeps_bytes(
            combined_promotion(before.files[path], base, picks, replacement),
            base,
            promoted,
            combined_lane(before.files[path], picks),
            k,
            left.lanes[k],
        ) ==> #[trigger] repo::repo_read(after, path, k, promoted) == Ok::<
            Option<Seq<u8>>,
            LaneErrorView,
        >(promotion::shown(path, base, left.lanes[k]))
}

impl LaneRepo {
    fn ensure_lanes(&self, picks: &Vec<LaneOpSelection>) -> (r: Result<(), LaneError>)
        requires
            self.wf(),
        ensures
            match r {
                Ok(()) => first_missing_lane(self@, sorting::views(picks@)) is None,
                Err(error) => match first_missing_lane(self@, sorting::views(picks@)) {
                    Some(lane) => error@ == LaneErrorView::LaneMissing(lane),
                    None => false,
                },
            },
    {
        let ghost all = sorting::views(picks@);
        let mut i: usize = 0;
        assert(all.subrange(0, all.len() as int) =~= all);
        while i < picks.len()
            invariant
                i <= picks@.len(),
                self.wf(),
                all == sorting::views(picks@),
                first_missing_lane(self@, all) == first_missing_lane(
                    self@,
                    all.subrange(i as int, all.len() as int),
                ),
            decreases picks@.len() - i,
        {
            let ghost rest = all.subrange(i as int, all.len() as int);
            proof {
                assert(rest[0] == picks@[i as int]@);
                assert(rest.drop_first() =~= all.subrange(i + 1, all.len() as int));
            }
            match self.ensure_lane(picks[i].lane.as_str()) {
                Err(error) => {
                    return Err(error);
                },
                Ok(()) => {},
            }
            i = i + 1;
        }
        Ok(())
    }

    /// Makes one replacement for operations of several lanes at a path part of the base, and
    /// returns the new base file. The operations leave their lanes.
    pub fn combine_ops_path(
        &mut self,
        path: &str,
        base: Option<&[u8]>,
        picks: &Vec<LaneOpSelection>,
        replacement: Vec<u8>,
    ) -> (r: Result<Option<Vec<u8>>, LaneError>)
        requires
            old(self).wf(),
        ensures
            final(self).wf(),
            repo::promoted_result(r, final(self)@) == repo_combine_ops(
                old(self)@,
                path@,
                lane_file::opt_slice(base),
                sorting::views(picks@),
                replacement@,
            ),
            r is Err ==> final(self)@ == old(self)@,
            r matches Ok(promoted) ==> lanes_keep_what_is_left(
                old(self)@,
                final(self)@,
                path@,
                lane_file::opt_slice(base),
                sorting::views(picks@),
                replacement@,
                lane_file::opt_vec(promoted),
            ),
            upkeep::repo_tidy(old(self)@) ==> upkeep::repo_tidy(final(self)@),
            r matches Ok(promoted) ==> upkeep::rests_after(
                old(self)@,
                final(self)@,
                path@,
                lane_file::opt_slice(base),
                lane_file::opt_vec(promoted),
            ),
    {
        if picks.len() == 0 {
            return Err(LaneError::EmptyOperationSelection);
        }
        match self.ensure_lanes(picks) {
            Err(error) => {
                return Err(error);
            },
            Ok(()) => {},
        }
        let ghost before = self@;
        let ghost all = sorting::views(picks@);
        let ghost bytes = replacement@;
        proof {
            self.lemma_wf();
            assert(all[0] == picks@[0]@);
        }
        let mut file = match self.take_file(path) {
            None => {
                proof {
                    assert(self@.files =~= before.files);
                    assert(self@ =~= before);
                }
                return Err(operation_missing(path, picks[0].op_id.as_str()));
            },
            Some(file) => file,
        };
        let ghost old_file = file@;
        let outcome = file.combine_ops(path, base, picks, replacement);
        let ghost new_file = file@;
        let r = self.put_promoted(path, file, outcome, Ghost(before));
        proof {
            if r is Ok {
                let promoted = lane_file::opt_vec(r->Ok_0);
                let old_base = lane_file::opt_slice(base);
                let left = left_file(old_file, all);
                let what = combined_promotion(old_file, old_base, all, bytes);
                assert forall|k: Seq<char>|
                    left.lanes.contains_key(k) && promotion::keeps_bytes(
                        what,
                        old_base,
                        promoted,
                        combined_lane(old_file, all),
                        k,
                        left.lanes[k],
                    ) implies #[trigger] repo::repo_read(self@, path@, k, promoted) == Ok::<
                    Option<Seq<u8>>,
                    LaneErrorView,
                >(promotion::shown(path@, old_base, left.lanes[k])) by {
                    assert(old_file.lanes.contains_key(k));
                    assert(before.lanes.contains(k));
                    repo::lemma_base_is_no_lane(before, k);
                    assert(lane_file::file_read(new_file, path@, k, promoted) == Ok::<
                        Option<Seq<u8>>,
                        LaneErrorView,
                    >(promotion::shown(path@, old_base, left.lanes[k])));
                }
                lane_file::lemma_slice_len(base);
                lane_file::lemma_vec_len(r->Ok_0);
                lemma_left_file(old_file, all);
                if first_deleting(old_file, all) is None {
                    lemma_picked_sound(old_file, old_base, all);
                    lemma_span(picked_ops(old_file, old_base, all));
                }
                upkeep::lemma_promotion_keeps(
                    what,
                    before,
                    left,
                    path@,
                    combined_lane(old_file, all),
                    old_base,
                    promoted,
                    new_file,
                );
            }
        }
        r
    }
}

/// What is left of the overlays of a path may be held, and is tidy where all of it is.
pub(crate) proof fn lemma_left_file(file: File, picks: Seq<(Seq<char>, Seq<char>)>)
    requires
        lane_file::file_ok(file),
        file.lanes.dom().finite(),
    ensures
        lane_file::file_ok(left_file(file, picks)),
        left_file(file, picks).lanes.dom().finite(),
        upkeep::file_tidy(file) ==> upkeep::file_tidy(left_file(file, picks)),
{
    let left = left_file(file, picks);
    assert(left.lanes.dom().subset_of(file.lanes.dom()));
    vstd::set_lib::lemma_len_subset(left.lanes.dom(), file.lanes.dom());
    assert forall|k: Seq<char>| #[trigger] left.lanes.contains_key(k) implies {
        &&& lane_file::entry_ok(left.lanes[k])
        &&& upkeep::file_tidy(file) ==> lane_file::entry_tidy(left.lanes[k])
    } by {
        assert(file.lanes.contains_key(k));
        assert(lane_file::entry_ok(file.lanes[k]));
        if let Entry::Present(list) = file.lanes[k] {
            let keep = |op: Op| !is_taken(picks, k, op.id);
            assert forall|i: int| 0 <= i < list.len() implies 0 <= (#[trigger] list[i]).start && 0
                <= list[i].len && list[i].end() <= u64::MAX by {
                assert(ops::sound_op(list[i]));
            }
            promotion::lemma_kept_ok(list, keep, u64::MAX as int);
            if upkeep::file_tidy(file) {
                assert(lane_file::entry_tidy(file.lanes[k]));
                rebase::lemma_filter_tidy(list, keep, u64::MAX as int);
                upkeep::lemma_filter_numbered(list, keep);
            }
        }
    }
}

/// The outcome of preparing one replacement for picked operations at a path.
pub open spec fn fs_combine(
    fs: Fs,
    raw: Seq<char>,
    picks: Seq<(Seq<char>, Seq<char>)>,
    replacement: Seq<u8>,
) -> Result<(Seq<(Seq<char>, Option<Seq<u8>>)>, Repo), LaneFsErrorView> {
    match vfs::repo_path(raw) {
        Err(error) => Err(error),
        Ok(path) => match repo_combine_ops(
            fs.repo,
            path,
            vfs::base_at(fs.files, path),
            picks,
            replacement,
        ) {
            Err(error) => Err(LaneFsErrorView::Lane(error)),
            Ok((bytes, after)) => Ok((seq![(path, bytes)], after)),
        },
    }
}

impl LaneFs {
    /// Prepares one replacement for operations of several lanes at a path. Nothing changes until
    /// [`Self::commit`].
    pub fn accept_replacement_ops_file(
        &self,
        path: &str,
        picks: &Vec<LaneOpSelection>,
        replacement: Vec<u8>,
    ) -> (r: Result<Promoted, LaneFsError>)
        requires
            self.wf(),
        ensures
            commit::promoted_view(r) == fs_combine(
                self@,
                path@,
                sorting::views(picks@),
                replacement@,
            ),
            r matches Ok(promoted) ==> promoted.repo.wf(),
            r matches Ok(promoted) ==> commit::rests_once_committed(
                self@,
                sorting::views(promoted.files@),
                promoted.repo@,
            ),
    {
        let path = match normalize_repo_path(path) {
            Err(error) => {
                return Err(error);
            },
            Ok(path) => path,
        };
        let mut draft = self.repo().copy();
        let base = self.base_file(path.as_str());
        match draft.combine_ops_path(path.as_str(), base, picks, replacement) {
            Err(error) => Err(LaneFsError::Lane(error)),
            Ok(bytes) => {
                let ghost shown = (path@, lane_file::opt_vec(bytes));
                let mut files: Vec<PromotedFile> = Vec::new();
                files.push(PromotedFile { path, bytes });
                proof {
                    let none = Seq::<(Seq<char>, Option<Seq<u8>>)>::empty();
                    assert(sorting::views(files@) =~= none.push(shown));
                    assert(none.push(shown) =~= seq![shown]);
                    commit::lemma_rests_once_committed(
                        self@,
                        none,
                        self@.repo,
                        draft@,
                        shown.0,
                        shown.1,
                    );
                }
                Ok(Promoted { repo: draft, files })
            },
        }
    }
}

/// One replacement for picked operations changes the base exactly in the range from where the
/// first of them starts to where the last of them ends, and all of it where the deletion of the
/// file is among them.
pub proof fn law_replacement_fills_the_range(
    file: File,
    path: Seq<char>,
    base: Option<Seq<u8>>,
    picks: Seq<(Seq<char>, Seq<char>)>,
    replacement: Seq<u8>,
)
    requires
        lane_file::base_bytes(base).len() <= usize::MAX,
        lane_file::file_ok(file),
        file_combine_ops(file, path, base, picks, replacement) is Ok,
    ensures
        ({
            let list = picked_ops(file, base, picks);
            let bytes = lane_file::base_bytes(base);
            let promoted = file_combine_ops(file, path, base, picks, replacement)->Ok_0.0;
            if first_deleting(file, picks) is Some {
                promoted == Some(replacement)
            } else {
                &&& 0 <= least_start(list) <= greatest_end(list) <= bytes.len()
                &&& promoted == Some(
                    bytes.subrange(0, least_start(list)) + replacement + bytes.subrange(
                        greatest_end(list),
                        bytes.len() as int,
                    ),
                )
            }
        }),
{
    if first_deleting(file, picks) is None {
        let list = picked_ops(file, base, picks);
        let bytes = lane_file::base_bytes(base);
        lemma_picked_sound(file, base, picks);
        lemma_span(list);
        let op = combined_op(list, replacement);
        assert(ops::in_order(seq![op]));
        ops::lemma_sort_ops_of_sorted(seq![op]);
        conflict::lemma_rendered_ok(path, bytes, seq![op]);
        assert(seq![op][0].end() <= bytes.len());
        assert(seq![op].drop_first() =~= Seq::empty());
        assert(ops::render_from(bytes, op.end(), Seq::empty()) == bytes.subrange(
            op.end(),
            bytes.len() as int,
        ));
        assert(ops::render_from(bytes, 0, seq![op]) == bytes.subrange(0, op.start) + replacement
            + bytes.subrange(op.end(), bytes.len() as int));
    }
}

/// Picked operations are operations that a lane may hold.
pub(crate) proof fn lemma_picked_sound(file: File, base: Option<Seq<u8>>, picks: Seq<(Seq<char>, Seq<char>)>)
    requires
        lane_file::base_bytes(base).len() <= usize::MAX,
        lane_file::file_ok(file),
        first_unpicked(file, base, picks) is None,
    ensures
        forall|i: int|
            0 <= i < picks.len() ==> ops::sound_op(#[trigger] picked_ops(file, base, picks)[i]),
    decreases picks.len(),
{
    if picks.len() > 0 {
        let rest = picks.drop_first();
        lemma_picked_sound(file, base, rest);
        let first = picked_op(file, base, picks[0])->0;
        assert(ops::sound_op(first)) by {
            match file.lanes[picks[0].0] {
                Entry::Present(list) => {
                    let id = op_id::parsed_op_id(picks[0].0, picks[0].1)->0->Present_0;
                    lane_file::lemma_first_with_id(list, id as int);
                },
                Entry::Deleted => {
                    order_key::lemma_next_key(Seq::empty());
                },
            }
        }
        assert forall|i: int| 0 <= i < picks.len() implies ops::sound_op(
            #[trigger] picked_ops(file, base, picks)[i],
        ) by {
            if i > 0 {
                assert(rest[i - 1] == picks[i]);
                assert(ops::sound_op(picked_ops(file, base, rest)[i - 1]));
            }
        }
    }
}

/// A lane of which nothing is left without what is picked from it shows the new base afterwards.
pub proof fn law_emptied_lane_follows(
    file: File,
    path: Seq<char>,
    base: Option<Seq<u8>>,
    picks: Seq<(Seq<char>, Seq<char>)>,
    replacement: Seq<u8>,
    k: Seq<char>,
    any: Seq<char>,
)
    requires
        file_combine_ops(file, path, base, picks, replacement) is Ok,
        file.lanes.contains_key(k),
        left_entry(picks, k, file.lanes[k]) is None,
    ensures
        ({
            let (promoted, after) = file_combine_ops(file, path, base, picks, replacement)->Ok_0;
            lane_file::file_read(after, any, k, promoted) == Ok::<
                Option<Seq<u8>>,
                LaneErrorView,
            >(promoted)
        }),
{
}

} // verus!
