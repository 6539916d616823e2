//! The overlays that lanes hold for one path.
use vstd::prelude::*;
use vstd::slice::slice_to_vec;

use crate::bytes::bytes_eq;
use crate::conflict;
use crate::conflict::{normalize_ops_checked, op_conflicts_with_any, op_kind};
use crate::diff;
use crate::diff::diff_to_ops;
use crate::fingerprint;
use crate::fingerprint::sha256_digest;
use crate::op_id;
use crate::op_id::{
    base_slice_for_op, delete_op_id_for, find_op, op_id_for, operation_missing, order_key,
    parse_lane_op_id, ParsedOpId,
};
use crate::ops;
use crate::ops::{copy_ops, render_ops, FileOp, Op};
use crate::rebase;
use crate::text;
use crate::text::text_eq;
use crate::text_map;
use crate::text_map::TextMap;
use crate::types;
use crate::types::{
    BaseFingerprint, BaseStorageSnapshot, DecodeError, DecodeErrorView, FileOpStorageSnapshot,
    LaneEntryStorageSnapshot, LaneError, LaneErrorView, LaneFileStorageSnapshot, LaneOpDetail,
    LaneOpKind, LaneOpSummary, OpDetailView, OpSummaryView,
};

verus! {

/// The base file that overlays rest on.
#[derive(Debug, PartialEq, Eq)]
pub enum BaseState {
    Present(BaseFingerprint),
    Missing,
}

impl View for BaseState {
    type V = Option<Seq<u8>>;

    open spec fn view(&self) -> Option<Seq<u8>> {
        match self {
            BaseState::Present(fingerprint) => Some(fingerprint@),
            BaseState::Missing => None,
        }
    }
}

impl View for BaseStorageSnapshot {
    type V = Option<Seq<u8>>;

    open spec fn view(&self) -> Option<Seq<u8>> {
        match self {
            BaseStorageSnapshot::Present(fingerprint) => Some(fingerprint@),
            BaseStorageSnapshot::Missing => None,
        }
    }
}

/// The operations of a lane on a file that it keeps.
#[derive(Debug, PartialEq, Eq)]
pub struct LaneView {
    pub ops: Vec<FileOp>,
}

/// What a lane does to a file.
#[derive(Debug, PartialEq, Eq)]
pub enum LaneEntry {
    Present(LaneView),
    Deleted,
}

/// A [`LaneEntry`] as a mathematical value.
pub enum Entry {
    Present(Seq<Op>),
    Deleted,
}

impl View for LaneEntry {
    type V = Entry;

    open spec fn view(&self) -> Entry {
        match self {
            LaneEntry::Present(view) => Entry::Present(ops::ops_view(view.ops@)),
            LaneEntry::Deleted => Entry::Deleted,
        }
    }
}

impl View for LaneEntryStorageSnapshot {
    type V = Entry;

    open spec fn view(&self) -> Entry {
        match self {
            LaneEntryStorageSnapshot::Present(list) => Entry::Present(ops::stored_ops_view(list@)),
            LaneEntryStorageSnapshot::Deleted => Entry::Deleted,
        }
    }
}

/// The overlays of one path, by lane.
#[derive(Debug, PartialEq, Eq)]
pub struct LaneFile {
    pub base: BaseState,
    pub lanes: TextMap<LaneEntry>,
}

/// A [`LaneFile`] as a mathematical value.
#[verifier::ext_equal]
pub struct File {
    pub base: Option<Seq<u8>>,
    pub lanes: Map<Seq<char>, Entry>,
}

/// The entries of lanes as mathematical values.
pub open spec fn entries(lanes: Map<Seq<char>, LaneEntry>) -> Map<Seq<char>, Entry> {
    lanes.map_values(|entry: LaneEntry| entry@)
}

/// Stored entries as mathematical values.
pub open spec fn stored_entries(lanes: Map<Seq<char>, LaneEntryStorageSnapshot>) -> Map<
    Seq<char>,
    Entry,
> {
    lanes.map_values(|entry: LaneEntryStorageSnapshot| entry@)
}

impl View for LaneFile {
    type V = File;

    open spec fn view(&self) -> File {
        File { base: self.base@, lanes: entries(self.lanes@) }
    }
}

impl View for LaneFileStorageSnapshot {
    type V = File;

    open spec fn view(&self) -> File {
        File { base: self.base@, lanes: stored_entries(self.lanes@) }
    }
}

/// Operations that a lane may hold: sound, apart, and each with an effect.
pub open spec fn ops_ok(list: Seq<Op>) -> bool {
    &&& forall|i: int| 0 <= i < list.len() ==> ops::sound_op(#[trigger] list[i]) && !list[i].is_noop()
    &&& conflict::all_apart(list)
}

/// An entry that a lane may hold.
pub open spec fn entry_ok(entry: Entry) -> bool {
    match entry {
        Entry::Present(list) => ops_ok(list),
        Entry::Deleted => true,
    }
}

/// Overlays that lanes may hold.
pub open spec fn file_ok(file: File) -> bool {
    forall|k: Seq<char>| #[trigger] file.lanes.contains_key(k) ==> entry_ok(file.lanes[k])
}

/// The bytes of an optional byte string.
pub open spec fn opt_slice(base: Option<&[u8]>) -> Option<Seq<u8>> {
    match base {
        Some(bytes) => Some(bytes@),
        None => None,
    }
}

/// The bytes of an optional owned byte string.
pub open spec fn opt_vec(bytes: Option<Vec<u8>>) -> Option<Seq<u8>> {
    match bytes {
        Some(bytes) => Some(bytes@),
        None => None,
    }
}

/// The view of a result that carries optional bytes.
pub open spec fn read_result(r: Result<Option<Vec<u8>>, LaneError>) -> Result<
    Option<Seq<u8>>,
    LaneErrorView,
> {
    match r {
        Ok(bytes) => Ok(opt_vec(bytes)),
        Err(error) => Err(error@),
    }
}

/// The bytes of a base file, where a missing one counts as empty.
pub open spec fn base_bytes(base: Option<Seq<u8>>) -> Seq<u8> {
    match base {
        Some(bytes) => bytes,
        None => Seq::empty(),
    }
}

/// The length of a slice fits its type.
pub proof fn lemma_slice_len(base: Option<&[u8]>)
    ensures
        base_bytes(opt_slice(base)).len() <= usize::MAX,
{
    if let Some(bytes) = base {
        let len = bytes.len();
        assert(bytes@.len() == len);
    }
}

/// The length of a vector fits its type.
pub proof fn lemma_vec_len(base: Option<Vec<u8>>)
    ensures
        base_bytes(opt_vec(base)).len() <= usize::MAX,
{
    if let Some(bytes) = base {
        let len = bytes.len();
        assert(bytes@.len() == len);
    }
}

/// The state of a base file: its digest, or that it is missing.
pub open spec fn base_state(base: Option<Seq<u8>>) -> Option<Seq<u8>> {
    match base {
        Some(bytes) => Some(fingerprint::sha256(bytes)),
        None => None,
    }
}

/// What a lane with an entry sees in place of the base.
pub open spec fn entry_bytes(path: Seq<char>, base: Option<Seq<u8>>, entry: Entry) -> Result<
    Option<Seq<u8>>,
    LaneErrorView,
> {
    match entry {
        Entry::Deleted => Ok(None),
        Entry::Present(list) => match ops::rendered(path, base_bytes(base), list) {
            Ok(bytes) => Ok(Some(bytes)),
            Err(error) => Err(error),
        },
    }
}

/// What a lane sees of a file.
pub open spec fn file_read(file: File, path: Seq<char>, lane: Seq<char>, base: Option<Seq<u8>>) -> Result<
    Option<Seq<u8>>,
    LaneErrorView,
> {
    if file.base != base_state(base) {
        Err(LaneErrorView::BaseChanged(path))
    } else if file.lanes.contains_key(lane) {
        entry_bytes(path, base, file.lanes[lane])
    } else {
        Ok(base)
    }
}

/// The entry that makes a lane see `content` in place of the base: none where they agree.
pub open spec fn entry_for(base: Option<Seq<u8>>, content: Option<Seq<u8>>) -> Option<Entry> {
    if content == base {
        None
    } else {
        match content {
            Some(bytes) => Some(
                Entry::Present(diff::diff_ops(base_bytes(base), bytes, base is None)),
            ),
            None => Some(Entry::Deleted),
        }
    }
}

/// What a lane sees with an optional entry.
pub open spec fn seen(path: Seq<char>, base: Option<Seq<u8>>, entry: Option<Entry>) -> Result<
    Option<Seq<u8>>,
    LaneErrorView,
> {
    match entry {
        Some(entry) => entry_bytes(path, base, entry),
        None => Ok(base),
    }
}

/// With this entry a lane sees `content`, whatever the path, and the entry may be held.
pub open spec fn entry_shows(base: Option<Seq<u8>>, content: Option<Seq<u8>>, entry: Option<Entry>) -> bool {
    &&& forall|path: Seq<char>| #[trigger] seen(path, base, entry) == Ok::<Option<Seq<u8>>, LaneErrorView>(content)
    &&& entry matches Some(e) ==> entry_ok(e) && entry_tidy(e)
}

/// Different operations have different numbers, and each number fits its type.
pub open spec fn numbered(list: Seq<Op>) -> bool {
    &&& forall|i: int| 0 <= i < list.len() ==> 0 <= (#[trigger] list[i]).id <= u64::MAX
    &&& forall|i: int, j: int|
        0 <= i < j < list.len() ==> (#[trigger] list[i]).id != (#[trigger] list[j]).id
}

/// The operations of an entry are as lanes write them.
pub open spec fn entry_tidy(entry: Entry) -> bool {
    match entry {
        Entry::Present(list) => rebase::tidy(list) && numbered(list),
        Entry::Deleted => true,
    }
}

/// The entry that is made for `content` shows it, and its operations list the differences and
/// touch no more than what changed.
pub open spec fn made_faithfully(base: Option<Seq<u8>>, content: Option<Seq<u8>>) -> bool {
    &&& entry_shows(base, content, entry_for(base, content))
    &&& content is Some && content != base ==> diff::diff_is_faithful(
        base_bytes(base),
        content->0,
        base is None,
    ) && diff::touches_what_changed(
        base_bytes(base),
        content->0,
        base is None,
        entry_for(base, content)->0->Present_0,
    )
}

/// Whether two optional byte strings are equal.
fn same_content(content: &Option<Vec<u8>>, base: Option<&[u8]>) -> (r: bool)
    ensures
        r == (opt_vec(*content) == opt_slice(base)),
{
    match (content, base) {
        (Some(a), Some(b)) => bytes_eq(a.as_slice(), b),
        (None, None) => true,
        _ => false,
    }
}

/// The bytes of a base, where a missing one counts as empty.
pub fn base_or_empty<'a>(base: Option<&'a [u8]>) -> (r: &'a [u8])
    ensures
        r@ == base_bytes(opt_slice(base)),
{
    match base {
        Some(bytes) => bytes,
        None => {
            let none: &'a [u8] = &[];
            assert(none@ =~= Seq::<u8>::empty());
            none
        },
    }
}

/// A copy of an optional byte string.
pub fn owned_bytes(base: Option<&[u8]>) -> (r: Option<Vec<u8>>)
    ensures
        opt_vec(r) == opt_slice(base),
{
    match base {
        Some(bytes) => Some(slice_to_vec(bytes)),
        None => None,
    }
}

/// The entry that makes a lane see `content`.
pub fn entry_for_content(base: Option<&[u8]>, content: Option<Vec<u8>>) -> (r: Option<LaneEntry>)
    ensures
        opt_entry(r) == entry_for(opt_slice(base), opt_vec(content)),
        entry_shows(opt_slice(base), opt_vec(content), opt_entry(r)),
        made_faithfully(opt_slice(base), opt_vec(content)),
{
    if same_content(&content, base) {
        return None;
    }
    match content {
        Some(bytes) => {
            let old = base_or_empty(base);
            let list = diff_to_ops(old, bytes.as_slice(), base.is_none());
            proof {
                let all = ops::ops_view(list@);
                assert(all == diff::diff_ops(old@, bytes@, opt_slice(base) is None));
                ops::lemma_sort_ops_of_sorted(all);
                conflict::lemma_fault_free(all, 0, old@.len() as int);
                assert forall|i: int| 0 <= i < all.len() implies 0 <= (#[trigger] all[i]).id
                    <= u64::MAX by {
                    assert(all[i] == list@[i]@);
                }
                assert forall|path: Seq<char>| #[trigger] seen(
                    path,
                    opt_slice(base),
                    Some(Entry::Present(all)),
                ) == Ok::<Option<Seq<u8>>, LaneErrorView>(Some(bytes@)) by {}
            }
            Some(LaneEntry::Present(LaneView { ops: list }))
        },
        None => Some(LaneEntry::Deleted),
    }
}

/// The view of an optional entry.
pub open spec fn opt_entry(entry: Option<LaneEntry>) -> Option<Entry> {
    match entry {
        Some(entry) => Some(entry@),
        None => None,
    }
}

impl BaseState {
    /// The state of a base file.
    pub fn for_content(content: Option<&[u8]>) -> (r: Self)
        ensures
            r@ == base_state(opt_slice(content)),
    {
        match content {
            Some(bytes) => BaseState::Present(sha256_digest(bytes)),
            None => BaseState::Missing,
        }
    }

    /// Whether two states agree.
    pub fn same(&self, other: &BaseState) -> (r: bool)
        ensures
            r == (self@ == other@),
    {
        match (self, other) {
            (BaseState::Present(a), BaseState::Present(b)) => bytes_eq(a.as_slice(), b.as_slice()),
            (BaseState::Missing, BaseState::Missing) => true,
            _ => false,
        }
    }
}

impl LaneEntry {
    /// A copy of the entry.
    pub fn copy(&self) -> (r: LaneEntry)
        ensures
            r@ == self@,
    {
        match self {
            LaneEntry::Present(view) => LaneEntry::Present(LaneView { ops: copy_ops(&view.ops) }),
            LaneEntry::Deleted => LaneEntry::Deleted,
        }
    }

    /// The form in which the entry is stored.
    pub fn storage_snapshot(&self) -> (r: LaneEntryStorageSnapshot)
        ensures
            r@ == self@,
    {
        match self {
            LaneEntry::Deleted => LaneEntryStorageSnapshot::Deleted,
            LaneEntry::Present(view) => {
                let mut list: Vec<FileOpStorageSnapshot> = Vec::new();
                let mut i: usize = 0;
                while i < view.ops.len()
                    invariant
                        i <= view.ops@.len(),
                        list@.len() == i,
                        forall|k: int| 0 <= k < i ==> (#[trigger] list@[k])@ == view.ops@[k]@,
                    decreases view.ops@.len() - i,
                {
                    list.push(view.ops[i].storage_snapshot());
                    i = i + 1;
                }
                assert(ops::stored_ops_view(list@) =~= ops::ops_view(view.ops@));
                LaneEntryStorageSnapshot::Present(list)
            },
        }
    }
}

/// The entry that a stored one stands for, or why it is refused: operations without effect are
/// dropped.
pub open spec fn loaded_entry(stored: Entry) -> Result<Entry, DecodeErrorView> {
    match stored {
        Entry::Deleted => Ok(Entry::Deleted),
        Entry::Present(list) => match conflict::stored_fault(list) {
            Some(error) => Err(error),
            None => Ok(Entry::Present(conflict::effective_ops(list))),
        },
    }
}

impl LaneEntryStorageSnapshot {
    /// The entry that was stored.
    pub fn into_lane_entry(&self) -> (r: Result<LaneEntry, DecodeError>)
        ensures
            match r {
                Ok(entry) => loaded_entry(self@) == Ok::<Entry, DecodeErrorView>(entry@)
                    && entry_ok(entry@),
                Err(error) => loaded_entry(self@) == Err::<Entry, DecodeErrorView>(error@),
            },
    {
        match self {
            LaneEntryStorageSnapshot::Deleted => Ok(LaneEntry::Deleted),
            LaneEntryStorageSnapshot::Present(stored) => {
                let mut list: Vec<FileOp> = Vec::new();
                let mut i: usize = 0;
                while i < stored.len()
                    invariant
                        i <= stored@.len(),
                        list@.len() == i,
                        forall|k: int| 0 <= k < i ==> (#[trigger] list@[k])@ == stored@[k]@,
                    decreases stored@.len() - i,
                {
                    let op = &stored[i];
                    list.push(
                        FileOp {
                            id: op.id,
                            base_start: op.base_start,
                            base_len: op.base_len,
                            order_key: op.order_key.clone(),
                            inserted: slice_to_vec(op.inserted.as_slice()),
                        },
                    );
                    i = i + 1;
                }
                let ghost all = ops::ops_view(list@);
                assert(all =~= ops::stored_ops_view(stored@));
                proof {
                    assert forall|k: int| 0 <= k < all.len() implies 0 <= (#[trigger] all[k]).start && 0
                        <= all[k].len by {
                        assert(all[k] == list@[k]@);
                    }
                    conflict::lemma_stored_ok(all);
                }
                match normalize_ops_checked(list) {
                    Err(error) => Err(error),
                    Ok(kept) => {
                        proof {
                            lemma_effective_ok(all);
                        }
                        Ok(LaneEntry::Present(LaneView { ops: kept }))
                    },
                }
            },
        }
    }
}

/// Dropping operations without effect leaves operations that a lane may hold.
proof fn lemma_effective_ok(list: Seq<Op>)
    requires
        forall|i: int| 0 <= i < list.len() ==> ops::sound_op(#[trigger] list[i]),
        conflict::all_apart(list),
    ensures
        ops_ok(conflict::effective_ops(list)),
    decreases list.len(),
{
    reveal(Seq::filter);
    let keep = |op: Op| !op.is_noop();
    let kept = conflict::effective_ops(list);
    rebase::lemma_filter_elements(list, keep);
    assert forall|i: int| 0 <= i < kept.len() implies ops::sound_op(#[trigger] kept[i])
        && !kept[i].is_noop() by {
        assert(list.contains(kept[i]));
        let k = choose|k: int| 0 <= k < list.len() && list[k] == kept[i];
        assert(ops::sound_op(list[k]));
    }
    if list.len() > 0 {
        let rest = list.drop_last();
        assert forall|i: int| 0 <= i < rest.len() implies ops::sound_op(#[trigger] rest[i]) by {
            assert(rest[i] == list[i]);
        }
        assert forall|i: int, j: int| 0 <= i < j < rest.len() implies conflict::apart(
            #[trigger] rest[i],
            #[trigger] rest[j],
        ) by {
            assert(conflict::apart(list[i], list[j]));
        }
        lemma_effective_ok(rest);
        rebase::lemma_filter_elements(rest, keep);
        let before = conflict::effective_ops(rest);
        assert forall|i: int, j: int| 0 <= i < j < kept.len() implies conflict::apart(
            #[trigger] kept[i],
            #[trigger] kept[j],
        ) by {
            if j < before.len() {
                assert(conflict::apart(before[i], before[j]));
            } else {
                assert(rest.contains(before[i]));
                let k = choose|k: int| 0 <= k < rest.len() && rest[k] == before[i];
                assert(conflict::apart(list[k], list[list.len() - 1]));
            }
        }
    }
}

/// Operations that a lane holds are stored and loaded unchanged.
pub proof fn lemma_entry_round_trip(entry: Entry)
    requires
        entry_ok(entry),
    ensures
        loaded_entry(entry) == Ok::<Entry, DecodeErrorView>(entry),
{
    if let Entry::Present(list) = entry {
        conflict::lemma_stored_ok(list);
        lemma_filter_all(list, |op: Op| !op.is_noop());
    }
}

/// A filter that everything passes changes nothing.
pub proof fn lemma_filter_all(list: Seq<Op>, keep: spec_fn(Op) -> bool)
    requires
        forall|i: int| 0 <= i < list.len() ==> keep(#[trigger] list[i]),
    ensures
        list.filter(keep) == list,
    decreases list.len(),
{
    reveal(Seq::filter);
    if list.len() > 0 {
        let rest = list.drop_last();
        assert(forall|i: int| 0 <= i < rest.len() ==> rest[i] == list[i]);
        lemma_filter_all(rest, keep);
        assert(keep(list[list.len() - 1]));
        assert(list =~= rest.push(list.last()));
    } else {
        assert(list.filter(keep) =~= list);
    }
}

/// Whether an entry conflicts with an operation of another lane.
pub open spec fn entry_conflicts(entry: Entry, op: Op, base_missing: bool) -> bool {
    match entry {
        Entry::Deleted => !base_missing,
        Entry::Present(list) => conflict::conflicts_with_any(op, list, base_missing),
    }
}

/// Whether an entry conflicts with the deletion of the file in another lane.
pub open spec fn entry_blocks_delete(entry: Entry, base: Option<Seq<u8>>) -> bool {
    match entry {
        Entry::Deleted => false,
        Entry::Present(list) => base is Some && list.len() > 0,
    }
}

/// The other lanes that conflict with an operation.
pub open spec fn conflict_set(file: File, lane: Seq<char>, op: Op, base_missing: bool) -> Set<Seq<char>> {
    Set::new(
        |k: Seq<char>|
            k != lane && file.lanes.contains_key(k) && entry_conflicts(
                file.lanes[k],
                op,
                base_missing,
            ),
    )
}

/// The other lanes that conflict with an operation, in order.
pub open spec fn conflict_lanes(file: File, lane: Seq<char>, op: Op, base_missing: bool) -> Seq<Seq<char>> {
    text_map::listing(conflict_set(file, lane, op, base_missing))
}

/// The other lanes that conflict with the deletion of the file.
pub open spec fn delete_conflict_set(file: File, lane: Seq<char>, base: Option<Seq<u8>>) -> Set<Seq<char>> {
    Set::new(
        |k: Seq<char>|
            k != lane && file.lanes.contains_key(k) && entry_blocks_delete(file.lanes[k], base),
    )
}

/// The other lanes that conflict with the deletion of the file, in order.
pub open spec fn delete_conflict_lanes(file: File, lane: Seq<char>, base: Option<Seq<u8>>) -> Seq<Seq<char>> {
    text_map::listing(delete_conflict_set(file, lane, base))
}

/// An operation as it is listed.
pub open spec fn op_summary(
    file: File,
    path: Seq<char>,
    lane: Seq<char>,
    op: Op,
    base: Option<Seq<u8>>,
) -> OpSummaryView {
    OpSummaryView {
        op_id: op_id::op_name(lane, op.id),
        lane,
        path,
        kind: conflict::kind_of(op, base is None),
        base_start: op.start,
        base_end: op.end(),
        inserted_len: op.inserted.len() as int,
        order_key: op_id::listing_key(lane, op),
        conflicts_with: conflict_lanes(file, lane, op, base is None),
    }
}

/// The deletion of a file as it is listed.
pub open spec fn delete_summary(
    file: File,
    path: Seq<char>,
    lane: Seq<char>,
    base: Option<Seq<u8>>,
) -> OpSummaryView {
    OpSummaryView {
        op_id: op_id::delete_name(lane),
        lane,
        path,
        kind: LaneOpKind::Delete,
        base_start: 0,
        base_end: base_bytes(base).len() as int,
        inserted_len: 0,
        order_key: "00000000000000000000:"@ + lane + ":delete"@,
        conflicts_with: delete_conflict_lanes(file, lane, base),
    }
}

/// The operations of an entry as they are listed.
pub open spec fn entry_summaries(
    file: File,
    path: Seq<char>,
    lane: Seq<char>,
    entry: Entry,
    base: Option<Seq<u8>>,
) -> Seq<OpSummaryView> {
    match entry {
        Entry::Present(list) => list.map_values(|op: Op| op_summary(file, path, lane, op, base)),
        Entry::Deleted => seq![delete_summary(file, path, lane, base)],
    }
}

/// The operations of a lane on a file, or the error where the base has changed.
pub open spec fn file_change_ops(
    file: File,
    path: Seq<char>,
    lane: Seq<char>,
    base: Option<Seq<u8>>,
) -> Result<Seq<OpSummaryView>, LaneErrorView> {
    if file.base != base_state(base) {
        Err(LaneErrorView::BaseChanged(path))
    } else if file.lanes.contains_key(lane) {
        Ok(entry_summaries(file, path, lane, file.lanes[lane], base))
    } else {
        Ok(Seq::empty())
    }
}

/// The first operation with a number.
pub open spec fn op_with_id(list: Seq<Op>, id: int) -> Op {
    list[choose|at: int| op_id::is_first_with_id(list, id, at)]
}

/// One operation of a lane with its bytes, or why there is none.
pub open spec fn file_op_detail(
    file: File,
    path: Seq<char>,
    lane: Seq<char>,
    base: Option<Seq<u8>>,
    name: Seq<char>,
) -> Result<OpDetailView, LaneErrorView> {
    let missing = Err::<OpDetailView, LaneErrorView>(LaneErrorView::OperationMissing(path, name));
    if file.base != base_state(base) {
        Err(LaneErrorView::BaseChanged(path))
    } else if !file.lanes.contains_key(lane) {
        missing
    } else {
        match file.lanes[lane] {
            Entry::Present(list) => match op_id::parsed_op_id(lane, name) {
                Some(ParsedOpId::Present(id)) => if op_id::has_id(list, id as int) {
                    let op = op_with_id(list, id as int);
                    match op_id::op_base_bytes(path, base_bytes(base), op) {
                        Err(error) => Err(error),
                        Ok(bytes) => Ok(
                            OpDetailView {
                                summary: op_summary(file, path, lane, op, base),
                                base: bytes,
                                inserted: op.inserted,
                            },
                        ),
                    }
                } else {
                    missing
                },
                _ => missing,
            },
            Entry::Deleted => if op_id::parsed_op_id(lane, name) == Some(ParsedOpId::Delete) {
                Ok(
                    OpDetailView {
                        summary: delete_summary(file, path, lane, base),
                        base: base_bytes(base),
                        inserted: Seq::empty(),
                    },
                )
            } else {
                missing
            },
        }
    }
}

/// There is one first operation with a number.
pub proof fn lemma_op_with_id(list: Seq<Op>, id: int, at: int)
    requires
        op_id::is_first_with_id(list, id, at),
    ensures
        op_with_id(list, id) == list[at],
        op_id::has_id(list, id),
{
    let other = choose|other: int| op_id::is_first_with_id(list, id, other);
    assert(op_id::is_first_with_id(list, id, other));
    assert(other == at) by {
        if other < at {
            assert(list[other].id != id);
        }
        if at < other {
            assert(list[at].id != id);
        }
    }
}

/// Where a number occurs, one of the operations is the first with it.
pub proof fn lemma_first_with_id(list: Seq<Op>, id: int)
    requires
        op_id::has_id(list, id),
    ensures
        list.contains(op_with_id(list, id)),
    decreases list.len(),
{
    let at = choose|i: int| 0 <= i < list.len() && (#[trigger] list[i]).id == id;
    lemma_first_before(list, id, at);
    let found = choose|i: int| op_id::is_first_with_id(list, id, i);
    assert(list[found] == op_with_id(list, id));
}

proof fn lemma_first_before(list: Seq<Op>, id: int, at: int)
    requires
        0 <= at < list.len(),
        list[at].id == id,
    ensures
        exists|i: int| op_id::is_first_with_id(list, id, i),
    decreases at,
{
    if forall|i: int| 0 <= i < at ==> (#[trigger] list[i]).id != id {
        assert(op_id::is_first_with_id(list, id, at));
    } else {
        let i = choose|i: int| 0 <= i < at && (#[trigger] list[i]).id == id;
        lemma_first_before(list, id, i);
    }
}

impl LaneFile {
    /// The invariant: keys in order, and entries that lanes may hold.
    pub open spec fn wf(&self) -> bool {
        self.lanes.wf() && file_ok(self@)
    }

    /// No overlays on a base.
    pub fn new(base: Option<&[u8]>) -> (r: Self)
        ensures
            r.wf(),
            r@ == (File { base: base_state(opt_slice(base)), lanes: Map::empty() }),
    {
        let r = LaneFile { base: BaseState::for_content(base), lanes: TextMap::new() };
        assert(r@.lanes =~= Map::empty());
        r
    }

    /// Whether the overlays rest on `base`.
    pub fn ensure_base(&self, path: &str, base: Option<&[u8]>) -> (r: Result<(), LaneError>)
        ensures
            match r {
                Ok(()) => self@.base == base_state(opt_slice(base)),
                Err(error) => self@.base != base_state(opt_slice(base)) && error@
                    == LaneErrorView::BaseChanged(path@),
            },
    {
        if self.base.same(&BaseState::for_content(base)) {
            Ok(())
        } else {
            Err(LaneError::BaseChanged { path: path.to_owned() })
        }
    }

    /// What a lane sees of the file.
    pub fn read(&self, path: &str, lane: &str, base: Option<&[u8]>) -> (r: Result<
        Option<Vec<u8>>,
        LaneError,
    >)
        requires
            self.wf(),
        ensures
            read_result(r) == file_read(self@, path@, lane@, opt_slice(base)),
    {
        match self.ensure_base(path, base) {
            Err(error) => {
                return Err(error);
            },
            Ok(()) => {},
        }
        match self.lanes.get(lane) {
            Some(entry) => Self::read_entry(path, entry, base),
            None => Ok(owned_bytes(base)),
        }
    }

    /// What a lane with an entry sees in place of the base.
    pub(crate) fn read_entry(path: &str, entry: &LaneEntry, base: Option<&[u8]>) -> (r: Result<
        Option<Vec<u8>>,
        LaneError,
    >)
        ensures
            read_result(r) == entry_bytes(path@, opt_slice(base), entry@),
    {
        match entry {
            LaneEntry::Deleted => Ok(None),
            LaneEntry::Present(view) => match render_ops(path, base_or_empty(base), &view.ops) {
                Ok(bytes) => Ok(Some(bytes)),
                Err(error) => Err(error),
            },
        }
    }

    /// Whether a lane has an overlay.
    pub fn has_lane(&self, lane: &str) -> (r: bool)
        requires
            self.wf(),
        ensures
            r == self@.lanes.contains_key(lane@),
    {
        self.lanes.contains_key(lane)
    }

    /// Whether no lane has an overlay.
    pub fn is_empty(&self) -> (r: bool)
        requires
            self.wf(),
        ensures
            r == (self@.lanes == Map::<Seq<char>, Entry>::empty()),
    {
        let r = self.lanes.is_empty();
        proof {
            if r {
                assert(self@.lanes =~= Map::empty());
            } else {
                self.lanes.lemma_wf();
                assert(self@.lanes.contains_key(self.lanes.pairs()[0].0));
            }
        }
        r
    }

    /// Drops the overlay of a lane.
    pub fn discard_lane(&mut self, lane: &str)
        requires
            old(self).wf(),
        ensures
            final(self).wf(),
            final(self)@ == (File {
                base: old(self)@.base,
                lanes: old(self)@.lanes.remove(lane@),
            }),
    {
        let _ = self.lanes.remove(lane);
        assert(self@.lanes =~= old(self)@.lanes.remove(lane@));
    }

    /// The other lanes that conflict with an operation.
    pub fn conflicts_for_op(&self, lane: &str, op: &FileOp, base_missing: bool) -> (r: Vec<String>)
        requires
            self.wf(),
            op@.end() <= u64::MAX,
        ensures
            text::texts(r@) == conflict_lanes(self@, lane@, op@, base_missing),
    {
        let ghost keys = self.lanes.keys();
        let ghost keep = |k: Seq<char>|
            k != lane@ && self@.lanes.contains_key(k) && entry_conflicts(
                self@.lanes[k],
                op@,
                base_missing,
            );
        let mut found: Vec<String> = Vec::new();
        let mut i: usize = 0;
        proof {
            self.lanes.lemma_wf();
        }
        while i < self.lanes.len()
            invariant
                i <= self.lanes.pairs().len(),
                self.wf(),
                op@.end() <= u64::MAX,
                keys == self.lanes.keys(),
                text_map::sorted_texts(keys),
                forall|k: int|
                    0 <= k < keys.len() ==> self@.lanes.contains_key(#[trigger] keys[k])
                        && self@.lanes[keys[k]] == self.lanes.pairs()[k].1@,
                keep == (|k: Seq<char>|
                    k != lane@ && self@.lanes.contains_key(k) && entry_conflicts(
                        self@.lanes[k],
                        op@,
                        base_missing,
                    )),
                text_map::sorted_texts(text::texts(found@)),
                forall|k: Seq<char>| #[trigger]
                    text::texts(found@).contains(k) <==> (exists|m: int|
                        0 <= m < i && keys[m] == k && keep(k)),
            decreases self.lanes.pairs().len() - i,
        {
            let other = self.lanes.key_at(i);
            let entry = self.lanes.value_at(i);
            let conflicts = match entry {
                LaneEntry::Deleted => !base_missing,
                LaneEntry::Present(view) => {
                    proof {
                        assert(entry_ok(self@.lanes[keys[i as int]]));
                    }
                    op_conflicts_with_any(op, &view.ops, base_missing)
                },
            };
            let ghost before = text::texts(found@);
            if !text_eq(other, lane) && conflicts {
                found.push(other.to_owned());
                assert(text::texts(found@) =~= before.push(other@));
                assert(keep(keys[i as int]));
            }
            proof {
                lemma_listing_step(before, text::texts(found@), keys, i as int, keep);
            }
            i = i + 1;
        }
        proof {
            let set = Set::new(keep);
            let list = text::texts(found@);
            assert forall|k: Seq<char>| #[trigger] list.contains(k) <==> set.contains(k) by {
                if set.contains(k) {
                    self.lanes.lemma_wf();
                    assert(self.lanes.keys().contains(k));
                    let m = choose|m: int| 0 <= m < keys.len() && keys[m] == k;
                    assert(0 <= m < i && keys[m] == k && keep(k));
                }
            }
            assert(set =~= conflict_set(self@, lane@, op@, base_missing));
            text_map::lemma_listing(list, set);
        }
        found
    }

    /// The other lanes that conflict with the deletion of the file.
    pub fn conflicts_for_delete(&self, lane: &str, base: Option<&[u8]>) -> (r: Vec<String>)
        requires
            self.wf(),
        ensures
            text::texts(r@) == delete_conflict_lanes(self@, lane@, opt_slice(base)),
    {
        let ghost keys = self.lanes.keys();
        let ghost keep = |k: Seq<char>|
            k != lane@ && self@.lanes.contains_key(k) && entry_blocks_delete(
                self@.lanes[k],
                opt_slice(base),
            );
        let mut found: Vec<String> = Vec::new();
        let mut i: usize = 0;
        proof {
            self.lanes.lemma_wf();
        }
        while i < self.lanes.len()
            invariant
                i <= self.lanes.pairs().len(),
                self.wf(),
                keys == self.lanes.keys(),
                text_map::sorted_texts(keys),
                forall|k: int|
                    0 <= k < keys.len() ==> self@.lanes.contains_key(#[trigger] keys[k])
                        && self@.lanes[keys[k]] == self.lanes.pairs()[k].1@,
                keep == (|k: Seq<char>|
                    k != lane@ && self@.lanes.contains_key(k) && entry_blocks_delete(
                        self@.lanes[k],
                        opt_slice(base),
                    )),
                text_map::sorted_texts(text::texts(found@)),
                forall|k: Seq<char>| #[trigger]
                    text::texts(found@).contains(k) <==> (exists|m: int|
                        0 <= m < i && keys[m] == k && keep(k)),
            decreases self.lanes.pairs().len() - i,
        {
            let other = self.lanes.key_at(i);
            let entry = self.lanes.value_at(i);
            let blocks = match entry {
                LaneEntry::Deleted => false,
                LaneEntry::Present(view) => base.is_some() && view.ops.len() > 0,
            };
            let ghost before = text::texts(found@);
            assert(self@.lanes[keys[i as int]] == entry@);
            if !text_eq(other, lane) && blocks {
                found.push(other.to_owned());
                assert(text::texts(found@) =~= before.push(other@));
                assert(keep(keys[i as int]));
            }
            proof {
                lemma_listing_step(before, text::texts(found@), keys, i as int, keep);
            }
            i = i + 1;
        }
        proof {
            let set = Set::new(keep);
            let list = text::texts(found@);
            assert forall|k: Seq<char>| #[trigger] list.contains(k) <==> set.contains(k) by {
                if set.contains(k) {
                    self.lanes.lemma_wf();
                    assert(self.lanes.keys().contains(k));
                    let m = choose|m: int| 0 <= m < keys.len() && keys[m] == k;
                    assert(0 <= m < i && keys[m] == k && keep(k));
                }
            }
            assert(set =~= delete_conflict_set(self@, lane@, opt_slice(base)));
            text_map::lemma_listing(list, set);
        }
        found
    }

    /// An operation as it is listed.
    pub fn summarize_op(&self, path: &str, lane: &str, op: &FileOp, base: Option<&[u8]>) -> (r: LaneOpSummary)
        requires
            self.wf(),
            op@.end() <= u64::MAX,
        ensures
            r@ == op_summary(self@, path@, lane@, op@, opt_slice(base)),
    {
        let base_missing = base.is_none();
        LaneOpSummary {
            op_id: op_id_for(lane, op),
            lane: lane.to_owned(),
            path: path.to_owned(),
            kind: op_kind(op, base_missing),
            base_start: op.base_start,
            base_end: op.base_start + op.base_len,
            inserted_len: op.inserted.len() as u64,
            order_key: order_key(lane, op),
            conflicts_with: self.conflicts_for_op(lane, op, base_missing),
        }
    }

    /// The deletion of the file as it is listed.
    fn summarize_delete(&self, path: &str, lane: &str, base: Option<&[u8]>) -> (r: LaneOpSummary)
        requires
            self.wf(),
        ensures
            r@ == delete_summary(self@, path@, lane@, opt_slice(base)),
    {
        LaneOpSummary {
            op_id: delete_op_id_for(lane),
            lane: lane.to_owned(),
            path: path.to_owned(),
            kind: LaneOpKind::Delete,
            base_start: 0,
            base_end: base_or_empty(base).len() as u64,
            inserted_len: 0,
            order_key: "00000000000000000000:".to_owned().concat(lane).concat(":delete"),
            conflicts_with: self.conflicts_for_delete(lane, base),
        }
    }

    /// The operations of an entry as they are listed.
    pub fn summarize_entry(
        &self,
        path: &str,
        lane: &str,
        entry: &LaneEntry,
        base: Option<&[u8]>,
    ) -> (r: Vec<LaneOpSummary>)
        requires
            self.wf(),
            entry_ok(entry@),
        ensures
            types::summary_views(r@) == entry_summaries(self@, path@, lane@, entry@, opt_slice(base)),
    {
        let mut list: Vec<LaneOpSummary> = Vec::new();
        match entry {
            LaneEntry::Present(view) => {
                let ghost all = ops::ops_view(view.ops@);
                let mut i: usize = 0;
                while i < view.ops.len()
                    invariant
                        i <= view.ops@.len(),
                        self.wf(),
                        all == ops::ops_view(view.ops@),
                        ops_ok(all),
                        list@.len() == i,
                        forall|k: int|
                            0 <= k < i ==> (#[trigger] list@[k])@ == op_summary(
                                self@,
                                path@,
                                lane@,
                                all[k],
                                opt_slice(base),
                            ),
                    decreases view.ops@.len() - i,
                {
                    assert(ops::sound_op(all[i as int]));
                    list.push(self.summarize_op(path, lane, &view.ops[i], base));
                    i = i + 1;
                }
            },
            LaneEntry::Deleted => {
                list.push(self.summarize_delete(path, lane, base));
            },
        }
        assert(types::summary_views(list@) =~= entry_summaries(
            self@,
            path@,
            lane@,
            entry@,
            opt_slice(base),
        ));
        list
    }

    /// The operations of a lane as they are listed.
    pub fn change_ops(&self, path: &str, lane: &str, base: Option<&[u8]>) -> (r: Result<
        Vec<LaneOpSummary>,
        LaneError,
    >)
        requires
            self.wf(),
        ensures
            summaries_result(r) == file_change_ops(self@, path@, lane@, opt_slice(base)),
    {
        match self.ensure_base(path, base) {
            Err(error) => {
                return Err(error);
            },
            Ok(()) => {},
        }
        match self.lanes.get(lane) {
            Some(entry) => {
                assert(self@.lanes.contains_key(lane@));
                Ok(self.summarize_entry(path, lane, entry, base))
            },
            None => {
                let none: Vec<LaneOpSummary> = Vec::new();
                assert(types::summary_views(none@) =~= Seq::empty());
                Ok(none)
            },
        }
    }

    /// One operation of a lane with its bytes.
    pub fn op_detail(&self, path: &str, lane: &str, base: Option<&[u8]>, name: &str) -> (r: Result<
        LaneOpDetail,
        LaneError,
    >)
        requires
            self.wf(),
        ensures
            detail_result(r) == file_op_detail(self@, path@, lane@, opt_slice(base), name@),
    {
        match self.ensure_base(path, base) {
            Err(error) => {
                return Err(error);
            },
            Ok(()) => {},
        }
        match self.lanes.get(lane) {
            None => Err(operation_missing(path, name)),
            Some(entry) => {
                assert(self@.lanes.contains_key(lane@));
                assert(entry_ok(self@.lanes[lane@]));
                match entry {
                    LaneEntry::Present(view) => {
                        match parse_lane_op_id(lane, name) {
                            Some(ParsedOpId::Present(id)) => match find_op(&view.ops, id) {
                                None => Err(operation_missing(path, name)),
                                Some(at) => {
                                    let op = &view.ops[at];
                                    let ghost all = ops::ops_view(view.ops@);
                                    proof {
                                        lemma_op_with_id(all, id as int, at as int);
                                        assert(all[at as int] == op@);
                                        assert(ops::sound_op(all[at as int]));
                                    }
                                    match base_slice_for_op(path, base_or_empty(base), op) {
                                        Err(error) => Err(error),
                                        Ok(bytes) => Ok(
                                            LaneOpDetail {
                                                summary: self.summarize_op(path, lane, op, base),
                                                base: bytes,
                                                inserted: slice_to_vec(op.inserted.as_slice()),
                                            },
                                        ),
                                    }
                                },
                            },
                            _ => Err(operation_missing(path, name)),
                        }
                    },
                    LaneEntry::Deleted => {
                        match parse_lane_op_id(lane, name) {
                            Some(ParsedOpId::Delete) => {
                                let none: Vec<u8> = Vec::new();
                                assert(none@ =~= Seq::<u8>::empty());
                                Ok(
                                    LaneOpDetail {
                                        summary: self.summarize_delete(path, lane, base),
                                        base: slice_to_vec(base_or_empty(base)),
                                        inserted: none,
                                    },
                                )
                            },
                            _ => Err(operation_missing(path, name)),
                        }
                    },
                }
            },
        }
    }
}

/// The view of a result that carries summaries.
pub open spec fn summaries_result(r: Result<Vec<LaneOpSummary>, LaneError>) -> Result<
    Seq<OpSummaryView>,
    LaneErrorView,
> {
    match r {
        Ok(list) => Ok(types::summary_views(list@)),
        Err(error) => Err(error@),
    }
}

/// The view of a result that carries an operation with its bytes.
pub open spec fn detail_result(r: Result<LaneOpDetail, LaneError>) -> Result<
    OpDetailView,
    LaneErrorView,
> {
    match r {
        Ok(detail) => Ok(detail@),
        Err(error) => Err(error@),
    }
}

/// Going one key further keeps a listing of the keys that pass a test.
pub proof fn lemma_listing_step(
    before: Seq<Seq<char>>,
    after: Seq<Seq<char>>,
    keys: Seq<Seq<char>>,
    i: int,
    keep: spec_fn(Seq<char>) -> bool,
)
    requires
        0 <= i < keys.len(),
        text_map::sorted_texts(keys),
        text_map::sorted_texts(before),
        forall|k: Seq<char>| #[trigger]
            before.contains(k) <==> (exists|m: int| 0 <= m < i && keys[m] == k && keep(k)),
        after == (if keep(keys[i]) {
            before.push(keys[i])
        } else {
            before
        }),
    ensures
        text_map::sorted_texts(after),
        forall|k: Seq<char>| #[trigger]
            after.contains(k) <==> (exists|m: int| 0 <= m < i + 1 && keys[m] == k && keep(k)),
{
    assert forall|a: int, b: int| 0 <= a < b < after.len() implies text::text_lt(
        #[trigger] after[a],
        #[trigger] after[b],
    ) by {
        if b < before.len() {
            assert(text::text_lt(before[a], before[b]));
        } else {
            assert(before.contains(before[a]));
            let m = choose|m: int| 0 <= m < i && keys[m] == before[a] && keep(before[a]);
            assert(text::text_lt(keys[m], keys[i]));
        }
    }
    assert forall|k: Seq<char>| #[trigger] after.contains(k) <==> (exists|m: int|
        0 <= m < i + 1 && keys[m] == k && keep(k)) by {
        if after.contains(k) {
            let a = choose|a: int| 0 <= a < after.len() && after[a] == k;
            if a < before.len() {
                assert(before[a] == k);
                assert(before.contains(k));
                let m = choose|m: int| 0 <= m < i && keys[m] == k && keep(k);
                assert(0 <= m < i + 1 && keys[m] == k && keep(k));
            } else {
                assert(keys[i] == k && keep(k));
            }
        }
        if exists|m: int| 0 <= m < i + 1 && keys[m] == k && keep(k) {
            let m = choose|m: int| 0 <= m < i + 1 && keys[m] == k && keep(k);
            if m < i {
                assert(before.contains(k));
                let a = choose|a: int| 0 <= a < before.len() && before[a] == k;
                assert(after[a] == k);
            } else {
                assert(after[before.len() as int] == k);
            }
        }
    }
}

} // verus!
