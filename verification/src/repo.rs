//! The lanes of a repo and their overlays.
use vstd::prelude::*;

use crate::conflict;
use crate::conflict::validate_ops;
use crate::difference;
use crate::lane_file;
use crate::lane_file::{owned_bytes, BaseState, Entry, File, LaneEntry, LaneFile};
use crate::laws;
use crate::op_id;
use crate::op_id::operation_missing;
use crate::ops;
use crate::promotion;
use crate::promotion::PromotionView;
use crate::text;
use crate::text::text_eq;
use crate::text_map;
use crate::text_map::TextMap;
use crate::types;
use crate::types::{
    ensure_user_lane, BaseStorageSnapshot, DecodeError, DecodeErrorView, LaneEntryStorageSnapshot,
    LaneError, LaneErrorView, LaneFileStorageSnapshot, LaneOpDetail, LaneOpSummary,
    LaneRepoStorageSnapshot, LaneRunState, OpDetailView, OpSummaryView, RunStateView,
};
use crate::upkeep;

verus! {

/// The lanes of a repo, how their last commands ended, and the overlays of each path.
#[derive(Debug, PartialEq, Eq)]
pub struct LaneRepo {
    lanes: TextMap<()>,
    last_exec: TextMap<LaneRunState>,
    files: TextMap<LaneFile>,
}

/// A [`LaneRepo`] as a mathematical value.
#[verifier::ext_equal]
pub struct Repo {
    pub lanes: Set<Seq<char>>,
    pub runs: Map<Seq<char>, RunStateView>,
    pub files: Map<Seq<char>, File>,
}

/// Run states as mathematical values.
pub open spec fn run_views(runs: Map<Seq<char>, LaneRunState>) -> Map<Seq<char>, RunStateView> {
    runs.map_values(|state: LaneRunState| state@)
}

/// Files as mathematical values.
pub open spec fn file_views(files: Map<Seq<char>, LaneFile>) -> Map<Seq<char>, File> {
    files.map_values(|file: LaneFile| file@)
}

/// Stored files as mathematical values.
pub open spec fn stored_file_views(files: Map<Seq<char>, LaneFileStorageSnapshot>) -> Map<
    Seq<char>,
    File,
> {
    files.map_values(|file: LaneFileStorageSnapshot| file@)
}

impl View for LaneRepo {
    type V = Repo;

    closed spec fn view(&self) -> Repo {
        Repo {
            lanes: self.lanes@.dom(),
            runs: run_views(self.last_exec@),
            files: file_views(self.files@),
        }
    }
}

impl View for LaneRepoStorageSnapshot {
    type V = Repo;

    open spec fn view(&self) -> Repo {
        Repo {
            lanes: self.lanes@.dom(),
            runs: run_views(self.last_exec@),
            files: stored_file_views(self.files@),
        }
    }
}

/// What holds of every repo: lanes have names that users can give, and run states and overlays
/// belong to lanes.
pub open spec fn repo_ok(repo: Repo) -> bool {
    &&& forall|k: Seq<char>| #[trigger] repo.lanes.contains(k) ==> types::user_lane(k)
    &&& forall|k: Seq<char>| #[trigger] repo.runs.contains_key(k) ==> repo.lanes.contains(k)
    &&& forall|p: Seq<char>| #[trigger]
        repo.files.contains_key(p) ==> lane_file::file_ok(repo.files[p])
    &&& forall|p: Seq<char>, k: Seq<char>|
        repo.files.contains_key(p) && #[trigger] repo.files[p].lanes.contains_key(k)
            ==> repo.lanes.contains(k)
}

/// What a repo holds can be counted.
pub open spec fn repo_finite(repo: Repo) -> bool {
    &&& repo.lanes.finite()
    &&& repo.runs.dom().finite()
    &&& repo.files.dom().finite()
    &&& forall|p: Seq<char>| #[trigger]
        repo.files.contains_key(p) ==> repo.files[p].lanes.dom().finite()
}

/// What a lane sees at a path. The lane `base` sees the base.
pub open spec fn repo_read(repo: Repo, path: Seq<char>, lane: Seq<char>, base: Option<Seq<u8>>) -> Result<
    Option<Seq<u8>>,
    LaneErrorView,
> {
    if lane == "base"@ {
        Ok(base)
    } else if !repo.lanes.contains(lane) {
        Err(LaneErrorView::LaneMissing(lane))
    } else if repo.files.contains_key(path) {
        lane_file::file_read(repo.files[path], path, lane, base)
    } else {
        Ok(base)
    }
}

/// The overlays of a path; where there are none they rest on the given base.
pub open spec fn file_at(repo: Repo, path: Seq<char>, base: Option<Seq<u8>>) -> File {
    if repo.files.contains_key(path) {
        repo.files[path]
    } else {
        File { base: lane_file::base_state(base), lanes: Map::empty() }
    }
}

/// The files after those of one path have changed; a path without overlays is dropped.
pub open spec fn with_file(files: Map<Seq<char>, File>, path: Seq<char>, file: File) -> Map<
    Seq<char>,
    File,
> {
    if file.lanes == Map::<Seq<char>, Entry>::empty() {
        files.remove(path)
    } else {
        files.insert(path, file)
    }
}

/// The repo after a lane has been given content at a path, or why it cannot be.
pub open spec fn repo_replace(
    repo: Repo,
    path: Seq<char>,
    lane: Seq<char>,
    base: Option<Seq<u8>>,
    content: Option<Seq<u8>>,
) -> Result<Repo, LaneErrorView> {
    if !repo.lanes.contains(lane) {
        Err(LaneErrorView::LaneMissing(lane))
    } else {
        match promotion::file_replace(file_at(repo, path, base), path, lane, base, content) {
            Err(error) => Err(error),
            Ok(file) => Ok(Repo { files: with_file(repo.files, path, file), ..repo }),
        }
    }
}

/// The operations of a lane at a path, or why they cannot be listed.
pub open spec fn repo_change_ops(
    repo: Repo,
    path: Seq<char>,
    lane: Seq<char>,
    base: Option<Seq<u8>>,
) -> Result<Seq<OpSummaryView>, LaneErrorView> {
    if !repo.lanes.contains(lane) {
        Err(LaneErrorView::LaneMissing(lane))
    } else if repo.files.contains_key(path) {
        lane_file::file_change_ops(repo.files[path], path, lane, base)
    } else {
        Ok(Seq::empty())
    }
}

/// One operation of a lane at a path, or why there is none.
pub open spec fn repo_op_detail(
    repo: Repo,
    path: Seq<char>,
    lane: Seq<char>,
    base: Option<Seq<u8>>,
    name: Seq<char>,
) -> Result<OpDetailView, LaneErrorView> {
    if !repo.lanes.contains(lane) {
        Err(LaneErrorView::LaneMissing(lane))
    } else if repo.files.contains_key(path) {
        lane_file::file_op_detail(repo.files[path], path, lane, base, name)
    } else {
        Err(LaneErrorView::OperationMissing(path, name))
    }
}

/// The outcome of a promotion for the repo.
pub open spec fn repo_after(
    repo: Repo,
    path: Seq<char>,
    outcome: Result<(Option<Seq<u8>>, File), LaneErrorView>,
) -> Result<(Option<Seq<u8>>, Repo), LaneErrorView> {
    match outcome {
        Err(error) => Err(error),
        Ok((promoted, file)) => Ok(
            (promoted, Repo { files: with_file(repo.files, path, file), ..repo }),
        ),
    }
}

/// The outcome of promoting the named operations of a lane at a path.
pub open spec fn repo_promote_ops(
    repo: Repo,
    path: Seq<char>,
    lane: Seq<char>,
    base: Option<Seq<u8>>,
    names: Seq<Seq<char>>,
) -> Result<(Option<Seq<u8>>, Repo), LaneErrorView> {
    if !repo.lanes.contains(lane) {
        Err(LaneErrorView::LaneMissing(lane))
    } else if names.len() == 0 {
        Err(LaneErrorView::EmptyOperationSelection)
    } else if !repo.files.contains_key(path) {
        Err(LaneErrorView::OperationMissing(path, names[0]))
    } else {
        repo_after(
            repo,
            path,
            promotion::file_promote_ops(repo.files[path], path, lane, base, names),
        )
    }
}

/// The outcome of promoting one operation of a lane at a path with other bytes in its place.
pub open spec fn repo_resolve_op(
    repo: Repo,
    path: Seq<char>,
    lane: Seq<char>,
    base: Option<Seq<u8>>,
    name: Seq<char>,
    replacement: Seq<u8>,
) -> Result<(Option<Seq<u8>>, Repo), LaneErrorView> {
    if !repo.lanes.contains(lane) {
        Err(LaneErrorView::LaneMissing(lane))
    } else if !repo.files.contains_key(path) {
        Err(LaneErrorView::OperationMissing(path, name))
    } else {
        repo_after(
            repo,
            path,
            promotion::file_resolve_op(repo.files[path], path, lane, base, name, replacement),
        )
    }
}

/// A file without the overlay of a lane.
pub open spec fn file_without(file: File, lane: Seq<char>) -> File {
    File { base: file.base, lanes: file.lanes.remove(lane) }
}

/// The repo without a lane: neither its run state nor its overlays are left.
pub open spec fn repo_discard(repo: Repo, lane: Seq<char>) -> Repo {
    Repo {
        lanes: repo.lanes.remove(lane),
        runs: repo.runs.remove(lane),
        files: Map::new(
            |p: Seq<char>|
                repo.files.contains_key(p) && file_without(repo.files[p], lane).lanes != Map::<
                    Seq<char>,
                    Entry,
                >::empty(),
            |p: Seq<char>| file_without(repo.files[p], lane),
        ),
    }
}

/// The paths at which a lane has an overlay.
pub open spec fn overlaid(repo: Repo, lane: Seq<char>) -> Set<Seq<char>> {
    Set::new(|p: Seq<char>| repo.files.contains_key(p) && repo.files[p].lanes.contains_key(lane))
}

/// The paths at which a lane has an overlay, in order.
pub open spec fn overlay_listing(repo: Repo, lane: Seq<char>) -> Seq<Seq<char>> {
    text_map::listing(overlaid(repo, lane))
}

/// The lanes whose stored entries are refused.
pub open spec fn bad_entry(file: File) -> spec_fn(Seq<char>) -> bool {
    |k: Seq<char>| file.lanes.contains_key(k) && lane_file::loaded_entry(file.lanes[k]) is Err
}

/// Why the stored overlays of a path are refused, if they are.
pub open spec fn stored_file_fault(file: File) -> Option<DecodeErrorView> {
    if text_map::holds_of_some(bad_entry(file)) {
        Some(lane_file::loaded_entry(file.lanes[text_map::least(bad_entry(file))])->Err_0)
    } else {
        None
    }
}

/// The overlays that stored ones stand for.
pub open spec fn loaded_file(file: File) -> File {
    File {
        base: file.base,
        lanes: file.lanes.map_values(|entry: Entry| lane_file::loaded_entry(entry)->Ok_0),
    }
}

/// The stored lanes whose names users cannot give.
pub open spec fn bad_lane(repo: Repo) -> spec_fn(Seq<char>) -> bool {
    |k: Seq<char>| repo.lanes.contains(k) && !types::user_lane(k)
}

/// The stored paths whose overlays are refused.
pub open spec fn bad_file(repo: Repo) -> spec_fn(Seq<char>) -> bool {
    |p: Seq<char>| repo.files.contains_key(p) && stored_file_fault(repo.files[p]) is Some
}

/// The stored run states without a lane.
pub open spec fn stray_run(repo: Repo) -> spec_fn(Seq<char>) -> bool {
    |k: Seq<char>| repo.runs.contains_key(k) && !repo.lanes.contains(k)
}

/// The overlays of a file without a lane.
pub open spec fn stray_overlay(repo: Repo, file: File) -> spec_fn(Seq<char>) -> bool {
    |k: Seq<char>| file.lanes.contains_key(k) && !repo.lanes.contains(k)
}

/// The stored paths with an overlay without a lane.
pub open spec fn stray_file(repo: Repo) -> spec_fn(Seq<char>) -> bool {
    |p: Seq<char>|
        repo.files.contains_key(p) && text_map::holds_of_some(stray_overlay(repo, repo.files[p]))
}

/// The repo that stored state stands for, or why the state is refused.
pub open spec fn loaded_repo(repo: Repo) -> Result<Repo, DecodeErrorView> {
    if text_map::holds_of_some(bad_lane(repo)) {
        Err(DecodeErrorView::ReservedLane(text_map::least(bad_lane(repo))))
    } else if text_map::holds_of_some(bad_file(repo)) {
        Err(stored_file_fault(repo.files[text_map::least(bad_file(repo))])->0)
    } else if text_map::holds_of_some(stray_run(repo)) {
        Err(DecodeErrorView::ExecStateLaneMissing(text_map::least(stray_run(repo))))
    } else if text_map::holds_of_some(stray_file(repo)) {
        Err(
            DecodeErrorView::OverlayLaneMissing(
                text_map::least(
                    stray_overlay(repo, repo.files[text_map::least(stray_file(repo))]),
                ),
            ),
        )
    } else {
        Ok(Repo { files: repo.files.map_values(|file: File| loaded_file(file)), ..repo })
    }
}

impl LaneFile {
    /// The form in which the overlays are stored.
    pub fn storage_snapshot(&self) -> (r: LaneFileStorageSnapshot)
        requires
            self.wf(),
        ensures
            r@ == self@,
            r.lanes.wf(),
    {
        let base = match &self.base {
            BaseState::Present(fingerprint) => BaseStorageSnapshot::Present(*fingerprint),
            BaseState::Missing => BaseStorageSnapshot::Missing,
        };
        let mut lanes: TextMap<LaneEntryStorageSnapshot> = TextMap::new();
        let ghost keys = self.lanes.keys();
        let mut i: usize = 0;
        proof {
            self.lanes.lemma_wf();
        }
        while i < self.lanes.len()
            invariant
                i <= self.lanes.pairs().len(),
                self.wf(),
                keys == self.lanes.keys(),
                text_map::sorted_texts(keys),
                forall|k: int|
                    0 <= k < keys.len() ==> self@.lanes.contains_key(#[trigger] keys[k])
                        && self@.lanes[keys[k]] == self.lanes.pairs()[k].1@,
                lanes.wf(),
                forall|k: Seq<char>| #[trigger]
                    lane_file::stored_entries(lanes@).contains_key(k) ==> self@.lanes.contains_key(k)
                        && self@.lanes[k] == lane_file::stored_entries(lanes@)[k],
                forall|m: int|
                    0 <= m < i ==> lane_file::stored_entries(lanes@).contains_key(#[trigger] keys[m]),
            decreases self.lanes.pairs().len() - i,
        {
            let key = self.lanes.key_at(i);
            let stored = self.lanes.value_at(i).storage_snapshot();
            let ghost built = lane_file::stored_entries(lanes@);
            let ghost made = stored@;
            let _ = lanes.insert(key.to_owned(), stored);
            assert(lane_file::stored_entries(lanes@) =~= built.insert(keys[i as int], made));
            i = i + 1;
        }
        let r = LaneFileStorageSnapshot { base, lanes };
        proof {
            assert forall|k: Seq<char>| #[trigger] self@.lanes.contains_key(k) implies r@.lanes.contains_key(
                k,
            ) by {
                assert(self.lanes@.contains_key(k));
                assert(keys.contains(k));
                let m = choose|m: int| 0 <= m < keys.len() && keys[m] == k;
                assert(lane_file::stored_entries(lanes@).contains_key(keys[m]));
            }
            assert(r@.lanes =~= self@.lanes);
        }
        r
    }

    /// Accepts overlays whose operations are valid.
    pub fn validate(&self) -> (r: Result<(), DecodeError>)
        requires
            self.wf(),
        ensures
            r is Ok,
    {
        let mut i: usize = 0;
        while i < self.lanes.len()
            invariant
                i <= self.lanes.pairs().len(),
                self.wf(),
            decreases self.lanes.pairs().len() - i,
        {
            match self.lanes.value_at(i) {
                LaneEntry::Deleted => {},
                LaneEntry::Present(view) => {
                    proof {
                        self.lanes.lemma_wf();
                        let key = self.lanes.pairs()[i as int].0;
                        assert(self@.lanes.contains_key(key));
                        let list = ops::ops_view(view.ops@);
                        assert(lane_file::ops_ok(list));
                        assert forall|k: int| 0 <= k < list.len() implies 0 <= (
                        #[trigger] list[k]).start && 0 <= list[k].len by {
                            assert(ops::sound_op(list[k]));
                        }
                        conflict::lemma_stored_ok(list);
                    }
                    match validate_ops(&view.ops) {
                        Ok(()) => {},
                        Err(error) => {
                            return Err(error);
                        },
                    }
                },
            }
            i = i + 1;
        }
        Ok(())
    }
}

impl LaneFileStorageSnapshot {
    /// The overlays that were stored.
    pub fn into_lane_file(&self) -> (r: Result<LaneFile, DecodeError>)
        requires
            self.lanes.wf(),
        ensures
            match r {
                Ok(file) => stored_file_fault(self@) is None && file@ == loaded_file(self@)
                    && file.wf(),
                Err(error) => stored_file_fault(self@) == Some(error@),
            },
    {
        let base = match &self.base {
            BaseStorageSnapshot::Present(fingerprint) => BaseState::Present(*fingerprint),
            BaseStorageSnapshot::Missing => BaseState::Missing,
        };
        let mut lanes: TextMap<LaneEntry> = TextMap::new();
        let ghost keys = self.lanes.keys();
        let ghost bad = bad_entry(self@);
        let mut i: usize = 0;
        proof {
            self.lanes.lemma_wf();
        }
        while i < self.lanes.len()
            invariant
                i <= self.lanes.pairs().len(),
                self.lanes.wf(),
                keys == self.lanes.keys(),
                text_map::sorted_texts(keys),
                forall|k: Seq<char>| self@.lanes.contains_key(k) <==> #[trigger] keys.contains(k),
                forall|k: int|
                    0 <= k < keys.len() ==> self@.lanes.contains_key(#[trigger] keys[k])
                        && self@.lanes[keys[k]] == self.lanes.pairs()[k].1@,
                bad == bad_entry(self@),
                forall|m: int| 0 <= m < i ==> !bad(#[trigger] keys[m]),
                lanes.wf(),
                forall|k: Seq<char>| #[trigger]
                    lane_file::entries(lanes@).contains_key(k) ==> self@.lanes.contains_key(k)
                        && lane_file::entries(lanes@)[k] == lane_file::loaded_entry(
                        self@.lanes[k],
                    )->Ok_0 && lane_file::entry_ok(lane_file::entries(lanes@)[k]),
                forall|m: int|
                    0 <= m < i ==> lane_file::entries(lanes@).contains_key(#[trigger] keys[m]),
            decreases self.lanes.pairs().len() - i,
        {
            let key = self.lanes.key_at(i);
            match self.lanes.value_at(i).into_lane_entry() {
                Err(error) => {
                    proof {
                        assert(bad(keys[i as int]));
                        assert forall|k: Seq<char>| #[trigger] bad(k) implies keys.contains(k) by {}
                        text_map::lemma_least(keys, i as int, bad);
                    }
                    return Err(error);
                },
                Ok(entry) => {
                    assert(!bad(keys[i as int]));
                    let ghost built = lane_file::entries(lanes@);
                    let ghost made = entry@;
                    let _ = lanes.insert(key.to_owned(), entry);
                    assert(lane_file::entries(lanes@) =~= built.insert(keys[i as int], made));
                },
            }
            i = i + 1;
        }
        let file = LaneFile { base, lanes };
        proof {
            assert forall|k: Seq<char>| #[trigger] self@.lanes.contains_key(k) implies file@.lanes.contains_key(
                k,
            ) && !bad(k) by {
                assert(keys.contains(k));
                let m = choose|m: int| 0 <= m < keys.len() && keys[m] == k;
                assert(lane_file::entries(lanes@).contains_key(keys[m]));
                assert(!bad(keys[m]));
            }
            assert(file@.lanes =~= loaded_file(self@).lanes);
            if text_map::holds_of_some(bad) {
                let k = choose|k: Seq<char>| #[trigger] bad(k);
                assert(self@.lanes.contains_key(k));
            }
        }
        match file.validate() {
            Err(error) => Err(error),
            Ok(()) => Ok(file),
        }
    }
}

impl LaneRepo {
    /// The invariant: keys in order and [`repo_ok`].
    pub closed spec fn wf(&self) -> bool {
        &&& self.lanes.wf()
        &&& self.last_exec.wf()
        &&& self.files.wf()
        &&& forall|p: Seq<char>| #[trigger] self.files@.contains_key(p) ==> self.files@[p].wf()
        &&& repo_ok(self@)
    }

    /// What the invariant says of the mathematical value.
    pub proof fn lemma_wf(&self)
        requires
            self.wf(),
        ensures
            repo_ok(self@),
            repo_finite(self@),
    {
        self.lanes.lemma_wf();
        self.last_exec.lemma_wf();
        self.files.lemma_wf();
        text_map::lemma_listed_is_finite(self@.lanes);
        assert(self@.runs.dom() =~= self.last_exec@.dom());
        text_map::lemma_listed_is_finite(self@.runs.dom());
        assert(self@.files.dom() =~= self.files@.dom());
        text_map::lemma_listed_is_finite(self@.files.dom());
        assert forall|p: Seq<char>| #[trigger] self@.files.contains_key(p) implies self@.files[p].lanes.dom().finite() by {
            let file = self.files@[p];
            file.lanes.lemma_wf();
            assert(file@.lanes.dom() =~= file.lanes@.dom());
            text_map::lemma_listed_is_finite(file@.lanes.dom());
        }
    }

    /// The numbers of operations fit their type.
    pub proof fn lemma_numbers(&self, path: Seq<char>, lane: Seq<char>, i: int)
        requires
            self@.files.contains_key(path),
            self@.files[path].lanes.contains_key(lane),
            self@.files[path].lanes[lane] is Present,
            0 <= i < self@.files[path].lanes[lane]->Present_0.len(),
        ensures
            0 <= self@.files[path].lanes[lane]->Present_0[i].id <= u64::MAX,
    {
        let file = self.files@[path];
        assert(self@.files[path] == file@);
        assert(file@.lanes[lane] == file.lanes@[lane]@);
        match file.lanes@[lane] {
            LaneEntry::Present(view) => {
                assert(ops::ops_view(view.ops@)[i] == view.ops@[i]@);
            },
            LaneEntry::Deleted => {},
        }
    }

    /// A repo without lanes.
    pub fn new() -> (r: Self)
        ensures
            r.wf(),
            r@ == (Repo { lanes: Set::empty(), runs: Map::empty(), files: Map::empty() }),
            upkeep::repo_tidy(r@),
            upkeep::rests_on(r@, Map::empty()),
    {
        let r = LaneRepo { lanes: TextMap::new(), last_exec: TextMap::new(), files: TextMap::new() };
        assert(r@.lanes =~= Set::empty());
        assert(r@.runs =~= Map::empty());
        assert(r@.files =~= Map::empty());
        r
    }

    /// The names of the lanes, in order.
    pub fn lane_ids(&self) -> (r: Vec<&str>)
        requires
            self.wf(),
        ensures
            text::strs(r@) == text_map::listing(self@.lanes),
            text_map::is_listing(text::strs(r@), self@.lanes),
    {
        let mut r: Vec<&str> = Vec::new();
        let ghost keys = self.lanes.keys();
        let mut i: usize = 0;
        proof {
            self.lanes.lemma_wf();
        }
        while i < self.lanes.len()
            invariant
                i <= self.lanes.pairs().len(),
                keys == self.lanes.keys(),
                r@.len() == i,
                forall|k: int| 0 <= k < i ==> (#[trigger] r@[k])@ == keys[k],
            decreases self.lanes.pairs().len() - i,
        {
            r.push(self.lanes.key_at(i));
            i = i + 1;
        }
        assert(text::strs(r@) =~= keys);
        r
    }

    /// Whether a lane exists.
    pub fn lane_exists(&self, lane: &str) -> (r: bool)
        requires
            self.wf(),
        ensures
            r == self@.lanes.contains(lane@),
    {
        self.lanes.contains_key(lane)
    }

    /// Accepts a lane that exists.
    pub(crate) fn ensure_lane(&self, lane: &str) -> (r: Result<(), LaneError>)
        requires
            self.wf(),
        ensures
            match r {
                Ok(()) => self@.lanes.contains(lane@),
                Err(error) => !self@.lanes.contains(lane@) && error@ == LaneErrorView::LaneMissing(
                    lane@,
                ),
            },
    {
        if self.lanes.contains_key(lane) {
            Ok(())
        } else {
            Err(LaneError::LaneMissing(lane.to_owned()))
        }
    }

    /// The paths at which a lane has an overlay, in order.
    pub fn overlay_paths(&self, lane: &str) -> (r: Result<Vec<&str>, LaneError>)
        requires
            self.wf(),
        ensures
            match r {
                Ok(paths) => {
                    &&& self@.lanes.contains(lane@)
                    &&& text::strs(paths@) == overlay_listing(self@, lane@)
                    &&& text_map::is_listing(text::strs(paths@), overlaid(self@, lane@))
                },
                Err(error) => !self@.lanes.contains(lane@) && error@ == LaneErrorView::LaneMissing(
                    lane@,
                ),
            },
    {
        match self.ensure_lane(lane) {
            Err(error) => {
                return Err(error);
            },
            Ok(()) => {},
        }
        let ghost keys = self.files.keys();
        let ghost keep = |p: Seq<char>|
            self@.files.contains_key(p) && self@.files[p].lanes.contains_key(lane@);
        let mut found: Vec<&str> = Vec::new();
        let mut i: usize = 0;
        proof {
            self.files.lemma_wf();
        }
        while i < self.files.len()
            invariant
                i <= self.files.pairs().len(),
                self.wf(),
                keys == self.files.keys(),
                text_map::sorted_texts(keys),
                forall|k: int|
                    0 <= k < keys.len() ==> self.files@.contains_key(#[trigger] keys[k])
                        && self.files@[keys[k]] == self.files.pairs()[k].1,
                keep == (|p: Seq<char>|
                    self@.files.contains_key(p) && self@.files[p].lanes.contains_key(lane@)),
                text_map::sorted_texts(text::strs(found@)),
                forall|k: Seq<char>| #[trigger]
                    text::strs(found@).contains(k) <==> (exists|m: int|
                        0 <= m < i && keys[m] == k && keep(k)),
            decreases self.files.pairs().len() - i,
        {
            let path = self.files.key_at(i);
            let file = self.files.value_at(i);
            let ghost before = text::strs(found@);
            assert(self.files@.contains_key(keys[i as int]));
            assert(self@.files[keys[i as int]] == file@);
            if file.has_lane(lane) {
                found.push(path);
                assert(text::strs(found@) =~= before.push(path@));
            }
            proof {
                lane_file::lemma_listing_step(before, text::strs(found@), keys, i as int, keep);
            }
            i = i + 1;
        }
        proof {
            let set = Set::new(keep);
            let list = text::strs(found@);
            assert forall|k: Seq<char>| #[trigger] list.contains(k) <==> set.contains(k) by {
                if set.contains(k) {
                    self.files.lemma_wf();
                    assert(self.files@.contains_key(k));
                    assert(self.files.keys().contains(k));
                    let m = choose|m: int| 0 <= m < keys.len() && keys[m] == k;
                    assert(0 <= m < i && keys[m] == k && keep(k));
                }
            }
            assert(set =~= overlaid(self@, lane@));
            text_map::lemma_listing(list, set);
        }
        Ok(found)
    }

    /// Adds a lane, and says whether it is new.
    pub fn create_lane(&mut self, lane: &str) -> (r: Result<bool, LaneError>)
        requires
            old(self).wf(),
        ensures
            final(self).wf(),
            match r {
                Ok(fresh) => {
                    &&& types::user_lane(lane@)
                    &&& fresh == !old(self)@.lanes.contains(lane@)
                    &&& final(self)@ == (Repo {
                        lanes: old(self)@.lanes.insert(lane@),
                        ..old(self)@
                    })
                },
                Err(error) => {
                    &&& types::parsed_lane(lane@) == Err::<Seq<char>, LaneErrorView>(error@)
                    &&& final(self)@ == old(self)@
                },
            },
            upkeep::repo_tidy(old(self)@) ==> upkeep::repo_tidy(final(self)@),
            forall|bases: Map<Seq<char>, Option<Seq<u8>>>| #[trigger]
                upkeep::rests_on(old(self)@, bases) ==> upkeep::rests_on(final(self)@, bases),
    {
        match ensure_user_lane(lane) {
            Err(error) => {
                return Err(error);
            },
            Ok(()) => {},
        }
        let fresh = self.lanes.insert(lane.to_owned(), ());
        assert(self@.lanes =~= old(self)@.lanes.insert(lane@));
        assert(self@ =~= (Repo { lanes: old(self)@.lanes.insert(lane@), ..old(self)@ }));
        Ok(fresh)
    }

    /// Keeps how the last command of a lane ended.
    pub fn record_last_exec(&mut self, lane: &str, state: LaneRunState) -> (r: Result<(), LaneError>)
        requires
            old(self).wf(),
        ensures
            final(self).wf(),
            match r {
                Ok(()) => {
                    &&& old(self)@.lanes.contains(lane@)
                    &&& final(self)@ == (Repo {
                        runs: old(self)@.runs.insert(lane@, state@),
                        ..old(self)@
                    })
                },
                Err(error) => {
                    &&& !old(self)@.lanes.contains(lane@)
                    &&& error@ == LaneErrorView::LaneMissing(lane@)
                    &&& final(self)@ == old(self)@
                },
            },
            upkeep::repo_tidy(old(self)@) ==> upkeep::repo_tidy(final(self)@),
            forall|bases: Map<Seq<char>, Option<Seq<u8>>>| #[trigger]
                upkeep::rests_on(old(self)@, bases) ==> upkeep::rests_on(final(self)@, bases),
    {
        match self.ensure_lane(lane) {
            Err(error) => {
                return Err(error);
            },
            Ok(()) => {},
        }
        let ghost kept = state@;
        let _ = self.last_exec.insert(lane.to_owned(), state);
        assert(self@.runs =~= old(self)@.runs.insert(lane@, kept));
        assert(self@ =~= (Repo { runs: old(self)@.runs.insert(lane@, kept), ..old(self)@ }));
        Ok(())
    }

    /// How the last command of a lane ended, if one has run.
    pub fn last_exec(&self, lane: &str) -> (r: Result<Option<&LaneRunState>, LaneError>)
        requires
            self.wf(),
        ensures
            match r {
                Ok(state) => self@.lanes.contains(lane@) && match state {
                    Some(state) => self@.runs.contains_key(lane@) && self@.runs[lane@] == state@,
                    None => !self@.runs.contains_key(lane@),
                },
                Err(error) => !self@.lanes.contains(lane@) && error@ == LaneErrorView::LaneMissing(
                    lane@,
                ),
            },
    {
        match self.ensure_lane(lane) {
            Err(error) => Err(error),
            Ok(()) => Ok(self.last_exec.get(lane)),
        }
    }

    /// Removes a lane with its run state and overlays, and says whether it existed.
    pub fn discard_lane(&mut self, lane: &str) -> (removed: bool)
        requires
            old(self).wf(),
        ensures
            final(self).wf(),
            removed == old(self)@.lanes.contains(lane@),
            final(self)@ == repo_discard(old(self)@, lane@),
            upkeep::repo_tidy(old(self)@) ==> upkeep::repo_tidy(final(self)@),
            forall|bases: Map<Seq<char>, Option<Seq<u8>>>| #[trigger]
                upkeep::rests_on(old(self)@, bases) ==> upkeep::rests_on(final(self)@, bases),
    {
        let ghost before = *self;
        proof {
            upkeep::lemma_discard_keeps(self@, lane@);
        }
        let removed = self.lanes.remove(lane).is_some();
        let _ = self.last_exec.remove(lane);
        let mut files: TextMap<LaneFile> = TextMap::new();
        std::mem::swap(&mut files, &mut self.files);
        let mut rest = files.into_entries();
        let mut kept: TextMap<LaneFile> = TextMap::new();
        let ghost pairs = before.files.pairs();
        let ghost after = repo_discard(before@, lane@);
        proof {
            before.files.lemma_wf();
            assert(rest@.map_values(|e: (String, LaneFile)| (e.0@, e.1)) =~= pairs.subrange(
                0,
                pairs.len() as int,
            ));
            assert(file_views(kept@) =~= Map::empty());
        }
        while rest.len() > 0
            invariant
                before.wf(),
                pairs == before.files.pairs(),
                text_map::sorted_pairs(pairs),
                after == repo_discard(before@, lane@),
                rest@.len() <= pairs.len(),
                rest@.map_values(|e: (String, LaneFile)| (e.0@, e.1)) == pairs.subrange(
                    0,
                    rest@.len() as int,
                ),
                forall|i: int|
                    0 <= i < pairs.len() ==> before.files@.contains_key((#[trigger] pairs[i]).0)
                        && before.files@[pairs[i].0] == pairs[i].1,
                kept.wf(),
                forall|p: Seq<char>| #[trigger] kept@.contains_key(p) ==> kept@[p].wf(),
                forall|p: Seq<char>| #[trigger]
                    file_views(kept@).contains_key(p) ==> after.files.contains_key(p)
                        && after.files[p] == file_views(kept@)[p],
                forall|i: int|
                    rest@.len() <= i < pairs.len() && after.files.contains_key(
                        (#[trigger] pairs[i]).0,
                    ) ==> file_views(kept@).contains_key(pairs[i].0),
            decreases rest@.len(),
        {
            let ghost n = rest@.len() - 1;
            let ghost mapped = rest@.map_values(|e: (String, LaneFile)| (e.0@, e.1));
            match rest.pop() {
                None => {},
                Some((path, file)) => {
                    let mut file = file;
                    proof {
                        assert(mapped[n] == pairs[n]);
                        assert(pairs[n].0 == path@ && pairs[n].1 == file);
                        assert(before.files@.contains_key(pairs[n].0));
                        assert(rest@.map_values(|e: (String, LaneFile)| (e.0@, e.1))
                            =~= pairs.subrange(0, n));
                    }
                    let ghost old_file = file@;
                    file.discard_lane(lane);
                    assert(before@.files[path@] == old_file);
                    let ghost name = path@;
                    let ghost new_file = file@;
                    let ghost built = file_views(kept@);
                    if !file.is_empty() {
                        let _ = kept.insert(path, file);
                        assert(file_views(kept@) =~= built.insert(name, new_file));
                    }
                },
            }
        }
        self.files = kept;
        proof {
            assert forall|p: Seq<char>| #[trigger] after.files.contains_key(p) implies self@.files.contains_key(
                p,
            ) by {
                assert(before.files@.contains_key(p));
                before.files.lemma_wf();
                let i = choose|i: int| 0 <= i < pairs.len() && (#[trigger] pairs[i]).0 == p;
                assert(after.files.contains_key(pairs[i].0));
            }
            assert(self@.files =~= after.files);
            assert(self@.lanes =~= after.lanes);
            assert(self@.runs =~= after.runs);
            assert forall|p: Seq<char>| #[trigger] self@.files.contains_key(p) implies lane_file::file_ok(
                self@.files[p],
            ) by {
                assert(self.files@.contains_key(p));
            }
            assert forall|p: Seq<char>, k: Seq<char>|
                self@.files.contains_key(p) && #[trigger] self@.files[p].lanes.contains_key(
                    k,
                ) implies self@.lanes.contains(k) by {
                assert(before@.files[p].lanes.contains_key(k));
            }
        }
        removed
    }

    /// What a lane sees at a path, given the base file there.
    pub fn read_path(&self, path: &str, lane: &str, base: Option<&[u8]>) -> (r: Result<
        Option<Vec<u8>>,
        LaneError,
    >)
        requires
            self.wf(),
        ensures
            lane_file::read_result(r) == repo_read(self@, path@, lane@, lane_file::opt_slice(base)),
    {
        if text_eq(lane, "base") {
            return Ok(owned_bytes(base));
        }
        match self.ensure_lane(lane) {
            Err(error) => {
                return Err(error);
            },
            Ok(()) => {},
        }
        match self.files.get(path) {
            Some(file) => {
                assert(self@.files.contains_key(path@));
                file.read(path, lane, base)
            },
            None => Ok(owned_bytes(base)),
        }
    }

    /// The operations of a lane at a path.
    pub fn change_ops(&self, path: &str, lane: &str, base: Option<&[u8]>) -> (r: Result<
        Vec<LaneOpSummary>,
        LaneError,
    >)
        requires
            self.wf(),
        ensures
            lane_file::summaries_result(r) == repo_change_ops(
                self@,
                path@,
                lane@,
                lane_file::opt_slice(base),
            ),
    {
        match self.ensure_lane(lane) {
            Err(error) => {
                return Err(error);
            },
            Ok(()) => {},
        }
        match self.files.get(path) {
            Some(file) => {
                assert(self@.files.contains_key(path@));
                file.change_ops(path, lane, base)
            },
            None => {
                let none: Vec<LaneOpSummary> = Vec::new();
                assert(types::summary_views(none@) =~= Seq::empty());
                Ok(none)
            },
        }
    }

    /// One operation of a lane at a path with its bytes.
    pub fn op_detail(&self, path: &str, lane: &str, base: Option<&[u8]>, op_id: &str) -> (r: Result<
        LaneOpDetail,
        LaneError,
    >)
        requires
            self.wf(),
        ensures
            lane_file::detail_result(r) == repo_op_detail(
                self@,
                path@,
                lane@,
                lane_file::opt_slice(base),
                op_id@,
            ),
    {
        match self.ensure_lane(lane) {
            Err(error) => {
                return Err(error);
            },
            Ok(()) => {},
        }
        match self.files.get(path) {
            Some(file) => {
                assert(self@.files.contains_key(path@));
                file.op_detail(path, lane, base, op_id)
            },
            None => Err(operation_missing(path, op_id)),
        }
    }

    /// Gives a path overlays in place of those it may have.
    fn insert_file(&mut self, path: &str, file: LaneFile)
        requires
            old(self).wf(),
            file.wf(),
            forall|k: Seq<char>| #[trigger]
                file@.lanes.contains_key(k) ==> old(self)@.lanes.contains(k),
        ensures
            final(self).wf(),
            final(self)@ == (Repo {
                files: old(self)@.files.insert(path@, file@),
                ..old(self)@
            }),
    {
        let ghost changed = file@;
        let _ = self.files.insert(path.to_owned(), file);
        proof {
            assert(self@.files =~= old(self)@.files.insert(path@, changed));
            assert(self@ =~= (Repo {
                files: old(self)@.files.insert(path@, changed),
                ..old(self)@
            }));
            assert forall|p: Seq<char>| #[trigger] self.files@.contains_key(p) implies self.files@[p].wf() by {
                if p != path@ {
                    assert(old(self).files@.contains_key(p));
                }
            }
            assert forall|p: Seq<char>| #[trigger] self@.files.contains_key(p) implies lane_file::file_ok(
                self@.files[p],
            ) by {
                if p != path@ {
                    assert(old(self)@.files.contains_key(p));
                }
            }
            assert forall|p: Seq<char>, k: Seq<char>|
                self@.files.contains_key(p) && #[trigger] self@.files[p].lanes.contains_key(
                    k,
                ) implies self@.lanes.contains(k) by {
                if p != path@ {
                    assert(old(self)@.files[p].lanes.contains_key(k));
                }
            }
        }
    }

    /// Puts the changed overlays of a path back, or drops them where none is left.
    fn put_file(&mut self, path: &str, file: LaneFile)
        requires
            old(self).wf(),
            !old(self)@.files.contains_key(path@),
            file.wf(),
            forall|k: Seq<char>| #[trigger]
                file@.lanes.contains_key(k) ==> old(self)@.lanes.contains(k),
        ensures
            final(self).wf(),
            final(self)@ == (Repo {
                files: with_file(old(self)@.files, path@, file@),
                ..old(self)@
            }),
    {
        if !file.is_empty() {
            self.insert_file(path, file);
        } else {
            assert(self@.files =~= old(self)@.files.remove(path@));
        }
    }

    /// Takes the overlays of a path out of the repo, if there are any.
    pub(crate) fn take_file(&mut self, path: &str) -> (r: Option<LaneFile>)
        requires
            old(self).wf(),
        ensures
            final(self).wf(),
            final(self)@ == (Repo { files: old(self)@.files.remove(path@), ..old(self)@ }),
            match r {
                Some(file) => {
                    &&& old(self)@.files.contains_key(path@)
                    &&& old(self)@.files[path@] == file@
                    &&& file.wf()
                    &&& forall|k: Seq<char>| #[trigger]
                        file@.lanes.contains_key(k) ==> old(self)@.lanes.contains(k)
                },
                None => !old(self)@.files.contains_key(path@),
            },
    {
        let r = self.files.remove(path);
        proof {
            assert(self@.files =~= old(self)@.files.remove(path@));
            assert(self@ =~= (Repo { files: old(self)@.files.remove(path@), ..old(self)@ }));
            assert forall|p: Seq<char>| #[trigger] self@.files.contains_key(p) implies lane_file::file_ok(
                self@.files[p],
            ) by {
                assert(old(self)@.files.contains_key(p));
            }
            assert forall|p: Seq<char>, k: Seq<char>|
                self@.files.contains_key(p) && #[trigger] self@.files[p].lanes.contains_key(
                    k,
                ) implies self@.lanes.contains(k) by {
                assert(old(self)@.files[p].lanes.contains_key(k));
            }
            if r is Some {
                let file = r->0;
                assert(old(self)@.files.contains_key(path@));
                assert forall|k: Seq<char>| #[trigger] file@.lanes.contains_key(k) implies old(
                    self,
                )@.lanes.contains(k) by {
                    assert(old(self)@.files[path@].lanes.contains_key(k));
                }
            }
        }
        r
    }

    /// Gives a lane content at a path; `None` deletes the file there. Reading the path in that
    /// lane with the same base gives the content back.
    pub fn replace_path(
        &mut self,
        path: &str,
        lane: &str,
        base: Option<&[u8]>,
        content: Option<Vec<u8>>,
    ) -> (r: Result<(), LaneError>)
        requires
            old(self).wf(),
        ensures
            final(self).wf(),
            match r {
                Ok(()) => {
                    &&& repo_replace(
                        old(self)@,
                        path@,
                        lane@,
                        lane_file::opt_slice(base),
                        lane_file::opt_vec(content),
                    ) == Ok::<Repo, LaneErrorView>(final(self)@)
                    &&& repo_read(final(self)@, path@, lane@, lane_file::opt_slice(base)) == Ok::<
                        Option<Seq<u8>>,
                        LaneErrorView,
                    >(lane_file::opt_vec(content))
                    &&& lane_file::made_faithfully(
                        lane_file::opt_slice(base),
                        lane_file::opt_vec(content),
                    )
                    &&& difference::written_is_listed(
                        final(self)@,
                        path@,
                        lane@,
                        lane_file::opt_slice(base),
                        lane_file::opt_vec(content),
                    )
                },
                Err(error) => {
                    &&& repo_replace(
                        old(self)@,
                        path@,
                        lane@,
                        lane_file::opt_slice(base),
                        lane_file::opt_vec(content),
                    ) == Err::<Repo, LaneErrorView>(error@)
                    &&& final(self)@ == old(self)@
                },
            },
            upkeep::repo_tidy(old(self)@) ==> upkeep::repo_tidy(final(self)@),
            r is Ok ==> upkeep::rests_after(
                old(self)@,
                final(self)@,
                path@,
                lane_file::opt_slice(base),
                lane_file::opt_slice(base),
            ),
    {
        match self.ensure_lane(lane) {
            Err(error) => {
                return Err(error);
            },
            Ok(()) => {},
        }
        proof {
            lemma_base_is_no_lane(self@, lane@);
        }
        let ghost before = self@;
        let ghost seen = lane_file::opt_vec(content);
        let taken = self.take_file(path);
        let existed = taken.is_some();
        let mut file = match taken {
            Some(file) => file,
            None => LaneFile::new(base),
        };
        let ghost old_file = file@;
        assert(old_file == file_at(before, path@, lane_file::opt_slice(base)));
        let outcome = file.replace(path, lane, base, content);
        let ghost new_file = file@;
        proof {
            if outcome is Ok {
                assert(lane_file::file_read(new_file, path@, lane@, lane_file::opt_slice(base))
                    == Ok::<Option<Seq<u8>>, LaneErrorView>(seen));
            }
            assert forall|k: Seq<char>| #[trigger] new_file.lanes.contains_key(k) implies before.lanes.contains(
                k,
            ) by {
                if k != lane@ {
                    assert(old_file.lanes.contains_key(k));
                }
            }
        }
        match outcome {
            Err(error) => {
                if existed {
                    self.insert_file(path, file);
                }
                proof {
                    assert(self@.files =~= before.files);
                    assert(self@ =~= before);
                }
                Err(error)
            },
            Ok(()) => {
                self.put_file(path, file);
                proof {
                    assert(self@.files =~= with_file(before.files, path@, new_file));
                    assert(self@ =~= (Repo {
                        files: with_file(before.files, path@, new_file),
                        ..before
                    }));
                    upkeep::lemma_replace_keeps(
                        before,
                        path@,
                        lane@,
                        lane_file::opt_slice(base),
                        seen,
                    );
                    lane_file::lemma_slice_len(base);
                    difference::lemma_written_is_listed(
                        before,
                        path@,
                        lane@,
                        lane_file::opt_slice(base),
                        seen,
                    );
                }
                Ok(())
            },
        }
    }

    /// Deletes the file at a path in a lane.
    pub fn delete_path(&mut self, path: &str, lane: &str, base: Option<&[u8]>) -> (r: Result<
        (),
        LaneError,
    >)
        requires
            old(self).wf(),
        ensures
            final(self).wf(),
            match r {
                Ok(()) => {
                    &&& repo_replace(old(self)@, path@, lane@, lane_file::opt_slice(base), None)
                        == Ok::<Repo, LaneErrorView>(final(self)@)
                    &&& repo_read(final(self)@, path@, lane@, lane_file::opt_slice(base)) == Ok::<
                        Option<Seq<u8>>,
                        LaneErrorView,
                    >(None)
                },
                Err(error) => {
                    &&& repo_replace(old(self)@, path@, lane@, lane_file::opt_slice(base), None)
                        == Err::<Repo, LaneErrorView>(error@)
                    &&& final(self)@ == old(self)@
                },
            },
            upkeep::repo_tidy(old(self)@) ==> upkeep::repo_tidy(final(self)@),
            r is Ok ==> upkeep::rests_after(
                old(self)@,
                final(self)@,
                path@,
                lane_file::opt_slice(base),
                lane_file::opt_slice(base),
            ),
    {
        self.replace_path(path, lane, base, None)
    }

    /// Puts the overlays of a path back after an attempt to promote something from them.
    pub(crate) fn put_promoted(
        &mut self,
        path: &str,
        file: LaneFile,
        outcome: Result<Option<Vec<u8>>, LaneError>,
        before: Ghost<Repo>,
    ) -> (r: Result<Option<Vec<u8>>, LaneError>)
        requires
            old(self).wf(),
            file.wf(),
            repo_ok(before@),
            before@.files.contains_key(path@),
            old(self)@ == (Repo { files: before@.files.remove(path@), ..before@ }),
            outcome is Err ==> file@ == before@.files[path@],
            forall|k: Seq<char>| #[trigger]
                file@.lanes.contains_key(k) ==> before@.lanes.contains(k),
        ensures
            final(self).wf(),
            r == outcome,
            match r {
                Ok(_) => final(self)@ == (Repo {
                    files: with_file(before@.files, path@, file@),
                    ..before@
                }),
                Err(_) => final(self)@ == before@,
            },
    {
        let ghost changed = file@;
        if outcome.is_ok() {
            self.put_file(path, file);
            proof {
                assert(self@.files =~= with_file(before@.files, path@, changed));
                assert(self@ =~= (Repo {
                    files: with_file(before@.files, path@, changed),
                    ..before@
                }));
            }
        } else {
            self.insert_file(path, file);
            proof {
                assert(self@.files =~= before@.files);
                assert(self@ =~= before@);
            }
        }
        outcome
    }

    /// Makes the named operations of a lane at a path part of the base, and returns the new base
    /// file. A failure changes nothing. Lanes whose operations conflict with the promoted ones
    /// keep showing the bytes they showed.
    pub fn promote_ops_path(
        &mut self,
        path: &str,
        lane: &str,
        base: Option<&[u8]>,
        op_ids: &Vec<String>,
    ) -> (r: Result<Option<Vec<u8>>, LaneError>)
        requires
            old(self).wf(),
        ensures
            final(self).wf(),
            promoted_result(r, final(self)@) == repo_promote_ops(
                old(self)@,
                path@,
                lane@,
                lane_file::opt_slice(base),
                text::texts(op_ids@),
            ),
            r is Err ==> final(self)@ == old(self)@,
            r matches Ok(promoted) ==> lanes_keep_bytes(
                promotion::promoted_by_name(old(self)@.files[path@], lane@, text::texts(op_ids@)),
                old(self)@,
                final(self)@,
                path@,
                lane@,
                lane_file::opt_slice(base),
                lane_file::opt_vec(promoted),
            ),
            upkeep::repo_tidy(old(self)@) ==> upkeep::repo_tidy(final(self)@),
            r matches Ok(promoted) ==> upkeep::rests_after(
                old(self)@,
                final(self)@,
                path@,
                lane_file::opt_slice(base),
                lane_file::opt_vec(promoted),
            ),
    {
        match self.ensure_lane(lane) {
            Err(error) => {
                return Err(error);
            },
            Ok(()) => {},
        }
        if op_ids.len() == 0 {
            return Err(LaneError::EmptyOperationSelection);
        }
        assert(text::texts(op_ids@)[0] == op_ids@[0]@);
        let ghost before = self@;
        proof {
            self.lemma_wf();
        }
        let mut file = match self.take_file(path) {
            None => {
                proof {
                    assert(self@.files =~= before.files);
                    assert(self@ =~= before);
                }
                return Err(operation_missing(path, op_ids[0].as_str()));
            },
            Some(file) => file,
        };
        let ghost old_file = file@;
        proof {
            file.lanes.lemma_wf();
            assert(old_file.lanes.dom() =~= file.lanes@.dom());
        }
        let outcome = file.promote_ops(path, lane, base, op_ids);
        let ghost new_file = file@;
        let r = self.put_promoted(path, file, outcome, Ghost(before));
        proof {
            if r is Ok {
                let what = promotion::promoted_by_name(old_file, lane@, text::texts(op_ids@));
                lemma_lanes_keep_bytes(
                    what,
                    before,
                    new_file,
                    path@,
                    lane@,
                    lane_file::opt_slice(base),
                    lane_file::opt_vec(r->Ok_0),
                );
                upkeep::lemma_promoted_by_name(old_file, lane@, text::texts(op_ids@));
                lane_file::lemma_slice_len(base);
                lane_file::lemma_vec_len(r->Ok_0);
                upkeep::lemma_promotion_keeps(
                    what,
                    before,
                    old_file,
                    path@,
                    lane@,
                    lane_file::opt_slice(base),
                    lane_file::opt_vec(r->Ok_0),
                    new_file,
                );
            }
        }
        r
    }

    /// Makes one operation of a lane at a path part of the base with other bytes in its place, and
    /// returns the new base file.
    pub fn resolve_op_path(
        &mut self,
        path: &str,
        lane: &str,
        base: Option<&[u8]>,
        op_id: &str,
        replacement: Vec<u8>,
    ) -> (r: Result<Option<Vec<u8>>, LaneError>)
        requires
            old(self).wf(),
            old(self)@.files.contains_key(path@) ==> promotion::ids_can_grow(
                old(self)@.files[path@],
                lane@,
            ),
        ensures
            final(self).wf(),
            promoted_result(r, final(self)@) == repo_resolve_op(
                old(self)@,
                path@,
                lane@,
                lane_file::opt_slice(base),
                op_id@,
                replacement@,
            ),
            r is Err ==> final(self)@ == old(self)@,
            r matches Ok(promoted) ==> lanes_keep_bytes(
                promotion::resolved_by_name(
                    old(self)@.files[path@],
                    lane@,
                    op_id@,
                    replacement@,
                ),
                old(self)@,
                final(self)@,
                path@,
                lane@,
                lane_file::opt_slice(base),
                lane_file::opt_vec(promoted),
            ),
            upkeep::repo_tidy(old(self)@) ==> upkeep::repo_tidy(final(self)@),
            r matches Ok(promoted) ==> upkeep::rests_after(
                old(self)@,
                final(self)@,
                path@,
                lane_file::opt_slice(base),
                lane_file::opt_vec(promoted),
            ),
    {
        match self.ensure_lane(lane) {
            Err(error) => {
                return Err(error);
            },
            Ok(()) => {},
        }
        let ghost before = self@;
        let ghost bytes = replacement@;
        proof {
            self.lemma_wf();
        }
        let mut file = match self.take_file(path) {
            None => {
                proof {
                    assert(self@.files =~= before.files);
                    assert(self@ =~= before);
                }
                return Err(operation_missing(path, op_id));
            },
            Some(file) => file,
        };
        let ghost old_file = file@;
        proof {
            file.lanes.lemma_wf();
            assert(old_file.lanes.dom() =~= file.lanes@.dom());
        }
        let outcome = file.resolve_op(path, lane, base, op_id, replacement);
        let ghost new_file = file@;
        let r = self.put_promoted(path, file, outcome, Ghost(before));
        proof {
            if r is Ok {
                let what = promotion::resolved_by_name(old_file, lane@, op_id@, bytes);
                lemma_lanes_keep_bytes(
                    what,
                    before,
                    new_file,
                    path@,
                    lane@,
                    lane_file::opt_slice(base),
                    lane_file::opt_vec(r->Ok_0),
                );
                upkeep::lemma_resolved_by_name(old_file, lane@, op_id@, bytes);
                lane_file::lemma_slice_len(base);
                lane_file::lemma_vec_len(r->Ok_0);
                upkeep::lemma_promotion_keeps(
                    what,
                    before,
                    old_file,
                    path@,
                    lane@,
                    lane_file::opt_slice(base),
                    lane_file::opt_vec(r->Ok_0),
                    new_file,
                );
            }
        }
        r
    }

    /// A copy of the repo, by way of the form in which it is stored.
    pub fn copy(&self) -> (r: Self)
        requires
            self.wf(),
        ensures
            r.wf(),
            r@ == self@,
    {
        proof {
            laws::law_storage_round_trip(self@);
        }
        match Self::from_storage_snapshot(self.storage_snapshot()) {
            Ok(copy) => copy,
            Err(_) => {
                assert(false);
                Self::new()
            },
        }
    }

    /// The state of the repo in the form in which it is stored.
    pub fn storage_snapshot(&self) -> (r: LaneRepoStorageSnapshot)
        requires
            self.wf(),
        ensures
            r@ == self@,
            snapshot_wf(r),
    {
        let mut lanes: TextMap<()> = TextMap::new();
        let mut i: usize = 0;
        proof {
            self.lanes.lemma_wf();
            self.last_exec.lemma_wf();
            self.files.lemma_wf();
        }
        while i < self.lanes.len()
            invariant
                i <= self.lanes.pairs().len(),
                self.lanes.wf(),
                lanes.wf(),
                forall|k: Seq<char>| #[trigger] lanes@.contains_key(k) ==> self.lanes@.contains_key(k),
                forall|m: int| 0 <= m < i ==> lanes@.contains_key((#[trigger] self.lanes.pairs()[m]).0),
            decreases self.lanes.pairs().len() - i,
        {
            proof {
                self.lanes.lemma_wf();
            }
            let _ = lanes.insert(self.lanes.key_at(i).to_owned(), ());
            i = i + 1;
        }
        let mut last_exec: TextMap<LaneRunState> = TextMap::new();
        let mut j: usize = 0;
        while j < self.last_exec.len()
            invariant
                j <= self.last_exec.pairs().len(),
                self.last_exec.wf(),
                last_exec.wf(),
                forall|k: Seq<char>| #[trigger]
                    run_views(last_exec@).contains_key(k) ==> run_views(
                        self.last_exec@,
                    ).contains_key(k) && run_views(self.last_exec@)[k] == run_views(last_exec@)[k],
                forall|m: int|
                    0 <= m < j ==> run_views(last_exec@).contains_key(
                        (#[trigger] self.last_exec.pairs()[m]).0,
                    ),
            decreases self.last_exec.pairs().len() - j,
        {
            proof {
                self.last_exec.lemma_wf();
            }
            let state = self.last_exec.value_at(j).copy();
            let ghost built = run_views(last_exec@);
            let ghost made = state@;
            let ghost key = self.last_exec.pairs()[j as int].0;
            assert(self.last_exec@.contains_key(key));
            let _ = last_exec.insert(self.last_exec.key_at(j).to_owned(), state);
            assert(run_views(last_exec@) =~= built.insert(key, made));
            j = j + 1;
        }
        let mut files: TextMap<LaneFileStorageSnapshot> = TextMap::new();
        let mut n: usize = 0;
        while n < self.files.len()
            invariant
                n <= self.files.pairs().len(),
                self.wf(),
                files.wf(),
                forall|k: Seq<char>| #[trigger] files@.contains_key(k) ==> files@[k].lanes.wf(),
                forall|k: Seq<char>| #[trigger]
                    stored_file_views(files@).contains_key(k) ==> file_views(
                        self.files@,
                    ).contains_key(k) && file_views(self.files@)[k] == stored_file_views(files@)[k],
                forall|m: int|
                    0 <= m < n ==> stored_file_views(files@).contains_key(
                        (#[trigger] self.files.pairs()[m]).0,
                    ),
            decreases self.files.pairs().len() - n,
        {
            proof {
                self.files.lemma_wf();
            }
            let ghost key = self.files.pairs()[n as int].0;
            assert(self.files@.contains_key(key));
            let file = self.files.value_at(n).storage_snapshot();
            let ghost built = stored_file_views(files@);
            let ghost made = file@;
            let _ = files.insert(self.files.key_at(n).to_owned(), file);
            assert(stored_file_views(files@) =~= built.insert(key, made));
            n = n + 1;
        }
        let r = LaneRepoStorageSnapshot { lanes, last_exec, files };
        proof {
            assert forall|k: Seq<char>| #[trigger] self.lanes@.contains_key(k) implies lanes@.contains_key(
                k,
            ) by {
                self.lanes.lemma_wf();
                let m = choose|m: int|
                    0 <= m < self.lanes.pairs().len() && (#[trigger] self.lanes.pairs()[m]).0 == k;
                assert(lanes@.contains_key(self.lanes.pairs()[m].0));
            }
            assert forall|k: Seq<char>| #[trigger] self@.runs.contains_key(k) implies r@.runs.contains_key(
                k,
            ) by {
                self.last_exec.lemma_wf();
                assert(self.last_exec@.contains_key(k));
                let m = choose|m: int|
                    0 <= m < self.last_exec.pairs().len() && (#[trigger] self.last_exec.pairs()[m]).0
                        == k;
                assert(run_views(last_exec@).contains_key(self.last_exec.pairs()[m].0));
            }
            assert forall|k: Seq<char>| #[trigger] self@.files.contains_key(k) implies r@.files.contains_key(
                k,
            ) by {
                self.files.lemma_wf();
                assert(self.files@.contains_key(k));
                let m = choose|m: int|
                    0 <= m < self.files.pairs().len() && (#[trigger] self.files.pairs()[m]).0 == k;
                assert(stored_file_views(files@).contains_key(self.files.pairs()[m].0));
            }
            assert(r@.lanes =~= self@.lanes);
            assert(r@.runs =~= self@.runs);
            assert(r@.files =~= self@.files);
        }
        r
    }

    /// The repo whose state was stored, or why the state is refused.
    pub fn from_storage_snapshot(snapshot: LaneRepoStorageSnapshot) -> (r: Result<Self, DecodeError>)
        requires
            snapshot_wf(snapshot),
        ensures
            match r {
                Ok(repo) => repo.wf() && loaded_repo(snapshot@) == Ok::<Repo, DecodeErrorView>(repo@),
                Err(error) => loaded_repo(snapshot@) == Err::<Repo, DecodeErrorView>(error@),
            },
    {
        let ghost stored = snapshot@;
        let mut i: usize = 0;
        proof {
            snapshot.lanes.lemma_wf();
        }
        while i < snapshot.lanes.len()
            invariant
                i <= snapshot.lanes.pairs().len(),
                stored == snapshot@,
                snapshot.lanes.wf(),
                text_map::sorted_texts(snapshot.lanes.keys()),
                forall|k: Seq<char>| #[trigger]
                    bad_lane(stored)(k) ==> snapshot.lanes.keys().contains(k),
                forall|m: int| 0 <= m < i ==> !bad_lane(stored)(#[trigger] snapshot.lanes.keys()[m]),
            decreases snapshot.lanes.pairs().len() - i,
        {
            let lane = snapshot.lanes.key_at(i);
            let ghost keys = snapshot.lanes.keys();
            assert(keys[i as int] == lane@);
            proof {
                snapshot.lanes.lemma_wf();
                assert(keys.contains(keys[i as int]));
            }
            match ensure_user_lane(lane) {
                Ok(()) => {},
                Err(_) => {
                    proof {
                        assert(bad_lane(stored)(keys[i as int]));
                        text_map::lemma_least(keys, i as int, bad_lane(stored));
                    }
                    return Err(DecodeError::ReservedLane(lane.to_owned()));
                },
            }
            i = i + 1;
        }
        proof {
            if text_map::holds_of_some(bad_lane(stored)) {
                let k = choose|k: Seq<char>| #[trigger] bad_lane(stored)(k);
                assert(snapshot.lanes.keys().contains(k));
                let m = choose|m: int|
                    0 <= m < snapshot.lanes.keys().len() && snapshot.lanes.keys()[m] == k;
                assert(!bad_lane(stored)(snapshot.lanes.keys()[m]));
            }
        }
        let mut files: TextMap<LaneFile> = TextMap::new();
        let mut n: usize = 0;
        let ghost paths = snapshot.files.keys();
        proof {
            snapshot.files.lemma_wf();
        }
        while n < snapshot.files.len()
            invariant
                n <= snapshot.files.pairs().len(),
                stored == snapshot@,
                snapshot_wf(snapshot),
                !text_map::holds_of_some(bad_lane(stored)),
                paths == snapshot.files.keys(),
                text_map::sorted_texts(paths),
                forall|k: int|
                    0 <= k < paths.len() ==> snapshot.files@.contains_key(#[trigger] paths[k])
                        && snapshot.files@[paths[k]] == snapshot.files.pairs()[k].1,
                forall|k: Seq<char>| #[trigger] bad_file(stored)(k) ==> paths.contains(k),
                forall|m: int| 0 <= m < n ==> !bad_file(stored)(#[trigger] paths[m]),
                files.wf(),
                forall|p: Seq<char>| #[trigger] files@.contains_key(p) ==> files@[p].wf(),
                forall|p: Seq<char>| #[trigger]
                    file_views(files@).contains_key(p) ==> stored.files.contains_key(p)
                        && file_views(files@)[p] == loaded_file(stored.files[p]),
                forall|m: int| 0 <= m < n ==> file_views(files@).contains_key(#[trigger] paths[m]),
            decreases snapshot.files.pairs().len() - n,
        {
            let file = snapshot.files.value_at(n);
            assert(snapshot.files@.contains_key(paths[n as int]));
            assert(stored.files[paths[n as int]] == file@);
            match file.into_lane_file() {
                Err(error) => {
                    proof {
                        assert(bad_file(stored)(paths[n as int]));
                        text_map::lemma_least(paths, n as int, bad_file(stored));
                    }
                    return Err(error);
                },
                Ok(file) => {
                    assert(!bad_file(stored)(paths[n as int]));
                    let ghost built = file_views(files@);
                    let ghost made = file@;
                    let _ = files.insert(snapshot.files.key_at(n).to_owned(), file);
                    assert(file_views(files@) =~= built.insert(paths[n as int], made));
                },
            }
            n = n + 1;
        }
        proof {
            if text_map::holds_of_some(bad_file(stored)) {
                let p = choose|p: Seq<char>| #[trigger] bad_file(stored)(p);
                assert(paths.contains(p));
                let m = choose|m: int| 0 <= m < paths.len() && paths[m] == p;
                assert(!bad_file(stored)(paths[m]));
            }
        }
        let repo = LaneRepo { lanes: snapshot.lanes, last_exec: snapshot.last_exec, files };
        proof {
            assert forall|p: Seq<char>| #[trigger] stored.files.contains_key(p) implies repo@.files.contains_key(
                p,
            ) by {
                assert(snapshot.files@.contains_key(p));
                assert(paths.contains(p));
                let m = choose|m: int| 0 <= m < paths.len() && paths[m] == p;
                assert(file_views(files@).contains_key(paths[m]));
            }
            assert(repo@.files =~= stored.files.map_values(|file: File| loaded_file(file)));
            assert(repo@ =~= (Repo {
                files: stored.files.map_values(|file: File| loaded_file(file)),
                ..stored
            }));
            assert forall|k: Seq<char>| #[trigger] repo@.lanes.contains(k) implies types::user_lane(
                k,
            ) by {
                assert(!bad_lane(stored)(k));
            }
            assert forall|p: Seq<char>| #[trigger] repo@.files.contains_key(p) implies lane_file::file_ok(
                repo@.files[p],
            ) by {
                assert(repo.files@.contains_key(p));
            }
            lemma_loaded_strays(stored, repo@);
        }
        match repo.validate() {
            Err(error) => {
                proof {
                    if !text_map::holds_of_some(stray_run(stored)) {
                        let p = text_map::least(stray_file(stored));
                        assert(repo@.files.contains_key(p));
                        assert(stray_overlay(repo@, repo@.files[p]) == stray_overlay(
                            stored,
                            stored.files[p],
                        ));
                    }
                }
                Err(error)
            },
            Ok(()) => Ok(repo),
        }
    }

    /// Accepts state whose run states and overlays belong to lanes.
    fn validate(&self) -> (r: Result<(), DecodeError>)
        requires
            self.lanes.wf(),
            self.last_exec.wf(),
            self.files.wf(),
            forall|p: Seq<char>| #[trigger] self.files@.contains_key(p) ==> self.files@[p].wf(),
            forall|k: Seq<char>| #[trigger] self@.lanes.contains(k) ==> types::user_lane(k),
            forall|p: Seq<char>| #[trigger]
                self@.files.contains_key(p) ==> lane_file::file_ok(self@.files[p]),
        ensures
            match r {
                Ok(()) => {
                    &&& !text_map::holds_of_some(stray_run(self@))
                    &&& !text_map::holds_of_some(stray_file(self@))
                    &&& self.wf()
                },
                Err(error) => if text_map::holds_of_some(stray_run(self@)) {
                    error@ == DecodeErrorView::ExecStateLaneMissing(
                        text_map::least(stray_run(self@)),
                    )
                } else {
                    &&& text_map::holds_of_some(stray_file(self@))
                    &&& self@.files.contains_key(text_map::least(stray_file(self@)))
                    &&& error@ == DecodeErrorView::OverlayLaneMissing(
                        text_map::least(
                            stray_overlay(
                                self@,
                                self@.files[text_map::least(stray_file(self@))],
                            ),
                        ),
                    )
                },
            },
    {
        let ghost run_keys = self.last_exec.keys();
        let mut i: usize = 0;
        proof {
            self.last_exec.lemma_wf();
        }
        while i < self.last_exec.len()
            invariant
                i <= self.last_exec.pairs().len(),
                self.lanes.wf(),
                self.last_exec.wf(),
                run_keys == self.last_exec.keys(),
                text_map::sorted_texts(run_keys),
                forall|k: Seq<char>| #[trigger] self.last_exec@.contains_key(k) <==> run_keys.contains(k),
                forall|m: int| 0 <= m < i ==> !stray_run(self@)(#[trigger] run_keys[m]),
            decreases self.last_exec.pairs().len() - i,
        {
            let lane = self.last_exec.key_at(i);
            assert(run_keys.contains(run_keys[i as int]));
            assert(self.last_exec@.contains_key(lane@));
            if !self.lanes.contains_key(lane) {
                proof {
                    assert(stray_run(self@)(run_keys[i as int]));
                    assert forall|k: Seq<char>| #[trigger] stray_run(self@)(k) implies run_keys.contains(
                        k,
                    ) by {
                        assert(self.last_exec@.contains_key(k));
                    }
                    text_map::lemma_least(run_keys, i as int, stray_run(self@));
                }
                return Err(DecodeError::ExecStateLaneMissing(lane.to_owned()));
            }
            i = i + 1;
        }
        proof {
            if text_map::holds_of_some(stray_run(self@)) {
                let k = choose|k: Seq<char>| #[trigger] stray_run(self@)(k);
                assert(self.last_exec@.contains_key(k));
                let m = choose|m: int| 0 <= m < run_keys.len() && run_keys[m] == k;
                assert(!stray_run(self@)(run_keys[m]));
            }
            self.files.lemma_wf();
        }
        let ghost paths = self.files.keys();
        let mut n: usize = 0;
        while n < self.files.len()
            invariant
                n <= self.files.pairs().len(),
                self.lanes.wf(),
                self.files.wf(),
                forall|p: Seq<char>| #[trigger] self.files@.contains_key(p) ==> self.files@[p].wf(),
                !text_map::holds_of_some(stray_run(self@)),
                paths == self.files.keys(),
                text_map::sorted_texts(paths),
                forall|k: Seq<char>| #[trigger] self.files@.contains_key(k) <==> paths.contains(k),
                forall|k: int|
                    0 <= k < paths.len() ==> self.files@.contains_key(#[trigger] paths[k])
                        && self.files@[paths[k]] == self.files.pairs()[k].1,
                forall|m: int| 0 <= m < n ==> !stray_file(self@)(#[trigger] paths[m]),
            decreases self.files.pairs().len() - n,
        {
            let file = self.files.value_at(n);
            assert(self.files@.contains_key(paths[n as int]));
            assert(self@.files[paths[n as int]] == file@);
            match self.first_stray(file) {
                Some(lane) => {
                    proof {
                        assert(stray_file(self@)(paths[n as int]));
                        assert forall|k: Seq<char>| #[trigger] stray_file(self@)(k) implies paths.contains(
                            k,
                        ) by {
                            assert(self.files@.contains_key(k));
                        }
                        text_map::lemma_least(paths, n as int, stray_file(self@));
                    }
                    return Err(DecodeError::OverlayLaneMissing(lane));
                },
                None => {},
            }
            match file.validate() {
                Ok(()) => {},
                Err(error) => {
                    return Err(error);
                },
            }
            n = n + 1;
        }
        proof {
            if text_map::holds_of_some(stray_file(self@)) {
                let p = choose|p: Seq<char>| #[trigger] stray_file(self@)(p);
                assert(self.files@.contains_key(p));
                let m = choose|m: int| 0 <= m < paths.len() && paths[m] == p;
                assert(!stray_file(self@)(paths[m]));
            }
            assert forall|k: Seq<char>| #[trigger] self@.runs.contains_key(k) implies self@.lanes.contains(
                k,
            ) by {
                assert(!stray_run(self@)(k));
            }
            assert forall|p: Seq<char>, k: Seq<char>|
                self@.files.contains_key(p) && #[trigger] self@.files[p].lanes.contains_key(
                    k,
                ) implies self@.lanes.contains(k) by {
                assert(!stray_file(self@)(p));
                assert(!stray_overlay(self@, self@.files[p])(k));
            }
        }
        Ok(())
    }

    /// The first lane of a file that does not exist, if there is one.
    fn first_stray(&self, file: &LaneFile) -> (r: Option<String>)
        requires
            self.lanes.wf(),
            file.wf(),
        ensures
            match r {
                Some(lane) => {
                    &&& text_map::holds_of_some(stray_overlay(self@, file@))
                    &&& lane@ == text_map::least(stray_overlay(self@, file@))
                },
                None => !text_map::holds_of_some(stray_overlay(self@, file@)),
            },
    {
        let ghost keys = file.lanes.keys();
        let ghost stray = stray_overlay(self@, file@);
        let mut i: usize = 0;
        proof {
            file.lanes.lemma_wf();
        }
        while i < file.lanes.len()
            invariant
                i <= file.lanes.pairs().len(),
                self.lanes.wf(),
                file.lanes.wf(),
                keys == file.lanes.keys(),
                stray == stray_overlay(self@, file@),
                text_map::sorted_texts(keys),
                forall|k: Seq<char>| #[trigger] file.lanes@.contains_key(k) <==> keys.contains(k),
                forall|m: int| 0 <= m < i ==> !stray(#[trigger] keys[m]),
            decreases file.lanes.pairs().len() - i,
        {
            let lane = file.lanes.key_at(i);
            assert(keys.contains(keys[i as int]));
            assert(file.lanes@.contains_key(lane@));
            if !self.lanes.contains_key(lane) {
                proof {
                    assert(stray(keys[i as int]));
                    assert forall|k: Seq<char>| #[trigger] stray(k) implies keys.contains(k) by {
                        assert(file.lanes@.contains_key(k));
                    }
                    text_map::lemma_least(keys, i as int, stray);
                }
                return Some(lane.to_owned());
            }
            i = i + 1;
        }
        proof {
            if text_map::holds_of_some(stray) {
                let k = choose|k: Seq<char>| #[trigger] stray(k);
                assert(file.lanes@.contains_key(k));
                let m = choose|m: int| 0 <= m < keys.len() && keys[m] == k;
                assert(!stray(keys[m]));
            }
        }
        None
    }
}

impl Default for LaneRepo {
    fn default() -> (r: Self)
        ensures
            r.wf(),
            r@ == (Repo { lanes: Set::empty(), runs: Map::empty(), files: Map::empty() }),
    {
        LaneRepo::new()
    }
}

/// The maps of a snapshot have their keys in order.
pub open spec fn snapshot_wf(snapshot: LaneRepoStorageSnapshot) -> bool {
    &&& snapshot.lanes.wf()
    &&& snapshot.last_exec.wf()
    &&& snapshot.files.wf()
    &&& forall|p: Seq<char>| #[trigger]
        snapshot.files@.contains_key(p) ==> snapshot.files@[p].lanes.wf()
}

/// The view of the outcome of a promotion and of the repo it leaves.
pub open spec fn promoted_result(r: Result<Option<Vec<u8>>, LaneError>, repo: Repo) -> Result<
    (Option<Seq<u8>>, Repo),
    LaneErrorView,
> {
    match r {
        Ok(bytes) => Ok((lane_file::opt_vec(bytes), repo)),
        Err(error) => Err(error@),
    }
}

/// After the promotion, each lane whose operations could not move along shows at the path what it
/// showed before.
pub open spec fn lanes_keep_bytes(
    what: PromotionView,
    before: Repo,
    after: Repo,
    path: Seq<char>,
    lane: Seq<char>,
    base: Option<Seq<u8>>,
    promoted: Option<Seq<u8>>,
) -> bool {
    forall|k: Seq<char>|
        before.files[path].lanes.contains_key(k) && promotion::keeps_bytes(
            what,
            base,
            promoted,
            lane,
            k,
            before.files[path].lanes[k],
        ) ==> #[trigger] repo_read(after, path, k, promoted) == repo_read(before, path, k, base)
}

/// What holds of the file after a promotion holds of the repo.
proof fn lemma_lanes_keep_bytes(
    what: PromotionView,
    before: Repo,
    file: File,
    path: Seq<char>,
    lane: Seq<char>,
    base: Option<Seq<u8>>,
    promoted: Option<Seq<u8>>,
)
    requires
        repo_ok(before),
        before.files.contains_key(path),
        before.files[path].base == lane_file::base_state(base),
        file.base == lane_file::base_state(promoted),
        promotion::snapshot_fault(
            path,
            base,
            before.files[path].lanes,
            text_map::listing(before.files[path].lanes.dom()),
        ) is None,
        text_map::is_listing(
            text_map::listing(before.files[path].lanes.dom()),
            before.files[path].lanes.dom(),
        ),
        promotion::bytes_are_kept(what, before.files[path], file, path, lane, base, promoted),
    ensures
        lanes_keep_bytes(
            what,
            before,
            (Repo { files: with_file(before.files, path, file), ..before }),
            path,
            lane,
            base,
            promoted,
        ),
{
    let after = Repo { files: with_file(before.files, path, file), ..before };
    let old_file = before.files[path];
    assert forall|k: Seq<char>|
        old_file.lanes.contains_key(k) && promotion::keeps_bytes(
            what,
            base,
            promoted,
            lane,
            k,
            old_file.lanes[k],
        ) implies #[trigger] repo_read(after, path, k, promoted) == repo_read(before, path, k, base) by {
        assert(before.files[path].lanes.contains_key(k));
        assert(before.lanes.contains(k));
        lemma_base_is_no_lane(before, k);
        let keys = text_map::listing(old_file.lanes.dom());
        assert(keys.contains(k));
        lemma_no_snapshot_fault(path, base, old_file.lanes, keys, k);
        assert(lane_file::file_read(file, path, k, promoted) == Ok::<
            Option<Seq<u8>>,
            LaneErrorView,
        >(promotion::shown(path, base, old_file.lanes[k])));
    }
}

/// Where every lane shows something, each of them does.
pub proof fn lemma_no_snapshot_fault(
    path: Seq<char>,
    base: Option<Seq<u8>>,
    lanes: Map<Seq<char>, Entry>,
    keys: Seq<Seq<char>>,
    k: Seq<char>,
)
    requires
        promotion::snapshot_fault(path, base, lanes, keys) is None,
        keys.contains(k),
    ensures
        lane_file::entry_bytes(path, base, lanes[k]) == Ok::<Option<Seq<u8>>, LaneErrorView>(
            promotion::shown(path, base, lanes[k]),
        ),
    decreases keys.len(),
{
    if keys[0] != k {
        let i = choose|i: int| 0 <= i < keys.len() && keys[i] == k;
        assert(keys.drop_first()[i - 1] == k);
        lemma_no_snapshot_fault(path, base, lanes, keys.drop_first(), k);
    }
}

/// Loading changes neither the lanes nor which lanes have overlays.
proof fn lemma_loaded_strays(stored: Repo, loaded: Repo)
    requires
        loaded == (Repo {
            files: stored.files.map_values(|file: File| loaded_file(file)),
            ..stored
        }),
    ensures
        stray_run(loaded) == stray_run(stored),
        stray_file(loaded) == stray_file(stored),
        forall|p: Seq<char>|
            stored.files.contains_key(p) ==> stray_overlay(loaded, #[trigger] loaded.files[p])
                == stray_overlay(stored, stored.files[p]),
{
    assert(stray_run(loaded) =~= stray_run(stored));
    assert forall|p: Seq<char>| stored.files.contains_key(p) implies stray_overlay(
        loaded,
        #[trigger] loaded.files[p],
    ) == stray_overlay(stored, stored.files[p]) by {
        assert(stray_overlay(loaded, loaded.files[p]) =~= stray_overlay(stored, stored.files[p]));
    }
    assert(stray_file(loaded) =~= stray_file(stored));
}

/// The name of the base is not the name of a lane.
pub proof fn lemma_base_is_no_lane(repo: Repo, lane: Seq<char>)
    requires
        repo_ok(repo),
        repo.lanes.contains(lane),
    ensures
        lane != "base"@,
{
    assert(types::user_lane(lane));
}

} // verus!
