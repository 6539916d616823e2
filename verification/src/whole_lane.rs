//! Promoting all that a lane has at a path, or at all paths.
use vstd::prelude::*;

use crate::commit::PromotedFile;
use crate::lane_file;
use crate::lane_file::{owned_bytes, Entry};
use crate::laws;
use crate::op_id;
use crate::repo;
use crate::repo::{LaneRepo, Repo};
use crate::text;
use crate::text::text_eq;
use crate::text_map;
use crate::types;
use crate::types::{LaneError, LaneErrorView, LaneOpSummary, OpSummaryView};
use crate::upkeep;

verus! {

/// The names of listed operations.
pub open spec fn op_names(list: Seq<OpSummaryView>) -> Seq<Seq<char>> {
    list.map_values(|op: OpSummaryView| op.op_id)
}

/// The outcome of promoting all operations of a lane at a path; without any the base stays.
pub open spec fn path_promoted(
    repo: Repo,
    path: Seq<char>,
    lane: Seq<char>,
    base: Option<Seq<u8>>,
) -> Result<(Option<Seq<u8>>, Repo), LaneErrorView> {
    match repo::repo_change_ops(repo, path, lane, base) {
        Err(error) => Err(error),
        Ok(list) => if list.len() == 0 {
            Ok((base, repo))
        } else {
            repo::repo_promote_ops(repo, path, lane, base, op_names(list))
        },
    }
}

fn names_of(list: &Vec<LaneOpSummary>) -> (r: Vec<String>)
    ensures
        text::texts(r@) == op_names(types::summary_views(list@)),
{
    let mut names: Vec<String> = Vec::new();
    let ghost all = op_names(types::summary_views(list@));
    let mut i: usize = 0;
    while i < list.len()
        invariant
            i <= list@.len(),
            all == op_names(types::summary_views(list@)),
            text::texts(names@) =~= all.subrange(0, i as int),
        decreases list@.len() - i,
    {
        let ghost before = text::texts(names@);
        names.push(list[i].op_id.clone());
        proof {
            assert(types::summary_views(list@)[i as int] == list@[i as int]@);
            assert(all[i as int] == list@[i as int].op_id@);
            assert(text::texts(names@) =~= before.push(list@[i as int].op_id@));
        }
        i = i + 1;
    }
    assert(all.subrange(0, i as int) =~= all);
    names
}

/// Each operation of a lane is among those that its listing names.
proof fn lemma_all_selected(
    state: Repo,
    path: Seq<char>,
    lane: Seq<char>,
    base: Option<Seq<u8>>,
    names: Seq<Seq<char>>,
)
    requires
        repo::repo_ok(state),
        repo::repo_change_ops(state, path, lane, base) is Ok,
        names == op_names(repo::repo_change_ops(state, path, lane, base)->Ok_0),
        state.files.contains_key(path),
        state.files[path].lanes.contains_key(lane),
        state.files[path].lanes[lane] is Present,
        forall|i: int|
            0 <= i < state.files[path].lanes[lane]->Present_0.len() ==> 0 <= (
            #[trigger] state.files[path].lanes[lane]->Present_0[i]).id <= u64::MAX,
    ensures
        forall|i: int|
            0 <= i < state.files[path].lanes[lane]->Present_0.len() ==> op_id::is_selected(
                lane,
                names,
                (#[trigger] state.files[path].lanes[lane]->Present_0[i]).id,
            ),
{
    let list = state.files[path].lanes[lane]->Present_0;
    assert(lane_file::file_ok(state.files[path]));
    assert(lane_file::entry_ok(state.files[path].lanes[lane]));
    assert forall|i: int| 0 <= i < list.len() implies op_id::is_selected(
        lane,
        names,
        (#[trigger] list[i]).id,
    ) by {
        assert(names[i] == op_id::op_name(lane, list[i].id));
        op_id::law_op_name_is_read_back(lane, list[i].id);
        assert(op_id::parsed_op_id(lane, names[i]) == Some(
            op_id::ParsedOpId::Present(list[i].id as u64),
        ));
    }
}

impl LaneRepo {
    /// Makes all operations of a lane at a path part of the base, and returns the base file after
    /// that. A failure changes nothing. Where there was an operation, the lane has no overlay at
    /// the path any more and sees the new base.
    pub fn promote_path(&mut self, path: &str, lane: &str, base: Option<&[u8]>) -> (r: Result<
        Option<Vec<u8>>,
        LaneError,
    >)
        requires
            old(self).wf(),
        ensures
            final(self).wf(),
            repo::promoted_result(r, final(self)@) == path_promoted(
                old(self)@,
                path@,
                lane@,
                lane_file::opt_slice(base),
            ),
            r is Err ==> final(self)@ == old(self)@,
            r is Ok && repo::repo_change_ops(
                old(self)@,
                path@,
                lane@,
                lane_file::opt_slice(base),
            )->Ok_0.len() > 0 ==> {
                &&& !(final(self)@.files.contains_key(path@)
                    && final(self)@.files[path@].lanes.contains_key(lane@))
                &&& repo::repo_read(final(self)@, path@, lane@, lane_file::opt_vec(r->Ok_0)) == Ok::<
                    Option<Seq<u8>>,
                    LaneErrorView,
                >(lane_file::opt_vec(r->Ok_0))
            },
            upkeep::repo_tidy(old(self)@) ==> upkeep::repo_tidy(final(self)@),
            r matches Ok(promoted) ==> upkeep::rests_after(
                old(self)@,
                final(self)@,
                path@,
                lane_file::opt_slice(base),
                lane_file::opt_vec(promoted),
            ),
    {
        proof {
            upkeep::lemma_unchanged_rests(self@, path@, lane_file::opt_slice(base));
        }
        let list = match self.change_ops(path, lane, base) {
            Err(error) => {
                return Err(error);
            },
            Ok(list) => list,
        };
        if list.len() == 0 {
            return Ok(owned_bytes(base));
        }
        let names = names_of(&list);
        let ghost before = self@;
        let ghost was = lane_file::opt_slice(base);
        proof {
            self.lemma_wf();
        }
        let outcome = self.promote_ops_path(path, lane, base, &names);
        proof {
            if outcome is Ok {
                repo::lemma_base_is_no_lane(before, lane@);
                match before.files[path@].lanes[lane@] {
                    Entry::Present(ops) => {
                        assert forall|i: int| 0 <= i < ops.len() implies 0 <= (
                        #[trigger] ops[i]).id <= u64::MAX by {
                            old(self).lemma_numbers(path@, lane@, i);
                        }
                        lemma_all_selected(before, path@, lane@, was, text::texts(names@));
                        laws::law_promoted_lane_follows(
                            before,
                            path@,
                            lane@,
                            was,
                            text::texts(names@),
                            ops,
                        );
                    },
                    Entry::Deleted => {},
                }
            }
        }
        outcome
    }
}

/// The base file that a list gives for a path; a later one counts before an earlier one.
pub open spec fn base_for(bases: Seq<(Seq<char>, Option<Seq<u8>>)>, path: Seq<char>) -> Option<
    Option<Seq<u8>>,
>
    decreases bases.len(),
{
    if bases.len() == 0 {
        None
    } else if bases.last().0 == path {
        Some(bases.last().1)
    } else {
        base_for(bases.drop_last(), path)
    }
}

/// The view of a list of base files.
pub open spec fn base_views(bases: Seq<(String, Option<Vec<u8>>)>) -> Seq<
    (Seq<char>, Option<Seq<u8>>),
> {
    Seq::new(bases.len(), |i: int| (bases[i].0@, lane_file::opt_vec(bases[i].1)))
}

fn base_at<'a>(bases: &'a Vec<(String, Option<Vec<u8>>)>, path: &str) -> (r: Option<
    &'a Option<Vec<u8>>,
>)
    ensures
        match r {
            Some(base) => base_for(base_views(bases@), path@) == Some(lane_file::opt_vec(*base)),
            None => base_for(base_views(bases@), path@) is None,
        },
{
    let ghost all = base_views(bases@);
    let mut i: usize = bases.len();
    assert(all.subrange(0, i as int) =~= all);
    while i > 0
        invariant
            i <= bases@.len(),
            all == base_views(bases@),
            base_for(all, path@) == base_for(all.subrange(0, i as int), path@),
        decreases i,
    {
        proof {
            let seen = all.subrange(0, i as int);
            assert(seen.last() == all[i - 1]);
            assert(seen.drop_last() =~= all.subrange(0, i - 1));
        }
        if text_eq(bases[i - 1].0.as_str(), path) {
            return Some(&bases[i - 1].1);
        }
        i = i - 1;
    }
    None
}

/// The view of promoted files.
pub open spec fn promoted_views(files: Seq<PromotedFile>) -> Seq<(Seq<char>, Option<Seq<u8>>)> {
    Seq::new(files.len(), |i: int| files[i]@)
}

/// The outcome of promoting all operations of a lane at some paths, one after another.
pub open spec fn paths_promoted(
    repo: Repo,
    lane: Seq<char>,
    bases: Seq<(Seq<char>, Option<Seq<u8>>)>,
    paths: Seq<Seq<char>>,
) -> Result<(Seq<(Seq<char>, Option<Seq<u8>>)>, Repo), LaneErrorView>
    decreases paths.len(),
{
    if paths.len() == 0 {
        Ok((Seq::empty(), repo))
    } else {
        match paths_promoted(repo, lane, bases, paths.drop_last()) {
            Err(error) => Err(error),
            Ok((files, before)) => match base_for(bases, paths.last()) {
                None => Err(LaneErrorView::BaseMissing(paths.last())),
                Some(base) => match path_promoted(before, paths.last(), lane, base) {
                    Err(error) => Err(error),
                    Ok((bytes, after)) => Ok((files.push((paths.last(), bytes)), after)),
                },
            },
        }
    }
}

proof fn lemma_paths_error(
    repo: Repo,
    lane: Seq<char>,
    bases: Seq<(Seq<char>, Option<Seq<u8>>)>,
    paths: Seq<Seq<char>>,
    n: int,
)
    requires
        0 <= n <= paths.len(),
        paths_promoted(repo, lane, bases, paths.subrange(0, n)) is Err,
    ensures
        paths_promoted(repo, lane, bases, paths) == paths_promoted(
            repo,
            lane,
            bases,
            paths.subrange(0, n),
        ),
    decreases paths.len() - n,
{
    if n == paths.len() {
        assert(paths.subrange(0, n) =~= paths);
    } else {
        assert(paths.subrange(0, n + 1).drop_last() =~= paths.subrange(0, n));
        lemma_paths_error(repo, lane, bases, paths, n + 1);
    }
}

/// The outcome of promoting all that a lane has.
pub open spec fn lane_promoted(
    repo: Repo,
    lane: Seq<char>,
    bases: Seq<(Seq<char>, Option<Seq<u8>>)>,
) -> Result<(Seq<(Seq<char>, Option<Seq<u8>>)>, Repo), LaneErrorView> {
    if !repo.lanes.contains(lane) {
        Err(LaneErrorView::LaneMissing(lane))
    } else {
        paths_promoted(repo, lane, bases, repo::overlay_listing(repo, lane))
    }
}

/// Promoting a path leaves the overlays of other paths as they were, and all lanes.
proof fn lemma_path_promoted_is_local(
    repo: Repo,
    path: Seq<char>,
    lane: Seq<char>,
    base: Option<Seq<u8>>,
)
    requires
        path_promoted(repo, path, lane, base) is Ok,
    ensures
        ({
            let after = path_promoted(repo, path, lane, base)->Ok_0.1;
            &&& after.lanes == repo.lanes
            &&& forall|p: Seq<char>|
                p != path ==> #[trigger] after.files.contains_key(p) == repo.files.contains_key(p)
            &&& forall|p: Seq<char>| p != path ==> #[trigger] after.files[p] == repo.files[p]
        }),
{
}

/// Whether a lane has an overlay at a path.
pub open spec fn has_overlay(repo: Repo, lane: Seq<char>, path: Seq<char>) -> bool {
    repo.files.contains_key(path) && repo.files[path].lanes.contains_key(lane)
}

/// A path that is not among the first of a list.
spec fn is_later(list: Seq<Seq<char>>, n: int, path: Seq<char>) -> bool {
    forall|j: int| 0 <= j < n ==> #[trigger] list[j] != path
}

/// Two repos hold the same overlays at a path.
spec fn same_at(a: Repo, b: Repo, path: Seq<char>) -> bool {
    a.files.contains_key(path) == b.files.contains_key(path) && a.files[path] == b.files[path]
}

/// An overlay without operations.
pub open spec fn no_ops(entry: Entry) -> bool {
    entry matches Entry::Present(list) && list.len() == 0
}

/// Base files after some of them have been replaced.
pub open spec fn with_promoted(
    bases: Map<Seq<char>, Option<Seq<u8>>>,
    files: Seq<(Seq<char>, Option<Seq<u8>>)>,
) -> Map<Seq<char>, Option<Seq<u8>>>
    decreases files.len(),
{
    if files.len() == 0 {
        bases
    } else {
        with_promoted(bases, files.drop_last()).insert(files.last().0, files.last().1)
    }
}

/// The given base files are those that the overlays of a lane rest on.
pub open spec fn rightly_given(
    state: Repo,
    lane: Seq<char>,
    bases: Map<Seq<char>, Option<Seq<u8>>>,
    given: Seq<(Seq<char>, Option<Seq<u8>>)>,
) -> bool {
    forall|p: Seq<char>| #[trigger]
        repo::overlaid(state, lane).contains(p) ==> base_for(given, p) == Some(bases[p])
}

/// Where the overlays of a lane rested on the given base files, all overlays rest on what they
/// rested on and on the promoted files.
pub open spec fn rests_after_all(
    before: Repo,
    after: Repo,
    lane: Seq<char>,
    given: Seq<(Seq<char>, Option<Seq<u8>>)>,
    files: Seq<(Seq<char>, Option<Seq<u8>>)>,
) -> bool {
    forall|bases: Map<Seq<char>, Option<Seq<u8>>>| #[trigger]
        upkeep::rests_on(before, bases) && rightly_given(before, lane, bases, given)
            ==> upkeep::rests_on(after, with_promoted(bases, files))
}

/// A base file that has not been replaced is the one it was.
proof fn lemma_not_promoted(
    bases: Map<Seq<char>, Option<Seq<u8>>>,
    files: Seq<(Seq<char>, Option<Seq<u8>>)>,
    path: Seq<char>,
)
    requires
        forall|i: int| 0 <= i < files.len() ==> (#[trigger] files[i]).0 != path,
    ensures
        with_promoted(bases, files)[path] == bases[path],
    decreases files.len(),
{
    if files.len() > 0 {
        let rest = files.drop_last();
        assert(forall|i: int| 0 <= i < rest.len() ==> rest[i] == files[i]);
        lemma_not_promoted(bases, rest, path);
        assert(files[files.len() - 1].0 != path);
    }
}

/// Promoting one more path of a lane.
proof fn lemma_one_more_path(
    before: Repo,
    was: Repo,
    after: Repo,
    lane: Seq<char>,
    given: Seq<(Seq<char>, Option<Seq<u8>>)>,
    files: Seq<(Seq<char>, Option<Seq<u8>>)>,
    path: Seq<char>,
    base: Option<Seq<u8>>,
    promoted: Option<Seq<u8>>,
)
    requires
        rests_after_all(before, was, lane, given, files),
        upkeep::rests_after(was, after, path, base, promoted),
        repo::overlaid(before, lane).contains(path),
        base_for(given, path) == Some(base),
        forall|i: int| 0 <= i < files.len() ==> (#[trigger] files[i]).0 != path,
    ensures
        rests_after_all(before, after, lane, given, files.push((path, promoted))),
{
    let more = files.push((path, promoted));
    assert(more.drop_last() =~= files);
    assert forall|bases: Map<Seq<char>, Option<Seq<u8>>>| #[trigger]
        upkeep::rests_on(before, bases) && rightly_given(before, lane, bases, given) implies upkeep::rests_on(
        after,
        with_promoted(bases, more),
    ) by {
        lemma_not_promoted(bases, files, path);
        assert(upkeep::rests_on(was, with_promoted(bases, files)));
        assert(with_promoted(bases, files)[path] == base);
    }
}

impl LaneRepo {
    /// Makes all that a lane has part of the base, path by path in order, and returns the base
    /// files after that. For each path at which the lane has an overlay the base file is to be
    /// given. A failure changes nothing. Afterwards the lane has no overlay but where it had one
    /// without operations: a new file that is empty.
    pub fn promote_lane(&mut self, lane: &str, bases: Vec<(String, Option<Vec<u8>>)>) -> (r: Result<
        Vec<PromotedFile>,
        LaneError,
    >)
        requires
            old(self).wf(),
        ensures
            final(self).wf(),
            (match r {
                Ok(files) => Ok((promoted_views(files@), final(self)@)),
                Err(error) => Err(error@),
            }) == lane_promoted(old(self)@, lane@, base_views(bases@)),
            r is Err ==> final(self)@ == old(self)@,
            r is Ok ==> forall|p: Seq<char>| #[trigger]
                has_overlay(final(self)@, lane@, p) ==> has_overlay(old(self)@, lane@, p)
                    && no_ops(old(self)@.files[p].lanes[lane@]),
            upkeep::repo_tidy(old(self)@) ==> upkeep::repo_tidy(final(self)@),
            r matches Ok(files) ==> rests_after_all(
                old(self)@,
                final(self)@,
                lane@,
                base_views(bases@),
                promoted_views(files@),
            ),
    {
        let ghost before = self@;
        let ghost given = base_views(bases@);
        let mut draft = self.copy();
        let paths = match self.overlay_paths(lane) {
            Err(error) => {
                return Err(error);
            },
            Ok(paths) => paths,
        };
        let ghost all = text::strs(paths@);
        let mut files: Vec<PromotedFile> = Vec::new();
        let mut i: usize = 0;
        proof {
            assert(all.subrange(0, 0) =~= Seq::empty());
            assert(promoted_views(files@) =~= Seq::empty());
        }
        while i < paths.len()
            invariant
                i <= paths@.len(),
                all == text::strs(paths@),
                all == repo::overlay_listing(before, lane@),
                before == old(self)@,
                before.lanes.contains(lane@),
                self@ == before,
                self.wf(),
                draft.wf(),
                given == base_views(bases@),
                paths_promoted(before, lane@, given, all.subrange(0, i as int)) == Ok::<
                    (Seq<(Seq<char>, Option<Seq<u8>>)>, Repo),
                    LaneErrorView,
                >((promoted_views(files@), draft@)),
                text_map::is_listing(all, repo::overlaid(before, lane@)),
                forall|j: int|
                    0 <= j < i && has_overlay(draft@, lane@, #[trigger] all[j]) ==> no_ops(
                        before.files[all[j]].lanes[lane@],
                    ),
                forall|p: Seq<char>| #[trigger]
                    is_later(all, i as int, p) ==> same_at(draft@, before, p),
                upkeep::repo_tidy(before) ==> upkeep::repo_tidy(draft@),
                files@.len() == i,
                forall|j: int| 0 <= j < i ==> (#[trigger] promoted_views(files@)[j]).0 == all[j],
                rests_after_all(before, draft@, lane@, given, promoted_views(files@)),
            decreases paths@.len() - i,
        {
            let ghost was = draft@;
            let path: &str = paths[i];
            proof {
                assert(all.subrange(0, i + 1).drop_last() =~= all.subrange(0, i as int));
                assert(all.subrange(0, i + 1).last() == path@);
            }
            let base = match base_at(&bases, path) {
                None => {
                    proof {
                        lemma_paths_error(before, lane@, given, all, i + 1);
                    }
                    return Err(LaneError::BaseMissing { path: path.to_owned() });
                },
                Some(base) => base,
            };
            let slice: Option<&[u8]> = match base {
                Some(bytes) => Some(bytes.as_slice()),
                None => None,
            };
            let ghost base_was = lane_file::opt_slice(slice);
            proof {
                assert forall|j: int| 0 <= j < i implies #[trigger] all[j] != path@ by {
                    assert(text::text_lt(all[j], all[i as int]));
                    text::lemma_text_lt_irreflexive(path@);
                }
                assert(is_later(all, i as int, path@));
                assert(same_at(was, before, path@));
                assert(all.contains(all[i as int]));
                assert(repo::overlaid(before, lane@).contains(path@));
            }
            match draft.promote_path(path, lane, slice) {
                Err(error) => {
                    proof {
                        lemma_paths_error(before, lane@, given, all, i + 1);
                    }
                    return Err(error);
                },
                Ok(bytes) => {
                    let ghost seen = promoted_views(files@);
                    let ghost shown = (path@, lane_file::opt_vec(bytes));
                    files.push(PromotedFile { path: path.to_owned(), bytes });
                    proof {
                        assert(promoted_views(files@) =~= seen.push(shown));
                        lemma_one_more_path(
                            before,
                            was,
                            draft@,
                            lane@,
                            given,
                            seen,
                            path@,
                            base_was,
                            shown.1,
                        );
                        lemma_path_promoted_is_local(was, path@, lane@, base_was);
                        assert forall|j: int|
                            0 <= j < i + 1 && has_overlay(
                                draft@,
                                lane@,
                                #[trigger] all[j],
                            ) implies no_ops(before.files[all[j]].lanes[lane@]) by {
                            if j < i {
                                assert(draft@.files.contains_key(all[j]) == was.files.contains_key(
                                    all[j],
                                ));
                                assert(draft@.files[all[j]] == was.files[all[j]]);
                                assert(has_overlay(was, lane@, all[j]));
                            }
                        }
                        assert forall|p: Seq<char>| #[trigger] is_later(all, i + 1, p) implies same_at(
                            draft@,
                            before,
                            p,
                        ) by {
                            assert(all[i as int] != p);
                            assert(is_later(all, i as int, p));
                            assert(same_at(was, before, p));
                            assert(draft@.files[p] == was.files[p]);
                            assert(draft@.files.contains_key(p) == was.files.contains_key(p));
                        }
                    }
                },
            }
            i = i + 1;
        }
        proof {
            assert(all.subrange(0, i as int) =~= all);
            assert forall|p: Seq<char>| #[trigger]
                has_overlay(draft@, lane@, p) implies has_overlay(before, lane@, p) && no_ops(
                before.files[p].lanes[lane@],
            ) by {
                if all.contains(p) {
                    let j = choose|j: int| 0 <= j < all.len() && all[j] == p;
                    assert(has_overlay(draft@, lane@, all[j]));
                    assert(repo::overlaid(before, lane@).contains(p));
                } else {
                    assert forall|j: int| 0 <= j < all.len() implies #[trigger] all[j] != p by {
                        assert(all.contains(all[j]));
                    }
                    assert(is_later(all, i as int, p));
                    assert(same_at(draft@, before, p));
                    assert(repo::overlaid(before, lane@).contains(p));
                }
            }
        }
        *self = draft;
        Ok(files)
    }
}

} // verus!
