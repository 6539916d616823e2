//! What lanes keep true of the repo as they write, promote and go.
use vstd::prelude::*;

use crate::conflict;
use crate::lane_file;
use crate::lane_file::{Entry, File};
use crate::op_id;
use crate::op_id::ParsedOpId;
use crate::ops;
use crate::ops::Op;
use crate::promotion;
use crate::promotion::PromotionView;
use crate::rebase;
use crate::repo;
use crate::repo::Repo;
use crate::text_map;
use crate::types::LaneErrorView;

verus! {

/// The operations of every lane at a path are as lanes write them.
pub open spec fn file_tidy(file: File) -> bool {
    forall|k: Seq<char>| #[trigger]
        file.lanes.contains_key(k) ==> lane_file::entry_tidy(file.lanes[k])
}

/// All operations in the repo are as lanes write them: in order, apart, with keys that increase
/// and with different numbers.
pub open spec fn repo_tidy(repo: Repo) -> bool {
    forall|p: Seq<char>| #[trigger] repo.files.contains_key(p) ==> file_tidy(repo.files[p])
}

/// There are overlays at the path, they were recorded over `base`, and each can be shown there.
pub open spec fn file_rests_on(file: File, path: Seq<char>, base: Option<Seq<u8>>) -> bool {
    &&& file.base == lane_file::base_state(base)
    &&& file.lanes != Map::<Seq<char>, Entry>::empty()
    &&& forall|k: Seq<char>| #[trigger]
        file.lanes.contains_key(k) ==> lane_file::entry_bytes(path, base, file.lanes[k]) is Ok
}

/// The overlays at each path rest on the base file that `bases` has there.
pub open spec fn rests_on(repo: Repo, bases: Map<Seq<char>, Option<Seq<u8>>>) -> bool {
    forall|p: Seq<char>| #[trigger]
        repo.files.contains_key(p) ==> bases.contains_key(p) && file_rests_on(
            repo.files[p],
            p,
            bases[p],
        )
}

/// A repo whose overlays are as lanes write them and rest on `bases`.
pub open spec fn sound_repo(state: Repo, bases: Map<Seq<char>, Option<Seq<u8>>>) -> bool {
    &&& repo::repo_ok(state)
    &&& repo::repo_finite(state)
    &&& repo_tidy(state)
    &&& rests_on(state, bases)
}

/// Where the overlays of a path rested on `base`, they rest on `next` after a change at that
/// path, and those of other paths on what they rested on.
pub open spec fn rests_after(
    before: Repo,
    after: Repo,
    path: Seq<char>,
    base: Option<Seq<u8>>,
    next: Option<Seq<u8>>,
) -> bool {
    forall|bases: Map<Seq<char>, Option<Seq<u8>>>| #[trigger]
        rests_on(before, bases) && (before.files.contains_key(path) ==> bases[path] == base)
            ==> rests_on(after, bases.insert(path, next))
}

/// Changing the overlays of one path keeps what holds of the others.
pub proof fn lemma_with_file(
    before: Repo,
    path: Seq<char>,
    file: File,
    base: Option<Seq<u8>>,
    next: Option<Seq<u8>>,
)
    requires
        file.base == lane_file::base_state(next),
        forall|bases: Map<Seq<char>, Option<Seq<u8>>>| #[trigger]
            rests_on(before, bases) && (before.files.contains_key(path) ==> bases[path] == base)
                ==> forall|k: Seq<char>| #[trigger]
                file.lanes.contains_key(k) ==> lane_file::entry_bytes(path, next, file.lanes[k]) is Ok,
        (before.files.contains_key(path) ==> file_tidy(before.files[path])) ==> file_tidy(file),
    ensures
        ({
            let after = Repo { files: repo::with_file(before.files, path, file), ..before };
            &&& repo_tidy(before) ==> repo_tidy(after)
            &&& rests_after(before, after, path, base, next)
        }),
{
    let after = Repo { files: repo::with_file(before.files, path, file), ..before };
    if repo_tidy(before) {
        assert forall|p: Seq<char>| #[trigger] after.files.contains_key(p) implies file_tidy(
            after.files[p],
        ) by {
            if p != path {
                assert(before.files.contains_key(p));
            } else {
                assert(before.files.contains_key(path) ==> file_tidy(before.files[path]));
            }
        }
    }
    assert forall|bases: Map<Seq<char>, Option<Seq<u8>>>| #[trigger]
        rests_on(before, bases) && (before.files.contains_key(path) ==> bases[path] == base) implies rests_on(
        after,
        bases.insert(path, next),
    ) by {
        assert forall|p: Seq<char>| #[trigger] after.files.contains_key(p) implies bases.insert(
            path,
            next,
        ).contains_key(p) && file_rests_on(after.files[p], p, bases.insert(path, next)[p]) by {
            if p != path {
                assert(before.files.contains_key(p));
            }
        }
    }
}

/// Giving a lane content keeps the repo tidy and its overlays on their bases.
pub proof fn lemma_replace_keeps(
    before: Repo,
    path: Seq<char>,
    lane: Seq<char>,
    base: Option<Seq<u8>>,
    content: Option<Seq<u8>>,
)
    requires
        repo::repo_replace(before, path, lane, base, content) is Ok,
        lane_file::made_faithfully(base, content),
    ensures
        ({
            let after = repo::repo_replace(before, path, lane, base, content)->Ok_0;
            &&& repo_tidy(before) ==> repo_tidy(after)
            &&& rests_after(before, after, path, base, base)
        }),
{
    let old_file = repo::file_at(before, path, base);
    let entry = lane_file::entry_for(base, content);
    let file = promotion::file_replace(old_file, path, lane, base, content)->Ok_0;
    assert(lane_file::seen(path, base, entry) is Ok);
    assert forall|k: Seq<char>| #[trigger] file.lanes.contains_key(k) && k != lane implies old_file.lanes.contains_key(
        k,
    ) && file.lanes[k] == old_file.lanes[k] by {}
    lemma_with_file(before, path, file, base, base);
}

/// Some of the operations of a list with different numbers have different numbers.
pub proof fn lemma_filter_numbered(list: Seq<Op>, keep: spec_fn(Op) -> bool)
    requires
        lane_file::numbered(list),
    ensures
        lane_file::numbered(list.filter(keep)),
    decreases list.len(),
{
    reveal(Seq::filter);
    if list.len() > 0 {
        let rest = list.drop_last();
        assert(forall|i: int| 0 <= i < rest.len() ==> rest[i] == list[i]);
        lemma_filter_numbered(rest, keep);
        rebase::lemma_filter_elements(rest, keep);
        let before = rest.filter(keep);
        let kept = list.filter(keep);
        assert forall|i: int, j: int| 0 <= i < j < kept.len() implies (#[trigger] kept[i]).id != (
        #[trigger] kept[j]).id by {
            if j == before.len() {
                assert(rest.contains(before[i]));
                let k = choose|k: int| 0 <= k < rest.len() && rest[k] == before[i];
                assert(list[k].id != list[list.len() - 1].id);
            }
        }
        assert forall|i: int| 0 <= i < kept.len() implies 0 <= (#[trigger] kept[i]).id <= u64::MAX by {
            if i < before.len() {
                assert(0 <= before[i].id <= u64::MAX);
            } else {
                assert(0 <= list[list.len() - 1].id <= u64::MAX);
            }
        }
    }
}

/// The operations that lane `k` retains are within the base and may be held; they are tidy where
/// all of its operations are.
proof fn lemma_retained(
    path: Seq<char>,
    base: Option<Seq<u8>>,
    lane: Seq<char>,
    k: Seq<char>,
    own: Seq<Op>,
    ids: Set<u64>,
)
    requires
        lane_file::base_bytes(base).len() <= usize::MAX,
        lane_file::ops_ok(own),
        ops::rendered(path, lane_file::base_bytes(base), own) is Ok,
    ensures
        ({
            let retained = promotion::retained_ops(lane, k, own, ids);
            &&& lane_file::ops_ok(retained)
            &&& conflict::all_within(retained, lane_file::base_bytes(base).len() as int)
            &&& rebase::tidy(own) && lane_file::numbered(own) ==> rebase::tidy(retained)
                && lane_file::numbered(retained)
        }),
{
    let n = lane_file::base_bytes(base).len() as int;
    assert forall|i: int| 0 <= i < own.len() implies 0 <= (#[trigger] own[i]).start && 0
        <= own[i].len by {
        assert(ops::sound_op(own[i]));
    }
    conflict::lemma_rendered_ok(path, lane_file::base_bytes(base), own);
    let keep = |op: Op| !ids.contains(op.id as u64);
    if k == lane {
        promotion::lemma_kept_ok(own, keep, n);
        if rebase::tidy(own) && lane_file::numbered(own) {
            rebase::lemma_filter_tidy(own, keep, n);
            lemma_filter_numbered(own, keep);
        }
    }
}

/// After a promotion the entry of a lane can be shown over the promoted base, and it is tidy where
/// it was.
proof fn lemma_next_entry_kept(
    what: PromotionView,
    path: Seq<char>,
    base: Option<Seq<u8>>,
    promoted: Option<Seq<u8>>,
    lane: Seq<char>,
    k: Seq<char>,
    entry: Entry,
)
    requires
        lane_file::base_bytes(base).len() <= usize::MAX,
        lane_file::base_bytes(promoted).len() <= usize::MAX,
        lane_file::entry_ok(entry),
        lane_file::entry_bytes(path, base, entry) is Ok,
        what matches PromotionView::Ops { list, ids } ==> {
            &&& promoted is Some
            &&& ops::rendered(path, lane_file::base_bytes(base), list) == Ok::<
                Seq<u8>,
                LaneErrorView,
            >(promoted->0)
            &&& forall|i: int|
                0 <= i < list.len() ==> 0 <= (#[trigger] list[i]).start && 0 <= list[i].len
        },
        promotion::keeps_bytes(what, base, promoted, lane, k, entry) ==> lane_file::made_faithfully(
            promoted,
            promotion::shown(path, base, entry),
        ),
    ensures
        promotion::next_entry(what, path, base, promoted, lane, k, entry) matches Some(next) ==> {
            &&& lane_file::entry_bytes(path, promoted, next) is Ok
            &&& lane_file::entry_tidy(entry) ==> lane_file::entry_tidy(next)
        },
{
    let next = promotion::next_entry(what, path, base, promoted, lane, k, entry);
    if promotion::keeps_bytes(what, base, promoted, lane, k, entry) {
        assert(lane_file::seen(path, promoted, next) is Ok);
    } else if next is Some {
        if let PromotionView::Ops { list, ids } = what {
            if let Entry::Present(own) = entry {
                let retained = promotion::retained_ops(lane, k, own, ids);
                let old = lane_file::base_bytes(base);
                lemma_retained(path, base, lane, k, own, ids);
                promotion::lemma_moved_entry(
                    path,
                    old,
                    promoted->0,
                    promotion::shown(path, base, entry),
                    lane,
                    list,
                    k,
                    retained,
                );
                conflict::lemma_rendered_ok(path, old, list);
                assert forall|i: int, j: int|
                    0 <= i < list.len() && 0 <= j < retained.len() implies conflict::apart(
                    #[trigger] list[i],
                    #[trigger] retained[j],
                ) by {
                    assert(!conflict::conflicting(list[i], retained[j], false));
                }
                if lane_file::entry_tidy(entry) {
                    rebase::lemma_rebased_tidy(k, retained, lane, list, old.len() as int);
                    let moved = rebase::rebased(k, retained, lane, list);
                    assert(forall|i: int| 0 <= i < moved.len() ==> moved[i].id == retained[i].id);
                }
            }
        }
    }
}

/// A promotion from what is left of the overlays of a path keeps the repo tidy, and the overlays
/// of the path then rest on the promoted base.
pub proof fn lemma_promotion_keeps(
    what: PromotionView,
    before: Repo,
    left: File,
    path: Seq<char>,
    lane: Seq<char>,
    base: Option<Seq<u8>>,
    promoted: Option<Seq<u8>>,
    file: File,
)
    requires
        before.files.contains_key(path),
        lane_file::file_ok(left),
        left.lanes.dom().finite(),
        file_tidy(before.files[path]) ==> file_tidy(left),
        lane_file::base_bytes(base).len() <= usize::MAX,
        lane_file::base_bytes(promoted).len() <= usize::MAX,
        promotion::finish(what, left, path, lane, base, promoted) == Ok::<
            (Option<Seq<u8>>, File),
            LaneErrorView,
        >((promoted, file)),
        what matches PromotionView::Ops { list, ids } ==> {
            &&& promoted is Some
            &&& ops::rendered(path, lane_file::base_bytes(base), list) == Ok::<
                Seq<u8>,
                LaneErrorView,
            >(promoted->0)
            &&& forall|i: int|
                0 <= i < list.len() ==> 0 <= (#[trigger] list[i]).start && 0 <= list[i].len
        },
        promotion::bytes_are_kept(what, left, file, path, lane, base, promoted),
    ensures
        ({
            let after = Repo { files: repo::with_file(before.files, path, file), ..before };
            &&& repo_tidy(before) ==> repo_tidy(after)
            &&& rests_after(before, after, path, base, promoted)
        }),
{
    let keys = text_map::listing(left.lanes.dom());
    text_map::lemma_listing_exists(left.lanes.dom());
    assert forall|k: Seq<char>| #[trigger] file.lanes.contains_key(k) implies {
        &&& left.lanes.contains_key(k)
        &&& lane_file::entry_bytes(path, promoted, file.lanes[k]) is Ok
        &&& lane_file::entry_tidy(left.lanes[k]) ==> lane_file::entry_tidy(file.lanes[k])
    } by {
        assert(left.lanes.contains_key(k));
        assert(keys.contains(k));
        repo::lemma_no_snapshot_fault(path, base, left.lanes, keys, k);
        lemma_next_entry_kept(what, path, base, promoted, lane, k, left.lanes[k]);
    }
    lemma_with_file(before, path, file, base, promoted);
}

/// The operations that names promote have a place.
pub proof fn lemma_promoted_by_name(file: File, lane: Seq<char>, names: Seq<Seq<char>>)
    requires
        lane_file::file_ok(file),
        file.lanes.contains_key(lane),
    ensures
        promotion::promoted_by_name(file, lane, names) matches PromotionView::Ops { list, ids }
            ==> forall|i: int|
            0 <= i < list.len() ==> 0 <= (#[trigger] list[i]).start && 0 <= list[i].len,
{
    if let Entry::Present(own) = file.lanes[lane] {
        let keep = |op: Op| op_id::is_selected(lane, names, op.id);
        rebase::lemma_filter_elements(own, keep);
        let list = op_id::selected_ops(lane, own, names);
        assert(list == own.filter(keep));
        assert forall|i: int| 0 <= i < list.len() implies 0 <= (#[trigger] list[i]).start && 0
            <= list[i].len by {
            assert(own.contains(list[i]));
            let k = choose|k: int| 0 <= k < own.len() && own[k] == list[i];
            assert(ops::sound_op(own[k]));
        }
    }
}

/// An operation that is promoted with other bytes has a place.
pub proof fn lemma_resolved_by_name(
    file: File,
    lane: Seq<char>,
    name: Seq<char>,
    replacement: Seq<u8>,
)
    requires
        lane_file::file_ok(file),
        file.lanes.contains_key(lane),
        file.lanes[lane] matches Entry::Present(own) ==> (op_id::parsed_op_id(
            lane,
            name,
        ) matches Some(ParsedOpId::Present(id)) && op_id::has_id(own, id as int)),
    ensures
        promotion::resolved_by_name(file, lane, name, replacement) matches PromotionView::Ops {
            list,
            ids,
        } ==> forall|i: int|
            0 <= i < list.len() ==> 0 <= (#[trigger] list[i]).start && 0 <= list[i].len,
{
    if let Entry::Present(own) = file.lanes[lane] {
        let id = op_id::parsed_op_id(lane, name)->0->Present_0 as int;
        lane_file::lemma_first_with_id(own, id);
        let at = choose|at: int| 0 <= at < own.len() && own[at] == lane_file::op_with_id(own, id);
        assert(ops::sound_op(own[at]));
    }
}

/// Discarding a lane keeps the repo tidy and the other overlays on their bases.
pub proof fn lemma_discard_keeps(before: Repo, lane: Seq<char>)
    ensures
        repo_tidy(before) ==> repo_tidy(repo::repo_discard(before, lane)),
        forall|bases: Map<Seq<char>, Option<Seq<u8>>>| #[trigger]
            rests_on(before, bases) ==> rests_on(repo::repo_discard(before, lane), bases),
{
    let after = repo::repo_discard(before, lane);
    assert forall|p: Seq<char>, k: Seq<char>|
        after.files.contains_key(p) && #[trigger] after.files[p].lanes.contains_key(k) implies {
        &&& before.files.contains_key(p)
        &&& before.files[p].lanes.contains_key(k)
        &&& after.files[p].lanes[k] == before.files[p].lanes[k]
    } by {}
}

/// Where nothing changes, overlays rest on what they rested on.
pub proof fn lemma_unchanged_rests(state: Repo, path: Seq<char>, base: Option<Seq<u8>>)
    ensures
        rests_after(state, state, path, base, base),
{
    assert forall|bases: Map<Seq<char>, Option<Seq<u8>>>| #[trigger]
        rests_on(state, bases) && (state.files.contains_key(path) ==> bases[path] == base) implies rests_on(
        state,
        bases.insert(path, base),
    ) by {
        let more = bases.insert(path, base);
        assert forall|p: Seq<char>| #[trigger] state.files.contains_key(p) implies more.contains_key(
            p,
        ) && file_rests_on(state.files[p], p, more[p]) by {
            assert(more[p] == bases[p]);
        }
    }
}

} // verus!
