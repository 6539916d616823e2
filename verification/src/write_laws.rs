//! What holds of reading what was written. The edit scripts are taken to cover both contents, as
//! those that operations are made of do.
use vstd::prelude::*;

use crate::conflict;
use crate::diff;
use crate::difference;
use crate::lane_file;
use crate::lane_file::Entry;
use crate::ops;
use crate::promotion;
use crate::repo;
use crate::repo::Repo;
use crate::types::LaneErrorView;

verus! {

/// Content that operations can be made for: its lengths are positions, and an edit script leads to
/// it from the base.
pub open spec fn can_be_told(base: Option<Seq<u8>>, content: Option<Seq<u8>>) -> bool {
    &&& lane_file::base_bytes(base).len() + lane_file::base_bytes(content).len() <= usize::MAX
    &&& content is Some ==> diff::script_covers(lane_file::base_bytes(base), content->0)
}

/// The entry that is made for content shows it, and tells what changed.
pub proof fn lemma_told_faithfully(base: Option<Seq<u8>>, content: Option<Seq<u8>>)
    requires
        can_be_told(base, content),
    ensures
        lane_file::made_faithfully(base, content),
{
    if content is Some && content != base {
        let old = lane_file::base_bytes(base);
        let new = content->0;
        let list = diff::diff_ops(old, new, base is None);
        diff::lemma_diff_ops_render(old, new, base is None);
        diff::law_operations_touch_what_changed(old, new, base is None);
        diff::lemma_few_changes(old, new, base is None);
        ops::lemma_sort_ops_of_sorted(list);
        assert forall|i: int| 0 <= i < list.len() implies 0 <= (#[trigger] list[i]).start && 0
            <= list[i].len && 0 <= list[i].id <= u64::MAX by {
            assert(ops::sound_op(list[i]));
        }
        conflict::lemma_fault_free(list, 0, old.len() as int);
        assert forall|path: Seq<char>| #[trigger] lane_file::seen(
            path,
            base,
            Some(Entry::Present(list)),
        ) == Ok::<Option<Seq<u8>>, LaneErrorView>(content) by {}
    }
}

/// A lane reads at a path what it was last given there.
pub proof fn law_written_content_is_read_back(
    state: Repo,
    path: Seq<char>,
    lane: Seq<char>,
    base: Option<Seq<u8>>,
    content: Option<Seq<u8>>,
)
    requires
        lane != "base"@,
        can_be_told(base, content),
        repo::repo_replace(state, path, lane, base, content) is Ok,
    ensures
        repo::repo_read(
            repo::repo_replace(state, path, lane, base, content)->Ok_0,
            path,
            lane,
            base,
        ) == Ok::<Option<Seq<u8>>, LaneErrorView>(content),
        difference::written_is_listed(
            repo::repo_replace(state, path, lane, base, content)->Ok_0,
            path,
            lane,
            base,
            content,
        ),
{
    lemma_told_faithfully(base, content);
    difference::lemma_written_is_listed(state, path, lane, base, content);
    let entry = lane_file::entry_for(base, content);
    assert(lane_file::seen(path, base, entry) == Ok::<Option<Seq<u8>>, LaneErrorView>(content));
    let lanes = promotion::with_entry(repo::file_at(state, path, base).lanes, lane, entry);
    if lanes == Map::<Seq<char>, Entry>::empty() {
        assert(!lanes.contains_key(lane));
    }
}

} // verus!
