//! The paths that were seen to change while a command ran.
use vstd::prelude::*;

use crate::materialize::snapshot;
use crate::materialize::snapshot::{add_names, event_label};
use crate::text;
use crate::text_map::TextMap;

verus! {

/// How long to wait for one more event, in milliseconds.
pub const WATCHER_SETTLE_TIMEOUT_MS: u64 = 5;

/// How long events are taken in at most, in milliseconds.
pub const WATCHER_MAX_DRAIN_MS: u64 = 50;

/// What the watcher reported: paths relative to the worktree, or a failure.
#[derive(Debug, PartialEq, Eq)]
pub enum WatchReport {
    Paths(Vec<String>),
    Failure,
}

/// A [`WatchReport`] as a mathematical value.
pub enum WatchReportView {
    Paths(Seq<Seq<char>>),
    Failure,
}

impl View for WatchReport {
    type V = WatchReportView;

    open spec fn view(&self) -> WatchReportView {
        match self {
            WatchReport::Paths(paths) => WatchReportView::Paths(text::texts(paths@)),
            WatchReport::Failure => WatchReportView::Failure,
        }
    }
}

/// Paths that were seen to change. Where they cannot be relied on, the whole worktree is looked
/// at.
#[derive(Debug, PartialEq, Eq)]
pub struct DirtyPathSet {
    pub paths: TextMap<()>,
    pub fallback: bool,
}

/// A [`DirtyPathSet`] as a mathematical value.
#[verifier::ext_equal]
pub struct DirtyView {
    pub paths: Set<Seq<char>>,
    pub fallback: bool,
}

impl View for DirtyPathSet {
    type V = DirtyView;

    open spec fn view(&self) -> DirtyView {
        DirtyView { paths: self.paths@.dom(), fallback: self.fallback }
    }
}

/// The labels of the watched paths among some.
pub open spec fn watched_labels(paths: Seq<Seq<char>>) -> Set<Seq<char>>
    decreases paths.len(),
{
    if paths.len() == 0 {
        Set::empty()
    } else {
        let before = watched_labels(paths.drop_last());
        match snapshot::watched_label(paths.last()) {
            Some(label) => before.insert(label),
            None => before,
        }
    }
}

/// Adds the labels of the watched paths among some.
pub fn insert_event_paths(event: &Vec<String>, paths: &mut TextMap<()>)
    requires
        old(paths).wf(),
    ensures
        final(paths).wf(),
        final(paths)@.dom() == old(paths)@.dom().union(watched_labels(text::texts(event@))),
{
    let ghost start = paths@.dom();
    let ghost all = text::texts(event@);
    let mut i: usize = 0;
    proof {
        assert(all.subrange(0, 0) =~= Seq::empty());
        assert(start =~= start.union(watched_labels(all.subrange(0, 0))));
    }
    while i < event.len()
        invariant
            i <= event@.len(),
            all == text::texts(event@),
            paths.wf(),
            paths@.dom() == start.union(watched_labels(all.subrange(0, i as int))),
        decreases event@.len() - i,
    {
        let ghost before = paths@.dom();
        proof {
            assert(all.subrange(0, i + 1).drop_last() =~= all.subrange(0, i as int));
            assert(all.subrange(0, i + 1).last() == event@[i as int]@);
        }
        match event_label(event[i].as_str()) {
            Some(label) => {
                let ghost named = label@;
                let _ = paths.insert(label, ());
                assert(paths@.dom() =~= before.insert(named));
            },
            None => {},
        }
        assert(paths@.dom() =~= start.union(watched_labels(all.subrange(0, i + 1))));
        i = i + 1;
    }
    assert(all.subrange(0, i as int) =~= all);
}

/// What the reports of a watcher amount to so far.
pub open spec fn reported(reports: Seq<WatchReportView>) -> DirtyView
    decreases reports.len(),
{
    if reports.len() == 0 {
        DirtyView { paths: Set::empty(), fallback: false }
    } else {
        let before = reported(reports.drop_last());
        match reports.last() {
            WatchReportView::Failure => DirtyView { fallback: true, ..before },
            WatchReportView::Paths(paths) => DirtyView {
                paths: before.paths.union(watched_labels(paths)),
                ..before
            },
        }
    }
}

/// The paths that were seen to change. They cannot be relied on where there was no watcher, where
/// it failed, where its reports did not end in time, and where it reported nothing.
pub open spec fn dirty_paths(watched: bool, reports: Seq<WatchReportView>, overdue: bool) -> DirtyView {
    if !watched {
        DirtyView { paths: Set::empty(), fallback: true }
    } else {
        let all = reported(reports);
        DirtyView { fallback: all.fallback || overdue || all.paths == Set::<Seq<char>>::empty(), ..all }
    }
}

/// The paths that were seen to change, from the reports of a watcher.
pub struct DirtyTracker {
    pub watched: bool,
    pub paths: TextMap<()>,
    pub failed: bool,
    pub reports: Ghost<Seq<WatchReportView>>,
}

impl DirtyTracker {
    /// What was seen is what the reports amount to.
    pub open spec fn wf(&self) -> bool {
        &&& self.paths.wf()
        &&& reported(self.reports@) == (DirtyView { paths: self.paths@.dom(), fallback: self.failed })
    }

    /// Begins to take in reports, if there is a watcher.
    pub fn start(watched: bool) -> (r: Self)
        ensures
            r.wf(),
            r.watched == watched,
            r.reports@ == Seq::<WatchReportView>::empty(),
    {
        let paths: TextMap<()> = TextMap::new();
        assert(paths@.dom() =~= Set::empty());
        DirtyTracker { watched, paths, failed: false, reports: Ghost(Seq::empty()) }
    }

    /// Takes in a report.
    pub fn take(&mut self, report: &WatchReport)
        requires
            old(self).wf(),
        ensures
            final(self).wf(),
            final(self).watched == old(self).watched,
            final(self).reports@ == old(self).reports@.push(report@),
    {
        let ghost before = self.reports@;
        proof {
            assert(before.push(report@).drop_last() =~= before);
        }
        match report {
            WatchReport::Failure => {
                self.failed = true;
            },
            WatchReport::Paths(paths) => {
                insert_event_paths(paths, &mut self.paths);
            },
        }
        self.reports = Ghost(before.push(report@));
    }

    /// The paths that were seen to change, once no more reports come or their time is up.
    pub fn finish(self, overdue: bool) -> (r: DirtyPathSet)
        requires
            self.wf(),
        ensures
            r.paths.wf(),
            r@ == dirty_paths(self.watched, self.reports@, overdue),
    {
        if !self.watched {
            let paths: TextMap<()> = TextMap::new();
            assert(paths@.dom() =~= Set::empty());
            return DirtyPathSet { paths, fallback: true };
        }
        let empty = self.paths.is_empty();
        proof {
            if empty {
                assert(self.paths@.dom() =~= Set::empty());
            } else {
                assert(self.paths@ !~= Map::empty());
                if self.paths@.dom() == Set::<Seq<char>>::empty() {
                    assert(self.paths@ =~= Map::empty());
                }
            }
        }
        DirtyPathSet { paths: self.paths, fallback: self.failed || overdue || empty }
    }
}

/// The paths to look at once a command has run: those that the lane was laid over, and those that
/// were seen to change.
pub fn restore_candidates(projected: &Vec<String>, dirty: &DirtyPathSet) -> (r: TextMap<()>)
    requires
        dirty.paths.wf(),
    ensures
        r.wf(),
        r@.dom() == text::texts(projected@).to_set().union(dirty@.paths),
{
    let ghost names = text::texts(projected@);
    let mut paths: TextMap<()> = TextMap::new();
    let mut i: usize = 0;
    while i < projected.len()
        invariant
            i <= projected@.len(),
            names == text::texts(projected@),
            paths.wf(),
            forall|k: Seq<char>| #[trigger] paths@.contains_key(k) ==> names.contains(k),
            forall|m: int| 0 <= m < i ==> paths@.contains_key(#[trigger] names[m]),
        decreases projected@.len() - i,
    {
        assert(names[i as int] == projected@[i as int]@);
        let _ = paths.insert(projected[i].clone(), ());
        i = i + 1;
    }
    proof {
        assert forall|k: Seq<char>| names.contains(k) implies #[trigger] paths@.contains_key(k) by {
            let m = choose|m: int| 0 <= m < names.len() && names[m] == k;
            assert(paths@.contains_key(names[m]));
        }
        assert(paths@.dom() =~= names.to_set());
    }
    add_names(&mut paths, &dirty.paths);
    paths
}

} // verus!
