//! What holds of the steps that carry out a promotion.
use vstd::prelude::*;

use crate::commit;
use crate::commit::{FileWrite, Removal};
use crate::path_laws;
use crate::sorting;
use crate::text;
use crate::types;
use crate::vfs;
use crate::vfs::LaneFsErrorView;

verus! {

/// The steps of a promotion are those of its files: a path is removed exactly where a file is
/// promoted without bytes, and bytes are written exactly where they are promoted.
pub proof fn law_steps_hold_the_promotion(
    files: Seq<(Seq<char>, Option<Seq<u8>>)>,
    path: Seq<char>,
    bytes: Seq<u8>,
)
    ensures
        commit::removed_paths(files).contains(path) <==> files.contains((path, None)),
        commit::written_files(files).contains((path, bytes)) <==> files.contains(
            (path, Some(bytes)),
        ),
        sorting::ordered::<Removal>(commit::removed_paths(files)).contains(path)
            <==> files.contains((path, None)),
        sorting::ordered::<FileWrite>(commit::written_files(files)).contains((path, bytes))
            <==> files.contains((path, Some(bytes))),
    decreases files.len(),
{
    if files.len() > 0 {
        let rest = files.drop_last();
        let last = files.last();
        law_steps_hold_the_promotion(rest, path, bytes);
        lemma_last(files, (path, None));
        lemma_last(files, (path, Some(bytes)));
        let removes = commit::removed_paths(files);
        let writes = commit::written_files(files);
        match last.1 {
            None => {
                assert(removes.drop_last() =~= commit::removed_paths(rest));
                lemma_last(removes, path);
            },
            Some(own) => {
                assert(writes.drop_last() =~= commit::written_files(rest));
                lemma_last(writes, (path, bytes));
            },
        }
    }
    sorting::lemma_ordered_contains::<Removal>(commit::removed_paths(files));
    sorting::lemma_ordered_contains::<FileWrite>(commit::written_files(files));
}

/// What a list holds is what its beginning holds, and its last element.
proof fn lemma_last<A>(list: Seq<A>, x: A)
    requires
        list.len() > 0,
    ensures
        list.contains(x) <==> list.drop_last().contains(x) || list.last() == x,
{
    let rest = list.drop_last();
    if list.contains(x) {
        let i = choose|i: int| 0 <= i < list.len() && list[i] == x;
        if i < rest.len() {
            assert(rest[i] == x);
        }
    }
    if rest.contains(x) {
        let i = choose|i: int| 0 <= i < rest.len() && rest[i] == x;
        assert(list[i] == x);
    }
    assert(list[list.len() - 1] == list.last());
}

/// The parts of a path are those of the directory that it lies below, and those behind it.
proof fn lemma_parts_below(a: Seq<char>, t: Seq<char>)
    ensures
        text::split_text(a + seq!['/'] + t, '/') == text::split_text(a, '/') + text::split_text(
            t,
            '/',
        ),
    decreases t.len(),
{
    let whole = a + seq!['/'] + t;
    let left = text::split_text(a, '/');
    if t.len() == 0 {
        assert(whole.drop_last() =~= a);
        assert(text::split_text(whole, '/') =~= left + text::split_text(t, '/'));
    } else {
        let front = t.drop_last();
        lemma_parts_below(a, front);
        text::lemma_split_text_nonempty(front, '/');
        assert(whole.drop_last() =~= a + seq!['/'] + front);
        assert(whole.last() == t.last());
        assert(text::split_text(whole, '/') =~= left + text::split_text(t, '/'));
    }
}

/// A path in normal form lies deeper than a directory above it.
proof fn lemma_deeper(path: Seq<char>, ancestor: Seq<char>)
    requires
        vfs::repo_path(path) == Ok::<Seq<char>, LaneFsErrorView>(path),
        commit::lies_below(path, ancestor),
    ensures
        commit::depth_of(ancestor) < commit::depth_of(path),
{
    reveal_strlit("/");
    assert("/"@ =~= seq!['/']);
    let front = ancestor + seq!['/'];
    let tail = path.subrange(front.len() as int, path.len() as int);
    assert(path =~= front + tail);
    lemma_parts_below(ancestor, tail);
    path_laws::lemma_label_parts(path, path);
    let keep = |part: Seq<char>| types::naming_part(part);
    let named = |part: Seq<char>| part.len() > 0;
    let parts = types::raw_parts(path).filter(keep);
    let above = text::split_text(ancestor, '/');
    text::lemma_split_text_nonempty(tail, '/');
    assert(parts == text::split_text(path, '/'));
    assert(parts == above + text::split_text(tail, '/'));
    assert forall|i: int| 0 <= i < parts.len() implies named(#[trigger] parts[i]) by {
        assert(path_laws::plain_part(parts[i]));
    }
    assert forall|i: int| 0 <= i < above.len() implies named(#[trigger] above[i]) by {
        assert(parts[i] == above[i]);
    }
    path_laws::lemma_filter_kept(parts, named);
    path_laws::lemma_filter_kept(above, named);
}

/// Files are removed from the deepest up: a path below another is never removed after it. They are
/// written from the shallowest down: a path below another is never written before it.
pub proof fn law_nothing_is_in_the_way(
    removes: Seq<Seq<char>>,
    writes: Seq<(Seq<char>, Seq<u8>)>,
    i: int,
    j: int,
)
    requires
        forall|n: int|
            0 <= n < removes.len() ==> vfs::repo_path(#[trigger] removes[n]) == Ok::<
                Seq<char>,
                LaneFsErrorView,
            >(removes[n]),
        forall|n: int|
            0 <= n < writes.len() ==> vfs::repo_path((#[trigger] writes[n]).0) == Ok::<
                Seq<char>,
                LaneFsErrorView,
            >(writes[n].0),
    ensures
        0 <= i < j < removes.len() ==> !commit::lies_below(
            sorting::ordered::<Removal>(removes)[j],
            sorting::ordered::<Removal>(removes)[i],
        ),
        0 <= i < j < writes.len() ==> !commit::lies_below(
            sorting::ordered::<FileWrite>(writes)[i].0,
            sorting::ordered::<FileWrite>(writes)[j].0,
        ),
{
    let gone = sorting::ordered::<Removal>(removes);
    let made = sorting::ordered::<FileWrite>(writes);
    sorting::law_ordered::<Removal>(removes);
    sorting::law_ordered::<FileWrite>(writes);
    sorting::lemma_ordered_contains::<Removal>(removes);
    sorting::lemma_ordered_contains::<FileWrite>(writes);
    if 0 <= i < j < removes.len() && commit::lies_below(gone[j], gone[i]) {
        assert(gone.contains(gone[j]));
        let n = choose|n: int| 0 <= n < removes.len() && removes[n] == gone[j];
        lemma_deeper(removes[n], gone[i]);
        assert(commit::shallower(gone[i], gone[j]));
    }
    if 0 <= i < j < writes.len() && commit::lies_below(made[i].0, made[j].0) {
        assert(made.contains(made[i]));
        let n = choose|n: int| 0 <= n < writes.len() && writes[n] == made[i];
        lemma_deeper(writes[n].0, made[j].0);
        assert(commit::shallower(made[j].0, made[i].0));
    }
}

} // verus!
