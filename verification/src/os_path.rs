//! Paths as the operating system takes them apart.
use vstd::prelude::*;

use crate::text;
use crate::text::{
    chars_of, replace_char, split, text_begins_with, text_between, text_eq, to_ascii_lowercase,
};
use crate::types;
use crate::types::has_windows_drive_prefix;

verus! {

/// Whether a character stands between the components of a path.
pub open spec fn separates(c: char, windows: bool) -> bool {
    c == '/' || (windows && c == '\\')
}

/// A path with one kind of separator.
pub open spec fn with_one_separator(path: Seq<char>, windows: bool) -> Seq<char> {
    if windows {
        text::with_char_replaced(path, '\\', '/')
    } else {
        path
    }
}

/// A path with one kind of separator.
fn one_separator(path: &str, windows: bool) -> (r: String)
    ensures
        r@ == with_one_separator(path@, windows),
{
    if windows {
        replace_char(path, '\\', '/')
    } else {
        path.to_owned()
    }
}

/// What stands between the separators of a path.
pub open spec fn path_parts(path: Seq<char>, windows: bool) -> Seq<Seq<char>> {
    text::split_text(with_one_separator(path, windows), '/')
}

/// What stands between the separators of a path.
pub fn parts_of_path(path: &str, windows: bool) -> (r: Vec<String>)
    ensures
        text::texts(r@) == path_parts(path@, windows),
{
    split(one_separator(path, windows).as_str(), '/')
}

/// Whether a path begins with a root or with a drive.
pub open spec fn anchored(path: Seq<char>, windows: bool) -> bool {
    (path.len() > 0 && separates(path[0], windows)) || (windows && types::drive_prefixed(path))
}

/// Whether a path begins with a root or with a drive.
pub fn is_anchored(path: &str, windows: bool) -> (r: bool)
    ensures
        r == anchored(path@, windows),
{
    let chars = chars_of(path);
    (chars.len() > 0 && (chars[0] == '/' || (windows && chars[0] == '\\'))) || (windows
        && has_windows_drive_prefix(&chars))
}

/// Whether a path says by itself where it leads. On Windows that takes a drive and a root, a
/// server and a share, or one of the marks that the system puts in front of a path.
pub open spec fn absolute(path: Seq<char>, windows: bool) -> bool {
    if !windows {
        path.len() > 0 && path[0] == '/'
    } else {
        ||| types::drive_prefixed(path) && path.len() > 2 && separates(path[2], windows)
        ||| text::begins_with(path, "\\\\?\\"@)
        ||| text::begins_with(with_one_separator(path, windows), "//./"@)
        ||| text::begins_with(with_one_separator(path, windows), "//"@) && {
            let parts = path_parts(path, windows);
            parts.len() > 3 && parts[2].len() > 0 && parts[3].len() > 0
        }
    }
}

/// Whether a path says by itself where it leads.
pub fn is_absolute(path: &str, windows: bool) -> (r: bool)
    ensures
        r == absolute(path@, windows),
{
    let chars = chars_of(path);
    if !windows {
        return chars.len() > 0 && chars[0] == '/';
    }
    if has_windows_drive_prefix(&chars) && chars.len() > 2 && (chars[2] == '/' || chars[2] == '\\') {
        return true;
    }
    let flat = one_separator(path, windows);
    if text_begins_with(path, "\\\\?\\") || text_begins_with(flat.as_str(), "//./") {
        return true;
    }
    if !text_begins_with(flat.as_str(), "//") {
        return false;
    }
    let parts = split(flat.as_str(), '/');
    let ghost all = text::texts(parts@);
    assert(forall|i: int| 0 <= i < all.len() ==> #[trigger] all[i] == parts@[i]@);
    parts.len() > 3 && !parts[2].as_str().is_empty() && !parts[3].as_str().is_empty()
}

/// A path with one more component at its end. On Windows a component that begins with a drive
/// takes the place of the path, and a bare drive is followed by no separator.
pub open spec fn pushed(path: Seq<char>, part: Seq<char>, windows: bool) -> Seq<char> {
    if windows && types::drive_prefixed(part) {
        part
    } else if path.len() == 0 || (windows && path.len() == 2 && types::drive_prefixed(path)) {
        path + part
    } else {
        path + "/"@ + part
    }
}

/// The path that components make, one after the other.
pub open spec fn pushed_all(parts: Seq<Seq<char>>, windows: bool) -> Seq<char>
    decreases parts.len(),
{
    if parts.len() == 0 {
        Seq::empty()
    } else {
        pushed(pushed_all(parts.drop_last(), windows), parts.last(), windows)
    }
}

/// The path that components make, one after the other.
pub fn path_of_parts(parts: &Vec<String>, windows: bool) -> (r: String)
    ensures
        r@ == pushed_all(text::texts(parts@), windows),
{
    let ghost all = text::texts(parts@);
    let mut path = String::new();
    let mut i: usize = 0;
    while i < parts.len()
        invariant
            i <= parts@.len(),
            all == text::texts(parts@),
            path@ == pushed_all(all.subrange(0, i as int), windows),
        decreases parts@.len() - i,
    {
        let part = parts[i].as_str();
        let added = chars_of(part);
        let before = chars_of(path.as_str());
        proof {
            assert(part@ == all[i as int]);
            assert(all.subrange(0, i + 1).drop_last() =~= all.subrange(0, i as int));
        }
        if windows && has_windows_drive_prefix(&added) {
            path = part.to_owned();
        } else if before.len() == 0 || (windows && before.len() == 2 && has_windows_drive_prefix(
            &before,
        )) {
            path = path.concat(part);
        } else {
            path = path.concat("/").concat(part);
        }
        i = i + 1;
    }
    assert(all.subrange(0, i as int) =~= all);
    path
}

/// A component of a path: what it says, and where it ends in the path.
pub struct Component {
    pub name: String,
    pub end: usize,
}

/// A [`Component`] as a mathematical value.
pub open spec fn component_view(component: Component) -> (Seq<char>, int) {
    (component.name@, component.end as int)
}

/// The components of a list.
pub open spec fn component_views(list: Seq<Component>) -> Seq<(Seq<char>, int)> {
    list.map_values(|component: Component| component_view(component))
}

/// Where the part of a path that begins at `at` ends.
pub open spec fn part_end(path: Seq<char>, at: int, windows: bool) -> int
    decreases path.len() - at,
{
    if at >= path.len() || separates(path[at], windows) {
        at
    } else {
        part_end(path, at + 1, windows)
    }
}

/// The components of a path from `at` on: its parts, without those that are empty or a dot.
pub open spec fn body_components(path: Seq<char>, at: int, windows: bool) -> Seq<(Seq<char>, int)>
    decreases path.len() - at,
{
    if at >= path.len() {
        Seq::empty()
    } else if separates(path[at], windows) {
        body_components(path, at + 1, windows)
    } else {
        let end = part_end(path, at, windows);
        if end <= at || end > path.len() {
            Seq::empty()
        } else {
            let rest = body_components(path, end, windows);
            let part = path.subrange(at, end);
            if part == "."@ {
                rest
            } else {
                seq![(part, end)] + rest
            }
        }
    }
}

/// A root at `at`, or a dot that stands there by itself.
pub open spec fn start_components(path: Seq<char>, at: int, windows: bool) -> Seq<
    (Seq<char>, int),
> {
    if at < path.len() && separates(path[at], windows) {
        seq![("/"@, at + 1)]
    } else if at < path.len() && path[at] == '.' && part_end(path, at, windows) == at + 1 {
        seq![("."@, at + 1)]
    } else {
        Seq::empty()
    }
}

/// Where the share ends in a path that begins with a server and a share.
pub open spec fn share_end(path: Seq<char>, windows: bool) -> Option<int> {
    if !windows || path.len() < 2 || !separates(path[0], windows) || !separates(path[1], windows) {
        None
    } else {
        let server = part_end(path, 2, windows);
        let share = part_end(path, server + 1, windows);
        if server > 2 && server < path.len() && share > server + 1 {
            Some(share)
        } else {
            None
        }
    }
}

/// What a path begins with: a drive, a server and a share, a root, or a dot. Drives differ by
/// their letter, whatever its case, and a share is a root.
pub open spec fn anchor_components(path: Seq<char>, windows: bool) -> Seq<(Seq<char>, int)> {
    match share_end(path, windows) {
        Some(end) => seq![
            (with_one_separator(path.subrange(0, end), windows), end),
            ("/"@, if end < path.len() {
                end + 1
            } else {
                end
            }),
        ],
        None => if windows && types::drive_prefixed(path) {
            seq![(text::lower_text(path.subrange(0, 2)), 2int)] + start_components(path, 2, windows)
        } else {
            start_components(path, 0, windows)
        },
    }
}

/// Where the last of some components ends.
pub open spec fn end_of(list: Seq<(Seq<char>, int)>) -> int {
    if list.len() == 0 {
        0
    } else {
        list.last().1
    }
}

/// The components of a path.
pub open spec fn path_components(path: Seq<char>, windows: bool) -> Seq<(Seq<char>, int)> {
    let anchor = anchor_components(path, windows);
    anchor + body_components(path, end_of(anchor), windows)
}

/// Whether a path begins with all components of a directory.
pub open spec fn lies_in(path: Seq<(Seq<char>, int)>, root: Seq<(Seq<char>, int)>) -> bool {
    &&& root.len() <= path.len()
    &&& forall|i: int| 0 <= i < root.len() ==> (#[trigger] root[i]).0 == path[i].0
}

/// Where a path goes on behind its first `n` components, of which `anchor` are what it begins with.
pub open spec fn going_on(list: Seq<(Seq<char>, int)>, anchor: int, n: int) -> int {
    if n >= anchor && n < list.len() {
        list[n].1 - list[n].0.len()
    } else {
        end_of(list.take(n))
    }
}

/// What follows a directory in a path below it, by components: the path from the first component
/// that the directory does not have to the end of the last one.
pub open spec fn after_directory(path: Seq<char>, root: Seq<char>, windows: bool) -> Option<
    Seq<char>,
> {
    let list = path_components(path, windows);
    let above = path_components(root, windows);
    if lies_in(list, above) {
        let anchor = anchor_components(path, windows).len() as int;
        Some(path.subrange(going_on(list, anchor, above.len() as int), end_of(list)))
    } else {
        None
    }
}

/// Where the part of a path that begins at `at` ends.
fn find_part_end(chars: &Vec<char>, at: usize, windows: bool) -> (r: usize)
    requires
        at <= chars@.len(),
    ensures
        r == part_end(chars@, at as int, windows),
        at <= r <= chars@.len(),
{
    let mut i: usize = at;
    while i < chars.len() && !is_separator(chars[i], windows)
        invariant
            at <= i <= chars@.len(),
            part_end(chars@, at as int, windows) == part_end(chars@, i as int, windows),
        decreases chars@.len() - i,
    {
        i = i + 1;
    }
    i
}

fn is_separator(c: char, windows: bool) -> (r: bool)
    ensures
        r == separates(c, windows),
{
    c == '/' || (windows && c == '\\')
}

/// Adds a root at `at`, or a dot that stands there by itself.
fn push_start(out: &mut Vec<Component>, chars: &Vec<char>, at: usize, windows: bool)
    requires
        at <= chars@.len(),
    ensures
        component_views(final(out)@) == component_views(old(out)@) + start_components(
            chars@,
            at as int,
            windows,
        ),
{
    let ghost before = component_views(out@);
    if at < chars.len() && is_separator(chars[at], windows) {
        out.push(Component { name: "/".to_owned(), end: at + 1 });
    } else if at < chars.len() && chars[at] == '.' && find_part_end(chars, at, windows) == at + 1 {
        out.push(Component { name: ".".to_owned(), end: at + 1 });
    }
    assert(component_views(out@) =~= before + start_components(chars@, at as int, windows));
}

/// Where the share ends in a path that begins with a server and a share.
fn find_share_end(chars: &Vec<char>, windows: bool) -> (r: Option<usize>)
    ensures
        match r {
            Some(end) => share_end(chars@, windows) == Some(end as int) && end <= chars@.len(),
            None => share_end(chars@, windows) is None,
        },
{
    if !windows || chars.len() < 2 || !is_separator(chars[0], windows) || !is_separator(
        chars[1],
        windows,
    ) {
        return None;
    }
    let server: usize = find_part_end(chars, 2, windows);
    if server <= 2 || server >= chars.len() {
        return None;
    }
    let share: usize = find_part_end(chars, server + 1, windows);
    if share > server + 1 {
        Some(share)
    } else {
        None
    }
}

/// What a path begins with.
fn anchor_of(chars: &Vec<char>, windows: bool) -> (r: Vec<Component>)
    ensures
        component_views(r@) == anchor_components(chars@, windows),
        end_of(component_views(r@)) <= chars@.len(),
{
    let mut out: Vec<Component> = Vec::new();
    assert(component_views(out@) =~= Seq::empty());
    match find_share_end(chars, windows) {
        Some(end) => {
            let share = text_between(chars, 0, end);
            out.push(Component { name: one_separator(share.as_str(), windows), end });
            out.push(
                Component {
                    name: "/".to_owned(),
                    end: if end < chars.len() {
                        end + 1
                    } else {
                        end
                    },
                },
            );
        },
        None => {
            if windows && has_windows_drive_prefix(chars) {
                let drive = text_between(chars, 0, 2);
                out.push(Component { name: to_ascii_lowercase(drive.as_str()), end: 2 });
                push_start(&mut out, chars, 2, windows);
            } else {
                push_start(&mut out, chars, 0, windows);
            }
        },
    }
    assert(component_views(out@) =~= anchor_components(chars@, windows));
    out
}

/// The components of a path, and how many of them are what it begins with.
fn components_of(path: &str, windows: bool) -> (r: (Vec<Component>, usize))
    ensures
        component_views(r.0@) == path_components(path@, windows),
        r.1 == anchor_components(path@, windows).len(),
{
    let chars = chars_of(path);
    let mut out = anchor_of(&chars, windows);
    let anchor: usize = out.len();
    let mut at: usize = if anchor > 0 {
        out[anchor - 1].end
    } else {
        0
    };
    let ghost whole = path_components(path@, windows);
    proof {
        let first = component_views(out@);
        assert(end_of(first) == at);
        assert(first + body_components(chars@, at as int, windows) =~= whole);
    }
    while at < chars.len()
        invariant
            at <= chars@.len(),
            component_views(out@) + body_components(chars@, at as int, windows) == whole,
        decreases chars@.len() - at,
    {
        if is_separator(chars[at], windows) {
            at = at + 1;
        } else {
            let end: usize = find_part_end(&chars, at, windows);
            assert(end > at) by {
                reveal_with_fuel(part_end, 2);
                lemma_part_end(chars@, at + 1, windows);
            }
            let part = text_between(&chars, at, end);
            let ghost before = component_views(out@);
            let ghost rest = body_components(chars@, end as int, windows);
            if !text_eq(part.as_str(), ".") {
                let ghost made = (part@, end as int);
                out.push(Component { name: part, end });
                proof {
                    assert(component_views(out@) =~= before.push(made));
                    assert(before.push(made) + rest =~= before + (seq![made] + rest));
                }
            }
            at = end;
        }
    }
    assert(component_views(out@) =~= whole);
    (out, anchor)
}

proof fn lemma_part_end(path: Seq<char>, at: int, windows: bool)
    ensures
        part_end(path, at, windows) >= at,
    decreases path.len() - at,
{
    if at < path.len() && !separates(path[at], windows) {
        lemma_part_end(path, at + 1, windows);
    }
}

/// Components that lie one after the other between two places.
spec fn placed_between(list: Seq<(Seq<char>, int)>, at: int, len: int) -> bool {
    forall|i: int|
        0 <= i < list.len() ==> at <= (#[trigger] list[i]).1 - list[i].0.len() && list[i].1
            <= end_of(list) <= len
}

/// Where the components of a path lie in it.
proof fn lemma_body_ends(path: Seq<char>, at: int, windows: bool)
    requires
        0 <= at <= path.len(),
    ensures
        placed_between(body_components(path, at, windows), at, path.len() as int),
    decreases path.len() - at,
{
    if at < path.len() {
        if separates(path[at], windows) {
            lemma_body_ends(path, at + 1, windows);
            assert(body_components(path, at, windows) == body_components(path, at + 1, windows));
        } else {
            let end = part_end(path, at, windows);
            if at < end <= path.len() {
                let rest = body_components(path, end, windows);
                let all = body_components(path, at, windows);
                lemma_body_ends(path, end, windows);
                assert forall|i: int| 0 <= i < all.len() implies at <= (#[trigger] all[i]).1
                    - all[i].0.len() && all[i].1 <= end_of(all) <= path.len() by {
                    if path.subrange(at, end) != "."@ {
                        if rest.len() > 0 {
                            assert(rest[rest.len() - 1] == all.last());
                            assert(rest[0] == all[1]);
                        }
                        if i > 0 {
                            assert(all[i] == rest[i - 1]);
                        }
                    } else {
                        assert(all[i] == rest[i]);
                    }
                }
            }
        }
    }
}

/// The part of a path behind a directory lies in the path.
proof fn lemma_going_on(path: Seq<char>, windows: bool, n: int)
    requires
        0 <= n <= path_components(path, windows).len(),
        end_of(anchor_components(path, windows)) <= path.len(),
    ensures
        0 <= going_on(
            path_components(path, windows),
            anchor_components(path, windows).len() as int,
            n,
        ) <= end_of(path_components(path, windows)) <= path.len(),
{
    let anchor = anchor_components(path, windows);
    let at = end_of(anchor);
    let body = body_components(path, at, windows);
    let list = path_components(path, windows);
    let k = anchor.len() as int;
    if let Some(end) = share_end(path, windows) {
        lemma_part_end(path, 2, windows);
        lemma_part_end(path, part_end(path, 2, windows) + 1, windows);
    }
    assert(0 <= at);
    lemma_body_ends(path, at, windows);
    if body.len() > 0 {
        assert(list.last() == body[body.len() - 1]);
        assert(at <= end_of(body));
    } else {
        assert(list =~= anchor);
    }
    if n >= k && n < list.len() {
        assert(list[n] == body[n - k]);
    } else if n > 0 {
        assert(list.take(n).last() == list[n - 1]);
        if n > k {
            assert(list[n - 1] == body[n - 1 - k]);
        } else {
            assert(list[n - 1] == anchor[n - 1]);
            assert(0 <= anchor[n - 1].1 <= at);
        }
    }
}

/// What follows a directory in a path below it, by components.
pub fn strip_directory(path: &str, root: &str, windows: bool) -> (r: Option<String>)
    ensures
        text::opt_text(r) == after_directory(path@, root@, windows),
{
    let chars = chars_of(path);
    let (list, anchor) = components_of(path, windows);
    let (above, _) = components_of(root, windows);
    let ghost all = component_views(list@);
    let ghost dirs = component_views(above@);
    if above.len() > list.len() {
        return None;
    }
    let mut i: usize = 0;
    while i < above.len()
        invariant
            i <= above@.len() <= list@.len(),
            all == component_views(list@),
            dirs == component_views(above@),
            all == path_components(path@, windows),
            dirs == path_components(root@, windows),
            forall|k: int| 0 <= k < i ==> (#[trigger] dirs[k]).0 == all[k].0,
        decreases above@.len() - i,
    {
        assert(dirs[i as int].0 == above@[i as int].name@);
        assert(all[i as int].0 == list@[i as int].name@);
        if !text_eq(above[i].name.as_str(), list[i].name.as_str()) {
            return None;
        }
        i = i + 1;
    }
    let n: usize = above.len();
    let end: usize = if list.len() == 0 {
        0
    } else {
        list[list.len() - 1].end
    };
    proof {
        lemma_anchor_end(path@, windows);
        lemma_going_on(path@, windows, n as int);
        assert(end == end_of(all));
    }
    let from: usize = if n >= anchor && n < list.len() {
        assert(all[n as int] == component_view(list@[n as int]));
        let name = chars_of(list[n].name.as_str());
        assert(list@[n as int].end - name@.len() >= 0);
        list[n].end - name.len()
    } else if n == 0 {
        0
    } else {
        assert(all.take(n as int).last() == all[n - 1]);
        list[n - 1].end
    };
    Some(text_between(&chars, from, end))
}

/// What a path begins with lies in the path.
proof fn lemma_anchor_end(path: Seq<char>, windows: bool)
    ensures
        end_of(anchor_components(path, windows)) <= path.len(),
{
    if let Some(end) = share_end(path, windows) {
        lemma_part_end_within(path, part_end(path, 2, windows) + 1, windows);
    }
}

proof fn lemma_part_end_within(path: Seq<char>, at: int, windows: bool)
    requires
        at <= path.len(),
    ensures
        part_end(path, at, windows) <= path.len(),
    decreases path.len() - at,
{
    if at < path.len() && !separates(path[at], windows) {
        lemma_part_end_within(path, at + 1, windows);
    }
}

} // verus!
