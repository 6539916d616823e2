//! What holds of paths in normal form.
use vstd::prelude::*;

use crate::text;
use crate::types;

verus! {

/// What follows without the separator goes to the last piece.
proof fn lemma_split_append(s: Seq<char>, t: Seq<char>, c: char)
    requires
        !t.contains(c),
    ensures
        text::split_text(s + t, c) == text::split_text(s, c).update(
            text::split_text(s, c).len() - 1,
            text::split_text(s, c).last() + t,
        ),
    decreases t.len(),
{
    let pieces = text::split_text(s, c);
    text::lemma_split_text_nonempty(s, c);
    if t.len() == 0 {
        assert(s + t =~= s);
        assert(pieces.last() + t =~= pieces.last());
        assert(pieces.update(pieces.len() - 1, pieces.last()) =~= pieces);
    } else {
        let init = t.drop_last();
        assert forall|i: int| 0 <= i < init.len() implies init[i] != c by {
            assert(t.contains(t[i]));
        }
        lemma_split_append(s, init, c);
        assert((s + t).drop_last() =~= s + init);
        assert(t.contains(t.last()));
        assert((s + t).last() == t.last());
        assert((pieces.last() + init).push(t.last()) =~= pieces.last() + t);
        assert(text::split_text(s + t, c) =~= pieces.update(
            pieces.len() - 1,
            pieces.last() + t,
        ));
    }
}

/// Splitting undoes joining.
pub proof fn lemma_split_join(parts: Seq<Seq<char>>, c: char)
    requires
        parts.len() > 0,
        forall|i: int| 0 <= i < parts.len() ==> !(#[trigger] parts[i]).contains(c),
    ensures
        text::split_text(text::join_texts(parts, seq![c]), c) == parts,
    decreases parts.len(),
{
    let none = Seq::<char>::empty();
    if parts.len() == 1 {
        lemma_split_append(none, parts[0], c);
        assert(none + parts[0] =~= parts[0]);
        assert(text::split_text(parts[0], c) =~= parts);
    } else {
        let front = parts.drop_last();
        assert forall|i: int| 0 <= i < front.len() implies !(#[trigger] front[i]).contains(c) by {
            assert(front[i] == parts[i]);
        }
        lemma_split_join(front, c);
        let joined = text::join_texts(front, seq![c]);
        let ended = joined + seq![c];
        assert(ended.drop_last() =~= joined);
        assert(text::split_text(ended, c) =~= front.push(none));
        lemma_split_append(ended, parts.last(), c);
        assert(none + parts.last() =~= parts.last());
        assert(text::split_text(ended + parts.last(), c) =~= parts);
    }
}

/// A piece between separators holds no separator, and no character that the whole does not hold.
pub proof fn lemma_split_pieces(s: Seq<char>, c: char)
    ensures
        forall|i: int|
            0 <= i < text::split_text(s, c).len() ==> !(#[trigger] text::split_text(
                s,
                c,
            )[i]).contains(c),
        forall|i: int, d: char|
            0 <= i < text::split_text(s, c).len() && #[trigger] text::split_text(s, c)[i].contains(d)
                ==> s.contains(d),
    decreases s.len(),
{
    let pieces = text::split_text(s, c);
    if s.len() > 0 {
        let front = s.drop_last();
        let before = text::split_text(front, c);
        lemma_split_pieces(front, c);
        text::lemma_split_text_nonempty(front, c);
        assert forall|i: int, d: char|
            0 <= i < pieces.len() && #[trigger] pieces[i].contains(d) implies s.contains(d) && d != c by {
            let k = choose|k: int| 0 <= k < pieces[i].len() && pieces[i][k] == d;
            if i < before.len() && k < before[i].len() {
                assert(before[i][k] == d);
                assert(before[i].contains(d));
                let m = choose|m: int| 0 <= m < front.len() && front[m] == d;
                assert(s[m] == d);
            } else {
                assert(s.last() == d);
                assert(s.contains(s.last()));
            }
        }
        assert forall|i: int| 0 <= i < pieces.len() implies !(#[trigger] pieces[i]).contains(c) by {
            if pieces[i].contains(c) {
                assert(false);
            }
        }
    }
}

/// A component that a normal form may have.
pub open spec fn plain_part(part: Seq<char>) -> bool {
    &&& types::naming_part(part)
    &&& !types::escaping_part(part)
    &&& !part.contains('/')
    &&& !part.contains('\\')
}

/// The components of a path with a normal form that is not empty.
pub(crate) proof fn lemma_label_parts(raw: Seq<char>, label: Seq<char>)
    requires
        types::normalized_label(raw) == Ok::<Seq<char>, Seq<char>>(label),
        label.len() > 0,
    ensures
        ({
            let kept = types::raw_parts(raw).filter(|part: Seq<char>| types::naming_part(part));
            &&& kept.len() > 0
            &&& label == text::join_texts(kept, "/"@)
            &&& text::split_text(label, '/') == kept
            &&& forall|i: int| 0 <= i < kept.len() ==> plain_part(#[trigger] kept[i])
        }),
{
    let flat = text::with_char_replaced(raw, '\\', '/');
    let all = types::raw_parts(raw);
    let keep = |part: Seq<char>| types::naming_part(part);
    let kept = all.filter(keep);
    reveal_strlit("/");
    assert("/"@ =~= seq!['/']);
    lemma_split_pieces(flat, '/');
    assert(!flat.contains('\\')) by {
        if flat.contains('\\') {
            let i = choose|i: int| 0 <= i < flat.len() && flat[i] == '\\';
            assert(flat[i] != '\\');
        }
    }
    lemma_filter_elements(all, keep);
    assert forall|i: int| 0 <= i < kept.len() implies plain_part(#[trigger] kept[i]) by {
        assert(keep(kept[i]) && all.contains(kept[i]));
        let j = choose|j: int| 0 <= j < all.len() && all[j] == kept[i];
        assert(!types::escaping_part(all[j]));
        if kept[i].contains('\\') {
            assert(all[j].contains('\\'));
        }
        assert(!all[j].contains('/'));
    }
    assert(label == text::join_texts(kept, "/"@));
    lemma_split_join(kept, '/');
}

/// A path in normal form names only things below the repo, and neither lane state nor git metadata.
pub proof fn law_normal_form_stays_inside(raw: Seq<char>, label: Seq<char>)
    requires
        types::normalized_label(raw) == Ok::<Seq<char>, Seq<char>>(label),
        label.len() > 0,
    ensures
        forall|i: int|
            0 <= i < text::split_text(label, '/').len() ==> plain_part(
                #[trigger] text::split_text(label, '/')[i],
            ),
        !types::rooted_at(label, ".lane"@),
        !types::rooted_at(label, ".git"@),
{
    lemma_label_parts(raw, label);
}

/// A path in normal form is its own normal form, unless it is blank or looks absolute: `./C:/x`
/// has the normal form `C:/x`, which is refused.
pub proof fn law_normalization_is_idempotent(raw: Seq<char>, label: Seq<char>)
    requires
        types::normalized_label(raw) == Ok::<Seq<char>, Seq<char>>(label),
        text::trim_text(label).len() > 0,
        !types::absolute_path(label),
    ensures
        types::normalized_label(label) == Ok::<Seq<char>, Seq<char>>(label),
{
    if label.len() == 0 {
        assert(text::trim_start_text(label) == label);
    } else {
        lemma_label_parts(raw, label);
        let keep = |part: Seq<char>| types::naming_part(part);
        let kept = types::raw_parts(raw).filter(keep);
        assert(!label.contains('\\')) by {
            lemma_joined_chars(kept, '\\');
        }
        assert(text::with_char_replaced(label, '\\', '/') =~= label) by {
            assert forall|i: int| 0 <= i < label.len() implies label[i] != '\\' by {
                assert(label.contains(label[i]));
            }
        }
        assert(types::raw_parts(label) == kept);
        lemma_filter_kept(kept, keep);
        assert(types::joined_label(label) == label);
        if label == "."@ {
            reveal_strlit(".");
            let none = Seq::<char>::empty();
            assert(label.drop_last() =~= none);
            reveal_with_fuel(text::split_text, 2);
            assert(text::split_text(label, '/')[0] =~= label);
            assert(plain_part(kept[0]));
        }
    }
}

/// What a filter keeps is in the list and passes.
proof fn lemma_filter_elements(list: Seq<Seq<char>>, keep: spec_fn(Seq<char>) -> bool)
    ensures
        forall|i: int|
            0 <= i < list.filter(keep).len() ==> keep(#[trigger] list.filter(keep)[i])
                && list.contains(list.filter(keep)[i]),
    decreases list.len(),
{
    reveal(Seq::filter);
    if list.len() > 0 {
        let front = list.drop_last();
        let kept = list.filter(keep);
        lemma_filter_elements(front, keep);
        assert forall|i: int| 0 <= i < kept.len() implies keep(#[trigger] kept[i]) && list.contains(
            kept[i],
        ) by {
            if i < front.filter(keep).len() {
                assert(front.filter(keep)[i] == kept[i]);
                let k = choose|k: int| 0 <= k < front.len() && front[k] == kept[i];
                assert(list[k] == kept[i]);
            } else {
                assert(list[list.len() - 1] == kept[i]);
            }
        }
    }
}

/// Joining by slashes brings in no other character.
pub(crate) proof fn lemma_joined_chars(parts: Seq<Seq<char>>, d: char)
    requires
        d != '/',
        forall|i: int| 0 <= i < parts.len() ==> !(#[trigger] parts[i]).contains(d),
    ensures
        !text::join_texts(parts, "/"@).contains(d),
    decreases parts.len(),
{
    reveal_strlit("/");
    if parts.len() > 1 {
        let front = parts.drop_last();
        assert forall|i: int| 0 <= i < front.len() implies !(#[trigger] front[i]).contains(d) by {
            assert(front[i] == parts[i]);
        }
        lemma_joined_chars(front, d);
        let joined = text::join_texts(front, "/"@);
        let whole = joined + "/"@ + parts.last();
        if whole.contains(d) {
            let k = choose|k: int| 0 <= k < whole.len() && whole[k] == d;
            if k < joined.len() {
                assert(joined[k] == d);
            } else if k == joined.len() {
                assert(whole[k] == '/');
            } else {
                assert(parts.last()[k - joined.len() - 1] == d);
            }
        }
    }
}

/// Filtering keeps a list of which every element is kept.
pub(crate) proof fn lemma_filter_kept(list: Seq<Seq<char>>, keep: spec_fn(Seq<char>) -> bool)
    requires
        forall|i: int| 0 <= i < list.len() ==> keep(#[trigger] list[i]),
    ensures
        list.filter(keep) == list,
    decreases list.len(),
{
    reveal(Seq::filter);
    if list.len() > 0 {
        let front = list.drop_last();
        assert forall|i: int| 0 <= i < front.len() implies keep(#[trigger] front[i]) by {
            assert(front[i] == list[i]);
        }
        lemma_filter_kept(front, keep);
        assert(keep(list[list.len() - 1]));
        assert(front.push(list.last()) =~= list);
    } else {
        assert(list.filter(keep) =~= list);
    }
}

} // verus!
