//! A map from texts to values that keeps its keys in code point order.
use vstd::prelude::*;

use crate::text;
use crate::text::{text_order, TextOrder};

verus! {

/// Key and value pairs whose keys strictly increase.
pub open spec fn sorted_pairs<V>(pairs: Seq<(Seq<char>, V)>) -> bool {
    forall|i: int, j: int|
        0 <= i < j < pairs.len() ==> text::text_lt((#[trigger] pairs[i]).0, (#[trigger] pairs[j]).0)
}

/// Texts that strictly increase.
pub open spec fn sorted_texts(list: Seq<Seq<char>>) -> bool {
    forall|i: int, j: int| 0 <= i < j < list.len() ==> text::text_lt(#[trigger] list[i], #[trigger] list[j])
}

/// The map that a sequence of pairs stands for; a later pair replaces an earlier one.
pub open spec fn pairs_map<V>(pairs: Seq<(Seq<char>, V)>) -> Map<Seq<char>, V>
    decreases pairs.len(),
{
    if pairs.len() == 0 {
        Map::empty()
    } else {
        pairs_map(pairs.drop_last()).insert(pairs.last().0, pairs.last().1)
    }
}

/// The keys of a sequence of pairs.
pub open spec fn pair_keys<V>(pairs: Seq<(Seq<char>, V)>) -> Seq<Seq<char>> {
    pairs.map_values(|p: (Seq<char>, V)| p.0)
}

/// With increasing keys, the map holds exactly the pairs.
pub proof fn lemma_pairs_map<V>(pairs: Seq<(Seq<char>, V)>)
    requires
        sorted_pairs(pairs),
    ensures
        forall|i: int|
            0 <= i < pairs.len() ==> pairs_map(pairs).contains_key((#[trigger] pairs[i]).0)
                && pairs_map(pairs)[pairs[i].0] == pairs[i].1,
        forall|k: Seq<char>| #[trigger]
            pairs_map(pairs).contains_key(k) ==> exists|i: int|
                0 <= i < pairs.len() && (#[trigger] pairs[i]).0 == k,
    decreases pairs.len(),
{
    if pairs.len() > 0 {
        let rest = pairs.drop_last();
        lemma_pairs_map(rest);
        assert forall|i: int| 0 <= i < pairs.len() implies pairs_map(pairs).contains_key(
            (#[trigger] pairs[i]).0,
        ) && pairs_map(pairs)[pairs[i].0] == pairs[i].1 by {
            if i < rest.len() {
                assert(rest[i] == pairs[i]);
                assert(text::text_lt(pairs[i].0, pairs[pairs.len() - 1].0));
                text::lemma_text_lt_irreflexive(pairs[i].0);
            }
        }
        assert forall|k: Seq<char>| #[trigger] pairs_map(pairs).contains_key(k) implies exists|i: int|
            0 <= i < pairs.len() && (#[trigger] pairs[i]).0 == k by {
            if k == pairs.last().0 {
                assert(pairs[pairs.len() - 1].0 == k);
            } else {
                assert(pairs_map(rest).contains_key(k));
                let i = choose|i: int| 0 <= i < rest.len() && (#[trigger] rest[i]).0 == k;
                assert(pairs[i].0 == k);
            }
        }
    }
}

/// Two strictly increasing sequences with the same elements are the same sequence.
pub proof fn lemma_sorted_texts_unique(a: Seq<Seq<char>>, b: Seq<Seq<char>>)
    requires
        sorted_texts(a),
        sorted_texts(b),
        forall|k: Seq<char>| a.contains(k) <==> b.contains(k),
    ensures
        a == b,
    decreases a.len(),
{
    if a.len() == 0 {
        if b.len() > 0 {
            assert(b.contains(b[0]));
            assert(false);
        }
        assert(a =~= b);
    } else {
        assert(a.contains(a.last()));
        assert(b.contains(a.last()));
        assert(b.len() > 0);
        assert(b.contains(b.last()));
        assert(a.contains(b.last()));
        let i = choose|i: int| 0 <= i < a.len() && a[i] == b.last();
        let j = choose|j: int| 0 <= j < b.len() && b[j] == a.last();
        if i < a.len() - 1 {
            assert(text::text_lt(a[i], a[a.len() - 1]));
            if j < b.len() - 1 {
                assert(text::text_lt(b[j], b[b.len() - 1]));
                text::lemma_text_lt_transitive(a[i], a.last(), a[i]);
                text::lemma_text_lt_irreflexive(a[i]);
            } else {
                text::lemma_text_lt_irreflexive(a[i]);
            }
        }
        assert(a.last() == b.last());
        let a0 = a.drop_last();
        let b0 = b.drop_last();
        assert forall|k: Seq<char>| a0.contains(k) <==> b0.contains(k) by {
            if a0.contains(k) {
                let i = choose|i: int| 0 <= i < a0.len() && a0[i] == k;
                assert(text::text_lt(a[i], a[a.len() - 1]));
                text::lemma_text_lt_irreflexive(k);
                assert(a.contains(a[i]));
                let j = choose|j: int| 0 <= j < b.len() && b[j] == k;
                assert(j < b0.len());
                assert(b0[j] == k);
            }
            if b0.contains(k) {
                let i = choose|i: int| 0 <= i < b0.len() && b0[i] == k;
                assert(text::text_lt(b[i], b[b.len() - 1]));
                text::lemma_text_lt_irreflexive(k);
                assert(b.contains(b[i]));
                let j = choose|j: int| 0 <= j < a.len() && a[j] == k;
                assert(j < a0.len());
                assert(a0[j] == k);
            }
        }
        lemma_sorted_texts_unique(a0, b0);
        assert(a =~= a0.push(a.last()));
        assert(b =~= b0.push(b.last()));
    }
}

/// `list` holds the elements of `set` in increasing order, each once.
pub open spec fn is_listing(list: Seq<Seq<char>>, set: Set<Seq<char>>) -> bool {
    sorted_texts(list) && forall|k: Seq<char>| #[trigger] list.contains(k) <==> set.contains(k)
}

/// The elements of a set in increasing order.
pub open spec fn listing(set: Set<Seq<char>>) -> Seq<Seq<char>> {
    choose|list: Seq<Seq<char>>| is_listing(list, set)
}

/// There is one listing at most.
pub proof fn lemma_listing(list: Seq<Seq<char>>, set: Set<Seq<char>>)
    requires
        is_listing(list, set),
    ensures
        listing(set) == list,
{
    let other = listing(set);
    assert(is_listing(other, set));
    assert forall|k: Seq<char>| other.contains(k) <==> list.contains(k) by {}
    lemma_sorted_texts_unique(other, list);
}

/// An increasing sequence with one more text in its place.
spec fn insert_text(list: Seq<Seq<char>>, k: Seq<char>) -> Seq<Seq<char>>
    decreases list.len(),
{
    if list.len() > 0 && text::text_lt(k, list.last()) {
        insert_text(list.drop_last(), k).push(list.last())
    } else {
        list.push(k)
    }
}

proof fn lemma_insert_text(list: Seq<Seq<char>>, k: Seq<char>)
    requires
        sorted_texts(list),
        !list.contains(k),
    ensures
        sorted_texts(insert_text(list, k)),
        forall|x: Seq<char>| #[trigger]
            insert_text(list, k).contains(x) <==> (list.contains(x) || x == k),
    decreases list.len(),
{
    let longer = insert_text(list, k);
    if list.len() > 0 && text::text_lt(k, list.last()) {
        let rest = list.drop_last();
        let inner = insert_text(rest, k);
        assert forall|i: int, j: int| 0 <= i < j < rest.len() implies text::text_lt(
            #[trigger] rest[i],
            #[trigger] rest[j],
        ) by {
            assert(text::text_lt(list[i], list[j]));
        }
        if rest.contains(k) {
            let i = choose|i: int| 0 <= i < rest.len() && rest[i] == k;
            assert(list[i] == k);
        }
        lemma_insert_text(rest, k);
        assert forall|i: int, j: int| 0 <= i < j < longer.len() implies text::text_lt(
            #[trigger] longer[i],
            #[trigger] longer[j],
        ) by {
            if j < inner.len() {
                assert(text::text_lt(inner[i], inner[j]));
            } else {
                assert(inner.contains(inner[i]));
                if inner[i] != k {
                    let m = choose|m: int| 0 <= m < rest.len() && rest[m] == inner[i];
                    assert(text::text_lt(list[m], list[list.len() - 1]));
                }
            }
        }
        assert forall|x: Seq<char>| #[trigger] longer.contains(x) <==> (list.contains(x) || x == k) by {
            if longer.contains(x) {
                let i = choose|i: int| 0 <= i < longer.len() && longer[i] == x;
                if i < inner.len() {
                    assert(inner[i] == x);
                    assert(inner.contains(x));
                    if rest.contains(x) {
                        let m = choose|m: int| 0 <= m < rest.len() && rest[m] == x;
                        assert(list[m] == x);
                    }
                } else {
                    assert(list[list.len() - 1] == x);
                }
            }
            if list.contains(x) {
                let i = choose|i: int| 0 <= i < list.len() && list[i] == x;
                if i < rest.len() {
                    assert(rest[i] == x);
                    assert(inner.contains(x));
                    let m = choose|m: int| 0 <= m < inner.len() && inner[m] == x;
                    assert(longer[m] == x);
                } else {
                    assert(longer[inner.len() as int] == x);
                }
            }
            if x == k {
                assert(inner.contains(k));
                let m = choose|m: int| 0 <= m < inner.len() && inner[m] == x;
                assert(longer[m] == x);
            }
        }
    } else {
        assert forall|i: int, j: int| 0 <= i < j < longer.len() implies text::text_lt(
            #[trigger] longer[i],
            #[trigger] longer[j],
        ) by {
            if j == list.len() {
                text::lemma_text_lt_total(list.last(), k);
                assert(list[list.len() - 1] == list.last());
                assert(list.contains(list.last()));
                if i < list.len() - 1 {
                    assert(text::text_lt(list[i], list[list.len() - 1]));
                    text::lemma_text_lt_transitive(list[i], list.last(), k);
                }
            }
        }
        assert forall|x: Seq<char>| #[trigger] longer.contains(x) <==> (list.contains(x) || x == k) by {
            if list.contains(x) {
                let i = choose|i: int| 0 <= i < list.len() && list[i] == x;
                assert(longer[i] == x);
            }
            assert(longer[list.len() as int] == k);
        }
    }
}

/// A set that can be listed is finite.
pub proof fn lemma_listed_is_finite(set: Set<Seq<char>>)
    requires
        is_listing(listing(set), set),
    ensures
        set.finite(),
{
    let list = listing(set);
    vstd::seq_lib::seq_to_set_is_finite(list);
    assert(list.to_set() =~= set);
}

/// The elements of a finite set can be listed.
pub proof fn lemma_listing_exists(set: Set<Seq<char>>)
    requires
        set.finite(),
    ensures
        is_listing(listing(set), set),
    decreases set.len(),
{
    if set.len() == 0 {
        let none = Seq::<Seq<char>>::empty();
        assert(set =~= Set::empty());
        assert(is_listing(none, set));
    } else {
        let k = set.choose();
        let rest = set.remove(k);
        lemma_listing_exists(rest);
        let list = listing(rest);
        assert(!rest.contains(k));
        lemma_insert_text(list, k);
        assert forall|x: Seq<char>| #[trigger] insert_text(list, k).contains(x) <==> set.contains(x) by {
            assert(list.contains(x) <==> rest.contains(x));
        }
        assert(is_listing(insert_text(list, k), set));
    }
}

/// There is a text of which `p` holds.
pub open spec fn holds_of_some(p: spec_fn(Seq<char>) -> bool) -> bool {
    exists|k: Seq<char>| #[trigger] p(k)
}

/// The first text, in order, of which `p` holds.
pub open spec fn least(p: spec_fn(Seq<char>) -> bool) -> Seq<char> {
    choose|k: Seq<char>| is_least(p, k)
}

/// `p` holds of `k` and of nothing before it.
pub open spec fn is_least(p: spec_fn(Seq<char>) -> bool, k: Seq<char>) -> bool {
    p(k) && forall|other: Seq<char>| #[trigger] p(other) ==> !text::text_lt(other, k)
}

/// In a sorted list that holds everything of which `p` holds, the first element of which it holds
/// is the least.
pub proof fn lemma_least(keys: Seq<Seq<char>>, i: int, p: spec_fn(Seq<char>) -> bool)
    requires
        sorted_texts(keys),
        0 <= i < keys.len(),
        p(keys[i]),
        forall|j: int| 0 <= j < i ==> !p(#[trigger] keys[j]),
        forall|k: Seq<char>| #[trigger] p(k) ==> keys.contains(k),
    ensures
        least(p) == keys[i],
{
    let k = keys[i];
    assert forall|other: Seq<char>| #[trigger] p(other) implies !text::text_lt(other, k) by {
        let j = choose|j: int| 0 <= j < keys.len() && keys[j] == other;
        if j > i {
            assert(text::text_lt(keys[i], keys[j]));
            if text::text_lt(other, k) {
                text::lemma_text_lt_transitive(k, other, k);
                text::lemma_text_lt_irreflexive(k);
            }
        } else {
            text::lemma_text_lt_irreflexive(k);
        }
    }
    assert(is_least(p, k));
    let other = least(p);
    assert(is_least(p, other));
    assert(p(other) && p(k));
    text::lemma_text_lt_total(other, k);
}

/// A map from texts to values, with its keys in code point order.
#[derive(Clone, Debug, PartialEq, Eq)]
pub struct TextMap<V> {
    entries: Vec<(String, V)>,
}

impl<V> View for TextMap<V> {
    type V = Map<Seq<char>, V>;

    open spec fn view(&self) -> Map<Seq<char>, V> {
        pairs_map(self.pairs())
    }
}

impl<V> TextMap<V> {
    /// The pairs in storage order.
    pub closed spec fn pairs(&self) -> Seq<(Seq<char>, V)> {
        self.entries@.map_values(|e: (String, V)| (e.0@, e.1))
    }

    /// The keys in storage order.
    pub open spec fn keys(&self) -> Seq<Seq<char>> {
        pair_keys(self.pairs())
    }

    /// The keys strictly increase.
    pub open spec fn wf(&self) -> bool {
        sorted_pairs(self.pairs())
    }

    /// What [`Self::wf`] gives: positions and keys name the same values.
    pub proof fn lemma_wf(&self)
        requires
            self.wf(),
        ensures
            forall|i: int|
                0 <= i < self.pairs().len() ==> self@.contains_key((#[trigger] self.pairs()[i]).0)
                    && self@[self.pairs()[i].0] == self.pairs()[i].1,
            forall|k: Seq<char>| #[trigger]
                self@.contains_key(k) ==> exists|i: int|
                    0 <= i < self.pairs().len() && (#[trigger] self.pairs()[i]).0 == k,
            forall|k: Seq<char>| self@.contains_key(k) <==> #[trigger] self.keys().contains(k),
            sorted_texts(self.keys()),
            listing(self@.dom()) == self.keys(),
            is_listing(listing(self@.dom()), self@.dom()),
    {
        lemma_pairs_map(self.pairs());
        assert forall|k: Seq<char>| self@.contains_key(k) <==> #[trigger] self.keys().contains(k) by {
            if self@.contains_key(k) {
                let i = choose|i: int| 0 <= i < self.pairs().len() && (#[trigger] self.pairs()[i]).0 == k;
                assert(self.keys()[i] == k);
            }
            if self.keys().contains(k) {
                let i = choose|i: int| 0 <= i < self.keys().len() && self.keys()[i] == k;
                assert(self.pairs()[i].0 == k);
            }
        }
        lemma_listing(self.keys(), self@.dom());
    }

    /// The map without keys.
    pub fn new() -> (r: Self)
        ensures
            r.wf(),
            r.pairs() == Seq::<(Seq<char>, V)>::empty(),
            r@ == Map::<Seq<char>, V>::empty(),
    {
        let r = TextMap { entries: Vec::new() };
        assert(r.pairs() =~= Seq::<(Seq<char>, V)>::empty());
        r
    }

    /// The number of keys.
    pub fn len(&self) -> (r: usize)
        ensures
            r == self.pairs().len(),
    {
        self.entries.len()
    }

    /// Whether there is no key.
    pub fn is_empty(&self) -> (r: bool)
        requires
            self.wf(),
        ensures
            r == (self.pairs().len() == 0),
            r == (self@ == Map::<Seq<char>, V>::empty()),
    {
        proof {
            self.lemma_wf();
            if self.pairs().len() > 0 {
                assert(self@.contains_key(self.pairs()[0].0));
            }
        }
        self.entries.len() == 0
    }

    /// The key at a position.
    pub fn key_at(&self, i: usize) -> (r: &str)
        requires
            i < self.pairs().len(),
        ensures
            r@ == self.pairs()[i as int].0,
    {
        self.entries[i].0.as_str()
    }

    /// The value at a position.
    pub fn value_at(&self, i: usize) -> (r: &V)
        requires
            i < self.pairs().len(),
        ensures
            *r == self.pairs()[i as int].1,
    {
        &self.entries[i].1
    }

    /// The first position whose key is not before `key`, and whether that key is `key`.
    fn find(&self, key: &str) -> (r: (usize, bool))
        requires
            self.wf(),
        ensures
            r.0 <= self.pairs().len(),
            forall|i: int| 0 <= i < r.0 ==> text::text_lt((#[trigger] self.pairs()[i]).0, key@),
            r.1 ==> r.0 < self.pairs().len() && self.pairs()[r.0 as int].0 == key@,
            !r.1 ==> forall|i: int|
                r.0 <= i < self.pairs().len() ==> text::text_lt(key@, (#[trigger] self.pairs()[i]).0),
    {
        let mut i: usize = 0;
        while i < self.entries.len()
            invariant
                i <= self.entries@.len(),
                self.wf(),
                forall|j: int| 0 <= j < i ==> text::text_lt((#[trigger] self.pairs()[j]).0, key@),
            decreases self.entries@.len() - i,
        {
            let order = text_order(self.entries[i].0.as_str(), key);
            assert(self.pairs()[i as int].0 == self.entries@[i as int].0@);
            match order {
                TextOrder::Before => {},
                TextOrder::Same => {
                    return (i, true);
                },
                TextOrder::After => {
                    proof {
                        text::lemma_text_lt_total(self.pairs()[i as int].0, key@);
                        assert forall|j: int| i <= j < self.pairs().len() implies text::text_lt(
                            key@,
                            (#[trigger] self.pairs()[j]).0,
                        ) by {
                            if j > i {
                                text::lemma_text_lt_transitive(
                                    key@,
                                    self.pairs()[i as int].0,
                                    self.pairs()[j].0,
                                );
                            }
                        }
                    }
                    return (i, false);
                },
            }
            i = i + 1;
        }
        (i, false)
    }

    /// With the neighbours of a missing key known, it is not in the map.
    proof fn lemma_missing(&self, key: Seq<char>, at: int)
        requires
            self.wf(),
            0 <= at <= self.pairs().len(),
            forall|i: int| 0 <= i < at ==> text::text_lt((#[trigger] self.pairs()[i]).0, key),
            forall|i: int| at <= i < self.pairs().len() ==> text::text_lt(key, (#[trigger] self.pairs()[i]).0),
        ensures
            !self@.contains_key(key),
    {
        self.lemma_wf();
        text::lemma_text_lt_irreflexive(key);
        if self@.contains_key(key) {
            let i = choose|i: int| 0 <= i < self.pairs().len() && (#[trigger] self.pairs()[i]).0 == key;
            assert(false);
        }
    }

    /// The value of `key`.
    pub fn get(&self, key: &str) -> (r: Option<&V>)
        requires
            self.wf(),
        ensures
            match r {
                Some(v) => self@.contains_key(key@) && self@[key@] == *v,
                None => !self@.contains_key(key@),
            },
    {
        let (at, found) = self.find(key);
        if found {
            proof {
                self.lemma_wf();
            }
            Some(&self.entries[at].1)
        } else {
            proof {
                self.lemma_missing(key@, at as int);
            }
            None
        }
    }

    /// Whether `key` has a value.
    pub fn contains_key(&self, key: &str) -> (r: bool)
        requires
            self.wf(),
        ensures
            r == self@.contains_key(key@),
    {
        self.get(key).is_some()
    }

    /// Gives `key` a value in place of the one it may have.
    pub fn insert(&mut self, key: String, value: V) -> (fresh: bool)
        requires
            old(self).wf(),
        ensures
            final(self).wf(),
            final(self)@ == old(self)@.insert(key@, value),
            final(self).pairs().len() <= old(self).pairs().len() + 1,
            fresh == !old(self)@.contains_key(key@),
    {
        let (at, found) = self.find(key.as_str());
        let ghost before = *self;
        let ghost name = key@;
        if found {
            let ghost held = self.entries@;
            let _ = self.entries.remove(at);
            self.entries.insert(at, (key, value));
            proof {
                assert(self.pairs() =~= before.pairs().update(at as int, (name, value)));
                before.lemma_wf();
                self.lemma_wf();
                assert(before.pairs()[at as int].0 == name);
                lemma_update(before.pairs(), at as int, value);
            }
            false
        } else {
            self.entries.insert(at, (key, value));
            proof {
                assert(self.pairs() =~= before.pairs().insert(at as int, (name, value)));
                before.lemma_missing(name, at as int);
                lemma_insert(before.pairs(), at as int, (name, value));
            }
            true
        }
    }

    /// Takes `key` out of the map.
    pub fn remove(&mut self, key: &str) -> (removed: Option<V>)
        requires
            old(self).wf(),
        ensures
            final(self).wf(),
            final(self)@ == old(self)@.remove(key@),
            match removed {
                Some(v) => old(self)@.contains_key(key@) && old(self)@[key@] == v,
                None => !old(self)@.contains_key(key@),
            },
    {
        let (at, found) = self.find(key);
        let ghost before = *self;
        if found {
            let (_, value) = self.entries.remove(at);
            proof {
                assert(self.pairs() =~= before.pairs().remove(at as int));
                before.lemma_wf();
                lemma_remove(before.pairs(), at as int);
            }
            Some(value)
        } else {
            proof {
                before.lemma_missing(key@, at as int);
                assert(before@.remove(key@) =~= before@);
            }
            None
        }
    }

    /// The pairs, in order of their keys.
    pub fn into_entries(self) -> (r: Vec<(String, V)>)
        ensures
            r@.map_values(|e: (String, V)| (e.0@, e.1)) == self.pairs(),
    {
        self.entries
    }
}

proof fn lemma_insert<V>(pairs: Seq<(Seq<char>, V)>, at: int, pair: (Seq<char>, V))
    requires
        sorted_pairs(pairs),
        0 <= at <= pairs.len(),
        forall|i: int| 0 <= i < at ==> text::text_lt((#[trigger] pairs[i]).0, pair.0),
        forall|i: int| at <= i < pairs.len() ==> text::text_lt(pair.0, (#[trigger] pairs[i]).0),
    ensures
        sorted_pairs(pairs.insert(at, pair)),
        pairs_map(pairs.insert(at, pair)) == pairs_map(pairs).insert(pair.0, pair.1),
{
    let after = pairs.insert(at, pair);
    assert forall|i: int, j: int| 0 <= i < j < after.len() implies text::text_lt(
        (#[trigger] after[i]).0,
        (#[trigger] after[j]).0,
    ) by {
        let i0 = if i < at { i } else { i - 1 };
        let j0 = if j < at { j } else { j - 1 };
        if i != at {
            assert(after[i] == pairs[i0]);
        }
        if j != at {
            assert(after[j] == pairs[j0]);
        }
    }
    lemma_pairs_map(pairs);
    lemma_pairs_map(after);
    assert forall|k: Seq<char>| pairs_map(after).contains_key(k) <==> pairs_map(pairs).insert(
        pair.0,
        pair.1,
    ).contains_key(k) by {
        if pairs_map(after).contains_key(k) {
            let i = choose|i: int| 0 <= i < after.len() && (#[trigger] after[i]).0 == k;
            if i < at {
                assert(pairs[i].0 == k);
            } else if i > at {
                assert(pairs[i - 1].0 == k);
            }
        }
        if k == pair.0 {
            assert(after[at].0 == k);
        } else if pairs_map(pairs).contains_key(k) {
            let i = choose|i: int| 0 <= i < pairs.len() && (#[trigger] pairs[i]).0 == k;
            let i1 = if i < at { i } else { i + 1 };
            assert(after[i1].0 == k);
        }
    }
    assert forall|k: Seq<char>| #[trigger] pairs_map(after).contains_key(k) implies pairs_map(after)[k]
        == pairs_map(pairs).insert(pair.0, pair.1)[k] by {
        let i = choose|i: int| 0 <= i < after.len() && (#[trigger] after[i]).0 == k;
        if i == at {
            assert(after[at] == pair);
        } else {
            let i0 = if i < at { i } else { i - 1 };
            assert(after[i] == pairs[i0]);
            text::lemma_text_lt_irreflexive(k);
        }
    }
    assert(pairs_map(after) =~= pairs_map(pairs).insert(pair.0, pair.1));
}

proof fn lemma_update<V>(pairs: Seq<(Seq<char>, V)>, at: int, value: V)
    requires
        sorted_pairs(pairs),
        0 <= at < pairs.len(),
    ensures
        sorted_pairs(pairs.update(at, (pairs[at].0, value))),
        pairs_map(pairs.update(at, (pairs[at].0, value))) == pairs_map(pairs).insert(
            pairs[at].0,
            value,
        ),
{
    let after = pairs.update(at, (pairs[at].0, value));
    let key = pairs[at].0;
    assert forall|i: int, j: int| 0 <= i < j < after.len() implies text::text_lt(
        (#[trigger] after[i]).0,
        (#[trigger] after[j]).0,
    ) by {
        assert(after[i].0 == pairs[i].0);
        assert(after[j].0 == pairs[j].0);
    }
    lemma_pairs_map(pairs);
    lemma_pairs_map(after);
    assert forall|k: Seq<char>| pairs_map(after).contains_key(k) <==> pairs_map(pairs).insert(
        key,
        value,
    ).contains_key(k) by {
        if pairs_map(after).contains_key(k) {
            let i = choose|i: int| 0 <= i < after.len() && (#[trigger] after[i]).0 == k;
            assert(pairs[i].0 == k);
        }
        if k == key {
            assert(after[at].0 == k);
        } else if pairs_map(pairs).contains_key(k) {
            let i = choose|i: int| 0 <= i < pairs.len() && (#[trigger] pairs[i]).0 == k;
            assert(after[i].0 == k);
        }
    }
    assert forall|k: Seq<char>| #[trigger] pairs_map(after).contains_key(k) implies pairs_map(after)[k]
        == pairs_map(pairs).insert(key, value)[k] by {
        let i = choose|i: int| 0 <= i < after.len() && (#[trigger] after[i]).0 == k;
        if i != at {
            assert(after[i] == pairs[i]);
            if k == key {
                text::lemma_text_lt_irreflexive(k);
                assert(pairs[i].0 == pairs[at].0);
            }
        }
    }
    assert(pairs_map(after) =~= pairs_map(pairs).insert(key, value));
}

proof fn lemma_remove<V>(pairs: Seq<(Seq<char>, V)>, at: int)
    requires
        sorted_pairs(pairs),
        0 <= at < pairs.len(),
    ensures
        sorted_pairs(pairs.remove(at)),
        pairs_map(pairs.remove(at)) == pairs_map(pairs).remove(pairs[at].0),
{
    let after = pairs.remove(at);
    let key = pairs[at].0;
    assert forall|i: int, j: int| 0 <= i < j < after.len() implies text::text_lt(
        (#[trigger] after[i]).0,
        (#[trigger] after[j]).0,
    ) by {
        let i0 = if i < at { i } else { i + 1 };
        let j0 = if j < at { j } else { j + 1 };
        assert(after[i] == pairs[i0]);
        assert(after[j] == pairs[j0]);
    }
    lemma_pairs_map(pairs);
    lemma_pairs_map(after);
    assert forall|k: Seq<char>| pairs_map(after).contains_key(k) <==> pairs_map(pairs).remove(
        key,
    ).contains_key(k) by {
        if pairs_map(after).contains_key(k) {
            let i = choose|i: int| 0 <= i < after.len() && (#[trigger] after[i]).0 == k;
            let i0 = if i < at { i } else { i + 1 };
            assert(after[i] == pairs[i0]);
            text::lemma_text_lt_irreflexive(k);
            if k == key {
                assert(pairs[i0].0 == pairs[at].0);
            }
        }
        if k != key && pairs_map(pairs).contains_key(k) {
            let i = choose|i: int| 0 <= i < pairs.len() && (#[trigger] pairs[i]).0 == k;
            let i1 = if i < at { i } else { i - 1 };
            assert(after[i1].0 == k);
        }
    }
    assert forall|k: Seq<char>| #[trigger] pairs_map(after).contains_key(k) implies pairs_map(after)[k]
        == pairs_map(pairs).remove(key)[k] by {
        let i = choose|i: int| 0 <= i < after.len() && (#[trigger] after[i]).0 == k;
        let i0 = if i < at { i } else { i + 1 };
        assert(after[i] == pairs[i0]);
    }
    assert(pairs_map(after) =~= pairs_map(pairs).remove(key));
}

/// The keys of a map as texts.
pub fn map_keys<V>(map: &TextMap<V>) -> (r: Vec<String>)
    ensures
        text::texts(r@) == map.keys(),
{
    let mut r: Vec<String> = Vec::new();
    let mut i: usize = 0;
    while i < map.len()
        invariant
            i <= map.pairs().len(),
            r@.len() == i,
            forall|k: int| 0 <= k < i ==> (#[trigger] r@[k])@ == map.keys()[k],
        decreases map.pairs().len() - i,
    {
        r.push(map.key_at(i).to_owned());
        i = i + 1;
    }
    assert(text::texts(r@) =~= map.keys());
    r
}

} // verus!
