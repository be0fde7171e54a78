//! Tables keyed by text.
//!
//! A [`StrMap`] holds its rows in ascending key order, so that two tables with
//! the same contents are the same value. Its view is the finite map from keys
//! to values.

use crate::order::{
    lemma_text_le_antisymmetric, lemma_text_le_total, lemma_text_le_transitive, text_le, text_lt,
};
use vstd::prelude::*;

verus! {

/// Calls `<` on `str`. The standard library orders strings
/// lexicographically by their bytes, which is the order of their code
/// points; the contract says that this is [`text_lt`].
#[verifier::external_body]
pub(crate) fn str_lt(a: &str, b: &str) -> (r: bool)
    ensures
        r == text_lt(a@, b@),
{
    a < b
}

/// The keys of a sequence of rows.
pub open spec fn row_keys<V>(pairs: Seq<(String, V)>) -> Seq<Seq<char>> {
    Seq::new(pairs.len(), |i: int| pairs[i].0@)
}

/// Every key comes strictly before the keys after it.
pub open spec fn ascending(keys: Seq<Seq<char>>) -> bool {
    forall|i: int, j: int| 0 <= i < j < keys.len() ==> text_lt(#[trigger] keys[i], #[trigger] keys[j])
}

/// The map that a sequence of rows stands for.
pub open spec fn as_map<V>(pairs: Seq<(String, V)>) -> Map<Seq<char>, V>
    decreases pairs.len(),
{
    if pairs.len() == 0 {
        Map::empty()
    } else {
        as_map(pairs.drop_last()).insert(pairs.last().0@, pairs.last().1)
    }
}

/// With ascending keys, the map holds exactly the rows.
pub proof fn lemma_as_map<V>(pairs: Seq<(String, V)>)
    requires
        ascending(row_keys(pairs)),
    ensures
        as_map(pairs).dom().finite(),
        as_map(pairs).dom().len() == pairs.len(),
        forall|i: int|
            0 <= i < pairs.len() ==> as_map(pairs).contains_key(#[trigger] pairs[i].0@) && as_map(
                pairs,
            )[pairs[i].0@] == pairs[i].1,
        forall|k: Seq<char>|
            as_map(pairs).contains_key(k) ==> exists|i: int|
                0 <= i < pairs.len() && #[trigger] pairs[i].0@ == k,
    decreases pairs.len(),
{
    if pairs.len() > 0 {
        let head = pairs.drop_last();
        let last = pairs.last();
        assert forall|i: int, j: int| 0 <= i < j < head.len() implies text_lt(
            #[trigger] row_keys(head)[i],
            #[trigger] row_keys(head)[j],
        ) by {
            assert(row_keys(head)[i] == row_keys(pairs)[i]);
            assert(row_keys(head)[j] == row_keys(pairs)[j]);
        }
        lemma_as_map(head);
        let m = as_map(head);
        if m.contains_key(last.0@) {
            let i = choose|i: int| 0 <= i < head.len() && #[trigger] head[i].0@ == last.0@;
            assert(text_lt(row_keys(pairs)[i], row_keys(pairs)[pairs.len() - 1]));
        }
        assert forall|i: int| 0 <= i < pairs.len() implies as_map(pairs).contains_key(
            #[trigger] pairs[i].0@,
        ) && as_map(pairs)[pairs[i].0@] == pairs[i].1 by {
            if i < head.len() {
                assert(head[i] == pairs[i]);
                assert(text_lt(row_keys(pairs)[i], row_keys(pairs)[pairs.len() - 1]));
            }
        }
        assert forall|k: Seq<char>| as_map(pairs).contains_key(k) implies exists|i: int|
            0 <= i < pairs.len() && #[trigger] pairs[i].0@ == k by {
            if k == last.0@ {
                assert(pairs[pairs.len() - 1].0@ == k);
            } else {
                let i = choose|i: int| 0 <= i < head.len() && #[trigger] head[i].0@ == k;
                assert(pairs[i].0@ == k);
            }
        }
    }
}

/// The least of a set of keys.
pub open spec fn least(keys: Set<Seq<char>>) -> Seq<char> {
    choose|k: Seq<char>|
        keys.contains(k) && forall|o: Seq<char>| keys.contains(o) ==> text_le(k, o)
}

/// The keys of a finite set in ascending order.
pub open spec fn ascending_keys(keys: Set<Seq<char>>) -> Seq<Seq<char>>
    decreases keys.len(),
    when keys.finite()
{
    if keys.len() == 0 || !keys.contains(least(keys)) {
        Seq::empty()
    } else {
        seq![least(keys)] + ascending_keys(keys.remove(least(keys)))
    }
}

/// A finite set of keys that is not empty has a least key.
pub proof fn lemma_least(keys: Set<Seq<char>>)
    requires
        keys.finite(),
        keys.len() > 0,
    ensures
        keys.contains(least(keys)),
        forall|o: Seq<char>| keys.contains(o) ==> text_le(least(keys), o),
    decreases keys.len(),
{
    let x = keys.choose();
    let rest = keys.remove(x);
    let m = if rest.len() == 0 {
        assert forall|o: Seq<char>| keys.contains(o) implies text_le(x, o) by {
            if o != x {
                assert(rest.contains(o));
            }
            crate::order::lemma_text_le_reflexive(x);
        }
        x
    } else {
        lemma_least(rest);
        let y = least(rest);
        lemma_text_le_total(x, y);
        if text_le(x, y) {
            assert forall|o: Seq<char>| keys.contains(o) implies text_le(x, o) by {
                if o != x {
                    assert(rest.contains(o));
                    lemma_text_le_transitive(x, y, o);
                } else {
                    crate::order::lemma_text_le_reflexive(x);
                }
            }
            x
        } else {
            assert forall|o: Seq<char>| keys.contains(o) implies text_le(y, o) by {
                if o != x {
                    assert(rest.contains(o));
                }
            }
            y
        }
    };
    assert(keys.contains(m) && forall|o: Seq<char>| keys.contains(o) ==> text_le(m, o));
}

/// The ascending listing of a finite set of keys holds exactly the keys of
/// the set, each once, every key before the keys that are greater.
pub proof fn lemma_ascending_keys_of_set(keys: Set<Seq<char>>)
    requires
        keys.finite(),
    ensures
        ascending(ascending_keys(keys)),
        ascending_keys(keys).len() == keys.len(),
        forall|k: Seq<char>| keys.contains(k) <==> ascending_keys(keys).contains(k),
    decreases keys.len(),
{
    if keys.len() == 0 {
        assert forall|k: Seq<char>| !keys.contains(k) by {
            if keys.contains(k) {
                assert(keys.remove(k).len() + 1 == keys.len());
            }
        }
    } else {
        lemma_least(keys);
        let first = least(keys);
        let rest = keys.remove(first);
        lemma_ascending_keys_of_set(rest);
        let tail = ascending_keys(rest);
        let all = ascending_keys(keys);
        assert(all == seq![first] + tail);
        assert forall|i: int, j: int| 0 <= i < j < all.len() implies text_lt(
            #[trigger] all[i],
            #[trigger] all[j],
        ) by {
            assert(all[j] == tail[j - 1]);
            assert(tail.contains(tail[j - 1]));
            if i == 0 {
                assert(rest.contains(all[j]));
            } else {
                assert(all[i] == tail[i - 1]);
            }
        }
        assert forall|k: Seq<char>| keys.contains(k) <==> all.contains(k) by {
            if keys.contains(k) {
                if k == first {
                    assert(all[0] == k);
                } else {
                    assert(rest.contains(k));
                    let i = choose|i: int| 0 <= i < tail.len() && tail[i] == k;
                    assert(all[i + 1] == k);
                }
            }
            if all.contains(k) {
                let i = choose|i: int| 0 <= i < all.len() && all[i] == k;
                if i > 0 {
                    assert(tail[i - 1] == k);
                    assert(tail.contains(k));
                }
            }
        }
    }
}

/// Ascending rows list the keys of their map in ascending order.
pub proof fn lemma_ascending_keys<V>(pairs: Seq<(String, V)>)
    requires
        ascending(row_keys(pairs)),
    ensures
        ascending_keys(as_map(pairs).dom()) == row_keys(pairs),
    decreases pairs.len(),
{
    lemma_as_map(pairs);
    let keys = as_map(pairs).dom();
    if pairs.len() == 0 {
        assert(ascending_keys(keys) =~= row_keys(pairs));
    } else {
        let first = pairs[0].0@;
        let rest = pairs.drop_first();
        assert forall|i: int, j: int| 0 <= i < j < rest.len() implies text_lt(
            #[trigger] row_keys(rest)[i],
            #[trigger] row_keys(rest)[j],
        ) by {
            assert(row_keys(rest)[i] == row_keys(pairs)[i + 1]);
            assert(row_keys(rest)[j] == row_keys(pairs)[j + 1]);
        }
        lemma_as_map(rest);
        lemma_ascending_keys(rest);
        assert(keys.contains(first));
        assert forall|o: Seq<char>| keys.contains(o) implies text_le(first, o) by {
            let i = choose|i: int| 0 <= i < pairs.len() && #[trigger] pairs[i].0@ == o;
            if i == 0 {
                crate::order::lemma_text_le_reflexive(first);
            } else {
                assert(text_lt(row_keys(pairs)[0], row_keys(pairs)[i]));
            }
        }
        let k = least(keys);
        lemma_text_le_antisymmetric(k, first);
        assert(keys.remove(first) =~= as_map(rest).dom()) by {
            assert forall|o: Seq<char>| keys.remove(first).contains(o) <==> as_map(
                rest,
            ).dom().contains(o) by {
                if keys.remove(first).contains(o) {
                    let i = choose|i: int| 0 <= i < pairs.len() && #[trigger] pairs[i].0@ == o;
                    assert(rest[i - 1].0@ == o);
                }
                if as_map(rest).dom().contains(o) {
                    let i = choose|i: int| 0 <= i < rest.len() && #[trigger] rest[i].0@ == o;
                    assert(pairs[i + 1].0@ == o);
                    assert(text_lt(row_keys(pairs)[0], row_keys(pairs)[i + 1]));
                }
            }
        }
        assert(ascending_keys(keys) =~= row_keys(pairs));
    }
}

/// A table from text keys to values of type `V`.
#[derive(Debug, PartialEq)]
pub struct StrMap<V> {
    pub(crate) entries: Vec<(String, V)>,
}

impl<V> View for StrMap<V> {
    type V = Map<Seq<char>, V>;

    open spec fn view(&self) -> Map<Seq<char>, V> {
        as_map(self.pairs())
    }
}

impl<V> StrMap<V> {
    /// The rows, in key order.
    pub open(crate) spec fn pairs(self) -> Seq<(String, V)> {
        self.entries@
    }

    /// The keys, in ascending order.
    pub open spec fn keys(self) -> Seq<Seq<char>> {
        row_keys(self.pairs())
    }

    #[verifier::type_invariant]
    pub closed spec fn ordered(self) -> bool {
        ascending(row_keys(self.entries@))
    }

    /// What holds of every table: the keys ascend, and the view holds
    /// exactly the rows.
    pub proof fn lemma_rows(self)
        requires
            self.ordered(),
        ensures
            ascending(self.keys()),
            self@.dom().finite(),
            self@.dom().len() == self.pairs().len(),
            forall|i: int|
                0 <= i < self.pairs().len() ==> self@.contains_key(#[trigger] self.pairs()[i].0@)
                    && self@[self.pairs()[i].0@] == self.pairs()[i].1,
            forall|k: Seq<char>|
                self@.contains_key(k) ==> exists|i: int|
                    0 <= i < self.pairs().len() && #[trigger] self.pairs()[i].0@ == k,
            self.keys() == ascending_keys(self@.dom()),
    {
        lemma_as_map(self.pairs());
        lemma_ascending_keys(self.pairs());
    }

    /// An empty table.
    pub fn new() -> (r: Self)
        ensures
            r@ == Map::<Seq<char>, V>::empty(),
            r.pairs().len() == 0,
    {
        StrMap { entries: Vec::new() }
    }

    /// Number of rows.
    pub fn len(&self) -> (n: usize)
        ensures
            n == self.pairs().len(),
            n == self@.dom().len(),
    {
        proof {
            use_type_invariant(self);
            self.lemma_rows();
        }
        self.entries.len()
    }

    /// Key of the row at position `i` in key order.
    pub fn key_at(&self, i: usize) -> (r: &String)
        requires
            i < self.pairs().len(),
        ensures
            *r == self.pairs()[i as int].0,
            self@.contains_key(r@),
    {
        proof {
            use_type_invariant(self);
            self.lemma_rows();
        }
        &self.entries[i].0
    }

    /// Value of the row at position `i` in key order.
    pub fn value_at(&self, i: usize) -> (r: &V)
        requires
            i < self.pairs().len(),
        ensures
            *r == self.pairs()[i as int].1,
            self@.contains_key(self.pairs()[i as int].0@),
            *r == self@[self.pairs()[i as int].0@],
    {
        proof {
            use_type_invariant(self);
            self.lemma_rows();
        }
        &self.entries[i].1
    }

    /// Position of the first row whose key is not before `key`.
    fn position(&self, key: &str) -> (r: usize)
        ensures
            r <= self.pairs().len(),
            forall|j: int| 0 <= j < r ==> text_lt(#[trigger] self.keys()[j], key@),
            forall|j: int| r <= j < self.pairs().len() ==> text_le(key@, #[trigger] self.keys()[j]),
    {
        proof {
            use_type_invariant(self);
        }
        let mut i: usize = 0;
        while i < self.entries.len() && str_lt(self.entries[i].0.as_str(), key)
            invariant
                i <= self.pairs().len(),
                forall|j: int| 0 <= j < i ==> text_lt(#[trigger] self.keys()[j], key@),
            decreases self.pairs().len() - i,
        {
            i += 1;
        }
        proof {
            assert forall|j: int| i <= j < self.pairs().len() implies text_le(
                key@,
                #[trigger] self.keys()[j],
            ) by {
                let here = self.keys()[i as int];
                lemma_text_le_total(here, key@);
                if j > i {
                    assert(text_lt(self.keys()[i as int], self.keys()[j]));
                    lemma_text_le_transitive(key@, here, self.keys()[j]);
                }
            }
        }
        i
    }

    /// The value stored under `key`, if any.
    pub fn get(&self, key: &str) -> (r: Option<&V>)
        ensures
            match r {
                Some(v) => self@.contains_key(key@) && *v == self@[key@],
                None => !self@.contains_key(key@),
            },
    {
        proof {
            use_type_invariant(self);
            self.lemma_rows();
        }
        let at = self.position(key);
        if at < self.entries.len() && !str_lt(key, self.entries[at].0.as_str()) {
            proof {
                lemma_text_le_antisymmetric(key@, self.keys()[at as int]);
            }
            Some(&self.entries[at].1)
        } else {
            proof {
                if self@.contains_key(key@) {
                    let j = choose|j: int|
                        0 <= j < self.pairs().len() && #[trigger] self.pairs()[j].0@ == key@;
                    assert(self.keys()[j] == key@);
                    if j < at {
                        assert(text_lt(self.keys()[j], key@));
                    } else if j > at {
                        assert(text_lt(self.keys()[at as int], self.keys()[j]));
                        assert(text_le(key@, self.keys()[at as int]));
                        lemma_text_le_antisymmetric(key@, self.keys()[at as int]);
                    }
                }
            }
            None
        }
    }

    /// Whether a value is stored under `key`.
    pub fn contains_key(&self, key: &str) -> (r: bool)
        ensures
            r == self@.contains_key(key@),
    {
        self.get(key).is_some()
    }

    /// Stores `value` under `key`, replacing what was stored there.
    pub fn insert(&mut self, key: String, value: V)
        ensures
            final(self)@ == old(self)@.insert(key@, value),
    {
        proof {
            use_type_invariant(&*self);
            self.lemma_rows();
        }
        let at = self.position(key.as_str());
        let ghost before = self.pairs();
        let ghost k = key@;
        let replace = at < self.entries.len() && !str_lt(key.as_str(), self.entries[at].0.as_str());
        let mut entries: Vec<(String, V)> = Vec::new();
        std::mem::swap(&mut entries, &mut self.entries);
        if replace {
            proof {
                lemma_text_le_antisymmetric(k, row_keys(before)[at as int]);
            }
            entries[at] = (key, value);
            proof {
                let after = entries@;
                assert forall|i: int, j: int| 0 <= i < j < after.len() implies text_lt(
                    #[trigger] row_keys(after)[i],
                    #[trigger] row_keys(after)[j],
                ) by {
                    assert(row_keys(after)[i] == row_keys(before)[i]);
                    assert(row_keys(after)[j] == row_keys(before)[j]);
                }
                lemma_as_map(after);
                assert(as_map(after) =~= as_map(before).insert(k, value)) by {
                    lemma_same_rows(before, after, at as int, k, value);
                }
            }
        } else {
            entries.insert(at, (key, value));
            proof {
                let after = entries@;
                assert(after == before.insert(at as int, (key, value)));
                assert forall|n: int| at <= n < before.len() implies text_lt(
                    k,
                    #[trigger] row_keys(before)[n],
                ) by {
                    let here = row_keys(before)[at as int];
                    assert(text_lt(k, here));
                    if n > at {
                        assert(text_lt(here, row_keys(before)[n]));
                        assert(text_le(k, row_keys(before)[n]));
                        if k == row_keys(before)[n] {
                            lemma_text_le_antisymmetric(k, here);
                        }
                    }
                }
                assert forall|i: int, j: int| 0 <= i < j < after.len() implies text_lt(
                    #[trigger] row_keys(after)[i],
                    #[trigger] row_keys(after)[j],
                ) by {
                    lemma_inserted_ascending(before, at as int, key, value, i, j);
                }
                lemma_as_map(after);
                assert(as_map(after) =~= as_map(before).insert(k, value)) by {
                    lemma_more_rows(before, after, at as int, k, value);
                }
            }
        }
        self.entries = entries;
    }

    /// Removes the row stored under `key` and returns its value, if there
    /// is one.
    pub fn remove(&mut self, key: &str) -> (r: Option<V>)
        ensures
            final(self)@ == old(self)@.remove(key@),
            r == if old(self)@.contains_key(key@) {
                Some(old(self)@[key@])
            } else {
                None::<V>
            },
    {
        proof {
            use_type_invariant(&*self);
            self.lemma_rows();
        }
        let at = self.position(key);
        let ghost before = self.pairs();
        let ghost k = key@;
        if at < self.entries.len() && !str_lt(key, self.entries[at].0.as_str()) {
            proof {
                lemma_text_le_antisymmetric(k, row_keys(before)[at as int]);
            }
            let mut entries: Vec<(String, V)> = Vec::new();
            std::mem::swap(&mut entries, &mut self.entries);
            let row = entries.remove(at);
            proof {
                let after = entries@;
                assert(after == before.remove(at as int));
                assert(row == before[at as int]);
                assert(old(self)@[k] == before[at as int].1);
                assert forall|i: int, j: int| 0 <= i < j < after.len() implies text_lt(
                    #[trigger] row_keys(after)[i],
                    #[trigger] row_keys(after)[j],
                ) by {
                    let ii = if i < at { i } else { i + 1 };
                    let jj = if j < at { j } else { j + 1 };
                    assert(row_keys(after)[i] == row_keys(before)[ii]);
                    assert(row_keys(after)[j] == row_keys(before)[jj]);
                }
                lemma_as_map(after);
                assert(as_map(after) =~= as_map(before).remove(k)) by {
                    lemma_fewer_rows(before, after, at as int, k);
                }
            }
            self.entries = entries;
            Some(row.1)
        } else {
            proof {
                if self@.contains_key(k) {
                    let j = choose|j: int|
                        0 <= j < self.pairs().len() && #[trigger] self.pairs()[j].0@ == k;
                    assert(self.keys()[j] == k);
                    if j < at {
                        assert(text_lt(self.keys()[j], k));
                    } else if j > at {
                        assert(text_lt(self.keys()[at as int], self.keys()[j]));
                        assert(text_le(k, self.keys()[at as int]));
                        lemma_text_le_antisymmetric(k, self.keys()[at as int]);
                    }
                }
                assert(self@ =~= self@.remove(k));
            }
            None
        }
    }
}

impl<V> StrMap<V> {
    /// Appends a row whose key comes after every key of the table.
    pub(crate) fn push_last(&mut self, key: String, value: V)
        requires
            forall|i: int|
                0 <= i < old(self).pairs().len() ==> text_lt(#[trigger] old(self).keys()[i], key@),
        ensures
            final(self).pairs() == old(self).pairs().push((key, value)),
            final(self)@ == old(self)@.insert(key@, value),
    {
        proof {
            use_type_invariant(&*self);
        }
        let ghost before = self.pairs();
        let ghost k = key@;
        let mut entries: Vec<(String, V)> = Vec::new();
        std::mem::swap(&mut entries, &mut self.entries);
        entries.push((key, value));
        proof {
            let after = entries@;
            assert(after.drop_last() == before);
            assert forall|i: int, j: int| 0 <= i < j < after.len() implies text_lt(
                #[trigger] row_keys(after)[i],
                #[trigger] row_keys(after)[j],
            ) by {
                assert(row_keys(after)[i] == row_keys(before)[i]);
                if j < before.len() {
                    assert(row_keys(after)[j] == row_keys(before)[j]);
                    assert(text_lt(row_keys(before)[i], row_keys(before)[j]));
                } else {
                    assert(row_keys(after)[j] == k);
                    assert(text_lt(old(self).keys()[i], k));
                }
            }
        }
        self.entries = entries;
    }
}

impl<V: Clone> Clone for StrMap<V> {
    /// A table with the same keys, each value cloned.
    fn clone(&self) -> (r: Self)
        ensures
            r.keys() == self.keys(),
            forall|i: int|
                0 <= i < self.pairs().len() ==> cloned::<V>(
                    #[trigger] self.pairs()[i].1,
                    r.pairs()[i].1,
                ),
            r@.dom() == self@.dom(),
            forall|k: Seq<char>| #[trigger] r@.contains_key(k) ==> cloned::<V>(self@[k], r@[k]),
    {
        proof {
            use_type_invariant(self);
            self.lemma_rows();
        }
        let mut entries: Vec<(String, V)> = Vec::new();
        let mut i: usize = 0;
        while i < self.entries.len()
            invariant
                i <= self.entries.len(),
                entries.len() == i,
                forall|j: int| 0 <= j < i ==> #[trigger] entries@[j].0@ == self.entries@[j].0@,
                forall|j: int|
                    0 <= j < i ==> cloned::<V>(#[trigger] self.entries@[j].1, entries@[j].1),
            decreases self.entries.len() - i,
        {
            let key = self.entries[i].0.clone();
            let value = self.entries[i].1.clone();
            entries.push((key, value));
            i += 1;
        }
        proof {
            assert(row_keys(entries@) =~= row_keys(self.entries@));
            lemma_as_map(entries@);
            assert forall|k: Seq<char>| as_map(entries@).contains_key(k) implies self@.contains_key(
                k,
            ) && cloned::<V>(self@[k], as_map(entries@)[k]) by {
                let i = choose|i: int| 0 <= i < entries@.len() && #[trigger] entries@[i].0@ == k;
                assert(self.pairs()[i].0@ == k);
                assert(cloned::<V>(self.entries@[i].1, entries@[i].1));
            }
            assert forall|k: Seq<char>| self@.contains_key(k) implies as_map(
                entries@,
            ).contains_key(k) by {
                let i = choose|i: int|
                    0 <= i < self.pairs().len() && #[trigger] self.pairs()[i].0@ == k;
                assert(entries@[i].0@ == k);
            }
            assert(as_map(entries@).dom() =~= self@.dom());
        }
        StrMap { entries }
    }
}

/// Replacing the value of the row at `at` replaces it in the map.
proof fn lemma_same_rows<V>(
    before: Seq<(String, V)>,
    after: Seq<(String, V)>,
    at: int,
    k: Seq<char>,
    value: V,
)
    requires
        ascending(row_keys(before)),
        ascending(row_keys(after)),
        0 <= at < before.len(),
        after.len() == before.len(),
        before[at].0@ == k,
        after[at].0@ == k,
        after[at].1 == value,
        forall|i: int| 0 <= i < before.len() && i != at ==> after[i] == before[i],
    ensures
        as_map(after) =~= as_map(before).insert(k, value),
{
    lemma_as_map(before);
    lemma_as_map(after);
    let a = as_map(after);
    let b = as_map(before).insert(k, value);
    assert forall|key: Seq<char>| a.contains_key(key) <==> b.contains_key(key) by {
        if a.contains_key(key) {
            let i = choose|i: int| 0 <= i < after.len() && #[trigger] after[i].0@ == key;
            if i != at {
                assert(before[i].0@ == key);
            }
        }
        if b.contains_key(key) && key != k {
            let i = choose|i: int| 0 <= i < before.len() && #[trigger] before[i].0@ == key;
            assert(after[i].0@ == key);
        }
    }
    assert forall|key: Seq<char>| a.contains_key(key) implies a[key] == b[key] by {
        let i = choose|i: int| 0 <= i < after.len() && #[trigger] after[i].0@ == key;
        if i != at {
            assert(before[i].0@ == key);
            assert(text_lt(row_keys(before)[i], row_keys(before)[at]) || text_lt(
                row_keys(before)[at],
                row_keys(before)[i],
            ));
        }
    }
}

/// After a row is inserted at its place, the keys still ascend.
proof fn lemma_inserted_ascending<V>(
    before: Seq<(String, V)>,
    at: int,
    key: String,
    value: V,
    i: int,
    j: int,
)
    requires
        ascending(row_keys(before)),
        0 <= at <= before.len(),
        forall|n: int| 0 <= n < at ==> text_lt(#[trigger] row_keys(before)[n], key@),
        forall|n: int| at <= n < before.len() ==> text_lt(key@, #[trigger] row_keys(before)[n]),
        0 <= i < j < before.len() + 1,
    ensures
        text_lt(
            row_keys(before.insert(at, (key, value)))[i],
            row_keys(before.insert(at, (key, value)))[j],
        ),
{
    let after = before.insert(at, (key, value));
    let ii = if i < at { i } else { i - 1 };
    let jj = if j < at { j } else { j - 1 };
    if i != at {
        assert(row_keys(after)[i] == row_keys(before)[ii]);
    }
    if j != at {
        assert(row_keys(after)[j] == row_keys(before)[jj]);
    }
    if i != at && j != at {
        assert(text_lt(row_keys(before)[ii], row_keys(before)[jj]));
    }
}

/// Inserting a row under a new key inserts it into the map.
proof fn lemma_more_rows<V>(
    before: Seq<(String, V)>,
    after: Seq<(String, V)>,
    at: int,
    k: Seq<char>,
    value: V,
)
    requires
        ascending(row_keys(before)),
        ascending(row_keys(after)),
        0 <= at <= before.len(),
        after.len() == before.len() + 1,
        after[at].0@ == k,
        after[at].1 == value,
        forall|i: int| 0 <= i < at ==> after[i] == before[i],
        forall|i: int| at <= i < before.len() ==> after[i + 1] == before[i],
    ensures
        as_map(after) =~= as_map(before).insert(k, value),
{
    lemma_as_map(before);
    lemma_as_map(after);
    let a = as_map(after);
    let b = as_map(before).insert(k, value);
    assert forall|key: Seq<char>| a.contains_key(key) <==> b.contains_key(key) by {
        if a.contains_key(key) {
            let i = choose|i: int| 0 <= i < after.len() && #[trigger] after[i].0@ == key;
            if i < at {
                assert(before[i].0@ == key);
            } else if i > at {
                assert(before[i - 1].0@ == key);
            }
        }
        if b.contains_key(key) && key != k {
            let i = choose|i: int| 0 <= i < before.len() && #[trigger] before[i].0@ == key;
            if i < at {
                assert(after[i].0@ == key);
            } else {
                assert(after[i + 1].0@ == key);
            }
        }
    }
    assert forall|key: Seq<char>| a.contains_key(key) implies a[key] == b[key] by {
        let i = choose|i: int| 0 <= i < after.len() && #[trigger] after[i].0@ == key;
        if i < at {
            assert(before[i].0@ == key);
            assert(text_lt(row_keys(after)[i], row_keys(after)[at]));
        } else if i > at {
            assert(before[i - 1].0@ == key);
            assert(text_lt(row_keys(after)[at], row_keys(after)[i]));
        }
    }
}

/// Removing the row at `at` removes its key from the map.
proof fn lemma_fewer_rows<V>(
    before: Seq<(String, V)>,
    after: Seq<(String, V)>,
    at: int,
    k: Seq<char>,
)
    requires
        ascending(row_keys(before)),
        ascending(row_keys(after)),
        0 <= at < before.len(),
        after.len() == before.len() - 1,
        before[at].0@ == k,
        forall|i: int| 0 <= i < at ==> after[i] == before[i],
        forall|i: int| at <= i < after.len() ==> after[i] == before[i + 1],
    ensures
        as_map(after) =~= as_map(before).remove(k),
{
    lemma_as_map(before);
    lemma_as_map(after);
    let a = as_map(after);
    let b = as_map(before).remove(k);
    assert forall|key: Seq<char>| a.contains_key(key) <==> b.contains_key(key) by {
        if a.contains_key(key) {
            let i = choose|i: int| 0 <= i < after.len() && #[trigger] after[i].0@ == key;
            if i < at {
                assert(before[i].0@ == key);
                assert(text_lt(row_keys(before)[i], row_keys(before)[at]));
            } else {
                assert(before[i + 1].0@ == key);
                assert(text_lt(row_keys(before)[at], row_keys(before)[i + 1]));
            }
        }
        if b.contains_key(key) {
            let i = choose|i: int| 0 <= i < before.len() && #[trigger] before[i].0@ == key;
            if i < at {
                assert(after[i].0@ == key);
            } else {
                assert(i != at);
                assert(after[i - 1].0@ == key);
            }
        }
    }
    assert forall|key: Seq<char>| a.contains_key(key) implies a[key] == b[key] by {
        let i = choose|i: int| 0 <= i < after.len() && #[trigger] after[i].0@ == key;
        if i < at {
            assert(before[i].0@ == key);
        } else {
            assert(before[i + 1].0@ == key);
        }
    }
}

} // verus!
