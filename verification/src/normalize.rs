//! Canonical match keys.
//!
//! A match key is a comma-separated list of `name=value` tokens. Its canonical
//! form has every token trimmed and folded to lowercase, the tokens sorted by
//! their full text and joined with commas again.

use crate::attrs::Attributes;
use crate::order::{sort_chars, sorted_texts};
use crate::table::{ascending_keys, StrMap};
use crate::text::{
    extend_chars, find_char, first_index, from_chars, join, join_chars, lowercase,
    lowercase_string, slice_chars, split_terminator, split_terminator_chars, texts, to_chars,
    to_lowercase, trim, trimmed, views,
};
use vstd::prelude::*;

verus! {

/// Canonical form of one token: `name=value` with both sides trimmed, or the
/// trimmed token when it holds no `=`; folded to lowercase either way.
pub open spec fn canonical_token(t: Seq<char>) -> Seq<char> {
    let at = first_index(t, '=');
    if at < t.len() {
        lowercase(trimmed(t.take(at)).push('=') + trimmed(t.skip(at + 1)))
    } else {
        lowercase(trimmed(t))
    }
}

pub open spec fn canonical_tokens(tokens: Seq<Seq<char>>) -> Seq<Seq<char>> {
    Seq::new(tokens.len(), |i: int| canonical_token(tokens[i]))
}

/// Canonical form of an authored match key.
pub open spec fn normalized_key(s: Seq<char>) -> Seq<char> {
    join(sorted_texts(canonical_tokens(split_terminator(s, ','))), ',')
}

/// Brings one token into canonical form.
pub fn normalize_token(token: &Vec<char>) -> (r: Vec<char>)
    ensures
        r@ == canonical_token(token@),
{
    let at = find_char(token, '=');
    if at < token.len() {
        let name = slice_chars(token, 0, at);
        let value = slice_chars(token, at + 1, token.len());
        let mut pair = trim(&name);
        pair.push('=');
        let value = trim(&value);
        extend_chars(&mut pair, &value);
        to_lowercase(&pair)
    } else {
        let bare = trim(token);
        to_lowercase(&bare)
    }
}

/// Normalizes an override match key: every token trimmed and in lowercase,
/// tokens in sorted order.
///
/// `is_virtual=TruE,HostGroup=Dev` becomes `hostgroup=dev,is_virtual=true`.
pub fn normalize_override_key(value: &str) -> (r: String)
    ensures
        r@ == normalized_key(value@),
{
    let chars = to_chars(value);
    let raw = split_terminator_chars(&chars, ',');
    let mut tokens: Vec<Vec<char>> = Vec::new();
    let mut i: usize = 0;
    while i < raw.len()
        invariant
            i <= raw.len(),
            tokens.len() == i,
            texts(tokens@) == canonical_tokens(texts(raw@).take(i as int)),
        decreases raw.len() - i,
    {
        let token = normalize_token(&raw[i]);
        let ghost done = texts(tokens@);
        tokens.push(token);
        proof {
            let before = texts(raw@).take(i as int);
            let after = texts(raw@).take(i + 1);
            assert forall|j: int| 0 <= j < after.len() implies #[trigger] texts(tokens@)[j]
                == canonical_token(after[j]) by {
                if j < i {
                    assert(texts(tokens@)[j] == done[j]);
                    assert(after[j] == before[j]);
                }
            }
            assert(texts(tokens@) =~= canonical_tokens(after));
        }
        i += 1;
    }
    assert(texts(raw@).take(raw.len() as int) == texts(raw@));
    let sorted = sort_chars(tokens);
    let joined = join_chars(&sorted, ',');
    from_chars(&joined)
}

/// The token of one attribute: trimmed lowercase name, `=`, trimmed value;
/// the value in lowercase too when `fold` is set.
pub open spec fn attr_token(name: Seq<char>, value: Seq<char>, fold: bool) -> Seq<char> {
    lowercase(trimmed(name)).push('=') + (if fold {
        lowercase(trimmed(value))
    } else {
        trimmed(value)
    })
}

/// The tokens of a set of attributes, listed by ascending attribute name.
pub open spec fn attr_tokens(attrs: Map<Seq<char>, Seq<char>>, fold: bool) -> Seq<Seq<char>> {
    let names = ascending_keys(attrs.dom());
    Seq::new(names.len(), |i: int| attr_token(names[i], attrs[names[i]], fold))
}

/// Canonical key of a set of attributes: its tokens sorted by their full
/// text and joined with commas.
pub open spec fn normalized_attrs(attrs: Map<Seq<char>, Seq<char>>, fold: bool) -> Seq<char> {
    join(sorted_texts(attr_tokens(attrs, fold)), ',')
}

/// Normalizes `name=value` attributes into a canonical key.
///
/// Works like [`normalize_override_key`] on a set of attributes. Names are
/// always folded to lowercase, values only when `to_lowercase` is set.
pub fn normalize_attrs(attrs: &Attributes, to_lowercase: bool) -> (r: String)
    ensures
        r@ == normalized_attrs(attrs@, to_lowercase),
{
    let n = attrs.len();
    let mut tokens: Vec<Vec<char>> = Vec::new();
    let mut i: usize = 0;
    let ghost names = ascending_keys(attrs@.dom());
    while i < n
        invariant
            i <= n == attrs@.dom().len(),
            n == names.len(),
            attrs@.dom().finite(),
            names == ascending_keys(attrs@.dom()),
            tokens.len() == i,
            forall|j: int|
                0 <= j < i ==> (#[trigger] tokens@[j])@ == attr_token(
                    names[j],
                    attrs@[names[j]],
                    to_lowercase,
                ),
        decreases n - i,
    {
        let name = to_chars(attrs.name_at(i).as_str());
        let value = to_chars(attrs.value_at(i).as_str());
        let name = trim(&name);
        let mut token = crate::text::to_lowercase(&name);
        token.push('=');
        let value = trim(&value);
        if to_lowercase {
            let value = crate::text::to_lowercase(&value);
            extend_chars(&mut token, &value);
        } else {
            extend_chars(&mut token, &value);
        }
        tokens.push(token);
        i += 1;
    }
    assert(texts(tokens@) =~= attr_tokens(attrs@, to_lowercase));
    let sorted = sort_chars(tokens);
    let joined = join_chars(&sorted, ',');
    from_chars(&joined)
}

/// The value of `name` among `attrs`, or the empty text when it is not set.
pub open spec fn value_or_empty(attrs: Map<Seq<char>, Seq<char>>, name: Seq<char>) -> Seq<char> {
    if attrs.contains_key(name) {
        attrs[name]
    } else {
        Seq::empty()
    }
}

/// The attributes picked out by `names`: each name, in lowercase, with the
/// value it has among `attrs`. Where two names have the same lowercase form
/// the later one counts.
pub open spec fn selection(attrs: Map<Seq<char>, Seq<char>>, names: Seq<Seq<char>>) -> Map<
    Seq<char>,
    Seq<char>,
>
    decreases names.len(),
{
    if names.len() == 0 {
        Map::empty()
    } else {
        selection(attrs, names.drop_last()).insert(
            lowercase(names.last()),
            value_or_empty(attrs, names.last()),
        )
    }
}

/// The key under which a request with attributes `attrs` is looked up in a
/// tier that matches on `names`.
pub open spec fn compare_key(
    attrs: Map<Seq<char>, Seq<char>>,
    names: Seq<Seq<char>>,
    fold: bool,
) -> Seq<char> {
    normalized_attrs(selection(attrs, names), fold)
}

/// Builds the canonical key over exactly the attributes named in
/// `list_attrs`. Attributes that `attrs` does not hold get empty values.
pub fn build_compare_key(attrs: &Attributes, list_attrs: &Vec<String>, to_lowercase: bool) -> (r:
    String)
    ensures
        r@ == compare_key(attrs@, views(list_attrs@), to_lowercase),
{
    let mut chosen = Attributes::new();
    let mut i: usize = 0;
    while i < list_attrs.len()
        invariant
            i <= list_attrs.len(),
            chosen@ == selection(attrs@, views(list_attrs@).take(i as int)),
        decreases list_attrs.len() - i,
    {
        let name = &list_attrs[i];
        let value = match attrs.get(name.as_str()) {
            Some(v) => v.clone(),
            None => String::new(),
        };
        proof {
            let before = views(list_attrs@).take(i as int);
            let after = views(list_attrs@).take(i + 1);
            assert(after.drop_last() == before);
            assert(after.last() == name@);
            assert(value@ == value_or_empty(attrs@, name@));
        }
        chosen.insert(lowercase_string(name.as_str()), value);
        i += 1;
    }
    assert(views(list_attrs@).take(list_attrs.len() as int) == views(list_attrs@));
    normalize_attrs(&chosen, to_lowercase)
}

/// The distinct texts of `items`, in ascending order.
pub fn sorted_unique(items: &Vec<String>) -> (r: Vec<String>)
    ensures
        views(r@) == ascending_keys(views(items@).to_set()),
{
    let mut seen: StrMap<()> = StrMap::new();
    let mut i: usize = 0;
    while i < items.len()
        invariant
            i <= items.len(),
            seen@.dom() == views(items@).take(i as int).to_set(),
        decreases items.len() - i,
    {
        let ghost before = views(items@).take(i as int);
        seen.insert(items[i].clone(), ());
        proof {
            let after = views(items@).take(i + 1);
            assert(after == before.push(items@[i as int]@));
            assert(seen@.dom() =~= after.to_set()) by {
                assert forall|k: Seq<char>| after.to_set().contains(k) <==> (before.to_set().contains(
                    k,
                ) || k == items@[i as int]@) by {
                    if after.contains(k) {
                        let j = choose|j: int| 0 <= j < after.len() && after[j] == k;
                        if j < i {
                            assert(before[j] == k);
                        }
                    }
                    if before.contains(k) {
                        let j = choose|j: int| 0 <= j < before.len() && before[j] == k;
                        assert(after[j] == k);
                    }
                    if k == items@[i as int]@ {
                        assert(after[i as int] == k);
                    }
                }
            }
        }
        i += 1;
    }
    assert(views(items@).take(items.len() as int) == views(items@));
    keys_of(&seen)
}

/// The keys of a table, in ascending order.
pub fn keys_of<V>(table: &StrMap<V>) -> (r: Vec<String>)
    ensures
        views(r@) == ascending_keys(table@.dom()),
{
    let n = table.len();
    let mut r: Vec<String> = Vec::new();
    let mut i: usize = 0;
    proof {
        use_type_invariant(table);
        table.lemma_rows();
    }
    while i < n
        invariant
            i <= n == table.pairs().len(),
            r.len() == i,
            forall|j: int| 0 <= j < i ==> (#[trigger] r@[j])@ == table.keys()[j],
        decreases n - i,
    {
        r.push(table.key_at(i).clone());
        i += 1;
    }
    assert(views(r@) =~= table.keys());
    r
}

/// Every name that occurs in one of the lists.
pub open spec fn all_names(lists: Seq<Vec<String>>) -> Set<Seq<char>> {
    Set::new(
        |k: Seq<char>|
            exists|i: int, j: int|
                0 <= i < lists.len() && 0 <= j < lists[i]@.len() && #[trigger] lists[i]@[j]@ == k,
    )
}

/// Whether `k` is one of the first `n` texts of `list`.
pub open spec fn in_prefix(list: Seq<String>, n: int, k: Seq<char>) -> bool {
    exists|m: int| 0 <= m < n && m < list.len() && #[trigger] list[m]@ == k
}

/// The attributes needed to look a value up: the names of all tiers, each
/// once, in ascending order.
pub fn extract_attrs(list_attrs: &Vec<Vec<String>>) -> (r: Vec<String>)
    ensures
        views(r@) == ascending_keys(all_names(list_attrs@)),
{
    let mut seen: StrMap<()> = StrMap::new();
    let mut i: usize = 0;
    assert(seen@.dom() =~= all_names(list_attrs@.take(0)));
    while i < list_attrs.len()
        invariant
            i <= list_attrs.len(),
            seen@.dom() == all_names(list_attrs@.take(i as int)),
        decreases list_attrs.len() - i,
    {
        let list = &list_attrs[i];
        let ghost done = list_attrs@.take(i as int);
        let mut j: usize = 0;
        while j < list.len()
            invariant
                i < list_attrs.len(),
                *list == list_attrs@[i as int],
                done == list_attrs@.take(i as int),
                j <= list.len(),
                forall|k: Seq<char>| #[trigger]
                    seen@.contains_key(k) <==> (all_names(done).contains(k) || in_prefix(
                        list@,
                        j as int,
                        k,
                    )),
            decreases list.len() - j,
        {
            let ghost before = seen@;
            seen.insert(list[j].clone(), ());
            proof {
                let item = list@[j as int]@;
                assert forall|k: Seq<char>| in_prefix(list@, j + 1, k) <==> (k == item || in_prefix(
                    list@,
                    j as int,
                    k,
                )) by {
                    if in_prefix(list@, j + 1, k) {
                        let m = choose|m: int|
                            0 <= m < j + 1 && m < list@.len() && #[trigger] list@[m]@ == k;
                        if m < j {
                            assert(in_prefix(list@, j as int, k));
                        }
                    }
                    if in_prefix(list@, j as int, k) {
                        let m = choose|m: int|
                            0 <= m < j && m < list@.len() && #[trigger] list@[m]@ == k;
                        assert(0 <= m < j + 1 && list@[m]@ == k);
                    }
                    if k == item {
                        assert(list@[j as int]@ == k);
                    }
                }
                assert forall|k: Seq<char>| #[trigger]
                    seen@.contains_key(k) <==> (all_names(done).contains(k) || in_prefix(
                        list@,
                        j + 1,
                        k,
                    )) by {
                    assert(seen@.contains_key(k) <==> (before.contains_key(k) || k == item));
                }
            }
            j += 1;
        }
        proof {
            let next = list_attrs@.take(i + 1);
            assert forall|k: Seq<char>| seen@.contains_key(k) <==> all_names(next).contains(k) by {
                if all_names(done).contains(k) {
                    let (a, b) = choose|a: int, b: int|
                        0 <= a < done.len() && 0 <= b < done[a]@.len() && #[trigger] done[a]@[b]@
                            == k;
                    assert(next[a]@[b]@ == k);
                }
                if in_prefix(list@, list@.len() as int, k) {
                    let m = choose|m: int|
                        0 <= m < list@.len() && m < list@.len() && #[trigger] list@[m]@ == k;
                    assert(next[i as int]@[m]@ == k);
                }
                if all_names(next).contains(k) {
                    let (a, b) = choose|a: int, b: int|
                        0 <= a < next.len() && 0 <= b < next[a]@.len() && #[trigger] next[a]@[b]@
                            == k;
                    if a < i {
                        assert(done[a]@[b]@ == k);
                    } else {
                        assert(list@[b]@ == k);
                        assert(in_prefix(list@, list@.len() as int, k));
                    }
                }
            }
            assert(seen@.dom() =~= all_names(next));
        }
        i += 1;
    }
    assert(list_attrs@.take(list_attrs.len() as int) == list_attrs@);
    keys_of(&seen)
}

} // verus!
