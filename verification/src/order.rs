//! Lexicographic order on texts and sorting by it.

use crate::text::texts;
use vstd::multiset::Multiset;
use vstd::prelude::*;
use vstd::relations::{sorted_by, total_ordering};
use vstd::seq_lib::{lemma_sorted_unique, to_multiset_build, to_multiset_insert};

verus! {

/// Lexicographic order by code point: `a` comes no later than `b`.
pub open spec fn text_le(a: Seq<char>, b: Seq<char>) -> bool
    decreases a.len(),
{
    if a.len() == 0 {
        true
    } else if b.len() == 0 {
        false
    } else if a[0] != b[0] {
        a[0] < b[0]
    } else {
        text_le(a.drop_first(), b.drop_first())
    }
}

/// `a` comes strictly before `b`.
pub open spec fn text_lt(a: Seq<char>, b: Seq<char>) -> bool {
    text_le(a, b) && a != b
}

/// The order as a relation, in the form the sequence library expects.
pub open spec fn text_order() -> spec_fn(Seq<char>, Seq<char>) -> bool {
    |a: Seq<char>, b: Seq<char>| text_le(a, b)
}

pub proof fn lemma_text_le_reflexive(a: Seq<char>)
    ensures
        text_le(a, a),
    decreases a.len(),
{
    if a.len() > 0 {
        lemma_text_le_reflexive(a.drop_first());
    }
}

pub proof fn lemma_text_le_antisymmetric(a: Seq<char>, b: Seq<char>)
    requires
        text_le(a, b),
        text_le(b, a),
    ensures
        a == b,
    decreases a.len(),
{
    if a.len() == 0 || b.len() == 0 {
        assert(a =~= b);
    } else {
        lemma_text_le_antisymmetric(a.drop_first(), b.drop_first());
        assert(a =~= seq![a[0]] + a.drop_first());
        assert(b =~= seq![b[0]] + b.drop_first());
    }
}

pub proof fn lemma_text_le_transitive(a: Seq<char>, b: Seq<char>, c: Seq<char>)
    requires
        text_le(a, b),
        text_le(b, c),
    ensures
        text_le(a, c),
    decreases a.len(),
{
    if a.len() > 0 && b.len() > 0 && c.len() > 0 && a[0] == b[0] && b[0] == c[0] {
        lemma_text_le_transitive(a.drop_first(), b.drop_first(), c.drop_first());
    }
}

pub proof fn lemma_text_le_total(a: Seq<char>, b: Seq<char>)
    ensures
        text_le(a, b) || text_le(b, a),
    decreases a.len(),
{
    if a.len() > 0 && b.len() > 0 && a[0] == b[0] {
        lemma_text_le_total(a.drop_first(), b.drop_first());
    }
}

/// The lexicographic order is a total order.
pub proof fn lemma_text_order_total()
    ensures
        total_ordering(text_order()),
{
    let r = text_order();
    assert forall|a: Seq<char>| #[trigger] r(a, a) by {
        lemma_text_le_reflexive(a);
    }
    assert forall|a: Seq<char>, b: Seq<char>| #[trigger] r(a, b) && #[trigger] r(b, a) implies a
        == b by {
        lemma_text_le_antisymmetric(a, b);
    }
    assert forall|a: Seq<char>, b: Seq<char>, c: Seq<char>| #[trigger]
        r(a, b) && #[trigger] r(b, c) implies r(a, c) by {
        lemma_text_le_transitive(a, b, c);
    }
    assert forall|a: Seq<char>, b: Seq<char>| #[trigger] r(a, b) || #[trigger] r(b, a) by {
        lemma_text_le_total(a, b);
    }
}

/// The texts of `s` in ascending order.
pub open spec fn sorted_texts(s: Seq<Seq<char>>) -> Seq<Seq<char>> {
    s.sort_by(text_order())
}

/// Compares two texts.
pub fn chars_le(a: &Vec<char>, b: &Vec<char>) -> (r: bool)
    ensures
        r == text_le(a@, b@),
{
    let mut i: usize = 0;
    assert(a@.skip(0) == a@ && b@.skip(0) == b@);
    while i < a.len() && i < b.len()
        invariant
            i <= a.len(),
            i <= b.len(),
            text_le(a@, b@) == text_le(a@.skip(i as int), b@.skip(i as int)),
        decreases a.len() - i,
    {
        let x = a[i];
        let y = b[i];
        proof {
            let ra = a@.skip(i as int);
            let rb = b@.skip(i as int);
            assert(ra[0] == x && rb[0] == y);
            assert(ra.drop_first() == a@.skip(i + 1));
            assert(rb.drop_first() == b@.skip(i + 1));
        }
        if x != y {
            return x < y;
        }
        i += 1;
    }
    i == a.len()
}

/// Sorts texts in ascending lexicographic order, keeping equal texts.
pub fn sort_chars(items: Vec<Vec<char>>) -> (r: Vec<Vec<char>>)
    ensures
        texts(r@) == sorted_texts(texts(items@)),
{
    let mut out: Vec<Vec<char>> = Vec::new();
    let mut items = items;
    let ghost all = texts(items@);
    proof {
        lemma_text_order_total();
        texts(out@).to_multiset_ensures();
        assert(texts(out@).to_multiset().add(all.to_multiset()) =~= all.to_multiset());
    }
    // Each round moves the last remaining item to its place in `out`.
    while items.len() > 0
        invariant
            sorted_by(texts(out@), text_order()),
            texts(out@).to_multiset().add(texts(items@).to_multiset()) == all.to_multiset(),
            total_ordering(text_order()),
        decreases items.len(),
    {
        let ghost before_items = texts(items@);
        let ghost before_out = texts(out@);
        let item = items.pop().unwrap();
        let mut pos: usize = 0;
        while pos < out.len() && chars_le(&out[pos], &item)
            invariant
                pos <= out.len(),
                forall|j: int| 0 <= j < pos ==> text_le(#[trigger] texts(out@)[j], item@),
            decreases out.len() - pos,
        {
            pos += 1;
        }
        out.insert(pos, item);
        proof {
            let now = texts(out@);
            let t = item@;
            assert(now =~= before_out.insert(pos as int, t));
            assert(before_items =~= texts(items@).push(t));
            assert forall|i: int, j: int| 0 <= i < j < now.len() implies #[trigger] text_order()(
                now[i],
                now[j],
            ) by {
                if j < pos {
                    assert(text_order()(before_out[i], before_out[j]));
                } else if j == pos {
                    assert(text_le(before_out[i], t));
                } else if i == pos {
                    assert(!text_le(before_out[pos as int], t));
                    lemma_text_le_total(before_out[pos as int], t);
                    if j - 1 > pos {
                        assert(text_order()(before_out[pos as int], before_out[j - 1]));
                        lemma_text_le_transitive(t, before_out[pos as int], before_out[j - 1]);
                    }
                } else if i < pos {
                    assert(text_order()(before_out[i], before_out[j - 1]));
                } else {
                    assert(text_order()(before_out[i - 1], before_out[j - 1]));
                }
            }
            to_multiset_insert(before_out, pos as int, t);
            to_multiset_build(texts(items@), t);
            assert(now.to_multiset().add(texts(items@).to_multiset()) =~= before_out.to_multiset().add(
                before_items.to_multiset(),
            ));
        }
    }
    proof {
        assert(texts(items@) =~= Seq::<Seq<char>>::empty());
        texts(items@).to_multiset_ensures();
        assert(texts(items@).to_multiset() =~= Multiset::<Seq<char>>::empty());
        assert(texts(out@).to_multiset() =~= all.to_multiset());
        all.lemma_sort_by_ensures(text_order());
        lemma_sorted_unique(texts(out@), sorted_texts(all), text_order());
    }
    out
}

} // verus!
