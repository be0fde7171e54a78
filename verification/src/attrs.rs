//! Request attributes: a finite map from attribute names to values.

use crate::seqs::{lemma_remaining, remaining, reversed};
use crate::table::{ascending_keys, StrMap};
use vstd::prelude::*;

verus! {

/// The attributes of a request, or of an override's match string.
#[derive(Debug, PartialEq)]
pub struct Attributes {
    table: StrMap<String>,
}

/// The map built by storing the pairs in order, a later pair replacing an
/// earlier one of the same name.
pub open spec fn pairs_map(pairs: Seq<(String, String)>) -> Map<Seq<char>, Seq<char>>
    decreases pairs.len(),
{
    if pairs.len() == 0 {
        Map::empty()
    } else {
        pairs_map(pairs.drop_last()).insert(pairs.last().0@, pairs.last().1@)
    }
}

impl View for Attributes {
    type V = Map<Seq<char>, Seq<char>>;

    closed spec fn view(&self) -> Map<Seq<char>, Seq<char>> {
        Map::new(|k: Seq<char>| self.table@.contains_key(k), |k: Seq<char>| self.table@[k]@)
    }
}

impl Attributes {
    /// No attributes.
    pub fn new() -> (r: Self)
        ensures
            r@ == Map::<Seq<char>, Seq<char>>::empty(),
    {
        let r = Attributes { table: StrMap::new() };
        assert(r@ =~= Map::<Seq<char>, Seq<char>>::empty());
        r
    }

    /// Sets the attribute `name` to `value`.
    pub fn insert(&mut self, name: String, value: String)
        ensures
            final(self)@ == old(self)@.insert(name@, value@),
    {
        self.table.insert(name, value);
        assert(self@ =~= old(self)@.insert(name@, value@));
    }

    /// The attributes given by a list of pairs; of two pairs with the same
    /// name the later one counts.
    pub fn from_pairs(pairs: Vec<(String, String)>) -> (r: Self)
        ensures
            r@ == pairs_map(pairs@),
    {
        let mut r = Attributes::new();
        let ghost all = pairs@;
        let mut rest = reversed(pairs);
        let mut done: usize = 0;
        assert(rest.len() == all.len());
        assert(all.take(0) =~= Seq::<(String, String)>::empty());
        while rest.len() > 0
            invariant
                done <= all.len(),
                rest@.len() + done == all.len() <= usize::MAX,
            rest@ == remaining(all, done as int),
                r@ == pairs_map(all.take(done as int)),
            decreases rest.len(),
        {
            proof {
                lemma_remaining(all, done as int);
            }
            let (name, value) = rest.pop().unwrap();
            r.insert(name, value);
            done += 1;
        }
        assert(all.take(all.len() as int) == all);
        r
    }

    /// Number of attributes.
    pub fn len(&self) -> (n: usize)
        ensures
            n == self@.dom().len(),
            self@.dom().finite(),
            n == ascending_keys(self@.dom()).len(),
    {
        proof {
            use_type_invariant(&self.table);
            self.table.lemma_rows();
            assert(self@.dom() =~= self.table@.dom());
        }
        self.table.len()
    }

    /// The value of the attribute `name`, if it is set.
    pub fn get(&self, name: &str) -> (r: Option<&String>)
        ensures
            match r {
                Some(v) => self@.contains_key(name@) && v@ == self@[name@],
                None => !self@.contains_key(name@),
            },
    {
        self.table.get(name)
    }

    /// The name that stands at position `i` when the names are in ascending
    /// order.
    pub fn name_at(&self, i: usize) -> (r: &String)
        requires
            i < self@.dom().len(),
        ensures
            r@ == ascending_keys(self@.dom())[i as int],
            self@.contains_key(r@),
    {
        proof {
            use_type_invariant(&self.table);
            self.table.lemma_rows();
            assert(self@.dom() =~= self.table@.dom());
        }
        self.table.key_at(i)
    }

    /// The value of the attribute whose name stands at position `i`.
    pub fn value_at(&self, i: usize) -> (r: &String)
        requires
            i < self@.dom().len(),
        ensures
            self@.contains_key(ascending_keys(self@.dom())[i as int]),
            r@ == self@[ascending_keys(self@.dom())[i as int]],
    {
        proof {
            use_type_invariant(&self.table);
            self.table.lemma_rows();
            assert(self@.dom() =~= self.table@.dom());
            assert(self.table.keys()[i as int] == self.table.pairs()[i as int].0@);
        }
        self.table.value_at(i)
    }
}

impl Clone for Attributes {
    fn clone(&self) -> (r: Self)
        ensures
            r@ == self@,
    {
        let r = Attributes { table: self.table.clone() };
        assert(r@ =~= self@);
        r
    }
}

} // verus!
