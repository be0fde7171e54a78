//! Parameter values: JSON-like data with deep merge.

use crate::table::{as_map, StrMap};
use vstd::prelude::*;

verus! {

/// `serde_json::Number`: a JSON number. The library carries numbers
/// through and never looks inside one.
#[verifier::external_type_specification]
#[verifier::external_body]
pub struct ExNumber(serde_json::Number);

/// `serde_json::Number`'s `clone` returns a number equal to the one it was
/// called on.
pub assume_specification[ <serde_json::Number as Clone>::clone ](
    n: &serde_json::Number,
) -> (r: serde_json::Number)
    ensures
        r == *n,
;

/// A dynamically typed value.
#[derive(Debug, PartialEq)]
pub enum Value {
    Null,
    Bool(bool),
    Number(serde_json::Number),
    String(String),
    Array(Vec<Value>),
    Object(StrMap<Value>),
}

/// The mathematical content of a [`Value`].
pub enum Json {
    Null,
    Bool(bool),
    Number(serde_json::Number),
    String(Seq<char>),
    Array(Seq<Json>),
    Object(Map<Seq<char>, Json>),
}

/// The object without members.
pub open spec fn empty_object() -> Json {
    Json::Object(Map::empty())
}

/// The members of `doc` if it is an object, none otherwise.
pub open spec fn members(doc: Json) -> Map<Seq<char>, Json> {
    match doc {
        Json::Object(d) => d,
        _ => Map::empty(),
    }
}

/// The member of `m` under `k`, or null when there is none.
pub open spec fn member_or_null(m: Map<Seq<char>, Json>, k: Seq<char>) -> Json {
    if m.contains_key(k) {
        m[k]
    } else {
        Json::Null
    }
}

/// Deep merge of `patch` into `doc`.
///
/// A patch that is no object replaces `doc`. An object patch is applied
/// member by member to the members of `doc` (to none, if `doc` is no
/// object): a null member removes the member of that name, any other is
/// merged into the member of that name, or into null where there is none.
pub open spec fn merged(doc: Json, patch: Json) -> Json
    decreases patch,
{
    match patch {
        Json::Object(p) => {
            let base = members(doc);
            Json::Object(
                Map::new(
                    |k: Seq<char>|
                        if p.contains_key(k) {
                            !(p[k] is Null)
                        } else {
                            base.contains_key(k)
                        },
                    |k: Seq<char>|
                        if p.contains_key(k) {
                            merged(member_or_null(base, k), p[k])
                        } else {
                            base[k]
                        },
                ),
            )
        },
        _ => patch,
    }
}

/// The models of the values of a table.
pub open spec fn models(m: Map<Seq<char>, Value>) -> Map<Seq<char>, Json> {
    Map::new(|k: Seq<char>| m.contains_key(k), |k: Seq<char>| m[k].model())
}

impl Value {
    /// The mathematical content of the value.
    pub open spec fn model(self) -> Json
        decreases self,
    {
        match self {
            Value::Null => Json::Null,
            Value::Bool(b) => Json::Bool(b),
            Value::Number(n) => Json::Number(n),
            Value::String(s) => Json::String(s@),
            Value::Array(items) => Json::Array(
                Seq::new(
                    items@.len(),
                    |i: int|
                        if 0 <= i < items@.len() {
                            items@[i].model()
                        } else {
                            Json::Null
                        },
                ),
            ),
            Value::Object(m) => Json::Object(Self::rows_model(m.pairs(), m.pairs().len())),
        }
    }

    /// The members that the first `n` rows stand for.
    pub open spec fn rows_model(pairs: Seq<(String, Value)>, n: nat) -> Map<Seq<char>, Json>
        decreases pairs, n,
    {
        if n == 0 || n > pairs.len() {
            Map::empty()
        } else {
            Self::rows_model(pairs, (n - 1) as nat).insert(pairs[n - 1].0@, pairs[n - 1].1.model())
        }
    }
}

impl View for Value {
    type V = Json;

    open spec fn view(&self) -> Json {
        self.model()
    }
}

/// The members of the first `n` rows are the models of the table they make.
pub proof fn lemma_rows_model(pairs: Seq<(String, Value)>, n: nat)
    requires
        n <= pairs.len(),
    ensures
        Value::rows_model(pairs, n) == models(as_map(pairs.take(n as int))),
    decreases n,
{
    if n == 0 {
        assert(Value::rows_model(pairs, n) =~= models(as_map(pairs.take(n as int))));
    } else {
        lemma_rows_model(pairs, (n - 1) as nat);
        assert(pairs.take(n as int).drop_last() == pairs.take(n - 1));
        assert(Value::rows_model(pairs, n) =~= models(as_map(pairs.take(n as int))));
    }
}

/// An object's members are the models of its table's values.
pub proof fn lemma_object_model(m: StrMap<Value>)
    ensures
        Value::Object(m)@ == Json::Object(models(m@)),
{
    lemma_rows_model(m.pairs(), m.pairs().len());
    assert(m.pairs().take(m.pairs().len() as int) == m.pairs());
}

/// Rows with the same keys and the same models stand for the same members.
proof fn lemma_rows_model_equal(a: Seq<(String, Value)>, b: Seq<(String, Value)>, n: nat)
    requires
        n <= a.len(),
        n <= b.len(),
        forall|i: int| 0 <= i < n ==> #[trigger] a[i].0@ == b[i].0@,
        forall|i: int| 0 <= i < n ==> #[trigger] a[i].1@ == b[i].1@,
    ensures
        Value::rows_model(a, n) == Value::rows_model(b, n),
    decreases n,
{
    if n > 0 {
        lemma_rows_model_equal(a, b, (n - 1) as nat);
        assert(a[n - 1].0@ == b[n - 1].0@);
        assert(a[n - 1].1@ == b[n - 1].1@);
    }
}

impl Clone for Value {
    /// A value with the same content.
    fn clone(&self) -> (r: Self)
        ensures
            r@ == self@,
        decreases self,
    {
        match self {
            Value::Null => Value::Null,
            Value::Bool(b) => Value::Bool(*b),
            Value::Number(n) => Value::Number(n.clone()),
            Value::String(s) => Value::String(s.clone()),
            Value::Array(items) => {
                let mut out: Vec<Value> = Vec::new();
                let mut i: usize = 0;
                while i < items.len()
                    invariant
                        i <= items.len(),
                        out.len() == i,
                        decreases_to!(*self => *items),
                        forall|j: int| 0 <= j < i ==> (#[trigger] out@[j]).model() == items@[j].model(),
                    decreases items.len() - i,
                {
                    let item = &items[i];
                    out.push(item.clone());
                    i += 1;
                }
                let r = Value::Array(out);
                assert(r@ == self@) by {
                    let x = r.model()->Array_0;
                    let y = self.model()->Array_0;
                    assert(x.len() == out@.len() && y.len() == items@.len());
                    assert forall|j: int| 0 <= j < x.len() implies x[j] == y[j] by {
                        assert(x[j] == out@[j].model());
                        assert(y[j] == items@[j].model());
                    }
                    assert(x =~= y);
                }
                r
            },
            Value::Object(m) => {
                let mut out: StrMap<Value> = StrMap::new();
                let n = m.len();
                let mut i: usize = 0;
                proof {
                    use_type_invariant(m);
                    m.lemma_rows();
                }
                while i < n
                    invariant
                        i <= n == m.pairs().len(),
                        out.pairs().len() == i,
                        decreases_to!(*self => *m),
                        crate::table::ascending(m.keys()),
                        forall|j: int| 0 <= j < i ==> #[trigger] out.pairs()[j].0@ == m.pairs()[j].0@,
                        forall|j: int| 0 <= j < i ==> #[trigger] out.pairs()[j].1@ == m.pairs()[j].1@,
                    decreases n - i,
                {
                    let key = m.key_at(i).clone();
                    let value = m.value_at(i).clone();
                    proof {
                        assert forall|j: int| 0 <= j < out.pairs().len() implies crate::order::text_lt(
                            #[trigger] out.keys()[j],
                            key@,
                        ) by {
                            assert(out.keys()[j] == m.keys()[j]);
                            assert(key@ == m.keys()[i as int]);
                        }
                    }
                    out.push_last(key, value);
                    i += 1;
                }
                proof {
                    lemma_rows_model_equal(out.pairs(), m.pairs(), n as nat);
                }
                Value::Object(out)
            },
        }
    }
}

/// Whether `k` is the key of one of the first `n` rows.
pub open spec fn among(pairs: Seq<(String, Value)>, n: int, k: Seq<char>) -> bool {
    exists|j: int| 0 <= j < n && j < pairs.len() && #[trigger] pairs[j].0@ == k
}

impl Value {
    /// The object without members.
    pub fn object() -> (r: Value)
        ensures
            r@ == empty_object(),
    {
        let table: StrMap<Value> = StrMap::new();
        proof {
            lemma_object_model(table);
            assert(models(table@) =~= Map::<Seq<char>, Json>::empty());
        }
        Value::Object(table)
    }

    /// Whether the value is the object without members.
    pub fn is_empty_object(&self) -> (r: bool)
        ensures
            r == (self@ == empty_object()),
    {
        match self {
            Value::Object(m) => {
                proof {
                    lemma_object_model(*m);
                    use_type_invariant(m);
                    m.lemma_rows();
                    if m.pairs().len() == 0 {
                        assert(models(m@) =~= Map::<Seq<char>, Json>::empty());
                    } else {
                        assert(m@.contains_key(m.pairs()[0].0@));
                        assert(models(m@).contains_key(m.pairs()[0].0@));
                    }
                }
                m.len() == 0
            },
            _ => false,
        }
    }

    /// The members of the value if it is an object, an empty table otherwise.
    fn into_members(self) -> (r: StrMap<Value>)
        ensures
            models(r@) == members(self@),
    {
        match self {
            Value::Object(m) => {
                proof {
                    lemma_object_model(m);
                }
                m
            },
            _ => {
                let r = StrMap::new();
                assert(models(r@) =~= Map::<Seq<char>, Json>::empty());
                r
            },
        }
    }

    /// Deep merge of `patch` into `self`, as a new value.
    pub fn merged_with(&self, patch: &Value) -> (r: Value)
        ensures
            r@ == merged(self@, patch@),
        decreases patch,
    {
        match patch {
            Value::Object(p) => {
                let mut out = self.clone().into_members();
                let ghost base = members(self@);
                let ghost pm = models(p@);
                let ghost rows = p.pairs();
                let n = p.len();
                let mut i: usize = 0;
                proof {
                    use_type_invariant(p);
                    p.lemma_rows();
                    lemma_object_model(*p);
                }
                while i < n
                    invariant
                        i <= n == rows.len(),
                        rows == p.pairs(),
                        pm == models(p@),
                        decreases_to!(*patch => *p),
                        crate::table::ascending(p.keys()),
                        forall|j: int|
                            0 <= j < rows.len() ==> p@.contains_key(#[trigger] rows[j].0@) && p@[rows[j].0@]
                                == rows[j].1,
                        forall|k: Seq<char>|
                            #![trigger models(out@).contains_key(k)]
                            models(out@).contains_key(k) == (if among(rows, i as int, k) {
                                !(pm[k] is Null)
                            } else {
                                base.contains_key(k)
                            }),
                        forall|k: Seq<char>|
                            #![trigger models(out@)[k]]
                            models(out@).contains_key(k) ==> models(out@)[k] == (if among(
                                rows,
                                i as int,
                                k,
                            ) {
                                merged(member_or_null(base, k), pm[k])
                            } else {
                                base[k]
                            }),
                    decreases n - i,
                {
                    let key = p.key_at(i);
                    let value = p.value_at(i);
                    let ghost kv = key@;
                    let ghost before = out@;
                    proof {
                        assert(rows[i as int].0@ == kv);
                        assert(pm[kv] == value@);
                        if among(rows, i as int, kv) {
                            let j = choose|j: int|
                                0 <= j < i && j < rows.len() && #[trigger] rows[j].0@ == kv;
                            assert(crate::order::text_lt(p.keys()[j], p.keys()[i as int]));
                        }
                        assert(models(before).contains_key(kv) == base.contains_key(kv));
                    }
                    match value {
                        Value::Null => {
                            let _ = out.remove(key.as_str());
                            assert(models(out@) =~= models(before).remove(kv));
                        },
                        _ => {
                            let child = match out.get(key.as_str()) {
                                Some(current) => {
                                    assert(models(before)[kv] == current@);
                                    current.merged_with(value)
                                },
                                None => Value::Null.merged_with(value),
                            };
                            assert(child@ == merged(member_or_null(base, kv), pm[kv]));
                            out.insert(key.clone(), child);
                            assert(models(out@) =~= models(before).insert(kv, child@));
                        },
                    }
                    proof {
                        assert forall|k: Seq<char>| among(rows, i + 1, k) == (k == kv || among(
                            rows,
                            i as int,
                            k,
                        )) by {
                            if among(rows, i + 1, k) {
                                let j = choose|j: int|
                                    0 <= j < i + 1 && j < rows.len() && #[trigger] rows[j].0@ == k;
                                if j < i {
                                    assert(among(rows, i as int, k));
                                }
                            }
                            if among(rows, i as int, k) {
                                let j = choose|j: int|
                                    0 <= j < i && j < rows.len() && #[trigger] rows[j].0@ == k;
                                assert(0 <= j < i + 1 && rows[j].0@ == k);
                            }
                            if k == kv {
                                assert(rows[i as int].0@ == k);
                            }
                        }
                    }
                    i += 1;
                }
                let r = Value::Object(out);
                proof {
                    lemma_object_model(out);
                    assert forall|k: Seq<char>| among(rows, n as int, k) == pm.contains_key(k) by {
                        if pm.contains_key(k) {
                            let j = choose|j: int|
                                0 <= j < p.pairs().len() && #[trigger] p.pairs()[j].0@ == k;
                            assert(rows[j].0@ == k);
                        }
                    }
                    assert(models(out@) =~= merged(self@, patch@)->Object_0);
                }
                r
            },
            _ => patch.clone(),
        }
    }
}

/// Deep merge of `patch` into `doc`, in place.
pub fn merge(doc: &mut Value, patch: &Value)
    ensures
        final(doc)@ == merged(old(doc)@, patch@),
{
    let r = doc.merged_with(patch);
    *doc = r;
}

} // verus!
