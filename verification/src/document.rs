//! Parameter documents: a default value, a table of overrides under
//! canonical match keys, and the tiers in which the table is probed.

use crate::attrs::Attributes;
use crate::normalize::{
    build_compare_key, compare_key, normalize_override_key, normalized_key, sorted_unique,
};
use crate::seqs::{lemma_remaining, remaining, reversed};
use crate::table::{ascending_keys, StrMap};
use crate::text::{
    find_char, first_index, from_chars, join, join_strings, lowercase, lowercase_string,
    slice_chars, split_terminator, split_terminator_string, to_chars, views,
};
use vstd::string::StringExecFns;
use crate::value::{empty_object, merged, Json, Value};
use vstd::prelude::*;

verus! {

pub type ParamValue = Value;

/// The declared type of a parameter's value.
#[derive(Clone, Copy, Debug, PartialEq, Eq, Structural)]
pub enum DocumentValueType {
    Array,
    Boolean,
    Hash,
    Number,
    Json,
    Yaml,
    String,
}

impl Default for DocumentValueType {
    fn default() -> (r: Self)
        ensures
            r == DocumentValueType::String,
    {
        DocumentValueType::String
    }
}

impl DocumentValueType {
    /// Hash, JSON and YAML values are composite: they can be merged member
    /// by member. All others are replaced as a whole.
    pub open spec fn composite(self) -> bool {
        self == DocumentValueType::Hash || self == DocumentValueType::Json || self
            == DocumentValueType::Yaml
    }

    pub fn is_composite(&self) -> (r: bool)
        ensures
            r == self.composite(),
    {
        match self {
            DocumentValueType::Hash | DocumentValueType::Json | DocumentValueType::Yaml => true,
            _ => false,
        }
    }
}

/// One entry of the override table.
#[derive(Debug, PartialEq)]
pub struct OverrideV2 {
    pub omit: bool,
    pub value: ParamValue,
}

impl Clone for OverrideV2 {
    fn clone(&self) -> (r: Self)
        ensures
            r.omit == self.omit,
            r.value@ == self.value@,
    {
        OverrideV2 { omit: self.omit, value: self.value.clone() }
    }
}

/// An override with its match string taken apart into attributes.
#[derive(Debug, PartialEq)]
pub struct Override {
    pub omit: bool,
    pub value: ParamValue,
    pub attrs: Attributes,
}

/// An override as authored: the match string, the omit flag and the value.
#[derive(Debug, PartialEq)]
pub struct Matcher {
    pub key: String,
    pub omit: bool,
    pub value: ParamValue,
}

/// The override table: entries under canonical match keys.
pub type DocumentOverrides = StrMap<OverrideV2>;

/// The table built from authored overrides: each stored under the canonical
/// form of its match string, a later one replacing an earlier one with the
/// same canonical key.
pub open spec fn override_table(items: Seq<Matcher>) -> Map<Seq<char>, OverrideV2>
    decreases items.len(),
{
    if items.len() == 0 {
        Map::empty()
    } else {
        override_table(items.drop_last()).insert(
            normalized_key(items.last().key@),
            OverrideV2 { omit: items.last().omit, value: items.last().value },
        )
    }
}

/// The canonical form of an authored match string.
pub fn match_to_string(item: &str) -> (r: String)
    ensures
        r@ == normalized_key(item@),
{
    normalize_override_key(item)
}

/// Turns the authored list of overrides into the override table.
pub fn deser_overrides(items: Vec<Matcher>) -> (r: DocumentOverrides)
    ensures
        r@ == override_table(items@),
{
    let mut table: DocumentOverrides = StrMap::new();
    let ghost all = items@;
    let mut rest = reversed(items);
    let mut done: usize = 0;
    assert(rest.len() == all.len());
    assert(all.take(0) =~= Seq::<Matcher>::empty());
    while rest.len() > 0
        invariant
            done <= all.len(),
            rest@.len() + done == all.len() <= usize::MAX,
            rest@ == remaining(all, done as int),
            table@ == override_table(all.take(done as int)),
        decreases rest.len(),
    {
        proof {
            lemma_remaining(all, done as int);
        }
        let item = rest.pop().unwrap();
        let key = match_to_string(item.key.as_str());
        table.insert(key, OverrideV2 { omit: item.omit, value: item.value });
        done += 1;
    }
    assert(all.take(all.len() as int) == all);
    table
}

/// The lowercase forms of the names in a comma-separated list.
pub open spec fn lowered_names(entry: Seq<char>) -> Set<Seq<char>> {
    let pieces = split_terminator(entry, ',');
    Set::new(
        |k: Seq<char>| exists|j: int| 0 <= j < pieces.len() && lowercase(#[trigger] pieces[j]) == k,
    )
}

/// One tier: the names of a comma-separated list in lowercase, each once,
/// in ascending order.
pub open spec fn match_group(entry: Seq<char>) -> Seq<Seq<char>> {
    ascending_keys(lowered_names(entry))
}

/// Parses one authored order entry into a tier.
pub fn parse_match_group(entry: &str) -> (r: Vec<String>)
    ensures
        views(r@) == match_group(entry@),
{
    let pieces = split_terminator_string(entry, ',');
    let mut names: Vec<String> = Vec::new();
    let mut j: usize = 0;
    while j < pieces.len()
        invariant
            j <= pieces.len(),
            names.len() == j,
            forall|n: int| 0 <= n < j ==> (#[trigger] names@[n])@ == lowercase(pieces@[n]@),
        decreases pieces.len() - j,
    {
        names.push(lowercase_string(pieces[j].as_str()));
        j += 1;
    }
    proof {
        let ps = split_terminator(entry@, ',');
        assert forall|k: Seq<char>| views(names@).to_set().contains(k) <==> lowered_names(
            entry@,
        ).contains(k) by {
            if views(names@).contains(k) {
                let n = choose|n: int| 0 <= n < views(names@).len() && views(names@)[n] == k;
                assert(views(pieces@)[n] == ps[n]);
                assert(lowercase(ps[n]) == k);
            }
            if lowered_names(entry@).contains(k) {
                let n = choose|n: int| 0 <= n < ps.len() && lowercase(#[trigger] ps[n]) == k;
                assert(views(pieces@)[n] == ps[n]);
                assert(views(names@)[n] == k);
            }
        }
        assert(views(names@).to_set() =~= lowered_names(entry@));
    }
    sorted_unique(&names)
}

/// Parses the authored order list into tiers, keeping the authored order of
/// the tiers.
///
/// `fqdn`, `domain,is_virtual` becomes `[[fqdn], [domain, is_virtual]]`.
pub fn str2list_of_attrs(list_attrs: &Vec<String>) -> (r: Vec<Vec<String>>)
    ensures
        r.len() == list_attrs.len(),
        forall|i: int|
            0 <= i < r.len() ==> views((#[trigger] r@[i])@) == match_group(list_attrs@[i]@),
{
    let mut r: Vec<Vec<String>> = Vec::new();
    let mut i: usize = 0;
    while i < list_attrs.len()
        invariant
            i <= list_attrs.len(),
            r.len() == i,
            forall|n: int| 0 <= n < i ==> views((#[trigger] r@[n])@) == match_group(list_attrs@[n]@),
        decreases list_attrs.len() - i,
    {
        r.push(parse_match_group(list_attrs[i].as_str()));
        i += 1;
    }
    r
}

/// A parameter definition as authored, before its match keys and tiers are
/// brought into canonical form.
#[derive(Debug, PartialEq)]
pub struct DocumentSource {
    pub description: String,
    pub default_value: ParamValue,
    pub enabled: bool,
    pub value_type: DocumentValueType,
    pub name: String,
    pub collection: String,
    pub omit: bool,
    pub merge_default: bool,
    pub merge_overrides: bool,
    pub override_values: Vec<Matcher>,
    pub override_value_order: Vec<String>,
    pub hidden_value: Option<bool>,
    pub validator_rule: Option<String>,
    pub validator_type: Option<String>,
}

/// One parameter: its default value, declared type, merge flags, override
/// table and tiers.
#[derive(Debug)]
pub struct Document {
    pub description: String,
    pub default_value: ParamValue,
    pub enabled: bool,
    pub value_type: DocumentValueType,
    pub name: String,
    pub collection: String,
    pub omit: bool,
    pub merge_default: bool,
    pub merge_overrides: bool,
    pub overrides: DocumentOverrides,
    pub order_list: Vec<Vec<String>>,
    pub hidden_value: Option<bool>,
    pub validator_rule: Option<String>,
    pub validator_type: Option<String>,
}

impl Document {
    /// Whether overrides are merged into the result rather than replacing it.
    pub open spec fn merging(self) -> bool {
        self.merge_overrides && self.value_type.composite()
    }

    /// The value from which the scan of the tiers starts.
    pub open spec fn seed(self) -> Json {
        if self.merge_default && self.value_type.composite() {
            self.default_value@
        } else {
            empty_object()
        }
    }

    /// The names that tier `i` matches on.
    pub open spec fn tier(self, i: int) -> Seq<Seq<char>> {
        views(self.order_list@[i]@)
    }

    /// The key under which tier `i` probes the override table for a request
    /// with attributes `attrs`.
    pub open spec fn tier_key(self, attrs: Map<Seq<char>, Seq<char>>, i: int) -> Seq<char> {
        compare_key(attrs, self.tier(i), true)
    }

    /// The outcome of probing the tiers from `i` on, in order, having
    /// gathered `acc` so far. A tier without an entry is passed over. When
    /// merging, an entry is merged into what was gathered, unless it is
    /// marked omit, and the scan goes on; otherwise the first entry found
    /// is the outcome.
    pub open spec fn scan(self, attrs: Map<Seq<char>, Seq<char>>, i: int, acc: Json) -> Json
        decreases self.order_list@.len() - i,
    {
        if i < 0 || i >= self.order_list@.len() {
            acc
        } else {
            let key = self.tier_key(attrs, i);
            if !self.overrides@.contains_key(key) {
                self.scan(attrs, i + 1, acc)
            } else {
                let entry = self.overrides@[key];
                if self.merging() {
                    self.scan(
                        attrs,
                        i + 1,
                        if entry.omit {
                            acc
                        } else {
                            merged(acc, entry.value@)
                        },
                    )
                } else {
                    entry.value@
                }
            }
        }
    }

    /// The effective value for a request with attributes `attrs`.
    pub open spec fn resolved(self, attrs: Map<Seq<char>, Seq<char>>) -> Json {
        let found = self.scan(attrs, 0, self.seed());
        if found == empty_object() {
            self.default_value@
        } else {
            found
        }
    }

    /// Builds a document from its authored definition: name and collection
    /// in lowercase, overrides under canonical keys, tiers parsed.
    pub fn new(source: DocumentSource) -> (r: Self)
        ensures
            r.name@ == lowercase(source.name@),
            r.collection@ == lowercase(source.collection@),
            r.overrides@ == override_table(source.override_values@),
            r.order_list.len() == source.override_value_order.len(),
            forall|i: int|
                0 <= i < r.order_list.len() ==> r.tier(i) == match_group(
                    #[trigger] source.override_value_order@[i]@,
                ),
            r.description == source.description,
            r.default_value == source.default_value,
            r.enabled == source.enabled,
            r.omit == source.omit,
            r.value_type == source.value_type,
            r.merge_default == source.merge_default,
            r.merge_overrides == source.merge_overrides,
            r.hidden_value == source.hidden_value,
            r.validator_rule == source.validator_rule,
            r.validator_type == source.validator_type,
    {
        let order_list = str2list_of_attrs(&source.override_value_order);
        let name = lowercase_string(source.name.as_str());
        let collection = lowercase_string(source.collection.as_str());
        Document {
            description: source.description,
            default_value: source.default_value,
            enabled: source.enabled,
            value_type: source.value_type,
            name,
            collection,
            omit: source.omit,
            merge_default: source.merge_default,
            merge_overrides: source.merge_overrides,
            overrides: deser_overrides(source.override_values),
            order_list,
            hidden_value: source.hidden_value,
            validator_rule: source.validator_rule,
            validator_type: source.validator_type,
        }
    }

    /// Number of entries in the override table.
    pub fn total_overrides(&self) -> (r: usize)
        ensures
            r == self.overrides@.dom().len(),
    {
        self.overrides.len()
    }

    /// Looks up the value of the document for the given attributes.
    pub fn get_value(&self, attrs: &Attributes) -> (r: ParamValue)
        ensures
            r@ == self.resolved(attrs@),
    {
        let is_hash = self.value_type.is_composite();
        let mut value: ParamValue = if self.merge_default && is_hash {
            self.default_value.clone()
        } else {
            Value::object()
        };
        let need_merge: bool = self.merge_overrides && is_hash;
        let mut i: usize = 0;
        let mut found = false;
        while i < self.order_list.len() && !found
            invariant
                i <= self.order_list.len(),
                need_merge == self.merging(),
                !found ==> self.scan(attrs@, 0, self.seed()) == self.scan(attrs@, i as int, value@),
                found ==> self.scan(attrs@, 0, self.seed()) == value@,
            decreases self.order_list.len() - i, (if found { 0int } else { 1int }),
        {
            let override_key = build_compare_key(attrs, &self.order_list[i], true);
            match self.overrides.get(override_key.as_str()) {
                Some(matcher) => {
                    if need_merge {
                        if !matcher.omit {
                            value = value.merged_with(&matcher.value);
                        }
                        i += 1;
                    } else {
                        value = matcher.value.clone();
                        found = true;
                    }
                },
                None => {
                    i += 1;
                },
            }
        }
        if value.is_empty_object() {
            self.default_value.clone()
        } else {
            value
        }
    }
}

impl Document {
    /// The lowercase forms of all names that the tiers match on.
    pub open spec fn tier_names(self) -> Set<Seq<char>> {
        Set::new(
            |k: Seq<char>|
                exists|i: int, j: int|
                    0 <= i < self.order_list@.len() && 0 <= j < self.order_list@[i]@.len()
                        && lowercase(#[trigger] self.order_list@[i]@[j]@) == k,
        )
    }

    /// The attributes that the document's tiers look at: each name once, in
    /// lowercase and ascending order.
    pub fn override_attrs(&self) -> (r: Vec<String>)
        ensures
            views(r@) == ascending_keys(self.tier_names()),
    {
        let mut names: Vec<String> = Vec::new();
        let ghost mut origin: Seq<(int, int)> = Seq::empty();
        let mut i: usize = 0;
        while i < self.order_list.len()
            invariant
                i <= self.order_list.len(),
                origin.len() == names.len(),
                forall|n: int|
                    0 <= n < names.len() ==> 0 <= (#[trigger] origin[n]).0 < i && 0 <= origin[n].1
                        < self.order_list@[origin[n].0]@.len() && names@[n]@ == lowercase(
                        self.order_list@[origin[n].0]@[origin[n].1]@,
                    ),
                forall|a: int, b: int|
                    0 <= a < i && 0 <= b < self.order_list@[a]@.len() ==> views(names@).contains(
                        lowercase(#[trigger] self.order_list@[a]@[b]@),
                    ),
            decreases self.order_list.len() - i,
        {
            let row = &self.order_list[i];
            let mut j: usize = 0;
            while j < row.len()
                invariant
                    i < self.order_list.len(),
                    *row == self.order_list@[i as int],
                    j <= row.len(),
                    origin.len() == names.len(),
                    forall|n: int|
                        0 <= n < names.len() ==> 0 <= (#[trigger] origin[n]).0 <= i && 0
                            <= origin[n].1 < self.order_list@[origin[n].0]@.len() && names@[n]@
                            == lowercase(self.order_list@[origin[n].0]@[origin[n].1]@),
                    forall|a: int, b: int|
                        0 <= a < i && 0 <= b < self.order_list@[a]@.len() ==> views(
                            names@,
                        ).contains(lowercase(#[trigger] self.order_list@[a]@[b]@)),
                    forall|b: int|
                        0 <= b < j ==> views(names@).contains(lowercase(#[trigger] row@[b]@)),
                decreases row.len() - j,
            {
                let ghost before = views(names@);
                names.push(lowercase_string(row[j].as_str()));
                proof {
                    origin = origin.push((i as int, j as int));
                    let now = views(names@);
                    assert forall|k: Seq<char>| before.contains(k) implies now.contains(k) by {
                        let n = choose|n: int| 0 <= n < before.len() && before[n] == k;
                        assert(now[n] == k);
                    }
                    assert(now[names.len() - 1] == lowercase(row@[j as int]@));
                }
                j += 1;
            }
            i += 1;
        }
        proof {
            assert forall|k: Seq<char>| views(names@).to_set().contains(k) <==> self.tier_names().contains(
                k,
            ) by {
                if views(names@).contains(k) {
                    let n = choose|n: int| 0 <= n < views(names@).len() && views(names@)[n] == k;
                    let (a, b) = origin[n];
                    assert(lowercase(self.order_list@[a]@[b]@) == k);
                }
                if self.tier_names().contains(k) {
                    let (a, b) = choose|a: int, b: int|
                        0 <= a < self.order_list@.len() && 0 <= b < self.order_list@[a]@.len()
                            && lowercase(#[trigger] self.order_list@[a]@[b]@) == k;
                    assert(views(names@).contains(lowercase(self.order_list@[a]@[b]@)));
                }
            }
            assert(views(names@).to_set() =~= self.tier_names());
        }
        sorted_unique(&names)
    }

    /// The tiers written back as comma-separated lists, in priority order.
    pub fn override_order(&self) -> (r: Vec<String>)
        ensures
            r.len() == self.order_list.len(),
            forall|i: int| 0 <= i < r.len() ==> (#[trigger] r@[i])@ == join(self.tier(i), ','),
    {
        let mut r: Vec<String> = Vec::new();
        let mut i: usize = 0;
        while i < self.order_list.len()
            invariant
                i <= self.order_list.len(),
                r.len() == i,
                forall|n: int| 0 <= n < i ==> (#[trigger] r@[n])@ == join(self.tier(n), ','),
            decreases self.order_list.len() - i,
        {
            r.push(join_strings(&self.order_list[i], ','));
            i += 1;
        }
        r
    }

    /// A copy of the override table.
    pub fn get_overrides(&self) -> (r: DocumentOverrides)
        ensures
            r@.dom() == self.overrides@.dom(),
            forall|k: Seq<char>|
                #[trigger] r@.contains_key(k) ==> r@[k].omit == self.overrides@[k].omit
                    && r@[k].value@ == self.overrides@[k].value@,
    {
        self.overrides.clone()
    }
}

/// Whether a token has the form `name=value`.
pub open spec fn has_pair(token: Seq<char>) -> bool {
    first_index(token, '=') < token.len()
}

/// What stands before the first `=` of a token.
pub open spec fn pair_name(token: Seq<char>) -> Seq<char> {
    token.take(first_index(token, '='))
}

/// What stands after the first `=` of a token.
pub open spec fn pair_value(token: Seq<char>) -> Seq<char> {
    token.skip(first_index(token, '=') + 1)
}

/// The attributes that a list of `name=value` tokens spells out: names in
/// lowercase, values as written, a later token replacing an earlier one of
/// the same name.
pub open spec fn matcher_attrs(tokens: Seq<Seq<char>>) -> Map<Seq<char>, Seq<char>>
    decreases tokens.len(),
{
    if tokens.len() == 0 {
        Map::empty()
    } else {
        matcher_attrs(tokens.drop_last()).insert(
            lowercase(pair_name(tokens.last())),
            pair_value(tokens.last()),
        )
    }
}

/// The message for a match string `item` with the token `token` that holds
/// no `=`.
pub open spec fn matcher_error(item: Seq<char>, token: Seq<char>) -> Seq<char> {
    "matcher "@ + item + ", attr "@ + token
}

/// Index of the first token that holds no `=`, or the number of tokens when
/// each holds one.
pub open spec fn first_bare(tokens: Seq<Seq<char>>) -> int
    decreases tokens.len(),
{
    if tokens.len() == 0 || !has_pair(tokens[0]) {
        0
    } else {
        1 + first_bare(tokens.drop_first())
    }
}

pub proof fn lemma_first_bare(tokens: Seq<Seq<char>>, n: int)
    requires
        0 <= n <= tokens.len(),
        forall|j: int| 0 <= j < n ==> has_pair(#[trigger] tokens[j]),
        n < tokens.len() ==> !has_pair(tokens[n]),
    ensures
        first_bare(tokens) == n,
    decreases tokens.len(),
{
    if tokens.len() == 0 || !has_pair(tokens[0]) {
        if n > 0 {
            assert(has_pair(tokens[0]));
        }
    } else {
        let rest = tokens.drop_first();
        assert forall|j: int| 0 <= j < n - 1 implies has_pair(#[trigger] rest[j]) by {
            assert(rest[j] == tokens[j + 1]);
        }
        lemma_first_bare(rest, n - 1);
    }
}

/// Splits a match string into attributes.
///
/// `domain=example.com,is_virtual=true` gives `domain` → `example.com` and
/// `is_virtual` → `true`. The first token without `=` is an error.
pub fn str2attr(item: &str) -> (r: Result<Attributes, String>)
    ensures
        match r {
            Ok(attrs) => {
                &&& first_bare(split_terminator(item@, ',')) == split_terminator(item@, ',').len()
                &&& attrs@ == matcher_attrs(split_terminator(item@, ','))
            },
            Err(message) => {
                &&& first_bare(split_terminator(item@, ',')) < split_terminator(item@, ',').len()
                &&& message@ == matcher_error(
                    item@,
                    split_terminator(item@, ',')[first_bare(split_terminator(item@, ','))],
                )
            },
        },
{
    let tokens = split_terminator_string(item, ',');
    let ghost all = split_terminator(item@, ',');
    let mut result = Attributes::new();
    let mut i: usize = 0;
    while i < tokens.len()
        invariant
            i <= tokens.len(),
            views(tokens@) == all,
            all == split_terminator(item@, ','),
            forall|j: int| 0 <= j < i ==> has_pair(#[trigger] all[j]),
            result@ == matcher_attrs(all.take(i as int)),
        decreases tokens.len() - i,
    {
        let token = to_chars(tokens[i].as_str());
        assert(token@ == all[i as int]);
        let at = find_char(&token, '=');
        if at >= token.len() {
            let mut message = String::from_str("matcher ");
            message.append(item);
            message.append(", attr ");
            message.append(tokens[i].as_str());
            proof {
                assert(tokens@[i as int]@ == all[i as int]);
                assert(message@ =~= matcher_error(item@, all[i as int]));
                lemma_first_bare(all, i as int);
            }
            return Err(message);
        }
        let name = slice_chars(&token, 0, at);
        let value = slice_chars(&token, at + 1, token.len());
        let name = from_chars(&name);
        proof {
            assert(all.take(i + 1).drop_last() == all.take(i as int));
            assert(all.take(i + 1).last() == token@);
        }
        result.insert(lowercase_string(name.as_str()), from_chars(&value));
        i += 1;
    }
    proof {
        assert(all.take(tokens.len() as int) == all);
        lemma_first_bare(all, all.len() as int);
    }
    Ok(result)
}

impl Override {
    /// Takes an authored override apart: its match string becomes the
    /// attributes it spells out. A token without `=` in the match string
    /// is an error.
    pub fn new(source: Matcher) -> (r: Result<Self, String>)
        ensures
            match r {
                Ok(entry) => {
                    &&& first_bare(split_terminator(source.key@, ',')) == split_terminator(
                        source.key@,
                        ',',
                    ).len()
                    &&& entry.attrs@ == matcher_attrs(split_terminator(source.key@, ','))
                    &&& entry.omit == source.omit
                    &&& entry.value == source.value
                },
                Err(message) => {
                    &&& first_bare(split_terminator(source.key@, ',')) < split_terminator(
                        source.key@,
                        ',',
                    ).len()
                    &&& message@ == matcher_error(
                        source.key@,
                        split_terminator(source.key@, ',')[first_bare(
                            split_terminator(source.key@, ','),
                        )],
                    )
                },
            },
    {
        match str2attr(source.key.as_str()) {
            Ok(attrs) => Ok(Override { omit: source.omit, value: source.value, attrs }),
            Err(message) => Err(message),
        }
    }
}

/// `std::io::Error`: an I/O failure. The library hands it on unread.
#[verifier::external_type_specification]
#[verifier::external_body]
pub struct ExIoError(std::io::Error);

/// `serde_yaml::Error`: a YAML syntax or schema failure. The library hands
/// it on unread.
#[verifier::external_type_specification]
#[verifier::external_body]
pub struct ExYamlError(serde_yaml::Error);

/// Why a document could not be loaded.
#[derive(Debug)]
pub enum DocumentError {
    StdIoError(std::io::Error),
    ParseError(serde_yaml::Error),
    ContentError(String),
}

impl From<String> for DocumentError {
    fn from(inner: String) -> (r: Self) {
        DocumentError::ContentError(inner)
    }
}

impl vstd::std_specs::convert::FromSpecImpl<String> for DocumentError {
    open spec fn obeys_from_spec() -> bool {
        true
    }

    open spec fn from_spec(inner: String) -> Self {
        DocumentError::ContentError(inner)
    }
}

impl From<serde_yaml::Error> for DocumentError {
    fn from(inner: serde_yaml::Error) -> (r: Self) {
        DocumentError::ParseError(inner)
    }
}

impl vstd::std_specs::convert::FromSpecImpl<serde_yaml::Error> for DocumentError {
    open spec fn obeys_from_spec() -> bool {
        true
    }

    open spec fn from_spec(inner: serde_yaml::Error) -> Self {
        DocumentError::ParseError(inner)
    }
}

impl From<std::io::Error> for DocumentError {
    fn from(inner: std::io::Error) -> (r: Self) {
        DocumentError::StdIoError(inner)
    }
}

impl vstd::std_specs::convert::FromSpecImpl<std::io::Error> for DocumentError {
    open spec fn obeys_from_spec() -> bool {
        true
    }

    open spec fn from_spec(inner: std::io::Error) -> Self {
        DocumentError::StdIoError(inner)
    }
}

/// A document in short: what it is called, how many overrides it has, and
/// which attributes decide its value.
#[derive(Debug)]
pub struct DocumentInfo {
    pub name: String,
    pub collection_name: String,
    pub overrides_enabled: bool,
    pub total_overrides: usize,
    pub order_list: Vec<String>,
    pub override_attrs: Vec<String>,
    pub value_type: DocumentValueType,
    pub default_value: ParamValue,
}

impl From<&Document> for DocumentInfo {
    fn from(doc: &Document) -> (r: Self)
        ensures
            r.name@ == doc.name@,
            r.collection_name@ == doc.collection@,
            r.overrides_enabled == doc.enabled,
            r.total_overrides == doc.overrides@.dom().len(),
            views(r.override_attrs@) == ascending_keys(doc.tier_names()),
            r.order_list@.len() == doc.order_list@.len(),
            forall|i: int|
                0 <= i < r.order_list@.len() ==> (#[trigger] r.order_list@[i])@ == join(
                    doc.tier(i),
                    ',',
                ),
            r.value_type == doc.value_type,
            r.default_value@ == doc.default_value@,
    {
        Self {
            name: doc.name.clone(),
            collection_name: doc.collection.clone(),
            overrides_enabled: doc.enabled,
            total_overrides: doc.overrides.len(),
            override_attrs: doc.override_attrs(),
            order_list: doc.override_order(),
            value_type: doc.value_type,
            default_value: doc.default_value.clone(),
        }
    }
}

impl vstd::std_specs::convert::FromSpecImpl<&Document> for DocumentInfo {
    open spec fn obeys_from_spec() -> bool {
        false
    }

    open spec fn from_spec(doc: &Document) -> Self {
        arbitrary()
    }
}

} // verus!
