//! What holds of the library as a whole: laws that relate several of its
//! functions, each proved from the definitions that the functions' own
//! contracts use.

use crate::collection::CollectionError;
use crate::document::{lowered_names, match_group, Document, DocumentError};
use crate::normalize::{
    attr_token, attr_tokens, canonical_token, canonical_tokens, normalized_attrs, normalized_key,
};
use crate::order::{lemma_text_order_total, sorted_texts, text_lt, text_order};
use crate::table::{ascending, ascending_keys, lemma_ascending_keys_of_set};
use crate::text::{
    first_index, is_ascii_char, is_ascii_text, is_space, join, lemma_first_index,
    lemma_first_index_unique, lowercase, split_terminator, trimmed,
};
use crate::text_laws::{
    free_of, lemma_lower_char, lemma_lowercase_ascii, lemma_sorted_texts,
    lemma_split_terminator_join, lemma_split_terminator_pieces, lemma_trim_lowercase,
    lemma_trimmed,
};
use vstd::seq_lib::lemma_sorted_unique;
use crate::loader::{add_document, grouped, lemma_first_failure, load_result, loaded};
use crate::value::{empty_object, member_or_null, members, merged, Json};
use vstd::prelude::*;

verus! {

/// Passing over tiers without an entry leaves what was gathered unchanged.
proof fn lemma_scan_without_match(
    doc: Document,
    attrs: Map<Seq<char>, Seq<char>>,
    i: int,
    acc: Json,
)
    requires
        0 <= i,
        forall|j: int|
            i <= j < doc.order_list@.len() ==> !doc.overrides@.contains_key(
                #[trigger] doc.tier_key(attrs, j),
            ),
    ensures
        doc.scan(attrs, i, acc) == acc,
    decreases doc.order_list@.len() - i,
{
    if i < doc.order_list@.len() {
        assert(!doc.overrides@.contains_key(doc.tier_key(attrs, i)));
        lemma_scan_without_match(doc, attrs, i + 1, acc);
    }
}

/// A request that matches no tier gets exactly the default value.
pub proof fn law_no_match_gives_default(doc: Document, attrs: Map<Seq<char>, Seq<char>>)
    requires
        forall|i: int|
            0 <= i < doc.order_list@.len() ==> !doc.overrides@.contains_key(
                #[trigger] doc.tier_key(attrs, i),
            ),
    ensures
        doc.resolved(attrs) == doc.default_value@,
{
    lemma_scan_without_match(doc, attrs, 0, doc.seed());
}

/// Without merging, the entry of the earliest matching tier is the value,
/// whatever later tiers match. (When that entry is the empty object, the
/// default stands in for it.)
pub proof fn law_first_match_wins(doc: Document, attrs: Map<Seq<char>, Seq<char>>, i: int)
    requires
        !doc.merging(),
        0 <= i < doc.order_list@.len(),
        doc.overrides@.contains_key(doc.tier_key(attrs, i)),
        forall|j: int|
            0 <= j < i ==> !doc.overrides@.contains_key(#[trigger] doc.tier_key(attrs, j)),
    ensures
        doc.resolved(attrs) == if doc.overrides@[doc.tier_key(attrs, i)].value@ == empty_object() {
            doc.default_value@
        } else {
            doc.overrides@[doc.tier_key(attrs, i)].value@
        },
{
    lemma_scan_prefix_without_match(doc, attrs, 0, i, doc.seed());
}

/// Tiers without an entry before tier `to` can be left out of the scan.
proof fn lemma_scan_prefix_without_match(
    doc: Document,
    attrs: Map<Seq<char>, Seq<char>>,
    from: int,
    to: int,
    acc: Json,
)
    requires
        0 <= from <= to <= doc.order_list@.len(),
        forall|j: int|
            from <= j < to ==> !doc.overrides@.contains_key(#[trigger] doc.tier_key(attrs, j)),
    ensures
        doc.scan(attrs, from, acc) == doc.scan(attrs, to, acc),
    decreases to - from,
{
    if from < to {
        assert(!doc.overrides@.contains_key(doc.tier_key(attrs, from)));
        lemma_scan_prefix_without_match(doc, attrs, from + 1, to, acc);
    }
}

/// What a merge does to the members of an object: a member named in the
/// patch is dropped where the patch has null and merged otherwise, a member
/// not named in the patch stays as it is. So where the patch has no null
/// members the result has the members of both, and where both have a member
/// of one name and the patch's is no object, the patch's counts.
pub proof fn law_merge_members(doc: Json, patch: Json)
    requires
        patch is Object,
    ensures
        merged(doc, patch) is Object,
        forall|k: Seq<char>|
            members(merged(doc, patch)).contains_key(k) <==> (if members(patch).contains_key(k) {
                !(members(patch)[k] is Null)
            } else {
                members(doc).contains_key(k)
            }),
        forall|k: Seq<char>|
            members(patch).contains_key(k) && !(members(patch)[k] is Null) ==> #[trigger] members(
                merged(doc, patch),
            )[k] == merged(member_or_null(members(doc), k), members(patch)[k]),
        forall|k: Seq<char>|
            members(patch).contains_key(k) && !(members(patch)[k] is Null) && !(members(
                patch,
            )[k] is Object) ==> #[trigger] members(merged(doc, patch))[k] == members(patch)[k],
        forall|k: Seq<char>|
            !members(patch).contains_key(k) && members(doc).contains_key(k) ==> #[trigger] members(
                merged(doc, patch),
            )[k] == members(doc)[k],
        (forall|k: Seq<char>| members(patch).contains_key(k) ==> !(members(patch)[k] is Null))
            ==> members(merged(doc, patch)).dom() == members(doc).dom().union(
            members(patch).dom(),
        ),
{
    assert forall|k: Seq<char>|
        members(patch).contains_key(k) && !(members(patch)[k] is Object) implies merged(
            member_or_null(members(doc), k),
            members(patch)[k],
        ) == members(patch)[k] by {
        reveal_with_fuel(merged, 2);
    }
    if forall|k: Seq<char>| members(patch).contains_key(k) ==> !(members(patch)[k] is Null) {
        assert(members(merged(doc, patch)).dom() =~= members(doc).dom().union(
            members(patch).dom(),
        ));
    }
}

/// With merging, two tiers that both match are both applied, the earlier
/// first: the value is the later entry merged into the earlier entry merged
/// into the seed. (When that is the empty object, the default stands in
/// for it.)
pub proof fn law_merge_accumulates(doc: Document, attrs: Map<Seq<char>, Seq<char>>)
    requires
        doc.merging(),
        doc.order_list@.len() == 2,
        doc.overrides@.contains_key(doc.tier_key(attrs, 0)),
        doc.overrides@.contains_key(doc.tier_key(attrs, 1)),
        !doc.overrides@[doc.tier_key(attrs, 0)].omit,
        !doc.overrides@[doc.tier_key(attrs, 1)].omit,
    ensures
        doc.resolved(attrs) == {
            let first = doc.overrides@[doc.tier_key(attrs, 0)].value@;
            let second = doc.overrides@[doc.tier_key(attrs, 1)].value@;
            let both = merged(merged(doc.seed(), first), second);
            if both == empty_object() {
                doc.default_value@
            } else {
                both
            }
        },
{
    let first = doc.overrides@[doc.tier_key(attrs, 0)].value@;
    let second = doc.overrides@[doc.tier_key(attrs, 1)].value@;
    let one = merged(doc.seed(), first);
    assert(doc.scan(attrs, 2, merged(one, second)) == merged(one, second));
    assert(doc.scan(attrs, 1, one) == merged(one, second));
    assert(doc.scan(attrs, 0, doc.seed()) == merged(one, second));
}

/// In a store every document stands in the list of its own collection,
/// and every document that was loaded stands in the store.
pub proof fn law_grouped_by_collection(docs: Seq<Document>)
    ensures
        forall|k: Seq<char>, i: int|
            grouped(docs).contains_key(k) && 0 <= i < grouped(docs)[k].len() ==> (#[trigger] grouped(
                docs,
            )[k][i]).collection@ == k,
        forall|n: int|
            0 <= n < docs.len() ==> grouped(docs).contains_key((#[trigger] docs[n]).collection@)
                && grouped(docs)[docs[n].collection@].contains(docs[n]),
        forall|k: Seq<char>| grouped(docs).contains_key(k) ==> grouped(docs)[k].len() > 0,
    decreases docs.len(),
{
    if docs.len() > 0 {
        let head = docs.drop_last();
        let last = docs.last();
        law_grouped_by_collection(head);
        let before = grouped(head);
        let now = grouped(docs);
        assert(now == add_document(before, last));
        let name = last.collection@;
        let list = if before.contains_key(name) {
            before[name]
        } else {
            Seq::<Document>::empty()
        };
        assert(now[name] == list.push(last));
        assert forall|k: Seq<char>, i: int|
            now.contains_key(k) && 0 <= i < now[k].len() implies (#[trigger] now[k][i]).collection@
            == k by {
            if k == name {
                if i < list.len() {
                    assert(now[k][i] == before[k][i]);
                }
            } else {
                assert(now[k] == before[k]);
            }
        }
        assert forall|n: int| 0 <= n < docs.len() implies now.contains_key(
            (#[trigger] docs[n]).collection@,
        ) && now[docs[n].collection@].contains(docs[n]) by {
            if n < head.len() {
                assert(docs[n] == head[n]);
                let k = head[n].collection@;
                let at = choose|at: int| 0 <= at < before[k].len() && before[k][at] == head[n];
                if k == name {
                    assert(now[k][at] == head[n]);
                } else {
                    assert(now[k] == before[k]);
                }
            } else {
                assert(now[name][list.len() as int] == last);
            }
        }
    }
}

/// Outcomes that are all failures hold no document.
proof fn lemma_nothing_loaded(outcomes: Seq<Result<Document, DocumentError>>)
    requires
        forall|i: int| 0 <= i < outcomes.len() ==> #[trigger] outcomes[i] is Err,
    ensures
        loaded(outcomes).len() == 0,
    decreases outcomes.len(),
{
    if outcomes.len() > 0 {
        let head = outcomes.drop_last();
        assert forall|i: int| 0 <= i < head.len() implies #[trigger] head[i] is Err by {
            assert(head[i] == outcomes[i]);
        }
        lemma_nothing_loaded(head);
        assert(outcomes.last() == outcomes[outcomes.len() - 1]);
    }
}

/// A document among the outcomes is among the loaded documents.
proof fn lemma_something_loaded(outcomes: Seq<Result<Document, DocumentError>>, k: int)
    requires
        0 <= k < outcomes.len(),
        outcomes[k] is Ok,
    ensures
        loaded(outcomes).len() > 0,
    decreases outcomes.len(),
{
    if k < outcomes.len() - 1 {
        let head = outcomes.drop_last();
        assert(head[k] == outcomes[k]);
        lemma_something_loaded(head, k);
    }
}

/// A load that finds no valid definition fails with `DocumentsNotFound`,
/// also where bad files are ignored. (Where they are not ignored and there
/// is a bad file, that file's failure comes first.)
pub proof fn law_no_documents(outcomes: Seq<Result<Document, DocumentError>>, ignore_bad: bool)
    requires
        forall|i: int| 0 <= i < outcomes.len() ==> #[trigger] outcomes[i] is Err,
        ignore_bad || outcomes.len() == 0,
    ensures
        load_result(outcomes, ignore_bad) == Err::<
            Map<Seq<char>, Seq<Document>>,
            CollectionError,
        >(CollectionError::DocumentsNotFound),
{
    lemma_nothing_loaded(outcomes);
    lemma_first_failure(outcomes, 0);
}

/// Where bad files are not ignored, the first bad file ends the load with
/// its own failure.
pub proof fn law_bad_file_aborts(outcomes: Seq<Result<Document, DocumentError>>, k: int)
    requires
        0 <= k < outcomes.len(),
        outcomes[k] is Err,
        forall|j: int| 0 <= j < k ==> #[trigger] outcomes[j] is Ok,
    ensures
        load_result(outcomes, false) == Err::<Map<Seq<char>, Seq<Document>>, CollectionError>(
            CollectionError::DocumentError(outcomes[k]->Err_0),
        ),
{
    lemma_first_failure(outcomes, k);
}

/// Where bad files are ignored, a load with at least one valid definition
/// succeeds, and the store holds exactly the valid ones.
pub proof fn law_bad_files_skipped(outcomes: Seq<Result<Document, DocumentError>>, k: int)
    requires
        0 <= k < outcomes.len(),
        outcomes[k] is Ok,
    ensures
        load_result(outcomes, true) == Ok::<Map<Seq<char>, Seq<Document>>, CollectionError>(
            grouped(loaded(outcomes)),
        ),
{
    lemma_something_loaded(outcomes, k);
}

/// The trimmed form of ASCII text is ASCII text without whitespace at
/// either end, and holds no character that the text does not hold.
proof fn lemma_trimmed_part(s: Seq<char>, c: char)
    requires
        is_ascii_text(s),
    ensures
        is_ascii_text(trimmed(s)),
        free_of(s, c) ==> free_of(trimmed(s), c),
        trimmed(s).len() > 0 ==> !is_space(trimmed(s)[0]) && !is_space(trimmed(s).last()),
{
    lemma_trimmed(s);
}

/// The canonical form of an ASCII token without a comma is such a token
/// again, and is its own canonical form.
pub proof fn lemma_canonical_token(t: Seq<char>)
    requires
        is_ascii_text(t),
        free_of(t, ','),
    ensures
        is_ascii_text(canonical_token(t)),
        free_of(canonical_token(t), ','),
        canonical_token(canonical_token(t)) == canonical_token(t),
{
    let at = first_index(t, '=');
    lemma_first_index(t, '=');
    let c = canonical_token(t);
    if at < t.len() {
        let name = t.take(at);
        let value = t.skip(at + 1);
        assert(is_ascii_text(name) && free_of(name, ',') && free_of(name, '='));
        assert(is_ascii_text(value) && free_of(value, ',')) by {
            assert forall|i: int| 0 <= i < value.len() implies is_ascii_char(#[trigger] value[i])
                && value[i] != ',' by {
                assert(value[i] == t[i + at + 1]);
            }
        }
        lemma_trimmed_part(name, ',');
        lemma_trimmed_part(name, '=');
        lemma_trimmed_part(value, ',');
        let n = trimmed(name);
        let v = trimmed(value);
        let u = n.push('=') + v;
        assert(is_ascii_text(u) && free_of(u, ',')) by {
            assert forall|i: int| 0 <= i < u.len() implies is_ascii_char(#[trigger] u[i]) && u[i]
                != ',' by {
                if i < n.len() {
                    assert(u[i] == n[i]);
                } else if i > n.len() {
                    assert(u[i] == v[i - n.len() - 1]);
                }
            }
        }
        lemma_lowercase_ascii(u);
        lemma_lowercase_ascii(n);
        lemma_lowercase_ascii(v);
        assert(c == lowercase(u));
        assert forall|i: int| 0 <= i < c.len() implies #[trigger] c[i] != ',' by {
            lemma_lower_char(u[i]);
        }
        assert forall|i: int| 0 <= i < n.len() implies #[trigger] c[i] != '=' by {
            assert(u[i] == n[i]);
            lemma_lower_char(u[i]);
        }
        assert(c[n.len() as int] == '=') by {
            assert(u[n.len() as int] == '=');
            lemma_lower_char('=');
        }
        lemma_first_index_unique(c, '=', n.len() as int);
        assert(c.take(n.len() as int) =~= lowercase(n)) by {
            assert forall|i: int| 0 <= i < n.len() implies c[i] == lowercase(n)[i] by {
                assert(u[i] == n[i]);
            }
        }
        assert(c.skip(n.len() as int + 1) =~= lowercase(v)) by {
            assert forall|i: int| 0 <= i < v.len() implies c[i + n.len() + 1] == lowercase(
                v,
            )[i] by {
                assert(u[i + n.len() + 1] == v[i]);
            }
        }
        lemma_trim_lowercase(n);
        lemma_trim_lowercase(v);
        assert(lowercase(n).push('=') + lowercase(v) =~= c);
    } else {
        assert(free_of(t, '='));
        lemma_trimmed_part(t, ',');
        lemma_trimmed_part(t, '=');
        let w = trimmed(t);
        lemma_lowercase_ascii(w);
        assert forall|i: int| 0 <= i < c.len() implies #[trigger] c[i] != ',' && c[i] != '=' by {
            lemma_lower_char(w[i]);
        }
        lemma_first_index_unique(c, '=', c.len() as int);
        lemma_trim_lowercase(w);
    }
}

/// The key does not depend on the order of the tokens, nor on more of a
/// token than its canonical form: two match strings whose tokens have the
/// same canonical forms, however often and in whatever order, have the same
/// key.
pub proof fn law_key_ignores_order_case_and_blanks(x: Seq<char>, y: Seq<char>)
    requires
        canonical_tokens(split_terminator(x, ',')).to_multiset() == canonical_tokens(
            split_terminator(y, ','),
        ).to_multiset(),
    ensures
        normalized_key(x) == normalized_key(y),
{
    let a = canonical_tokens(split_terminator(x, ','));
    let b = canonical_tokens(split_terminator(y, ','));
    lemma_sorted_texts(a);
    lemma_sorted_texts(b);
    lemma_text_order_total();
    lemma_sorted_unique(sorted_texts(a), sorted_texts(b), text_order());
}

/// Normalizing a key a second time changes nothing.
///
/// Proved for ASCII keys. Left out are the keys whose canonical form ends
/// in a comma: those with two or more tokens that are all empty, such as
/// `,,`, which loses a comma each time.
pub proof fn law_normalize_idempotent(x: Seq<char>)
    requires
        is_ascii_text(x),
        normalized_key(x).len() == 0 || normalized_key(x).last() != ',',
    ensures
        normalized_key(normalized_key(x)) == normalized_key(x),
{
    let pieces = split_terminator(x, ',');
    let tokens = canonical_tokens(pieces);
    let sorted = sorted_texts(tokens);
    let key = join(sorted, ',');
    lemma_split_terminator_pieces(x, ',');
    lemma_sorted_texts(tokens);
    assert forall|i: int| 0 <= i < sorted.len() implies free_of(#[trigger] sorted[i], ',')
        && canonical_token(sorted[i]) == sorted[i] by {
        assert(sorted.contains(sorted[i]));
        assert(tokens.contains(sorted[i]));
        let j = choose|j: int| 0 <= j < tokens.len() && tokens[j] == sorted[i];
        assert(tokens[j] == canonical_token(pieces[j]));
        lemma_canonical_token(pieces[j]);
    }
    lemma_split_terminator_join(sorted, ',');
    if sorted.len() > 0 && sorted.last().len() == 0 {
        if sorted.len() >= 2 {
            assert(key == join(sorted.drop_last(), ',').push(',') + sorted.last());
            assert(key.last() == ',');
        }
        // One empty token: the key is empty and has no tokens.
        let none = sorted.drop_last();
        assert(none =~= Seq::<Seq<char>>::empty());
        assert(canonical_tokens(none) =~= none);
        lemma_sorted_texts(none);
        assert(sorted_texts(none) =~= none);
    } else {
        assert(canonical_tokens(sorted) =~= sorted);
        lemma_sorted_texts(sorted);
    }
}

/// A tier written back as a comma-separated list and split again is the
/// tier: the authored names in lowercase, each once, in ascending order.
///
/// Proved for ASCII entries. Left out are the entries that name only the
/// empty name, such as `,`: written back they are empty and name nothing.
pub proof fn law_tier_round_trip(entry: Seq<char>)
    requires
        is_ascii_text(entry),
        match_group(entry) != seq![Seq::<char>::empty()],
    ensures
        split_terminator(join(match_group(entry), ','), ',') == match_group(entry),
        ascending(match_group(entry)),
        forall|k: Seq<char>| lowered_names(entry).contains(k) <==> match_group(entry).contains(k),
{
    let pieces = split_terminator(entry, ',');
    let names = lowered_names(entry);
    let group = match_group(entry);
    lemma_split_terminator_pieces(entry, ',');
    let lowered = Seq::new(pieces.len(), |j: int| lowercase(pieces[j]));
    assert(names =~= lowered.to_set()) by {
        assert forall|k: Seq<char>| names.contains(k) <==> lowered.contains(k) by {
            if names.contains(k) {
                let j = choose|j: int| 0 <= j < pieces.len() && lowercase(#[trigger] pieces[j]) == k;
                assert(lowered[j] == k);
            }
            if lowered.contains(k) {
                let j = choose|j: int| 0 <= j < lowered.len() && lowered[j] == k;
                assert(lowercase(pieces[j]) == k);
            }
        }
    }
    vstd::seq_lib::seq_to_set_is_finite(lowered);
    lemma_ascending_keys_of_set(names);
    assert forall|i: int| 0 <= i < group.len() implies free_of(#[trigger] group[i], ',') by {
        assert(group.contains(group[i]));
        assert(names.contains(group[i]));
        let j = choose|j: int| 0 <= j < pieces.len() && lowercase(#[trigger] pieces[j]) == group[i];
        lemma_lowercase_ascii(pieces[j]);
        assert forall|n: int| 0 <= n < group[i].len() implies #[trigger] group[i][n] != ',' by {
            lemma_lower_char(pieces[j][n]);
        }
    }
    lemma_split_terminator_join(group, ',');
    if group.len() > 0 && group.last().len() == 0 {
        if group.len() >= 2 {
            assert(text_lt(group[0], group[group.len() - 1]));
            assert(group[0].len() == 0);
            assert(group[0] =~= group.last());
        } else {
            assert(group[0] =~= Seq::<char>::empty());
            assert(group =~= seq![Seq::<char>::empty()]);
        }
    }
}

/// A set of attributes written as a match string would write it: one
/// token `name=value` for each, by ascending name.
pub open spec fn spelled_out(attrs: Map<Seq<char>, Seq<char>>) -> Seq<Seq<char>> {
    let names = ascending_keys(attrs.dom());
    Seq::new(names.len(), |i: int| names[i].push('=') + attrs[names[i]])
}

/// The key built from a request's attributes is the key under which a
/// match string that spells out the same attributes is stored, so the
/// entry of such a match string is found.
///
/// Proved for ASCII attributes. Names must hold neither comma nor `=`,
/// values no comma, since a match string has no way to write them.
pub proof fn law_request_key_is_stored_key(attrs: Map<Seq<char>, Seq<char>>)
    requires
        attrs.dom().finite(),
        forall|k: Seq<char>|
            #[trigger] attrs.contains_key(k) ==> is_ascii_text(k) && free_of(k, ',') && free_of(
                k,
                '=',
            ) && is_ascii_text(attrs[k]) && free_of(attrs[k], ','),
    ensures
        normalized_key(join(spelled_out(attrs), ',')) == normalized_attrs(attrs, true),
{
    let names = ascending_keys(attrs.dom());
    let tokens = spelled_out(attrs);
    lemma_ascending_keys_of_set(attrs.dom());
    assert forall|i: int| 0 <= i < tokens.len() implies free_of(#[trigger] tokens[i], ',')
        && tokens[i].len() > 0 && canonical_token(tokens[i]) == attr_token(
        names[i],
        attrs[names[i]],
        true,
    ) by {
        let name = names[i];
        assert(names.contains(name));
        assert(attrs.contains_key(name));
        let value = attrs[name];
        let t = tokens[i];
        assert forall|n: int| 0 <= n < t.len() implies #[trigger] t[n] != ',' by {
            if n < name.len() {
                assert(t[n] == name[n]);
            } else if n > name.len() {
                assert(t[n] == value[n - name.len() - 1]);
            }
        }
        assert forall|n: int| 0 <= n < name.len() implies #[trigger] t[n] != '=' by {
            assert(t[n] == name[n]);
        }
        assert(t[name.len() as int] == '=');
        lemma_first_index_unique(t, '=', name.len() as int);
        assert(t.take(name.len() as int) =~= name);
        assert(t.skip(name.len() as int + 1) =~= value);
        lemma_trimmed_part(name, ',');
        lemma_trimmed_part(value, ',');
        let n = trimmed(name);
        let v = trimmed(value);
        let u = n.push('=') + v;
        assert(is_ascii_text(u)) by {
            assert forall|j: int| 0 <= j < u.len() implies is_ascii_char(#[trigger] u[j]) by {
                if j < n.len() {
                    assert(u[j] == n[j]);
                } else if j > n.len() {
                    assert(u[j] == v[j - n.len() - 1]);
                }
            }
        }
        lemma_lowercase_ascii(u);
        lemma_lowercase_ascii(n);
        lemma_lowercase_ascii(v);
        assert(lowercase(u) =~= lowercase(n).push('=') + lowercase(v)) by {
            assert forall|j: int| 0 <= j < u.len() implies lowercase(u)[j] == (lowercase(n).push(
                '=',
            ) + lowercase(v))[j] by {
                if j < n.len() {
                    assert(u[j] == n[j]);
                } else if j > n.len() {
                    assert(u[j] == v[j - n.len() - 1]);
                } else {
                    assert(u[j] == '=');
                    lemma_lower_char('=');
                }
            }
        }
    }
    lemma_split_terminator_join(tokens, ',');
    assert(canonical_tokens(tokens) =~= attr_tokens(attrs, true));
}

} // verus!
