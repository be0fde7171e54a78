//! Properties of the text primitives on which the laws of the library
//! rest.

use crate::order::{lemma_text_order_total, sorted_texts, text_order};
use crate::text::{
    ascii_lowercase, is_ascii_char, is_ascii_text, is_space, join, leading_spaces,
    lemma_leading_spaces, lemma_leading_spaces_unique, lemma_split_nonempty,
    lemma_trailing_spaces, lemma_trailing_spaces_unique, lower_char, lowercase, split,
    split_terminator, trailing_spaces, trim_start, trimmed,
};
use vstd::prelude::*;
use vstd::relations::sorted_by;
use vstd::seq_lib::lemma_sorted_unique;

verus! {

/// The lowercase form of an ASCII character is an ASCII character that is
/// its own lowercase form; it is whitespace, or a given character that is
/// no capital, exactly when the character itself is.
pub proof fn lemma_lower_char(c: char)
    requires
        is_ascii_char(c),
    ensures
        is_ascii_char(lower_char(c)),
        lower_char(lower_char(c)) == lower_char(c),
        is_space(lower_char(c)) == is_space(c),
        (lower_char(c) == ',') == (c == ','),
        (lower_char(c) == '=') == (c == '='),
{
}

/// Lowercase of ASCII text works character by character.
pub proof fn lemma_lowercase_ascii(s: Seq<char>)
    requires
        is_ascii_text(s),
    ensures
        lowercase(s) == ascii_lowercase(s),
        lowercase(s).len() == s.len(),
        forall|i: int| 0 <= i < s.len() ==> #[trigger] lowercase(s)[i] == lower_char(s[i]),
        is_ascii_text(lowercase(s)),
        lowercase(lowercase(s)) == lowercase(s),
{
    let l = ascii_lowercase(s);
    assert forall|i: int| 0 <= i < l.len() implies is_ascii_char(#[trigger] l[i]) by {
        lemma_lower_char(s[i]);
    }
    assert(ascii_lowercase(l) =~= l) by {
        assert forall|i: int| 0 <= i < l.len() implies lower_char(l[i]) == l[i] by {
            lemma_lower_char(s[i]);
        }
    }
}

/// Trimming cuts a piece out of the text, with no whitespace at either end
/// of the piece.
pub proof fn lemma_trimmed(s: Seq<char>)
    ensures
        leading_spaces(s) + trailing_spaces(trim_start(s)) <= s.len(),
        trimmed(s) == s.subrange(
            leading_spaces(s) as int,
            s.len() - trailing_spaces(trim_start(s)),
        ),
        trimmed(s).len() > 0 ==> !is_space(trimmed(s)[0]) && !is_space(trimmed(s).last()),
{
    lemma_leading_spaces(s);
    let rest = trim_start(s);
    lemma_trailing_spaces(rest);
    let a = leading_spaces(s) as int;
    let b = s.len() - trailing_spaces(rest);
    assert(trimmed(s) =~= s.subrange(a, b));
    if trimmed(s).len() > 0 {
        assert(trailing_spaces(rest) < rest.len());
        assert(trimmed(s).last() == rest[rest.len() - trailing_spaces(rest) - 1]);
        assert(trimmed(s)[0] == s[a]);
    }
}

/// Text without whitespace at either end is its own trimmed form.
pub proof fn lemma_trim_fixed(s: Seq<char>)
    requires
        s.len() > 0 ==> !is_space(s[0]) && !is_space(s.last()),
    ensures
        trimmed(s) == s,
{
    lemma_leading_spaces_unique(s, 0);
    assert(trim_start(s) =~= s);
    lemma_trailing_spaces_unique(s, 0);
    assert(trimmed(s) =~= s);
}

/// The lowercase form of trimmed ASCII text is trimmed.
pub proof fn lemma_trim_lowercase(s: Seq<char>)
    requires
        is_ascii_text(s),
        s.len() > 0 ==> !is_space(s[0]) && !is_space(s.last()),
    ensures
        trimmed(lowercase(s)) == lowercase(s),
{
    lemma_lowercase_ascii(s);
    if s.len() > 0 {
        lemma_lower_char(s[0]);
        lemma_lower_char(s.last());
        assert(lowercase(s)[0] == lower_char(s[0]));
        assert(lowercase(s).last() == lower_char(s[s.len() - 1]));
    }
    lemma_trim_fixed(lowercase(s));
}

/// Whether `c` does not occur in `s`.
pub open spec fn free_of(s: Seq<char>, c: char) -> bool {
    forall|i: int| 0 <= i < s.len() ==> #[trigger] s[i] != c
}

/// No piece of a split holds the separator, and a split of ASCII text has
/// ASCII pieces.
pub proof fn lemma_split_pieces(s: Seq<char>, sep: char)
    ensures
        forall|i: int| 0 <= i < split(s, sep).len() ==> free_of(#[trigger] split(s, sep)[i], sep),
        is_ascii_text(s) ==> forall|i: int|
            0 <= i < split(s, sep).len() ==> is_ascii_text(#[trigger] split(s, sep)[i]),
    decreases s.len(),
{
    if s.len() > 0 {
        let head = split(s.drop_last(), sep);
        lemma_split_pieces(s.drop_last(), sep);
        lemma_split_nonempty(s.drop_last(), sep);
        let now = split(s, sep);
        assert forall|i: int| 0 <= i < now.len() implies free_of(#[trigger] now[i], sep) by {
            if s.last() == sep {
                if i < head.len() {
                    assert(now[i] == head[i]);
                }
            } else {
                if i < head.len() - 1 {
                    assert(now[i] == head[i]);
                } else {
                    assert(free_of(head[head.len() - 1], sep));
                    assert(now[i] == head.last().push(s.last()));
                }
            }
        }
        if is_ascii_text(s) {
            assert(is_ascii_text(s.drop_last()));
            assert forall|i: int| 0 <= i < now.len() implies is_ascii_text(#[trigger] now[i]) by {
                if s.last() == sep {
                    if i < head.len() {
                        assert(now[i] == head[i]);
                    }
                } else {
                    if i < head.len() - 1 {
                        assert(now[i] == head[i]);
                    } else {
                        assert(is_ascii_text(head[head.len() - 1]));
                        assert(now[i] == head.last().push(s.last()));
                        assert(is_ascii_char(s[s.len() - 1]));
                    }
                }
            }
        }
    }
}

/// The same of a split that leaves out an empty last piece.
pub proof fn lemma_split_terminator_pieces(s: Seq<char>, sep: char)
    ensures
        forall|i: int|
            0 <= i < split_terminator(s, sep).len() ==> free_of(
                #[trigger] split_terminator(s, sep)[i],
                sep,
            ),
        is_ascii_text(s) ==> forall|i: int|
            0 <= i < split_terminator(s, sep).len() ==> is_ascii_text(
                #[trigger] split_terminator(s, sep)[i],
            ),
{
    lemma_split_pieces(s, sep);
    lemma_split_nonempty(s, sep);
    let all = split(s, sep);
    let kept = split_terminator(s, sep);
    assert forall|i: int| 0 <= i < kept.len() implies #[trigger] kept[i] == all[i] by {}
}

/// Text without the separator, written after other text, lengthens the
/// last piece of that text's split.
pub proof fn lemma_split_append(s: Seq<char>, p: Seq<char>, sep: char)
    requires
        free_of(p, sep),
    ensures
        split(s + p, sep) == split(s, sep).drop_last().push(split(s, sep).last() + p),
    decreases p.len(),
{
    lemma_split_nonempty(s, sep);
    let pieces = split(s, sep);
    if p.len() == 0 {
        assert(s + p =~= s);
        assert(pieces.last() + p =~= pieces.last());
        assert(pieces.drop_last().push(pieces.last()) =~= pieces);
    } else {
        let q = p.drop_last();
        assert(free_of(q, sep)) by {
            assert forall|i: int| 0 <= i < q.len() implies #[trigger] q[i] != sep by {
                assert(q[i] == p[i]);
            }
        }
        lemma_split_append(s, q, sep);
        assert((s + p).drop_last() =~= s + q);
        assert((s + p).last() == p[p.len() - 1]);
        let before = split(s + q, sep);
        assert(before.drop_last() =~= pieces.drop_last());
        assert(before.last().push(p.last()) =~= pieces.last() + p);
    }
}

/// Splitting what was joined gives the parts back, when there is a part
/// and no part holds the separator.
pub proof fn lemma_split_join(parts: Seq<Seq<char>>, sep: char)
    requires
        parts.len() > 0,
        forall|i: int| 0 <= i < parts.len() ==> free_of(#[trigger] parts[i], sep),
    ensures
        split(join(parts, sep), sep) == parts,
    decreases parts.len(),
{
    let last = parts.last();
    assert(free_of(parts[parts.len() - 1], sep));
    if parts.len() == 1 {
        let nothing = Seq::<char>::empty();
        lemma_split_append(nothing, last, sep);
        assert(nothing + last =~= last);
        assert(split(nothing, sep) =~= seq![nothing]);
        assert(split(last, sep) =~= parts);
    } else {
        let head = parts.drop_last();
        assert forall|i: int| 0 <= i < head.len() implies free_of(#[trigger] head[i], sep) by {
            assert(head[i] == parts[i]);
        }
        lemma_split_join(head, sep);
        let front = join(head, sep).push(sep);
        assert(front.drop_last() =~= join(head, sep));
        assert(split(front, sep) == head.push(Seq::<char>::empty()));
        lemma_split_append(front, last, sep);
        assert(Seq::<char>::empty() + last =~= last);
        assert(head.push(Seq::<char>::empty()).drop_last() =~= head);
        assert(head.push(last) =~= parts);
    }
}

/// The same of a split that leaves out an empty last piece: it gives the
/// parts back unless the last part is empty, and then all but that one.
pub proof fn lemma_split_terminator_join(parts: Seq<Seq<char>>, sep: char)
    requires
        forall|i: int| 0 <= i < parts.len() ==> free_of(#[trigger] parts[i], sep),
    ensures
        split_terminator(join(parts, sep), sep) == if parts.len() > 0 && parts.last().len() == 0 {
            parts.drop_last()
        } else {
            parts
        },
{
    if parts.len() == 0 {
        assert(split(Seq::<char>::empty(), sep) =~= seq![Seq::<char>::empty()]);
        assert(split_terminator(join(parts, sep), sep) =~= parts);
    } else {
        lemma_split_join(parts, sep);
    }
}

/// Sorting keeps the texts: the sorted sequence has the same length and the
/// same members. A sequence that is in order already is its own sorted form.
pub proof fn lemma_sorted_texts(s: Seq<Seq<char>>)
    ensures
        sorted_by(sorted_texts(s), text_order()),
        sorted_texts(s).len() == s.len(),
        sorted_texts(s).to_multiset() == s.to_multiset(),
        forall|t: Seq<char>| s.contains(t) <==> sorted_texts(s).contains(t),
        sorted_by(s, text_order()) ==> sorted_texts(s) == s,
{
    lemma_text_order_total();
    s.lemma_sort_by_ensures(text_order());
    s.to_multiset_ensures();
    sorted_texts(s).to_multiset_ensures();
    assert forall|t: Seq<char>| s.contains(t) <==> sorted_texts(s).contains(t) by {
        assert(s.contains(t) <==> s.to_multiset().count(t) > 0);
        assert(sorted_texts(s).contains(t) <==> sorted_texts(s).to_multiset().count(t) > 0);
    }
    if sorted_by(s, text_order()) {
        lemma_sorted_unique(sorted_texts(s), s, text_order());
    }
}

} // verus!
