//! The order in which date texts are kept: the order of `String`, character by character.

use vstd::prelude::*;
use vstd::relations::{sorted_by, total_ordering};
use vstd::seq_lib::lemma_sorted_unique;

verus! {

/// The texts that a list of strings holds.
pub open spec fn texts(entries: Seq<String>) -> Seq<Seq<char>> {
    entries.map_values(|s: String| s@)
}

/// `a` comes before `b` or equals it: at the first place where the two differ, `a` has the
/// smaller code point, or `a` ends there.
pub open spec fn text_le(a: Seq<char>, b: Seq<char>) -> bool
    decreases a.len(),
{
    if a.len() == 0 {
        true
    } else if b.len() == 0 {
        false
    } else if a[0] == b[0] {
        text_le(a.drop_first(), b.drop_first())
    } else {
        (a[0] as u32) < (b[0] as u32)
    }
}

/// [`text_le`] as a relation.
pub open spec fn text_order() -> spec_fn(Seq<char>, Seq<char>) -> bool {
    |a: Seq<char>, b: Seq<char>| text_le(a, b)
}

/// `entries` in ascending order.
pub open spec fn sorted_texts(entries: Seq<Seq<char>>) -> Seq<Seq<char>> {
    entries.sort_by(text_order())
}

proof fn lemma_text_le_reflexive(a: Seq<char>)
    ensures
        text_le(a, a),
    decreases a.len(),
{
    if a.len() > 0 {
        lemma_text_le_reflexive(a.drop_first());
    }
}

proof fn lemma_text_le_antisymmetric(a: Seq<char>, b: Seq<char>)
    requires
        text_le(a, b),
        text_le(b, a),
    ensures
        a == b,
    decreases a.len(),
{
    if a.len() == 0 || b.len() == 0 {
        assert(a =~= b);
    } else {
        lemma_text_le_antisymmetric(a.drop_first(), b.drop_first());
        assert(a =~= seq![a[0]] + a.drop_first());
        assert(b =~= seq![b[0]] + b.drop_first());
    }
}

proof fn lemma_text_le_transitive(a: Seq<char>, b: Seq<char>, c: Seq<char>)
    requires
        text_le(a, b),
        text_le(b, c),
    ensures
        text_le(a, c),
    decreases a.len(),
{
    if a.len() > 0 && b.len() > 0 && c.len() > 0 {
        if a[0] == b[0] && b[0] == c[0] {
            lemma_text_le_transitive(a.drop_first(), b.drop_first(), c.drop_first());
        }
    }
}

proof fn lemma_text_le_connected(a: Seq<char>, b: Seq<char>)
    ensures
        text_le(a, b) || text_le(b, a),
    decreases a.len(),
{
    if a.len() > 0 && b.len() > 0 {
        if a[0] == b[0] {
            lemma_text_le_connected(a.drop_first(), b.drop_first());
        } else {
            vstd::utf8::char_u32_cast(a[0], a[0] as u32);
            vstd::utf8::char_u32_cast(b[0], b[0] as u32);
        }
    }
}

/// The order of texts is a total order.
pub proof fn lemma_text_order_total()
    ensures
        total_ordering(text_order()),
{
    let r = text_order();
    assert forall|x: Seq<char>| #[trigger] r(x, x) by {
        lemma_text_le_reflexive(x);
    }
    assert forall|x: Seq<char>, y: Seq<char>| #[trigger] r(x, y) && #[trigger] r(y, x) implies x
        == y by {
        lemma_text_le_antisymmetric(x, y);
    }
    assert forall|x: Seq<char>, y: Seq<char>, z: Seq<char>| #[trigger]
        r(x, y) && #[trigger] r(y, z) implies r(x, z) by {
        lemma_text_le_transitive(x, y, z);
    }
    assert forall|x: Seq<char>, y: Seq<char>| #[trigger] r(x, y) || #[trigger] r(y, x) by {
        lemma_text_le_connected(x, y);
    }
}

/// An ordered rearrangement of `entries` is `sorted_texts(entries)`: there is only one.
pub proof fn lemma_sorted_texts_is(sorted: Seq<Seq<char>>, entries: Seq<Seq<char>>)
    requires
        sorted_by(sorted, text_order()),
        sorted.to_multiset() == entries.to_multiset(),
    ensures
        sorted == sorted_texts(entries),
{
    lemma_text_order_total();
    entries.lemma_sort_by_ensures(text_order());
    lemma_sorted_unique(sorted, sorted_texts(entries), text_order());
}

/// Sorting neither adds an entry nor loses one.
pub proof fn lemma_sorted_texts_members(entries: Seq<Seq<char>>)
    ensures
        forall|text: Seq<char>| sorted_texts(entries).contains(text) <==> entries.contains(text),
        sorted_by(sorted_texts(entries), text_order()),
        sorted_texts(entries).to_multiset() == entries.to_multiset(),
{
    lemma_text_order_total();
    entries.lemma_sort_by_ensures(text_order());
    entries.to_multiset_ensures();
    sorted_texts(entries).to_multiset_ensures();
    assert forall|text: Seq<char>| sorted_texts(entries).contains(text) <==> entries.contains(
        text,
    ) by {
        assert(entries.contains(text) <==> entries.to_multiset().count(text) > 0);
        assert(sorted_texts(entries).contains(text) <==> sorted_texts(entries).to_multiset().count(
            text,
        ) > 0);
    }
}

/// There is one ascending sequence without repetitions that holds given entries.
pub proof fn lemma_ordered_distinct_unique(a: Seq<Seq<char>>, b: Seq<Seq<char>>)
    requires
        sorted_by(a, text_order()),
        sorted_by(b, text_order()),
        a.no_duplicates(),
        b.no_duplicates(),
        forall|text: Seq<char>| a.contains(text) <==> b.contains(text),
    ensures
        a == b,
{
    lemma_text_order_total();
    a.lemma_multiset_has_no_duplicates();
    b.lemma_multiset_has_no_duplicates();
    a.to_multiset_ensures();
    b.to_multiset_ensures();
    assert forall|text: Seq<char>| a.to_multiset().count(text) == b.to_multiset().count(text) by {
        assert(a.contains(text) <==> b.contains(text));
    }
    assert(a.to_multiset() =~= b.to_multiset());
    lemma_sorted_unique(a, b, text_order());
}

/// Calls `sort` of the standard library on a vector of strings.
///
/// Trusted: afterwards the vector holds the strings it held before, in ascending order.
/// The standard library orders strings by their bytes, which for UTF-8 is the order of
/// their code points, place by place.
#[verifier::external_body]
fn sort_strings(entries: &mut Vec<String>)
    ensures
        sorted_by(texts(final(entries)@), text_order()),
        texts(final(entries)@).to_multiset() == texts(old(entries)@).to_multiset(),
{
    entries.sort();
}

/// Sorts date texts in ascending order. For texts of the fixed form `YYYY-MM-DD` this is the
/// order of the days they denote.
pub fn sort_history(entries: &mut Vec<String>)
    ensures
        texts(final(entries)@) == sorted_texts(texts(old(entries)@)),
{
    sort_strings(entries);
    proof {
        lemma_sorted_texts_is(texts(entries@), texts(old(entries)@));
    }
}

} // verus!
