//! A habit's history: the date texts on which it was completed.

use crate::calendar::{parse_day, parsed_day};
use crate::dateset::{date_set, day_values, lemma_date_set_exists, DateSet};
use crate::lexical::{
    lemma_ordered_distinct_unique, lemma_sorted_texts_is, lemma_text_order_total, sort_history,
    sorted_texts, text_order, texts,
};
use crate::streak::{lemma_streak_of_same_days, streak_length};
use vstd::hash_set::StringHashSet;
use vstd::prelude::*;

verus! {

/// `entries` without repetitions: an entry stays where no equal entry stands before it.
pub open spec fn first_occurrences(entries: Seq<Seq<char>>) -> Seq<Seq<char>>
    decreases entries.len(),
{
    if entries.len() == 0 {
        entries
    } else if entries.drop_last().contains(entries.last()) {
        first_occurrences(entries.drop_last())
    } else {
        first_occurrences(entries.drop_last()).push(entries.last())
    }
}

/// The normal form of a history: each entry once, in ascending order.
pub open spec fn normalized(entries: Seq<Seq<char>>) -> Seq<Seq<char>> {
    sorted_texts(first_occurrences(entries))
}

/// Every entry of the history is a date text that the calendar accepts.
pub open spec fn well_dated(entries: Seq<Seq<char>>) -> bool {
    forall|i: int| 0 <= i < entries.len() ==> parsed_day(#[trigger] entries[i]) is Some
}

/// The days that the entries of a well-dated history denote, entry by entry.
pub open spec fn days_of(entries: Seq<Seq<char>>) -> Seq<int> {
    entries.map_values(|text: Seq<char>| parsed_day(text).unwrap() as int)
}

/// The streak of a well-dated history on the day `today`: the number of days in a row,
/// ending with `today`, that its entries denote.
pub open spec fn history_streak(entries: Seq<Seq<char>>, today: int) -> int {
    streak_length(date_set(days_of(entries)), today)
}

/// Dropping repetitions neither adds an entry nor loses one.
pub proof fn lemma_first_occurrences_members(entries: Seq<Seq<char>>)
    ensures
        forall|text: Seq<char>|
            first_occurrences(entries).contains(text) <==> entries.contains(text),
    decreases entries.len(),
{
    if entries.len() > 0 {
        let earlier = entries.drop_last();
        let last = entries.last();
        lemma_first_occurrences_members(earlier);
        let kept = first_occurrences(earlier);
        assert forall|text: Seq<char>|
            first_occurrences(entries).contains(text) <==> entries.contains(text) by {
            if entries.contains(text) {
                let i = choose|i: int| 0 <= i < entries.len() && entries[i] == text;
                if i < earlier.len() {
                    assert(earlier[i] == text);
                    assert(earlier.contains(text));
                }
            }
            if earlier.contains(text) {
                let i = choose|i: int| 0 <= i < earlier.len() && earlier[i] == text;
                assert(entries[i] == text);
            }
            assert(entries[entries.len() - 1] == last);
            if !earlier.contains(last) {
                let out = kept.push(last);
                assert(out[out.len() - 1] == last);
                if kept.contains(text) {
                    let i = choose|i: int| 0 <= i < kept.len() && kept[i] == text;
                    assert(out[i] == text);
                }
                if out.contains(text) {
                    let i = choose|i: int| 0 <= i < out.len() && out[i] == text;
                    if i < kept.len() {
                        assert(kept[i] == text);
                    }
                }
            }
        }
    }
}

/// What is left holds no entry twice.
pub proof fn lemma_first_occurrences_distinct(entries: Seq<Seq<char>>)
    ensures
        first_occurrences(entries).no_duplicates(),
    decreases entries.len(),
{
    if entries.len() > 0 {
        lemma_first_occurrences_distinct(entries.drop_last());
        lemma_first_occurrences_members(entries.drop_last());
    }
}

/// A history that holds no entry twice is left as it is.
pub proof fn lemma_first_occurrences_of_distinct(entries: Seq<Seq<char>>)
    requires
        entries.no_duplicates(),
    ensures
        first_occurrences(entries) == entries,
    decreases entries.len(),
{
    if entries.len() > 0 {
        let earlier = entries.drop_last();
        lemma_first_occurrences_of_distinct(earlier);
        if earlier.contains(entries.last()) {
            let i = choose|i: int| 0 <= i < earlier.len() && earlier[i] == entries.last();
            assert(entries[i] == entries[entries.len() - 1]);
        }
        assert(earlier.push(entries.last()) =~= entries);
    }
}

/// A normalized history holds no entry twice and is in ascending order.
pub proof fn lemma_normalized_is_ordered_and_distinct(entries: Seq<Seq<char>>)
    ensures
        normalized(entries).no_duplicates(),
        vstd::relations::sorted_by(normalized(entries), text_order()),
        forall|text: Seq<char>| normalized(entries).contains(text) <==> entries.contains(text),
{
    broadcast use vstd::seq_lib::group_to_multiset_ensures;

    let kept = first_occurrences(entries);
    lemma_first_occurrences_distinct(entries);
    lemma_first_occurrences_members(entries);
    lemma_text_order_total();
    kept.lemma_sort_by_ensures(text_order());
    kept.lemma_multiset_has_no_duplicates();
    normalized(entries).lemma_multiset_has_no_duplicates_conv();
    assert forall|text: Seq<char>| normalized(entries).contains(text) <==> entries.contains(
        text,
    ) by {
        assert(normalized(entries).contains(text) <==> normalized(entries).to_multiset().count(
            text,
        ) > 0);
        assert(kept.contains(text) <==> kept.to_multiset().count(text) > 0);
    }
}

/// The normal form is the one ascending sequence without repetitions that holds the entries
/// of the history.
pub proof fn lemma_normalized_is(ordered: Seq<Seq<char>>, entries: Seq<Seq<char>>)
    requires
        vstd::relations::sorted_by(ordered, text_order()),
        ordered.no_duplicates(),
        forall|text: Seq<char>| ordered.contains(text) <==> entries.contains(text),
    ensures
        ordered == normalized(entries),
{
    lemma_normalized_is_ordered_and_distinct(entries);
    lemma_ordered_distinct_unique(ordered, normalized(entries));
}

/// The days of a history are the days that its entries denote.
pub proof fn lemma_days_of_members(entries: Seq<Seq<char>>, day: int)
    requires
        well_dated(entries),
    ensures
        days_of(entries).contains(day) <==> exists|text: Seq<char>|
            entries.contains(text) && parsed_day(text).unwrap() as int == day,
{
    let days = days_of(entries);
    if days.contains(day) {
        let i = choose|i: int| 0 <= i < days.len() && days[i] == day;
        assert(entries.contains(entries[i]));
    }
    if exists|text: Seq<char>| entries.contains(text) && parsed_day(text).unwrap() as int == day {
        let text = choose|text: Seq<char>|
            entries.contains(text) && parsed_day(text).unwrap() as int == day;
        let i = choose|i: int| 0 <= i < entries.len() && entries[i] == text;
        assert(days[i] == day);
    }
}

/// Two histories with the same entries have the same streak, in whatever order the entries
/// stand and however often.
pub proof fn lemma_streak_of_same_entries(a: Seq<Seq<char>>, b: Seq<Seq<char>>, today: int)
    requires
        well_dated(a),
        forall|text: Seq<char>| a.contains(text) <==> b.contains(text),
    ensures
        well_dated(b),
        history_streak(a, today) == history_streak(b, today),
{
    assert forall|i: int| 0 <= i < b.len() implies parsed_day(#[trigger] b[i]) is Some by {
        assert(b.contains(b[i]));
        let k = choose|k: int| 0 <= k < a.len() && a[k] == b[i];
        assert(parsed_day(a[k]) is Some);
    }
    lemma_date_set_exists(days_of(a));
    lemma_date_set_exists(days_of(b));
    assert forall|d: int|
        date_set(days_of(a)).contains(d) <==> date_set(days_of(b)).contains(d) by {
        lemma_days_of_members(a, d);
        lemma_days_of_members(b, d);
        if days_of(a).contains(d) {
            let text = choose|text: Seq<char>|
                a.contains(text) && parsed_day(text).unwrap() as int == d;
            assert(b.contains(text));
        }
        if days_of(b).contains(d) {
            let text = choose|text: Seq<char>|
                b.contains(text) && parsed_day(text).unwrap() as int == d;
            assert(a.contains(text));
        }
    }
    lemma_streak_of_same_days(date_set(days_of(a)), date_set(days_of(b)), today);
}

/// Normalizing a history keeps it well dated and does not change its streak.
pub proof fn lemma_normalized_keeps_streak(entries: Seq<Seq<char>>, today: int)
    requires
        well_dated(entries),
    ensures
        well_dated(normalized(entries)),
        history_streak(normalized(entries), today) == history_streak(entries, today),
{
    lemma_normalized_is_ordered_and_distinct(entries);
    lemma_streak_of_same_entries(entries, normalized(entries), today);
}

/// Normalizing a history a second time changes nothing.
pub proof fn lemma_normalizing_twice(entries: Seq<Seq<char>>)
    ensures
        normalized(normalized(entries)) == normalized(entries),
{
    let once = normalized(entries);
    lemma_normalized_is_ordered_and_distinct(entries);
    lemma_first_occurrences_of_distinct(once);
    lemma_sorted_texts_is(once, once);
}

/// Whether `list` holds an entry with the text of `entry`.
pub(crate) fn holds_text(list: &Vec<String>, entry: &String) -> (found: bool)
    ensures
        found == texts(list@).contains(entry@),
{
    let mut i: usize = 0;
    while i < list.len()
        invariant
            i <= list.len(),
            forall|k: int| 0 <= k < i ==> texts(list@)[k] != entry@,
        decreases list.len() - i,
    {
        if list[i] == *entry {
            assert(texts(list@)[i as int] == entry@);
            return true;
        }
        i += 1;
    }
    false
}

/// Drops every entry that repeats an earlier one; what stays keeps its order.
fn drop_repetitions(vec: &mut Vec<String>)
    ensures
        texts(final(vec)@) == first_occurrences(texts(old(vec)@)),
{
    let ghost all = texts(vec@);
    let mut seen = StringHashSet::new();
    let mut kept: Vec<String> = Vec::new();
    assert(texts(kept@) =~= first_occurrences(all.take(0)));
    let mut i: usize = 0;
    while i < vec.len()
        invariant
            i <= vec.len(),
            texts(vec@) == all,
            texts(kept@) == first_occurrences(all.take(i as int)),
            forall|text: Seq<char>| seen@.contains(text) <==> all.take(i as int).contains(text),
        decreases vec.len() - i,
    {
        let ghost before = texts(kept@);
        let ghost earlier = all.take(i as int);
        let ghost entry = vec@[i as int]@;
        proof {
            assert(all.take(i + 1).drop_last() =~= earlier);
            assert(all.take(i + 1).last() == entry);
        }
        if seen.insert(vec[i].clone()) {
            kept.push(vec[i].clone());
            assert(texts(kept@) =~= before.push(entry));
        }
        proof {
            let next = all.take(i + 1);
            assert(next =~= earlier.push(entry));
            assert forall|text: Seq<char>| seen@.contains(text) <==> next.contains(text) by {
                assert(next[i as int] == entry);
                if earlier.contains(text) {
                    let k = choose|k: int| 0 <= k < earlier.len() && earlier[k] == text;
                    assert(next[k] == text);
                }
                if next.contains(text) {
                    let k = choose|k: int| 0 <= k < next.len() && next[k] == text;
                    if k < i {
                        assert(earlier[k] == text);
                    }
                }
            }
        }
        i += 1;
    }
    assert(all.take(i as int) =~= all);
    *vec = kept;
}

/// Brings a history into its normal form: each entry once, in ascending order. For texts of
/// the fixed form `YYYY-MM-DD` that is the order of the days they denote.
pub fn unique_preserve_order(vec: &mut Vec<String>)
    ensures
        texts(final(vec)@) == normalized(texts(old(vec)@)),
{
    drop_repetitions(vec);
    sort_history(vec);
}

/// Reads the day of every entry. `None` comes back exactly where an entry is not a date
/// text that the calendar accepts.
pub fn parse_history(history: &Vec<String>) -> (days: Option<Vec<i32>>)
    ensures
        days is Some <==> well_dated(texts(history@)),
        days matches Some(v) ==> day_values(v@) == days_of(texts(history@)),
{
    let mut days: Vec<i32> = Vec::new();
    let mut i: usize = 0;
    while i < history.len()
        invariant
            i <= history.len(),
            days@.len() == i,
            forall|k: int|
                0 <= k < i ==> parsed_day(#[trigger] texts(history@)[k]) == Some(days@[k]),
        decreases history.len() - i,
    {
        match parse_day(history[i].as_str()) {
            Some(day) => {
                days.push(day);
            },
            None => {
                assert(parsed_day(texts(history@)[i as int]) is None);
                return None;
            },
        }
        i += 1;
    }
    assert(day_values(days@) =~= days_of(texts(history@)));
    Some(days)
}

/// Reads a history into its date set: the distinct days that its entries denote, earliest
/// first. `None` comes back exactly where an entry is not a date text that the calendar
/// accepts.
pub fn history_days(history: &Vec<String>) -> (set: Option<DateSet>)
    ensures
        set is Some <==> well_dated(texts(history@)),
        set matches Some(days) ==> days@ == date_set(days_of(texts(history@))),
{
    match parse_history(history) {
        Some(days) => Some(DateSet::from_days(&days)),
        None => None,
    }
}

} // verus!
