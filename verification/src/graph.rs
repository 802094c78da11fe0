//! The combined graph of several habits: which histories are drawn together, and the
//! heatmap that results.

use crate::calendar::{day_in_range, Date};
use crate::habit::{find_habit, is_named, position_of, views, Habit, HabitView};
use crate::heatmap::{marks, plot, Cell};
use crate::history::{days_of, parse_history, well_dated};
use crate::lexical::texts;
use vstd::prelude::*;

verus! {

/// The test that some habit of the list bears a name.
pub open spec fn named_in(store: Seq<HabitView>) -> spec_fn(Seq<char>) -> bool {
    |name: Seq<char>| is_named(store, name)
}

/// How many of `names` select a habit. A name that occurs twice counts twice.
pub open spec fn selected_count(store: Seq<HabitView>, names: Seq<Seq<char>>) -> int {
    names.filter(named_in(store)).len() as int
}

/// The histories of the selected habits, one after the other in the order of `names`. A
/// name that no habit bears adds nothing.
pub open spec fn selected_entries(store: Seq<HabitView>, names: Seq<Seq<char>>) -> Seq<Seq<char>>
    decreases names.len(),
{
    if names.len() == 0 {
        Seq::empty()
    } else if is_named(store, names.last()) {
        selected_entries(store, names.drop_last()) + store[position_of(store, names.last())].history
    } else {
        selected_entries(store, names.drop_last())
    }
}

/// Merges the histories of the habits that `names` select, and counts those habits.
pub fn select_histories(habits: &Vec<Habit>, names: &Vec<String>) -> (picked: (
    Vec<String>,
    usize,
))
    ensures
        texts(picked.0@) == selected_entries(views(habits@), texts(names@)),
        picked.1 as int == selected_count(views(habits@), texts(names@)),
{
    let ghost store = views(habits@);
    let ghost wanted = texts(names@);
    let mut merged: Vec<String> = Vec::new();
    let mut count: usize = 0;
    let mut i: usize = 0;
    proof {
        reveal(Seq::filter);
        assert(wanted.take(0) =~= Seq::<Seq<char>>::empty());
        assert(texts(merged@) =~= selected_entries(store, wanted.take(0)));
    }
    while i < names.len()
        invariant
            i <= names.len(),
            store == views(habits@),
            wanted == texts(names@),
            count <= i,
            texts(merged@) == selected_entries(store, wanted.take(i as int)),
            count as int == selected_count(store, wanted.take(i as int)),
        decreases names.len() - i,
    {
        proof {
            assert(wanted.take(i + 1).drop_last() =~= wanted.take(i as int));
            assert(wanted.take(i + 1) =~= wanted.take(i as int).push(wanted[i as int]));
            wanted.take(i as int).lemma_filter_push(wanted[i as int], named_in(store));
            assert(wanted[i as int] == names@[i as int]@);
        }
        match find_habit(habits, names[i].as_str()) {
            Some(index) => {
                let history = &habits[index].history;
                assert(texts(history@) == store[index as int].history);
                let ghost before = texts(merged@);
                let mut k: usize = 0;
                assert(texts(merged@) =~= before + texts(history@).take(0));
                while k < history.len()
                    invariant
                        k <= history.len(),
                        texts(merged@) == before + texts(history@).take(k as int),
                    decreases history.len() - k,
                {
                    let ghost sofar = texts(merged@);
                    merged.push(history[k].clone());
                    assert(texts(merged@) =~= sofar.push(history@[k as int]@));
                    assert(texts(history@).take(k + 1) =~= texts(history@).take(k as int).push(
                        history@[k as int]@,
                    ));
                    assert(texts(merged@) =~= before + texts(history@).take(k + 1));
                    k += 1;
                }
                assert(texts(history@).take(k as int) =~= texts(history@));
                count += 1;
            },
            None => {},
        }
        i += 1;
    }
    assert(wanted.take(i as int) =~= wanted);
    (merged, count)
}

/// Lays out the combined heatmap of the habits that `names` select, for the date `today` on
/// a terminal `width` characters wide. The cell of a day is as bright as the share of the
/// selected habits that hold the day. `None` comes back exactly where an entry of a
/// selected habit is not a date that the calendar accepts.
pub fn graph_on(
    habits: &Vec<Habit>,
    names: &Vec<String>,
    today: &Date,
    width: u16,
) -> (cells: Option<Vec<Cell>>)
    ensures
        cells is Some <==> well_dated(selected_entries(views(habits@), texts(names@))),
        cells matches Some(list) ==> list@ == marks(
            days_of(selected_entries(views(habits@), texts(names@))),
            selected_count(views(habits@), texts(names@)),
            today@.day,
            width as int,
        ),
{
    let (merged, total) = select_histories(habits, names);
    match parse_history(&merged) {
        Some(days) => Some(plot(&days, total, today, width)),
        None => None,
    }
}

/// Lays out the combined heatmap of the habits that `names` select, for the date that the
/// system clock shows.
pub fn graph(habits: &Vec<Habit>, names: &Vec<String>, width: u16) -> (cells: Option<Vec<Cell>>)
    ensures
        cells is Some <==> well_dated(selected_entries(views(habits@), texts(names@))),
        cells matches Some(list) ==> exists|today: int|
            day_in_range(today) && list@ == #[trigger] marks(
                days_of(selected_entries(views(habits@), texts(names@))),
                selected_count(views(habits@), texts(names@)),
                today,
                width as int,
            ),
{
    let today = Date::today();
    graph_on(habits, names, &today, width)
}

} // verus!
