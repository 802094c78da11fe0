//! The commands that change a list of habits: marking and unmarking days, and recomputing
//! the streaks.

use crate::calendar::{day_in_range, parse_day, parsed_day, Date, DateView};
use crate::dateset::{date_set, lemma_date_set_exists};
use crate::habit::{
    find_habit, is_first_named, is_named, lemma_first_named_exists, lemma_first_named_is,
    position_of, views, Habit, HabitView,
};
use crate::history::{
    days_of, history_days, history_streak, holds_text, lemma_days_of_members,
    lemma_normalized_is_ordered_and_distinct, lemma_normalized_keeps_streak,
    lemma_normalizing_twice, lemma_streak_of_same_entries, normalized, parse_history,
    unique_preserve_order, well_dated,
};
use crate::lexical::{
    lemma_ordered_distinct_unique, lemma_sorted_texts_members, sort_history, sorted_texts,
    text_order, texts,
};
use crate::streak::{current_streak, lemma_marking_today_adds_one, lemma_streak_of_same_days};
use vstd::prelude::*;

verus! {

/// How a command on one habit ended.
#[derive(Clone, Copy, Debug, PartialEq, Eq, Structural)]
pub enum Outcome {
    /// The habit was found and changed as the command says.
    Done,
    /// No habit bears the name. Nothing was changed.
    NotFound,
    /// The latest entry of the habit is not a date that the calendar accepts, so it cannot
    /// be told whether today is marked already. Nothing was changed.
    MalformedDate,
}

/// The habit with another history.
pub open spec fn with_history(habit: HabitView, history: Seq<Seq<char>>) -> HabitView {
    HabitView { name: habit.name, streak: habit.streak, history }
}

/// The history has a latest entry, and the calendar rejects it.
pub open spec fn latest_is_malformed(history: Seq<Seq<char>>) -> bool {
    history.len() > 0 && parsed_day(history.last()) is None
}

/// The latest entry of the history denotes `day`.
pub open spec fn latest_is(history: Seq<Seq<char>>, day: int) -> bool {
    history.len() > 0 && parsed_day(history.last()) == Some(day as i32)
}

/// A history after marking. With dates given, they are added as they are. With none, today
/// is added unless the latest entry denotes today already. Either way the history is sorted.
pub open spec fn marked_history(
    history: Seq<Seq<char>>,
    dates: Seq<Seq<char>>,
    today: DateView,
) -> Seq<Seq<char>> {
    if dates.len() > 0 {
        sorted_texts(history + dates)
    } else if latest_is(history, today.day) {
        sorted_texts(history)
    } else {
        sorted_texts(history.push(today.text))
    }
}

/// How marking ends: it needs the habit, and to mark today it needs to read the latest entry.
pub open spec fn mark_outcome(
    store: Seq<HabitView>,
    name: Seq<char>,
    dates: Seq<Seq<char>>,
) -> Outcome {
    if !is_named(store, name) {
        Outcome::NotFound
    } else if dates.len() == 0 && latest_is_malformed(store[position_of(store, name)].history) {
        Outcome::MalformedDate
    } else {
        Outcome::Done
    }
}

/// The list after marking: the first habit of that name gets the marked history, and the
/// streaks stay as they are until they are recomputed.
pub open spec fn marked(
    store: Seq<HabitView>,
    name: Seq<char>,
    dates: Seq<Seq<char>>,
    today: DateView,
) -> Seq<HabitView> {
    if mark_outcome(store, name, dates) == Outcome::Done {
        let index = position_of(store, name);
        store.update(
            index,
            with_history(store[index], marked_history(store[index].history, dates, today)),
        )
    } else {
        store
    }
}

/// The test that an entry stays when unmarking: with dates given, it is none of them; with
/// none given, it is not today's text.
pub open spec fn stays(dates: Seq<Seq<char>>, today: DateView) -> spec_fn(Seq<char>) -> bool {
    |entry: Seq<char>|
        if dates.len() > 0 {
            !dates.contains(entry)
        } else {
            entry != today.text
        }
}

/// A history after unmarking: the entries that stay, sorted.
pub open spec fn unmarked_history(
    history: Seq<Seq<char>>,
    dates: Seq<Seq<char>>,
    today: DateView,
) -> Seq<Seq<char>> {
    sorted_texts(history.filter(stays(dates, today)))
}

/// The list after unmarking: the first habit of that name gets the unmarked history.
pub open spec fn unmarked(
    store: Seq<HabitView>,
    name: Seq<char>,
    dates: Seq<Seq<char>>,
    today: DateView,
) -> Seq<HabitView> {
    if is_named(store, name) {
        let index = position_of(store, name);
        store.update(
            index,
            with_history(store[index], unmarked_history(store[index].history, dates, today)),
        )
    } else {
        store
    }
}

/// Appends copies of `dates` to `history`.
fn append_entries(history: &mut Vec<String>, dates: &Vec<String>)
    ensures
        texts(final(history)@) == texts(old(history)@) + texts(dates@),
{
    let mut k: usize = 0;
    assert(texts(history@) =~= texts(old(history)@) + texts(dates@).take(0));
    while k < dates.len()
        invariant
            k <= dates.len(),
            texts(history@) == texts(old(history)@) + texts(dates@).take(k as int),
        decreases dates.len() - k,
    {
        let ghost before = texts(history@);
        history.push(dates[k].clone());
        assert(texts(history@) =~= before.push(dates@[k as int]@));
        assert(texts(dates@).take(k + 1) =~= texts(dates@).take(k as int).push(dates@[k as int]@));
        assert(texts(history@) =~= texts(old(history)@) + texts(dates@).take(k + 1));
        k += 1;
    }
    assert(texts(dates@).take(k as int) =~= texts(dates@));
}

/// Marks days of the first habit named `name` as done, `today` being the current date: the
/// given dates, or today where none is given.
pub fn mark_habit_on(
    habits: &mut Vec<Habit>,
    name: &str,
    dates: Vec<String>,
    today: &Date,
) -> (outcome: Outcome)
    ensures
        outcome == mark_outcome(views(old(habits)@), name@, texts(dates@)),
        views(final(habits)@) == marked(views(old(habits)@), name@, texts(dates@), today@),
{
    let ghost store = views(habits@);
    let index = match find_habit(habits, name) {
        Some(index) => index,
        None => {
            return Outcome::NotFound;
        },
    };
    let ghost history = store[index as int].history;
    assert(history == texts(habits@[index as int].history@));
    if dates.len() == 0 {
        let count = habits[index].history.len();
        let mut already = false;
        if count > 0 {
            assert(history.last() == habits@[index as int].history@[count - 1]@);
            match parse_day(habits[index].history[count - 1].as_str()) {
                Some(day) => {
                    already = day == today.day();
                },
                None => {
                    return Outcome::MalformedDate;
                },
            }
        }
        assert(already == latest_is(history, today@.day));
        if !already {
            habits[index].history.push(today.text().to_owned());
            assert(texts(habits@[index as int].history@) =~= history.push(today@.text));
        }
    } else {
        append_entries(&mut habits[index].history, &dates);
    }
    sort_history(&mut habits[index].history);
    assert(views(habits@) =~= marked(store, name@, texts(dates@), today@));
    Outcome::Done
}

/// Keeps the entries of `history` that stay when unmarking.
fn drop_entries(history: &mut Vec<String>, dates: &Vec<String>, today: &Date)
    ensures
        texts(final(history)@) == texts(old(history)@).filter(stays(texts(dates@), today@)),
{
    let ghost all = texts(history@);
    let ghost test = stays(texts(dates@), today@);
    let current: String = today.text().to_owned();
    let mut kept: Vec<String> = Vec::new();
    let mut i: usize = 0;
    proof {
        reveal(Seq::filter);
        assert(all.take(0) =~= Seq::<Seq<char>>::empty());
        assert(texts(kept@) =~= all.take(0).filter(test));
    }
    while i < history.len()
        invariant
            i <= history.len(),
            all == texts(history@),
            test == stays(texts(dates@), today@),
            current@ == today@.text,
            texts(kept@) == all.take(i as int).filter(test),
        decreases history.len() - i,
    {
        proof {
            assert(all.take(i + 1) =~= all.take(i as int).push(all[i as int]));
            all.take(i as int).lemma_filter_push(all[i as int], test);
            assert(all[i as int] == history@[i as int]@);
        }
        let leaves = if dates.len() > 0 {
            holds_text(dates, &history[i])
        } else {
            history[i] == current
        };
        assert(leaves == !test(all[i as int]));
        if !leaves {
            let ghost before = texts(kept@);
            kept.push(history[i].clone());
            assert(texts(kept@) =~= before.push(all[i as int]));
        }
        i += 1;
    }
    assert(all.take(i as int) =~= all);
    *history = kept;
}

/// Takes marks of the first habit named `name` back, `today` being the current date: every
/// entry that equals one of the given dates letter for letter, or today's text where no
/// date is given. It is not asked whether such an entry was there.
pub fn unmark_habit_on(
    habits: &mut Vec<Habit>,
    name: &str,
    dates: Vec<String>,
    today: &Date,
) -> (outcome: Outcome)
    ensures
        outcome == if is_named(views(old(habits)@), name@) {
            Outcome::Done
        } else {
            Outcome::NotFound
        },
        views(final(habits)@) == unmarked(views(old(habits)@), name@, texts(dates@), today@),
{
    let ghost store = views(habits@);
    let index = match find_habit(habits, name) {
        Some(index) => index,
        None => {
            return Outcome::NotFound;
        },
    };
    assert(store[index as int].history == texts(habits@[index as int].history@));
    drop_entries(&mut habits[index].history, &dates, today);
    sort_history(&mut habits[index].history);
    assert(views(habits@) =~= unmarked(store, name@, texts(dates@), today@));
    Outcome::Done
}

/// A habit after its streak was recomputed for `today`: the history in normal form, and as
/// streak the number of days in a row, ending today, that the history holds.
pub open spec fn recomputed_habit(habit: HabitView, today: int) -> HabitView {
    HabitView {
        name: habit.name,
        streak: history_streak(habit.history, today),
        history: normalized(habit.history),
    }
}

/// Every entry of every habit is a date that the calendar accepts.
pub open spec fn all_well_dated(store: Seq<HabitView>) -> bool {
    forall|i: int| 0 <= i < store.len() ==> well_dated((#[trigger] store[i]).history)
}

/// The list after the streaks were recomputed for `today`.
pub open spec fn recomputed(store: Seq<HabitView>, today: int) -> Seq<HabitView> {
    store.map_values(|habit: HabitView| recomputed_habit(habit, today))
}

/// Tells whether every entry of every habit is a date that the calendar accepts.
pub fn well_dated_habits(habits: &Vec<Habit>) -> (ok: bool)
    ensures
        ok == all_well_dated(views(habits@)),
{
    let ghost store = views(habits@);
    let mut i: usize = 0;
    while i < habits.len()
        invariant
            i <= habits.len(),
            store == views(habits@),
            forall|j: int| 0 <= j < i ==> well_dated((#[trigger] store[j]).history),
        decreases habits.len() - i,
    {
        assert(store[i as int].history == texts(habits@[i as int].history@));
        if parse_history(&habits[i].history).is_none() {
            return false;
        }
        i += 1;
    }
    true
}

/// Recomputes the streak of every habit for the date `today`, and brings every history into
/// normal form. Every entry of every habit must be a date that the calendar accepts:
/// [`well_dated_habits`] tells, and [`check_streak_on`] asks it first.
pub fn recompute_streaks(habits: &mut Vec<Habit>, today: &Date)
    requires
        all_well_dated(views(old(habits)@)),
    ensures
        views(final(habits)@) == recomputed(views(old(habits)@), today@.day),
{
    let ghost store = views(habits@);
    let mut k: usize = 0;
    while k < habits.len()
        invariant
            k <= habits.len(),
            habits@.len() == store.len(),
            all_well_dated(store),
            forall|j: int|
                0 <= j < k ==> (#[trigger] habits@[j])@ == recomputed_habit(store[j], today@.day),
            forall|j: int| k <= j < store.len() ==> (#[trigger] habits@[j])@ == store[j],
        decreases habits.len() - k,
    {
        assert(well_dated(store[k as int].history));
        assert(store[k as int].history == texts(habits@[k as int].history@));
        let streak = match history_days(&habits[k].history) {
            Some(set) => current_streak(&set, today),
            None => vstd::pervasive::unreached(),
        };
        unique_preserve_order(&mut habits[k].history);
        habits[k].streak = streak;
        k += 1;
    }
    assert(views(habits@) =~= recomputed(store, today@.day));
}

/// Recomputes the streak of every habit for the date `today`, and brings every history into
/// normal form. Returns `false`, and changes nothing, where some entry of some habit is not
/// a date that the calendar accepts.
pub fn check_streak_on(habits: &mut Vec<Habit>, today: &Date) -> (ok: bool)
    ensures
        ok == all_well_dated(views(old(habits)@)),
        ok ==> views(final(habits)@) == recomputed(views(old(habits)@), today@.day),
        !ok ==> final(habits)@ == old(habits)@,
{
    if well_dated_habits(habits) {
        recompute_streaks(habits, today);
        true
    } else {
        false
    }
}

/// Marks days of the first habit named `name` as done: the given dates, or the date that
/// the system clock shows where none is given.
pub fn mark_habit(habits: &mut Vec<Habit>, name: &str, dates: Vec<String>) -> (outcome: Outcome)
    ensures
        outcome == mark_outcome(views(old(habits)@), name@, texts(dates@)),
        exists|today: DateView|
            today.consistent() && views(final(habits)@) == #[trigger] marked(
                views(old(habits)@),
                name@,
                texts(dates@),
                today,
            ),
{
    let today = Date::today();
    let ghost shown = today@;
    let outcome = mark_habit_on(habits, name, dates, &today);
    proof {
        let witness = marked(views(old(habits)@), name@, texts(dates@), shown);
        assert(shown.consistent() && views(habits@) == witness);
    }
    outcome
}

/// Takes marks of the first habit named `name` back: every entry that equals one of the
/// given dates, or the text of the date that the system clock shows where none is given.
pub fn unmark_habit(habits: &mut Vec<Habit>, name: &str, dates: Vec<String>) -> (outcome: Outcome)
    ensures
        outcome == if is_named(views(old(habits)@), name@) {
            Outcome::Done
        } else {
            Outcome::NotFound
        },
        exists|today: DateView|
            today.consistent() && views(final(habits)@) == #[trigger] unmarked(
                views(old(habits)@),
                name@,
                texts(dates@),
                today,
            ),
{
    let today = Date::today();
    let ghost shown = today@;
    let outcome = unmark_habit_on(habits, name, dates, &today);
    proof {
        let witness = unmarked(views(old(habits)@), name@, texts(dates@), shown);
        assert(shown.consistent() && views(habits@) == witness);
    }
    outcome
}

/// Recomputes the streak of every habit for the date that the system clock shows, and
/// brings every history into normal form. Returns `false`, and changes nothing, where some
/// entry of some habit is not a date that the calendar accepts.
pub fn check_streak(habits: &mut Vec<Habit>) -> (ok: bool)
    ensures
        ok == all_well_dated(views(old(habits)@)),
        ok ==> exists|today: int|
            day_in_range(today) && views(final(habits)@) == #[trigger] recomputed(
                views(old(habits)@),
                today,
            ),
        !ok ==> final(habits)@ == old(habits)@,
{
    let today = Date::today();
    let ghost shown = today@.day;
    let ok = check_streak_on(habits, &today);
    proof {
        if ok {
            let witness = recomputed(views(old(habits)@), shown);
            assert(day_in_range(shown) && views(habits@) == witness);
        }
    }
    ok
}

/// Recomputing the streaks a second time on the same day changes nothing.
pub proof fn lemma_recomputing_twice(store: Seq<HabitView>, today: int)
    requires
        all_well_dated(store),
    ensures
        all_well_dated(recomputed(store, today)),
        recomputed(recomputed(store, today), today) == recomputed(store, today),
{
    let once = recomputed(store, today);
    assert forall|i: int| 0 <= i < once.len() implies well_dated((#[trigger] once[i]).history)
        && recomputed_habit(once[i], today) == once[i] by {
        assert(well_dated(store[i].history));
        lemma_normalized_keeps_streak(store[i].history, today);
        lemma_normalizing_twice(store[i].history);
    }
    assert(recomputed(once, today) =~= once);
}

/// A history after today was marked and the streaks were recomputed: today added unless
/// the latest entry denoted it, and the whole in normal form.
pub open spec fn marked_today(history: Seq<Seq<char>>, today: DateView) -> Seq<Seq<char>> {
    normalized(marked_history(history, Seq::empty(), today))
}

/// The entries of a history after today was marked: those it had, and today's text unless
/// its latest entry denoted today already.
proof fn lemma_marked_today_members(history: Seq<Seq<char>>, today: DateView)
    ensures
        forall|text: Seq<char>|
            #![trigger marked_today(history, today).contains(text)]
            #![trigger history.contains(text)]
            marked_today(history, today).contains(text) <==> (history.contains(text) || (!latest_is(
                history,
                today.day,
            ) && text == today.text)),
        marked_today(history, today).no_duplicates(),
        vstd::relations::sorted_by(marked_today(history, today), text_order()),
{
    let longer = history.push(today.text);
    lemma_sorted_texts_members(history);
    lemma_sorted_texts_members(longer);
    lemma_normalized_is_ordered_and_distinct(marked_history(history, Seq::empty(), today));
    assert forall|text: Seq<char>|
        longer.contains(text) <==> (history.contains(text) || text == today.text) by {
        assert(longer[longer.len() - 1] == today.text);
        if history.contains(text) {
            let i = choose|i: int| 0 <= i < history.len() && history[i] == text;
            assert(longer[i] == text);
        }
        if longer.contains(text) {
            let i = choose|i: int| 0 <= i < longer.len() && longer[i] == text;
            if i < history.len() {
                assert(history[i] == text);
            }
        }
    }
}

/// What marking today does to the days of a history: it adds today, and nothing else.
proof fn lemma_marked_today_days(history: Seq<Seq<char>>, today: DateView)
    requires
        today.consistent(),
        well_dated(history),
    ensures
        well_dated(marked_today(history, today)),
        forall|d: int|
            #![trigger date_set(days_of(marked_today(history, today))).contains(d)]
            #![trigger date_set(days_of(history)).contains(d)]
            date_set(days_of(marked_today(history, today))).contains(d) <==> (date_set(
                days_of(history),
            ).contains(d) || d == today.day),
{
    let once = marked_today(history, today);
    lemma_marked_today_members(history, today);
    assert forall|i: int| 0 <= i < once.len() implies parsed_day(#[trigger] once[i]) is Some by {
        assert(once.contains(once[i]));
        if history.contains(once[i]) {
            let k = choose|k: int| 0 <= k < history.len() && history[k] == once[i];
            assert(parsed_day(history[k]) is Some);
        }
    }
    lemma_date_set_exists(days_of(once));
    lemma_date_set_exists(days_of(history));
    assert forall|d: int|
        date_set(days_of(once)).contains(d) <==> (date_set(days_of(history)).contains(d) || d
            == today.day) by {
        lemma_days_of_members(once, d);
        lemma_days_of_members(history, d);
        if days_of(history).contains(d) {
            let text = choose|text: Seq<char>|
                history.contains(text) && parsed_day(text).unwrap() as int == d;
            assert(once.contains(text));
        }
        if d == today.day {
            if latest_is(history, today.day) {
                assert(history[history.len() - 1] == history.last());
                assert(history.contains(history.last()));
                assert(once.contains(history.last()));
            } else {
                assert(once.contains(today.text));
            }
        }
        if days_of(once).contains(d) {
            let text = choose|text: Seq<char>|
                once.contains(text) && parsed_day(text).unwrap() as int == d;
            assert(history.contains(text) || text == today.text);
        }
    }
}

/// Marking today twice, the streaks recomputed after each: no entry stands twice in the
/// history; the second marking leaves the history as the first left it, provided that
/// today's text is in it; and the streak after either is one more than the run of days
/// that ended yesterday, so the second marking adds nothing to it.
pub proof fn lemma_marking_today_twice(history: Seq<Seq<char>>, today: DateView)
    requires
        today.consistent(),
        well_dated(history),
    ensures
        ({
            let once = marked_today(history, today);
            let twice = marked_today(once, today);
            &&& well_dated(once)
            &&& well_dated(twice)
            &&& once.no_duplicates()
            &&& twice.no_duplicates()
            &&& once.contains(today.text) ==> twice == once
            &&& !latest_is(history, today.day) ==> once.contains(today.text)
            &&& history_streak(once, today.day) == history_streak(history, today.day - 1) + 1
            &&& history_streak(twice, today.day) == history_streak(once, today.day)
        }),
{
    let once = marked_today(history, today);
    let twice = marked_today(once, today);
    lemma_marked_today_members(history, today);
    lemma_marked_today_members(once, today);
    lemma_marked_today_days(history, today);
    lemma_marked_today_days(once, today);
    lemma_marking_today_adds_one(
        date_set(days_of(history)),
        date_set(days_of(once)),
        today.day,
    );
    assert(date_set(days_of(once)).contains(today.day));
    assert forall|d: int|
        date_set(days_of(twice)).contains(d) <==> date_set(days_of(once)).contains(d) by {
        if d == today.day {
            assert(date_set(days_of(twice)).contains(d));
        }
    }
    lemma_streak_of_same_days(date_set(days_of(twice)), date_set(days_of(once)), today.day);
    if once.contains(today.text) {
        lemma_ordered_distinct_unique(twice, once);
    }
    if !latest_is(history, today.day) {
        assert(once.contains(today.text));
    }
}

/// The list after the command that marks today: today is marked for the first habit of
/// that name, then every streak is recomputed.
pub open spec fn today_marked(
    store: Seq<HabitView>,
    name: Seq<char>,
    today: DateView,
) -> Seq<HabitView> {
    recomputed(marked(store, name, Seq::empty(), today), today.day)
}

/// What the command that marks today does to a list of well-dated habits.
proof fn lemma_today_marked(store: Seq<HabitView>, name: Seq<char>, today: DateView)
    requires
        today.consistent(),
        all_well_dated(store),
        is_named(store, name),
    ensures
        ({
            let index = position_of(store, name);
            let once = today_marked(store, name, today);
            &&& once.len() == store.len()
            &&& 0 <= index < store.len()
            &&& all_well_dated(once)
            &&& is_named(once, name)
            &&& position_of(once, name) == index
            &&& once[index].history == marked_today(store[index].history, today)
            &&& once[index].streak == history_streak(once[index].history, today.day)
            &&& forall|j: int|
                0 <= j < store.len() && j != index ==> #[trigger] once[j] == recomputed_habit(
                    store[j],
                    today.day,
                )
        }),
{
    let index = position_of(store, name);
    let none = Seq::<Seq<char>>::empty();
    lemma_first_named_exists(store, name);
    let history = store[index].history;
    assert(well_dated(history));
    if history.len() > 0 {
        assert(parsed_day(history[history.len() - 1]) is Some);
    }
    assert(mark_outcome(store, name, none) == Outcome::Done);
    let written = marked_history(history, none, today);
    let middle = marked(store, name, none, today);
    let once = today_marked(store, name, today);
    lemma_marked_today_days(history, today);
    lemma_normalized_is_ordered_and_distinct(written);
    lemma_streak_of_same_entries(marked_today(history, today), written, today.day);
    assert(middle[index].history == written);
    assert forall|i: int| 0 <= i < once.len() implies well_dated((#[trigger] once[i]).history) by {
        if i != index {
            assert(middle[i] == store[i]);
            assert(well_dated(store[i].history));
            lemma_normalized_keeps_streak(store[i].history, today.day);
        }
    }
    assert(once[index].name == name);
    assert forall|j: int| 0 <= j < index implies (#[trigger] once[j]).name != name by {
        assert(middle[j] == store[j]);
        assert(store[j].name != name);
    }
    assert(is_first_named(once, name, index));
    lemma_first_named_is(once, name, index);
}

/// Giving the command that marks today twice: after the first, the habit's streak is one
/// more than the run of days that ended yesterday; the second leaves that streak as it is;
/// and it leaves the whole list as it is, provided that today's text stands in the history.
pub proof fn lemma_today_marked_twice(store: Seq<HabitView>, name: Seq<char>, today: DateView)
    requires
        today.consistent(),
        all_well_dated(store),
        is_named(store, name),
    ensures
        ({
            let index = position_of(store, name);
            let once = today_marked(store, name, today);
            let twice = today_marked(once, name, today);
            &&& once[index].history == marked_today(store[index].history, today)
            &&& once[index].streak == history_streak(store[index].history, today.day - 1) + 1
            &&& twice[index].streak == once[index].streak
            &&& !latest_is(store[index].history, today.day) ==> once[index].history.contains(
                today.text,
            )
            &&& once[index].history.contains(today.text) ==> twice == once
        }),
{
    let index = position_of(store, name);
    let once = today_marked(store, name, today);
    let twice = today_marked(once, name, today);
    lemma_today_marked(store, name, today);
    lemma_today_marked(once, name, today);
    lemma_marking_today_twice(store[index].history, today);
    if once[index].history.contains(today.text) {
        assert forall|j: int| 0 <= j < once.len() implies twice[j] == once[j] by {
            if j != index {
                assert(well_dated(store[j].history));
                lemma_normalized_keeps_streak(store[j].history, today.day);
                lemma_normalizing_twice(store[j].history);
            }
        }
        assert(twice =~= once);
    }
}

} // verus!
