//! Habits and the list that holds them.

use crate::lexical::texts;
use vstd::prelude::*;

verus! {

/// A habit: its name, the streak as last computed, and the dates on which it was completed.
#[derive(Clone, Debug)]
pub struct Habit {
    pub name: String,
    pub streak: u32,
    pub history: Vec<String>,
}

/// What a [`Habit`] stands for.
pub struct HabitView {
    pub name: Seq<char>,
    pub streak: int,
    pub history: Seq<Seq<char>>,
}

impl View for Habit {
    type V = HabitView;

    open spec fn view(&self) -> HabitView {
        HabitView { name: self.name@, streak: self.streak as int, history: texts(self.history@) }
    }
}

impl Habit {
    /// The latest entry of the history, or the empty text where the history has none.
    pub fn last_entry(&self) -> (text: &str)
        ensures
            text@ == if self@.history.len() > 0 {
                self@.history.last()
            } else {
                Seq::<char>::empty()
            },
    {
        let count = self.history.len();
        if count > 0 {
            self.history[count - 1].as_str()
        } else {
            proof {
                reveal_strlit("");
            }
            assert(""@ =~= Seq::<char>::empty());
            ""
        }
    }
}

/// What a list of habits stands for.
pub open spec fn views(habits: Seq<Habit>) -> Seq<HabitView> {
    habits.map_values(|h: Habit| h@)
}

/// Some habit of the list bears the name.
pub open spec fn is_named(store: Seq<HabitView>, name: Seq<char>) -> bool {
    exists|i: int| 0 <= i < store.len() && (#[trigger] store[i]).name == name
}

/// The habit at `index` bears the name, and none before it does.
pub open spec fn is_first_named(store: Seq<HabitView>, name: Seq<char>, index: int) -> bool {
    &&& 0 <= index < store.len()
    &&& store[index].name == name
    &&& forall|j: int| 0 <= j < index ==> (#[trigger] store[j]).name != name
}

/// Where the first habit of that name stands. Commands act on this habit.
pub open spec fn position_of(store: Seq<HabitView>, name: Seq<char>) -> int {
    choose|index: int| is_first_named(store, name, index)
}

/// The test that a habit bears another name than `name`.
pub open spec fn named_otherwise(name: Seq<char>) -> spec_fn(HabitView) -> bool {
    |h: HabitView| h.name != name
}

/// The list without the habits of that name.
pub open spec fn without(store: Seq<HabitView>, name: Seq<char>) -> Seq<HabitView> {
    store.filter(named_otherwise(name))
}

/// A habit as it is created: no streak, no history.
pub open spec fn fresh(name: Seq<char>) -> HabitView {
    HabitView { name, streak: 0, history: Seq::empty() }
}

/// There is one first habit of a name only.
pub proof fn lemma_first_named_is(store: Seq<HabitView>, name: Seq<char>, index: int)
    requires
        is_first_named(store, name, index),
    ensures
        position_of(store, name) == index,
        is_named(store, name),
{
    let chosen = position_of(store, name);
    assert(is_first_named(store, name, chosen));
    if chosen < index {
        assert(store[chosen].name != name);
    }
    if index < chosen {
        assert(store[index].name != name);
    }
}

proof fn lemma_first_named_from(store: Seq<HabitView>, name: Seq<char>, start: int)
    requires
        0 <= start <= store.len(),
        forall|j: int| 0 <= j < start ==> (#[trigger] store[j]).name != name,
        is_named(store, name),
    ensures
        exists|index: int| is_first_named(store, name, index),
    decreases store.len() - start,
{
    if start == store.len() {
        let i = choose|i: int| 0 <= i < store.len() && (#[trigger] store[i]).name == name;
        assert(store[i].name != name);
    } else if store[start].name == name {
        assert(is_first_named(store, name, start));
    } else {
        lemma_first_named_from(store, name, start + 1);
    }
}

/// Where a habit bears the name, one of them is the first.
pub proof fn lemma_first_named_exists(store: Seq<HabitView>, name: Seq<char>)
    requires
        is_named(store, name),
    ensures
        is_first_named(store, name, position_of(store, name)),
{
    lemma_first_named_from(store, name, 0);
}

/// Removing a name that no habit bears leaves the list as it is.
pub proof fn lemma_removing_absent_name(store: Seq<HabitView>, name: Seq<char>)
    requires
        !is_named(store, name),
    ensures
        without(store, name) == store,
    decreases store.len(),
{
    reveal(Seq::filter);
    if store.len() > 0 {
        let earlier = store.drop_last();
        assert forall|i: int| 0 <= i < earlier.len() implies (#[trigger] earlier[i]).name
            != name by {
            assert(store[i].name != name);
        }
        lemma_removing_absent_name(earlier, name);
        assert(store[store.len() - 1].name != name);
        assert(earlier.push(store.last()) =~= store);
    }
}

/// Looks for the first habit of that name.
pub fn find_habit(habits: &Vec<Habit>, name: &str) -> (found: Option<usize>)
    ensures
        found is Some <==> is_named(views(habits@), name@),
        found matches Some(index) ==> is_first_named(views(habits@), name@, index as int)
            && index as int == position_of(views(habits@), name@),
{
    let wanted: String = name.to_owned();
    let mut i: usize = 0;
    while i < habits.len()
        invariant
            i <= habits.len(),
            wanted@ == name@,
            forall|j: int| 0 <= j < i ==> (#[trigger] views(habits@)[j]).name != name@,
        decreases habits.len() - i,
    {
        if habits[i].name == wanted {
            proof {
                assert(views(habits@)[i as int].name == name@);
                lemma_first_named_is(views(habits@), name@, i as int);
            }
            return Some(i);
        }
        i += 1;
    }
    None
}

/// Adds a habit of that name, with no streak and no history, at the end of the list.
pub fn add_habit(habits: &mut Vec<Habit>, name: &str)
    ensures
        views(final(habits)@) == views(old(habits)@).push(fresh(name@)),
{
    let habit = Habit { name: name.to_owned(), streak: 0, history: Vec::new() };
    assert(texts(habit.history@) =~= Seq::<Seq<char>>::empty());
    habits.push(habit);
    assert(views(habits@) =~= views(old(habits)@).push(fresh(name@)));
}

/// Removes every habit of that name. Where there is none the list stays as it is.
pub fn remove_habit(habits: &mut Vec<Habit>, name: &str)
    ensures
        views(final(habits)@) == without(views(old(habits)@), name@),
        !is_named(views(old(habits)@), name@) ==> final(habits)@ == old(habits)@,
{
    let wanted: String = name.to_owned();
    let ghost before = habits@;
    let ghost store = views(before);
    let ghost done: int = 0;
    let mut i: usize = 0;
    proof {
        reveal(Seq::filter);
        assert(store.take(0) =~= Seq::<HabitView>::empty());
        assert(before.skip(0) =~= before);
        assert(habits@.take(0) =~= Seq::<Habit>::empty());
    }
    while i < habits.len()
        invariant
            wanted@ == name@,
            store == views(before),
            0 <= done <= before.len(),
            i <= habits@.len(),
            habits@.len() - i == before.len() - done,
            habits@.skip(i as int) == before.skip(done),
            views(habits@.take(i as int)) == without(store.take(done), name@),
            (forall|j: int| 0 <= j < done ==> (#[trigger] store[j]).name != name@) ==> habits@
                == before,
        decreases habits.len() - i,
    {
        proof {
            assert(habits@[i as int] == habits@.skip(i as int)[0]);
            assert(before[done] == before.skip(done)[0]);
            assert(store.take(done + 1) =~= store.take(done).push(store[done]));
            store.take(done).lemma_filter_push(store[done], named_otherwise(name@));
        }
        if habits[i].name == wanted {
            let ghost current = habits@;
            habits.remove(i);
            proof {
                assert(habits@ =~= current.remove(i as int));
                assert(before.skip(done + 1) =~= before.skip(done).skip(1));
                assert(habits@.skip(i as int) =~= current.skip(i as int).skip(1));
                assert(habits@.take(i as int) =~= current.take(i as int));
                assert(store[done].name == name@);
                done = done + 1;
            }
        } else {
            proof {
                assert(before.skip(done + 1) =~= before.skip(done).skip(1));
                assert(habits@.skip(i + 1) =~= habits@.skip(i as int).skip(1));
                assert(habits@.take(i + 1) =~= habits@.take(i as int).push(habits@[i as int]));
                assert(views(habits@.take(i + 1)) =~= views(habits@.take(i as int)).push(
                    habits@[i as int]@,
                ));
                done = done + 1;
            }
            i += 1;
        }
    }
    proof {
        assert(habits@.take(i as int) =~= habits@);
        assert(store.take(done) =~= store);
        if !is_named(store, name@) {
            assert forall|j: int| 0 <= j < done implies (#[trigger] store[j]).name != name@ by {
                if store[j].name == name@ {
                    assert(is_named(store, name@));
                }
            }
        }
    }
}

} // verus!
