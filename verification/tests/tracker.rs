use rhabits::calendar::Date;
use rhabits::habit::Habit;
use rhabits::tracker::{
    check_streak, check_streak_on, mark_habit, mark_habit_on, recompute_streaks, unmark_habit,
    unmark_habit_on, well_dated_habits, Outcome,
};

fn texts(entries: &[&str]) -> Vec<String> {
    entries.iter().map(|entry| entry.to_string()).collect()
}

fn habit(name: &str, streak: u32, entries: &[&str]) -> Habit {
    Habit { name: name.to_string(), streak, history: texts(entries) }
}

fn date(text: &str) -> Date {
    Date::parse(text).expect("a date")
}

#[test]
fn marking_today_adds_it() {
    let mut habits = vec![habit("run", 2, &["2024-01-01", "2024-01-02"])];
    let outcome = mark_habit_on(&mut habits, "run", Vec::new(), &date("2024-01-03"));
    assert_eq!(outcome, Outcome::Done);
    assert_eq!(habits[0].history, texts(&["2024-01-01", "2024-01-02", "2024-01-03"]));
    assert_eq!(habits[0].streak, 2);
}

#[test]
fn marking_today_twice_leaves_one_entry() {
    let today = date("2024-01-03");
    let mut habits = vec![habit("run", 0, &["2024-01-01", "2024-01-02"])];
    assert!(check_streak_on(&mut habits, &date("2024-01-02")));
    assert_eq!(habits[0].streak, 2);
    assert_eq!(mark_habit_on(&mut habits, "run", Vec::new(), &today), Outcome::Done);
    assert!(check_streak_on(&mut habits, &today));
    assert_eq!(habits[0].history, texts(&["2024-01-01", "2024-01-02", "2024-01-03"]));
    assert_eq!(habits[0].streak, 3);
    assert_eq!(mark_habit_on(&mut habits, "run", Vec::new(), &today), Outcome::Done);
    assert!(check_streak_on(&mut habits, &today));
    assert_eq!(habits[0].history, texts(&["2024-01-01", "2024-01-02", "2024-01-03"]));
    assert_eq!(habits[0].streak, 3);
}

#[test]
fn marking_today_on_an_empty_history() {
    let today = date("2024-01-03");
    let mut habits = vec![habit("run", 0, &[])];
    assert_eq!(mark_habit_on(&mut habits, "run", Vec::new(), &today), Outcome::Done);
    assert_eq!(habits[0].history, texts(&["2024-01-03"]));
    assert_eq!(mark_habit_on(&mut habits, "run", Vec::new(), &today), Outcome::Done);
    assert_eq!(habits[0].history, texts(&["2024-01-03"]));
}

#[test]
fn today_counts_as_marked_in_any_spelling() {
    let mut habits = vec![habit("run", 0, &["2024-01-02", "2024-1-3"])];
    assert_eq!(mark_habit_on(&mut habits, "run", Vec::new(), &date("2024-01-03")), Outcome::Done);
    assert_eq!(habits[0].history, texts(&["2024-01-02", "2024-1-3"]));
}

#[test]
fn only_the_latest_entry_is_asked_for_today() {
    let today = date("2024-01-03");
    let mut habits = vec![habit("run", 0, &["2024-01-03", "2024-01-09"])];
    assert_eq!(mark_habit_on(&mut habits, "run", Vec::new(), &today), Outcome::Done);
    assert_eq!(habits[0].history, texts(&["2024-01-03", "2024-01-03", "2024-01-09"]));
    assert!(check_streak_on(&mut habits, &today));
    assert_eq!(habits[0].history, texts(&["2024-01-03", "2024-01-09"]));
    assert_eq!(habits[0].streak, 1);
}

#[test]
fn marking_given_dates_adds_them_as_they_are() {
    let mut habits = vec![habit("read", 0, &[]), habit("run", 5, &["2024-01-02"])];
    let dates = texts(&["2024-01-05", "2023-12-31", "2024-01-02", "someday"]);
    let outcome = mark_habit_on(&mut habits, "run", dates, &date("2024-01-03"));
    assert_eq!(outcome, Outcome::Done);
    assert_eq!(
        habits[1].history,
        texts(&["2023-12-31", "2024-01-02", "2024-01-02", "2024-01-05", "someday"])
    );
    assert_eq!(habits[1].streak, 5);
    assert!(habits[0].history.is_empty());
}

#[test]
fn marking_acts_on_the_first_habit_of_the_name() {
    let mut habits = vec![habit("run", 0, &[]), habit("run", 0, &[])];
    let outcome = mark_habit_on(&mut habits, "run", texts(&["2024-01-02"]), &date("2024-01-03"));
    assert_eq!(outcome, Outcome::Done);
    assert_eq!(habits[0].history, texts(&["2024-01-02"]));
    assert!(habits[1].history.is_empty());
}

#[test]
fn marking_an_unknown_habit_changes_nothing() {
    let mut habits = vec![habit("run", 1, &["2024-01-02"])];
    let today = date("2024-01-03");
    assert_eq!(mark_habit_on(&mut habits, "swim", Vec::new(), &today), Outcome::NotFound);
    assert_eq!(mark_habit_on(&mut habits, "swim", texts(&["2024-01-01"]), &today), Outcome::NotFound);
    assert_eq!(habits.len(), 1);
    assert_eq!(habits[0].history, texts(&["2024-01-02"]));
    assert_eq!(habits[0].streak, 1);
}

#[test]
fn marking_today_needs_a_readable_latest_entry() {
    let mut habits = vec![habit("run", 1, &["2024-01-02", "someday"])];
    let today = date("2024-01-03");
    assert_eq!(mark_habit_on(&mut habits, "run", Vec::new(), &today), Outcome::MalformedDate);
    assert_eq!(habits[0].history, texts(&["2024-01-02", "someday"]));
    assert_eq!(mark_habit_on(&mut habits, "run", texts(&["2024-01-01"]), &today), Outcome::Done);
    assert_eq!(habits[0].history, texts(&["2024-01-01", "2024-01-02", "someday"]));
}

#[test]
fn unmarking_today_removes_its_text() {
    let mut habits = vec![habit("run", 3, &["2024-01-01", "2024-01-03", "2024-01-03", "2024-1-3"])];
    let outcome = unmark_habit_on(&mut habits, "run", Vec::new(), &date("2024-01-03"));
    assert_eq!(outcome, Outcome::Done);
    assert_eq!(habits[0].history, texts(&["2024-01-01", "2024-1-3"]));
    assert_eq!(habits[0].streak, 3);
}

#[test]
fn unmarking_given_dates_removes_each_of_them() {
    let mut habits = vec![habit("run", 0, &["2024-01-04", "2024-01-01", "2024-01-02", "2024-01-03"])];
    let dates = texts(&["2024-01-02", "2024-01-04", "2020-02-02"]);
    let outcome = unmark_habit_on(&mut habits, "run", dates, &date("2024-01-03"));
    assert_eq!(outcome, Outcome::Done);
    assert_eq!(habits[0].history, texts(&["2024-01-01", "2024-01-03"]));
}

#[test]
fn unmarking_sorts_what_is_left() {
    let mut habits = vec![habit("run", 0, &["2024-01-04", "2024-01-01", "2024-01-02"])];
    let outcome = unmark_habit_on(&mut habits, "run", Vec::new(), &date("2024-01-03"));
    assert_eq!(outcome, Outcome::Done);
    assert_eq!(habits[0].history, texts(&["2024-01-01", "2024-01-02", "2024-01-04"]));
}

#[test]
fn unmarking_an_unknown_habit_changes_nothing() {
    let mut habits = vec![habit("run", 1, &["2024-01-03"])];
    let outcome = unmark_habit_on(&mut habits, "swim", Vec::new(), &date("2024-01-03"));
    assert_eq!(outcome, Outcome::NotFound);
    assert_eq!(habits[0].history, texts(&["2024-01-03"]));
}

#[test]
fn streaks_are_recomputed_for_every_habit() {
    let mut habits = vec![
        habit("run", 9, &["2024-01-03", "2024-01-01", "2024-01-02", "2024-01-03"]),
        habit("read", 9, &["2024-01-01", "2024-01-03"]),
        habit("swim", 9, &[]),
        habit("write", 9, &["2024-01-01", "2024-01-02"]),
    ];
    assert!(check_streak_on(&mut habits, &date("2024-01-03")));
    assert_eq!(habits[0].streak, 3);
    assert_eq!(habits[0].history, texts(&["2024-01-01", "2024-01-02", "2024-01-03"]));
    assert_eq!(habits[1].streak, 1);
    assert_eq!(habits[1].history, texts(&["2024-01-01", "2024-01-03"]));
    assert_eq!(habits[2].streak, 0);
    assert!(habits[2].history.is_empty());
    assert_eq!(habits[3].streak, 0);
    assert_eq!(habits[3].name, "write");
}

#[test]
fn a_malformed_entry_stops_the_recomputation() {
    let mut habits = vec![
        habit("run", 9, &["2024-01-03", "2024-01-03"]),
        habit("read", 7, &["2024-01-02", "2024-01-35"]),
    ];
    assert!(!check_streak_on(&mut habits, &date("2024-01-03")));
    assert_eq!(habits[0].streak, 9);
    assert_eq!(habits[0].history, texts(&["2024-01-03", "2024-01-03"]));
    assert_eq!(habits[1].streak, 7);
    assert_eq!(habits[1].history, texts(&["2024-01-02", "2024-01-35"]));
    assert!(!check_streak(&mut habits));
    assert_eq!(habits[0].streak, 9);
}

#[test]
fn the_clock_marks_the_current_date() {
    let mut habits = vec![habit("run", 0, &["2024-01-02"])];
    let before = Date::today();
    assert_eq!(mark_habit(&mut habits, "run", Vec::new()), Outcome::Done);
    let after = Date::today();
    assert_eq!(habits[0].history.len(), 2);
    assert_eq!(habits[0].history[0], "2024-01-02");
    assert!(habits[0].history[1] == before.text() || habits[0].history[1] == after.text());
    assert_eq!(mark_habit(&mut habits, "run", Vec::new()), Outcome::Done);
    assert!(habits[0].history.len() == 2 || before.day() != Date::today().day());
    assert_eq!(mark_habit(&mut habits, "swim", Vec::new()), Outcome::NotFound);
}

#[test]
fn the_clock_unmarks_the_current_date() {
    let today = Date::today();
    let mut habits = vec![habit("run", 0, &["2024-01-02", today.text()])];
    assert_eq!(unmark_habit(&mut habits, "run", Vec::new()), Outcome::Done);
    assert!(habits[0].history.len() == 1 || today.day() != Date::today().day());
    assert_eq!(habits[0].history[0], "2024-01-02");
    assert_eq!(unmark_habit(&mut habits, "run", texts(&["2024-01-02"])), Outcome::Done);
    assert!(habits[0].history.len() <= 1);
    assert_eq!(unmark_habit(&mut habits, "swim", Vec::new()), Outcome::NotFound);
}

#[test]
fn the_clock_recomputes_streaks() {
    let mut habits = vec![habit("run", 9, &["2024-01-02", "2024-01-02", "2024-01-01"])];
    assert!(check_streak(&mut habits));
    assert_eq!(habits[0].streak, 0);
    assert_eq!(habits[0].history, texts(&["2024-01-01", "2024-01-02"]));
    assert_eq!(mark_habit(&mut habits, "run", Vec::new()), Outcome::Done);
    assert!(check_streak(&mut habits));
    assert!(habits[0].streak <= 1);
}

#[test]
fn another_spelling_of_today_is_another_entry() {
    let today = date("2024-01-03");
    let mut habits = vec![habit("run", 0, &["2024-1-9", "2024-1-3"])];
    assert_eq!(mark_habit_on(&mut habits, "run", Vec::new(), &today), Outcome::Done);
    assert!(check_streak_on(&mut habits, &today));
    assert_eq!(habits[0].history, texts(&["2024-1-3", "2024-1-9"]));
    assert_eq!(habits[0].streak, 1);
    assert_eq!(mark_habit_on(&mut habits, "run", Vec::new(), &today), Outcome::Done);
    assert!(check_streak_on(&mut habits, &today));
    assert_eq!(habits[0].history, texts(&["2024-01-03", "2024-1-3", "2024-1-9"]));
    assert_eq!(habits[0].streak, 1);
    assert_eq!(mark_habit_on(&mut habits, "run", Vec::new(), &today), Outcome::Done);
    assert!(check_streak_on(&mut habits, &today));
    assert_eq!(habits[0].history, texts(&["2024-01-03", "2024-1-3", "2024-1-9"]));
    assert_eq!(habits[0].streak, 1);
}

#[test]
fn recomputing_twice_changes_nothing() {
    let today = date("2024-01-03");
    let mut habits = vec![
        habit("run", 0, &["2024-01-03", "2024-01-02", "2024-01-03"]),
        habit("read", 4, &[]),
    ];
    assert!(check_streak_on(&mut habits, &today));
    assert_eq!(habits[0].history, texts(&["2024-01-02", "2024-01-03"]));
    assert_eq!(habits[0].streak, 2);
    assert_eq!(habits[1].streak, 0);
    assert!(check_streak_on(&mut habits, &today));
    assert_eq!(habits[0].history, texts(&["2024-01-02", "2024-01-03"]));
    assert_eq!(habits[0].streak, 2);
    assert_eq!(habits[1].streak, 0);
}

#[test]
fn well_dated_habits_may_be_recomputed() {
    let mut habits = vec![
        habit("run", 9, &["2024-01-03", "2024-01-01", "2024-01-02", "2024-01-03"]),
        habit("read", 9, &[]),
    ];
    assert!(well_dated_habits(&habits));
    recompute_streaks(&mut habits, &date("2024-01-03"));
    assert_eq!(habits[0].streak, 3);
    assert_eq!(habits[0].history, texts(&["2024-01-01", "2024-01-02", "2024-01-03"]));
    assert_eq!(habits[1].streak, 0);
    assert!(well_dated_habits(&Vec::new()));
}

#[test]
fn one_malformed_entry_makes_the_habits_ill_dated() {
    let habits = vec![habit("run", 9, &["2024-01-03"]), habit("read", 9, &["2024-13-40"])];
    assert!(!well_dated_habits(&habits));
    assert!(!well_dated_habits(&vec![habit("run", 0, &["today"])]));
}
