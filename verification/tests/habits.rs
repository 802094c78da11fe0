use rhabits::habit::{add_habit, find_habit, remove_habit, Habit};

fn habit(name: &str, streak: u32, entries: &[&str]) -> Habit {
    Habit {
        name: name.to_string(),
        streak,
        history: entries.iter().map(|entry| entry.to_string()).collect(),
    }
}

fn names(habits: &[Habit]) -> Vec<String> {
    habits.iter().map(|habit| habit.name.clone()).collect()
}

#[test]
fn a_new_habit_has_no_streak_and_no_history() {
    let mut habits = vec![habit("read", 4, &["2024-01-03"])];
    add_habit(&mut habits, "run");
    assert_eq!(habits.len(), 2);
    assert_eq!(habits[0].name, "read");
    assert_eq!(habits[0].streak, 4);
    assert_eq!(habits[0].history, vec!["2024-01-03".to_string()]);
    assert_eq!(habits[1].name, "run");
    assert_eq!(habits[1].streak, 0);
    assert!(habits[1].history.is_empty());
}

#[test]
fn a_name_may_be_added_twice() {
    let mut habits = Vec::new();
    add_habit(&mut habits, "run");
    add_habit(&mut habits, "run");
    assert_eq!(names(&habits), vec!["run".to_string(), "run".to_string()]);
}

#[test]
fn find_gives_the_first_of_that_name() {
    let habits = vec![habit("read", 0, &[]), habit("run", 1, &[]), habit("run", 2, &[])];
    assert_eq!(find_habit(&habits, "run"), Some(1));
    assert_eq!(find_habit(&habits, "read"), Some(0));
    assert_eq!(find_habit(&habits, "Run"), None);
    assert_eq!(find_habit(&habits, ""), None);
    assert_eq!(find_habit(&Vec::new(), "run"), None);
}

#[test]
fn remove_takes_every_habit_of_that_name() {
    let mut habits = vec![
        habit("run", 1, &[]),
        habit("read", 0, &["2024-01-03"]),
        habit("run", 2, &[]),
        habit("write", 7, &[]),
        habit("run", 3, &[]),
    ];
    remove_habit(&mut habits, "run");
    assert_eq!(names(&habits), vec!["read".to_string(), "write".to_string()]);
    assert_eq!(habits[0].history, vec!["2024-01-03".to_string()]);
    assert_eq!(habits[1].streak, 7);
}

#[test]
fn removing_an_unknown_name_changes_nothing() {
    let mut habits = vec![habit("read", 3, &["2024-01-02", "2024-01-03"]), habit("run", 1, &[])];
    remove_habit(&mut habits, "swim");
    assert_eq!(names(&habits), vec!["read".to_string(), "run".to_string()]);
    assert_eq!(habits[0].streak, 3);
    assert_eq!(habits[0].history, vec!["2024-01-02".to_string(), "2024-01-03".to_string()]);
    assert_eq!(habits[1].streak, 1);
    let mut none: Vec<Habit> = Vec::new();
    remove_habit(&mut none, "swim");
    assert!(none.is_empty());
}

#[test]
fn last_entry_is_the_latest_or_empty() {
    assert_eq!(habit("read", 0, &["2024-01-02", "2024-01-03"]).last_entry(), "2024-01-03");
    assert_eq!(habit("read", 0, &[]).last_entry(), "");
}
