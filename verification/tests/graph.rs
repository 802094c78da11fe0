use rhabits::calendar::Date;
use rhabits::graph::{graph, graph_on, select_histories};
use rhabits::habit::Habit;
use rhabits::heatmap::Cell;

fn texts(entries: &[&str]) -> Vec<String> {
    entries.iter().map(|entry| entry.to_string()).collect()
}

fn habit(name: &str, entries: &[&str]) -> Habit {
    Habit { name: name.to_string(), streak: 0, history: texts(entries) }
}

fn date(text: &str) -> Date {
    Date::parse(text).expect("a date")
}

#[test]
fn histories_are_merged_in_the_order_of_the_names() {
    let habits = vec![
        habit("run", &["2024-01-01", "2024-01-02"]),
        habit("read", &["2024-01-02"]),
        habit("run", &["2020-02-02"]),
    ];
    let (merged, count) = select_histories(&habits, &texts(&["read", "swim", "run", "read"]));
    assert_eq!(merged, texts(&["2024-01-02", "2024-01-01", "2024-01-02", "2024-01-02"]));
    assert_eq!(count, 3);
    let (merged, count) = select_histories(&habits, &Vec::new());
    assert!(merged.is_empty());
    assert_eq!(count, 0);
}

#[test]
fn a_day_is_as_bright_as_the_share_of_habits_that_hold_it() {
    let habits = vec![habit("run", &["2024-01-01", "2024-01-02"]), habit("read", &["2024-01-02"])];
    let cells = graph_on(&habits, &texts(&["run", "read"]), &date("2024-01-03"), 80);
    assert_eq!(
        cells,
        Some(vec![Cell { x: 78, y: 1, intensity: 255 }, Cell { x: 78, y: 0, intensity: 127 }])
    );
}

#[test]
fn one_habit_alone_is_at_full_brightness() {
    let habits = vec![habit("run", &["2023-12-27", "2024-01-03"]), habit("read", &["2024-01-02"])];
    let cells = graph_on(&habits, &texts(&["run"]), &date("2024-01-03"), 80);
    assert_eq!(
        cells,
        Some(vec![Cell { x: 78, y: 2, intensity: 255 }, Cell { x: 76, y: 2, intensity: 255 }])
    );
}

#[test]
fn the_graph_of_no_habit_is_empty() {
    let habits = vec![habit("run", &["2024-01-03"])];
    assert_eq!(graph_on(&habits, &Vec::new(), &date("2024-01-03"), 80), Some(Vec::new()));
    assert_eq!(graph_on(&habits, &texts(&["swim"]), &date("2024-01-03"), 80), Some(Vec::new()));
    assert_eq!(graph_on(&Vec::new(), &texts(&["run"]), &date("2024-01-03"), 80), Some(Vec::new()));
}

#[test]
fn a_narrow_terminal_cuts_the_past_off() {
    let habits = vec![habit("run", &["2023-12-20", "2023-12-27", "2024-01-03", "2024-01-04"])];
    let cells = graph_on(&habits, &texts(&["run"]), &date("2024-01-03"), 5);
    assert_eq!(
        cells,
        Some(vec![Cell { x: 2, y: 2, intensity: 255 }, Cell { x: 0, y: 2, intensity: 255 }])
    );
}

#[test]
fn a_malformed_entry_of_a_selected_habit_spoils_the_graph() {
    let habits = vec![habit("run", &["2024-01-03", "soon"]), habit("read", &["2024-01-02"])];
    assert_eq!(graph_on(&habits, &texts(&["run", "read"]), &date("2024-01-03"), 80), None);
    assert_eq!(graph(&habits, &texts(&["run"]), 80), None);
    assert_eq!(
        graph_on(&habits, &texts(&["read"]), &date("2024-01-03"), 80),
        Some(vec![Cell { x: 78, y: 1, intensity: 255 }])
    );
}

#[test]
fn the_clock_places_today_in_the_last_column() {
    let today = Date::today();
    let habits = vec![habit("run", &[today.text()])];
    let cells = graph(&habits, &texts(&["run"]), 80).expect("well dated");
    assert!(cells.len() <= 1);
    if today.day() == Date::today().day() {
        assert_eq!(cells.len(), 1);
        assert_eq!(cells[0].x, 78);
        assert_eq!(cells[0].intensity, 255);
        assert!(cells[0].y < 7);
    }
}
