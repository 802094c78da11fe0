//! Habit tracking: completion histories, day streaks and a week-column heatmap.
//!
//! A habit carries a history of date texts in the form `YYYY-MM-DD`. From it the library
//! computes the current streak, the number of days in a row up to today on which the habit
//! was completed, and lays out a heatmap for the terminal: one column per week, one row per
//! weekday, the current week rightmost, each cell as bright as the share of the selected
//! habits that were completed on its day.
//!
//! - [`calendar`]: dates as day counts; reading a date text and the clock.
//! - [`lexical`]: the order in which date texts are kept.
//! - [`history`]: histories of date texts and their normal form.
//! - [`dateset`]: the distinct days of a history, in ascending order.
//! - [`streak`]: the current streak of a set of days.
//! - [`heatmap`]: grid geometry and brightness.
//! - [`habit`]: habits and the list that holds them.
//! - [`tracker`]: marking, unmarking and recomputing streaks.
//! - [`graph`]: the combined heatmap of several habits.

pub mod calendar;
pub mod dateset;
pub mod graph;
pub mod habit;
pub mod heatmap;
pub mod history;
pub mod lexical;
pub mod streak;
pub mod tracker;
