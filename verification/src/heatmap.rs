//! The week-column heatmap: where a day lands on the terminal grid, and how bright it is.

use crate::calendar::{weekday_number, weekday_of, Date};
use crate::dateset::{date_set, day_values, DateSet};
use vstd::prelude::*;

verus! {

/// One coloured cell of the heatmap: terminal column, terminal row, and the green channel.
#[derive(Clone, Copy, Debug, PartialEq, Eq, Structural)]
pub struct Cell {
    pub x: u16,
    pub y: u16,
    pub intensity: u8,
}

/// Number of grid rows: one for each weekday.
pub const ROWS: u16 = 7;

/// Number of grid columns on a terminal `width` characters wide: a column takes two characters,
/// the cell and a spacer.
pub open spec fn grid_columns(width: int) -> int {
    width / 2
}

/// Computes the number of grid columns on a terminal `width` characters wide.
pub fn columns(width: u16) -> (count: u16)
    ensures
        count as int == grid_columns(width as int),
{
    width / 2
}

/// Weeks between the week of `day` and the week of `today`, weeks running Monday to Sunday.
/// It is 0 for the week of `today`, and negative for the weeks after it.
pub open spec fn week_bucket(day: int, today: int) -> int {
    (today - day + weekday_of(day) - 1) / 7
}

/// Terminal column of `day`: the week of `today` is the rightmost grid column, and each
/// earlier week lies two characters further left.
pub open spec fn column_of(day: int, today: int, width: int) -> int {
    2 * grid_columns(width) - 2 * (week_bucket(day, today) + 1)
}

/// Terminal row of `day`: Monday is row 0, Sunday is row 6.
pub open spec fn row_of(day: int) -> int {
    weekday_of(day) - 1
}

/// Whether `day` falls on a weekday after today's in the week of `today`. Such a day lies
/// ahead, and its cell in the rightmost column stays blank.
pub open spec fn upcoming(day: int, today: int) -> bool {
    week_bucket(day, today) == 0 && weekday_of(day) > weekday_of(today)
}

/// Whether `day` shows on the grid: its column lies on the grid and it is not blanked.
pub open spec fn visible(day: int, today: int, width: int) -> bool {
    &&& 0 <= column_of(day, today, width) < 2 * grid_columns(width)
    &&& !upcoming(day, today)
}

/// Brightness of a day that `count` of the `total` selected habits completed: the share
/// `count / total` scaled to 0..=255 and cut off at 255, fractions dropped.
pub open spec fn brightness(count: int, total: int) -> int {
    if count == 0 {
        0
    } else if count >= total {
        255
    } else {
        255 * count / total
    }
}

/// A day and the day a week before it: the earlier one lies exactly one grid column to the
/// left, two characters, and in the same row.
pub proof fn lemma_week_before_is_one_column_left(day: int, today: int, width: int)
    ensures
        column_of(day - 7, today, width) == column_of(day, today, width) - 2,
        row_of(day - 7) == row_of(day),
{
}

/// Today lies in the rightmost grid column, and shows wherever the grid has a column.
pub proof fn lemma_today_is_rightmost(today: int, width: int)
    requires
        width >= 2,
    ensures
        column_of(today, today, width) == 2 * grid_columns(width) - 2,
        visible(today, today, width),
{
}

/// A day shows exactly if it is not after today and its week is not further back than the
/// grid has columns. So no day to come is ever shown.
pub proof fn lemma_visible_days(day: int, today: int, width: int)
    ensures
        visible(day, today, width) <==> (day <= today && week_bucket(day, today) < grid_columns(
            width,
        )),
{
}

/// Two days that show do not share a cell.
pub proof fn lemma_cells_are_distinct(a: int, b: int, today: int, width: int)
    requires
        a != b,
    ensures
        column_of(a, today, width) != column_of(b, today, width) || row_of(a) != row_of(b),
{
}

/// A day that every selected habit holds is at full brightness, a day that one of several
/// holds is at its share of 255, and no brightness leaves the channel.
pub proof fn lemma_brightness_of_shares(count: int, total: int)
    requires
        0 <= count,
        1 <= total,
    ensures
        0 <= brightness(count, total) <= 255,
        brightness(total, total) == 255,
        total >= 2 ==> brightness(1, total) == 255int / total,
{
    if 0 < count < total {
        assert(0 <= (255 * count) / total < 255) by (nonlinear_arith)
            requires
                0 < count < total,
        ;
    }
}

/// Computes the brightness of a day completed by `count` of `total` habits.
pub fn intensity(count: usize, total: usize) -> (level: u8)
    ensures
        level as int == brightness(count as int, total as int),
{
    if count == 0 {
        0
    } else if count >= total {
        255
    } else {
        let scaled: u128 = 255u128 * (count as u128);
        let share: u128 = scaled / (total as u128);
        assert(share < 255) by (nonlinear_arith)
            requires
                share == (255 * count) / (total as int),
                0 < count < total,
        ;
        share as u8
    }
}

/// Computes the terminal position of `day` on a grid drawn for `today`, or `None` where the
/// day does not show.
pub fn place(day: i32, today: i32, width: u16) -> (spot: Option<(u16, u16)>)
    ensures
        spot is Some <==> visible(day as int, today as int, width as int),
        spot matches Some((x, y)) ==> x as int == column_of(day as int, today as int, width as int)
            && y as int == row_of(day as int) && y < ROWS,
{
    let weekday: i64 = weekday_number(day) as i64;
    let offset: i64 = today as i64 - day as i64 + weekday - 1;
    if offset < 0 {
        return None;
    }
    let bucket: i64 = offset / 7;
    let columns: i64 = columns(width) as i64;
    if bucket >= columns {
        return None;
    }
    if bucket == 0 && weekday > weekday_number(today) as i64 {
        return None;
    }
    let x: i64 = 2 * columns - 2 * (bucket + 1);
    Some((x as u16, (weekday - 1) as u16))
}

/// [`visible`] as a test on days.
pub open spec fn visible_on(today: int, width: int) -> spec_fn(int) -> bool {
    |day: int| visible(day, today, width)
}

/// How often `day` occurs among `days`.
pub open spec fn occurrences(days: Seq<int>, day: int) -> int {
    days.to_multiset().count(day) as int
}

/// The cell of a visible day: its place on the grid, and the brightness for the number of
/// times that it occurs among `days`, out of `total` habits.
pub open spec fn cell_of(day: int, days: Seq<int>, total: int, today: int, width: int) -> Cell {
    Cell {
        x: column_of(day, today, width) as u16,
        y: row_of(day) as u16,
        intensity: brightness(occurrences(days, day), total) as u8,
    }
}

/// [`cell_of`] as a function of the day.
pub open spec fn cell_maker(days: Seq<int>, total: int, today: int, width: int) -> spec_fn(
    int,
) -> Cell {
    |day: int| cell_of(day, days, total, today, width)
}

/// The cells of the days of `set` that show, latest day first.
pub open spec fn marks_among(
    set: Seq<int>,
    days: Seq<int>,
    total: int,
    today: int,
    width: int,
) -> Seq<Cell> {
    set.filter(visible_on(today, width)).reverse().map_values(
        cell_maker(days, total, today, width),
    )
}

/// The heatmap of the merged histories `days` of `total` habits: one cell for each distinct
/// day that shows, latest day first.
pub open spec fn marks(days: Seq<int>, total: int, today: int, width: int) -> Seq<Cell> {
    marks_among(date_set(days), days, total, today, width)
}

proof fn lemma_marks_among_prepend(
    day: int,
    later: Seq<int>,
    days: Seq<int>,
    total: int,
    today: int,
    width: int,
)
    ensures
        marks_among(seq![day] + later, days, total, today, width) == if visible(
            day,
            today,
            width,
        ) {
            marks_among(later, days, total, today, width).push(
                cell_of(day, days, total, today, width),
            )
        } else {
            marks_among(later, days, total, today, width)
        },
{
    let test = visible_on(today, width);
    let make = cell_maker(days, total, today, width);
    later.lemma_filter_prepend(day, test);
    let shown = later.filter(test);
    if visible(day, today, width) {
        assert((seq![day] + shown).reverse() =~= shown.reverse().push(day));
        assert(shown.reverse().push(day).map_values(make) =~= shown.reverse().map_values(
            make,
        ).push(make(day)));
    } else {
        assert(Seq::<int>::empty() + shown =~= shown);
    }
}

/// Counts how often `day` occurs among `days`.
pub fn count_day(days: &Vec<i32>, day: i32) -> (n: usize)
    ensures
        n as int == occurrences(day_values(days@), day as int),
{
    let ghost all = day_values(days@);
    let mut n: usize = 0;
    let mut i: usize = 0;
    proof {
        all.take(0).to_multiset_ensures();
        assert(!all.take(0).contains(day as int));
    }
    while i < days.len()
        invariant
            i <= days.len(),
            all == day_values(days@),
            n <= i,
            n as int == occurrences(all.take(i as int), day as int),
        decreases days.len() - i,
    {
        proof {
            let seen = all.take(i as int);
            let next = all[i as int];
            assert(all.take(i + 1) =~= seen.push(next));
            broadcast use vstd::multiset::group_multiset_axioms;
            vstd::seq_lib::to_multiset_build(seen, next);
            assert(seen.to_multiset().insert(next).count(day as int) == seen.to_multiset().count(
                day as int,
            ) + if next == day as int {
                1nat
            } else {
                0nat
            });
            assert(next == days@[i as int] as int);
        }
        if days[i] == day {
            n += 1;
        }
        i += 1;
    }
    assert(all.take(i as int) =~= all);
    n
}

/// Lays out the heatmap of the merged histories `days` of `total` habits.
pub fn plot(days: &Vec<i32>, total: usize, today: &Date, width: u16) -> (cells: Vec<Cell>)
    ensures
        cells@ == marks(day_values(days@), total as int, today@.day, width as int),
{
    let set = DateSet::from_days(days);
    let now: i32 = today.day();
    let ghost all = day_values(days@);
    let mut cells: Vec<Cell> = Vec::new();
    let distinct = set.days();
    let mut k: usize = distinct.len();
    assert(set@.skip(k as int) =~= Seq::<int>::empty());
    assert(marks_among(Seq::<int>::empty(), all, total as int, now as int, width as int)
        =~= Seq::<Cell>::empty());
    while k > 0
        invariant
            k <= distinct@.len(),
            day_values(distinct@) == set@,
            all == day_values(days@),
            cells@ == marks_among(set@.skip(k as int), all, total as int, now as int, width as int),
        decreases k,
    {
        k -= 1;
        let day: i32 = distinct[k];
        proof {
            assert(set@.skip(k as int) =~= seq![day as int] + set@.skip(k + 1));
            lemma_marks_among_prepend(
                day as int,
                set@.skip(k + 1),
                all,
                total as int,
                now as int,
                width as int,
            );
        }
        match place(day, now, width) {
            Some((x, y)) => {
                let level = intensity(count_day(days, day), total);
                cells.push(Cell { x, y, intensity: level });
            },
            None => {},
        }
    }
    assert(set@.skip(0) =~= set@);
    cells
}

} // verus!
