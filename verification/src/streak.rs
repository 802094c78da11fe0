//! The current streak: how many days in a row, ending today, a habit was completed.

use crate::calendar::Date;
use crate::dateset::{day_values, strictly_ascending, DateSet};
use vstd::prelude::*;

verus! {

/// `n` is the length of the run of consecutive days in `set` that ends on `today`: the `n`
/// days up to and including `today` are all in the set, and the day before them is not.
pub open spec fn is_run_length(set: Seq<int>, today: int, n: int) -> bool {
    &&& 0 <= n
    &&& forall|d: int| today - n < d <= today ==> set.contains(d)
    &&& !set.contains(today - n)
}

/// The length of the run of consecutive days in `set` that ends on `today`. It is 0 where
/// `today` itself is not in the set, whatever the set holds before or after it.
pub open spec fn streak_length(set: Seq<int>, today: int) -> int {
    choose|n: int| is_run_length(set, today, n)
}

/// A set has one run length only.
pub proof fn lemma_run_length_unique(set: Seq<int>, today: int, a: int, b: int)
    requires
        is_run_length(set, today, a),
        is_run_length(set, today, b),
    ensures
        a == b,
{
    if a < b {
        assert(set.contains(today - a));
    }
    if b < a {
        assert(set.contains(today - b));
    }
}

/// A number that meets the description of the run length is the streak.
pub proof fn lemma_streak_is(set: Seq<int>, today: int, n: int)
    requires
        is_run_length(set, today, n),
    ensures
        streak_length(set, today) == n,
{
    lemma_run_length_unique(set, today, n, streak_length(set, today));
}

/// A day below every day of the list.
proof fn lemma_floor(set: Seq<int>) -> (low: int)
    ensures
        forall|d: int| set.contains(d) ==> low < d,
    decreases set.len(),
{
    if set.len() == 0 {
        0
    } else {
        let rest = lemma_floor(set.drop_last());
        let low = if set.last() <= rest {
            set.last() - 1
        } else {
            rest
        };
        assert forall|d: int| set.contains(d) implies low < d by {
            let i = choose|i: int| 0 <= i < set.len() && set[i] == d;
            if i < set.len() - 1 {
                assert(set.drop_last()[i] == d);
                assert(set.drop_last().contains(d));
            }
        }
        low
    }
}

proof fn lemma_run_from(set: Seq<int>, today: int, n: int, low: int)
    requires
        0 <= n,
        forall|d: int| today - n < d <= today ==> set.contains(d),
        forall|d: int| set.contains(d) ==> low < d,
    ensures
        exists|m: int| is_run_length(set, today, m),
    decreases today - n - low,
{
    if set.contains(today - n) {
        lemma_run_from(set, today, n + 1, low);
    } else {
        assert(is_run_length(set, today, n));
    }
}

/// Every list of days has its run length: the streak is defined for every history.
pub proof fn lemma_streak_exists(set: Seq<int>, today: int)
    ensures
        is_run_length(set, today, streak_length(set, today)),
{
    let low = lemma_floor(set);
    lemma_run_from(set, today, 0, low);
}

/// The streak depends on which days a list holds, not on their order or number.
pub proof fn lemma_streak_of_same_days(a: Seq<int>, b: Seq<int>, today: int)
    requires
        forall|d: int| a.contains(d) <==> b.contains(d),
    ensures
        streak_length(a, today) == streak_length(b, today),
{
    lemma_streak_exists(a, today);
    lemma_streak_exists(b, today);
    let n = streak_length(a, today);
    assert(is_run_length(b, today, n));
    lemma_run_length_unique(b, today, n, streak_length(b, today));
}

/// A history without entries has streak 0, whatever day it is.
pub proof fn lemma_empty_history_has_no_streak(today: int)
    ensures
        streak_length(Seq::<int>::empty(), today) == 0,
{
    lemma_streak_is(Seq::<int>::empty(), today, 0);
}

/// A history that lacks today has streak 0: the run must end today.
pub proof fn lemma_unmarked_today_has_no_streak(set: Seq<int>, today: int)
    requires
        !set.contains(today),
    ensures
        streak_length(set, today) == 0,
{
    lemma_streak_is(set, today, 0);
}

/// Whatever a history holds, once today is in it the streak is one more than the run that
/// ended yesterday. So marking today adds exactly one, and marking it again adds nothing.
pub proof fn lemma_marking_today_adds_one(set: Seq<int>, marked: Seq<int>, today: int)
    requires
        forall|d: int| marked.contains(d) <==> (set.contains(d) || d == today),
    ensures
        streak_length(marked, today) == streak_length(set, today - 1) + 1,
{
    lemma_streak_exists(set, today - 1);
    let n = streak_length(set, today - 1);
    assert forall|d: int| today - (n + 1) < d <= today implies marked.contains(d) by {
        if d < today {
            assert(set.contains(d));
        }
    }
    lemma_streak_is(marked, today, n + 1);
}

/// Computes the current streak by walking the set from its latest day back: the day
/// expected next starts as the day after `today`; an entry one day before the expected day
/// counts and becomes the expected day, any other entry is passed over. On an ascending set
/// an entry that follows a gap can never count, so the walk yields the run that ends today.
pub fn current_streak(set: &DateSet, today: &Date) -> (streak: u32)
    ensures
        is_run_length(set@, today@.day, streak as int),
        streak as int == streak_length(set@, today@.day),
{
    let t: i32 = today.day();
    let mut expected: i32 = t + 1;
    let mut streak: u32 = 0;
    let days = set.days();
    let mut i: usize = days.len();
    while i > 0
        invariant
            i <= days@.len(),
            day_values(days@) == set@,
            strictly_ascending(set@),
            -100_000_000 < t < 100_000_000,
            t as int == today@.day,
            expected as int == t + 1 - streak,
            forall|d: int| t - streak < d <= t ==> set@.contains(d),
            forall|j: int| i <= j < set@.len() ==> set@[j] != expected - 1,
        decreases i,
    {
        i -= 1;
        let day: i32 = days[i];
        assert(set@[i as int] == day);
        if expected as i64 - day as i64 == 1 {
            streak += 1;
            expected = day;
            assert(set@.contains(day as int));
        }
    }
    proof {
        if set@.contains(expected - 1) {
            let j = choose|j: int| 0 <= j < set@.len() && set@[j] == expected - 1;
            assert(false);
        }
        lemma_streak_is(set@, t as int, streak as int);
    }
    streak
}

} // verus!
