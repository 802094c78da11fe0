//! The set of days on which a habit was completed, kept in ascending order.

use vstd::prelude::*;

verus! {

/// The days of `days` as mathematical integers.
pub open spec fn day_values(days: Seq<i32>) -> Seq<int> {
    days.map_values(|d: i32| d as int)
}

/// Every entry is later than the one before it.
pub open spec fn strictly_ascending(days: Seq<int>) -> bool {
    forall|i: int, j: int| 0 <= i < j < days.len() ==> days[i] < days[j]
}

/// `set` lists exactly the days that occur in `days`, each once, earliest first.
pub open spec fn is_date_set_of(set: Seq<int>, days: Seq<int>) -> bool {
    &&& strictly_ascending(set)
    &&& forall|d: int| set.contains(d) <==> days.contains(d)
}

/// The distinct days of `days`, earliest first.
pub open spec fn date_set(days: Seq<int>) -> Seq<int> {
    choose|set: Seq<int>| is_date_set_of(set, days)
}

/// Two ascending sequences that hold the same days are the same sequence.
pub proof fn lemma_ascending_unique(a: Seq<int>, b: Seq<int>)
    requires
        strictly_ascending(a),
        strictly_ascending(b),
        forall|d: int| a.contains(d) <==> b.contains(d),
    ensures
        a == b,
    decreases a.len(),
{
    if a.len() == 0 {
        if b.len() > 0 {
            assert(b.contains(b[0]));
            assert(a.contains(b[0]));
        }
        assert(a =~= b);
    } else {
        let top = a.last();
        assert(a.contains(top));
        assert(b.contains(top));
        let k = choose|k: int| 0 <= k < b.len() && b[k] == top;
        if k != b.len() - 1 {
            let above = b.last();
            assert(b.contains(above));
            assert(a.contains(above));
            let m = choose|m: int| 0 <= m < a.len() && a[m] == above;
            assert(a[m] <= top);
            assert(b[k] < b[b.len() - 1]);
        }
        let a0 = a.drop_last();
        let b0 = b.drop_last();
        assert forall|d: int| a0.contains(d) <==> b0.contains(d) by {
            if a0.contains(d) {
                let i = choose|i: int| 0 <= i < a0.len() && a0[i] == d;
                assert(a[i] == d);
                assert(a.contains(d));
                assert(b.contains(d));
                let j = choose|j: int| 0 <= j < b.len() && b[j] == d;
                assert(d < top);
                assert(b0[j] == d);
            }
            if b0.contains(d) {
                let j = choose|j: int| 0 <= j < b0.len() && b0[j] == d;
                assert(b[j] == d);
                assert(b.contains(d));
                assert(a.contains(d));
                let i = choose|i: int| 0 <= i < a.len() && a[i] == d;
                assert(d < top);
                assert(a0[i] == d);
            }
        }
        lemma_ascending_unique(a0, b0);
        assert(a =~= a0.push(top));
        assert(b =~= b0.push(top));
    }
}

/// Whatever ascending sequence holds exactly the days of `days` is their date set.
pub proof fn lemma_date_set_is(set: Seq<int>, days: Seq<int>)
    requires
        is_date_set_of(set, days),
    ensures
        set == date_set(days),
{
    let chosen = date_set(days);
    assert(is_date_set_of(chosen, days));
    lemma_ascending_unique(set, chosen);
}

/// An ascending sequence with `day` put in its place, unless it is there already.
proof fn lemma_insert(set: Seq<int>, day: int) -> (out: Seq<int>)
    requires
        strictly_ascending(set),
    ensures
        strictly_ascending(out),
        forall|d: int| out.contains(d) <==> (set.contains(d) || d == day),
    decreases set.len(),
{
    if set.len() == 0 {
        let out = seq![day];
        assert(out[0] == day);
        out
    } else if set.last() < day {
        let out = set.push(day);
        assert(out[out.len() - 1] == day);
        assert forall|d: int| out.contains(d) <==> (set.contains(d) || d == day) by {
            if set.contains(d) {
                let i = choose|i: int| 0 <= i < set.len() && set[i] == d;
                assert(out[i] == d);
            }
            if out.contains(d) {
                let i = choose|i: int| 0 <= i < out.len() && out[i] == d;
                if i < set.len() {
                    assert(set[i] == d);
                }
            }
        }
        out
    } else if set.last() == day {
        assert(set[set.len() - 1] == day);
        set
    } else {
        let top = set.last();
        let lower = set.drop_last();
        let inner = lemma_insert(lower, day);
        let out = inner.push(top);
        assert forall|i: int, j: int| 0 <= i < j < out.len() implies out[i] < out[j] by {
            if j == out.len() - 1 {
                assert(inner.contains(inner[i]));
                if lower.contains(inner[i]) {
                    let k = choose|k: int| 0 <= k < lower.len() && lower[k] == inner[i];
                    assert(set[k] < set[set.len() - 1]);
                }
            }
        }
        assert forall|d: int| out.contains(d) <==> (set.contains(d) || d == day) by {
            assert(out[out.len() - 1] == top);
            assert(set[set.len() - 1] == top);
            if set.contains(d) {
                let i = choose|i: int| 0 <= i < set.len() && set[i] == d;
                if i < lower.len() {
                    assert(lower[i] == d);
                    assert(lower.contains(d));
                    assert(inner.contains(d));
                    let k = choose|k: int| 0 <= k < inner.len() && inner[k] == d;
                    assert(out[k] == d);
                }
            }
            if d == day {
                assert(inner.contains(d));
                let k = choose|k: int| 0 <= k < inner.len() && inner[k] == d;
                assert(out[k] == d);
            }
            if out.contains(d) {
                let i = choose|i: int| 0 <= i < out.len() && out[i] == d;
                if i < inner.len() {
                    assert(inner[i] == d);
                    assert(inner.contains(d));
                    if lower.contains(d) {
                        let k = choose|k: int| 0 <= k < lower.len() && lower[k] == d;
                        assert(set[k] == d);
                    }
                }
            }
        }
        out
    }
}

/// Every list of days has a date set: ascending, and with the days of the list, no others.
pub proof fn lemma_date_set_exists(days: Seq<int>)
    ensures
        is_date_set_of(date_set(days), days),
    decreases days.len(),
{
    if days.len() == 0 {
        let none = Seq::<int>::empty();
        assert(is_date_set_of(none, days));
    } else {
        let earlier = days.drop_last();
        lemma_date_set_exists(earlier);
        let out = lemma_insert(date_set(earlier), days.last());
        assert forall|d: int| out.contains(d) <==> days.contains(d) by {
            assert(days[days.len() - 1] == days.last());
            if earlier.contains(d) {
                let i = choose|i: int| 0 <= i < earlier.len() && earlier[i] == d;
                assert(days[i] == d);
            }
            if days.contains(d) {
                let i = choose|i: int| 0 <= i < days.len() && days[i] == d;
                if i < earlier.len() {
                    assert(earlier[i] == d);
                }
            }
        }
        assert(is_date_set_of(out, days));
    }
}

/// The distinct days of a history, earliest first.
pub struct DateSet {
    days: Vec<i32>,
}

impl View for DateSet {
    type V = Seq<int>;

    closed spec fn view(&self) -> Seq<int> {
        day_values(self.days@)
    }
}

impl DateSet {
    #[verifier::type_invariant]
    spec fn ordered(&self) -> bool {
        strictly_ascending(self@)
    }

    /// The set without any day.
    pub fn new() -> (set: DateSet)
        ensures
            set@ == Seq::<int>::empty(),
    {
        let set = DateSet { days: Vec::new() };
        assert(set@ =~= Seq::<int>::empty());
        set
    }

    /// Number of days in the set.
    pub fn len(&self) -> (n: usize)
        ensures
            n == self@.len(),
            strictly_ascending(self@),
    {
        proof {
            use_type_invariant(self);
        }
        self.days.len()
    }

    /// The days of the set, earliest first.
    pub fn days(&self) -> (days: &Vec<i32>)
        ensures
            day_values(days@) == self@,
            strictly_ascending(self@),
    {
        proof {
            use_type_invariant(self);
        }
        &self.days
    }

    /// Collects the distinct days of `days`.
    pub fn from_days(days: &Vec<i32>) -> (set: DateSet)
        ensures
            set@ == date_set(day_values(days@)),
            is_date_set_of(set@, day_values(days@)),
    {
        let mut sorted: Vec<i32> = Vec::new();
        let ghost all = day_values(days@);
        assert(day_values(sorted@) =~= Seq::<int>::empty());
        let mut i: usize = 0;
        while i < days.len()
            invariant
                i <= days.len(),
                all == day_values(days@),
                is_date_set_of(day_values(sorted@), all.take(i as int)),
            decreases days.len() - i,
        {
            insert_day(&mut sorted, days[i]);
            proof {
                let seen = all.take(i as int);
                let next = all.take(i + 1);
                let now = day_values(sorted@);
                assert(next =~= seen.push(all[i as int]));
                assert forall|d: int| now.contains(d) <==> next.contains(d) by {
                    if next.contains(d) {
                        let k = choose|k: int| 0 <= k < next.len() && next[k] == d;
                        if k < i {
                            assert(seen[k] == d);
                            assert(seen.contains(d));
                        }
                    }
                    if seen.contains(d) {
                        let k = choose|k: int| 0 <= k < seen.len() && seen[k] == d;
                        assert(next[k] == d);
                    }
                    assert(next[i as int] == all[i as int]);
                }
            }
            i += 1;
        }
        proof {
            assert(all.take(i as int) =~= all);
            lemma_date_set_is(day_values(sorted@), all);
        }
        DateSet { days: sorted }
    }
}

/// Puts `day` into an ascending list of days, unless it is there already.
fn insert_day(days: &mut Vec<i32>, day: i32)
    requires
        strictly_ascending(day_values(old(days)@)),
    ensures
        strictly_ascending(day_values(final(days)@)),
        forall|d: int|
            day_values(final(days)@).contains(d) <==> (day_values(old(days)@).contains(d) || d
                == day),
{
    let ghost before = day_values(days@);
    let mut pos: usize = days.len();
    while pos > 0 && days[pos - 1] > day
        invariant
            pos <= days.len(),
            day_values(days@) == before,
            strictly_ascending(before),
            forall|k: int| pos <= k < before.len() ==> before[k] > day,
        decreases pos,
    {
        pos -= 1;
    }
    if pos > 0 && days[pos - 1] == day {
        assert(before[pos - 1] == day);
        assert(before.contains(day as int));
        return ;
    }
    days.insert(pos, day);
    proof {
        let after = day_values(days@);
        assert(after =~= before.insert(pos as int, day as int));
        assert(strictly_ascending(after));
        assert forall|d: int| after.contains(d) <==> (before.contains(d) || d == day) by {
            if after.contains(d) {
                let i = choose|i: int| 0 <= i < after.len() && after[i] == d;
                if i < pos {
                    assert(before[i] == d);
                } else if i > pos {
                    assert(before[i - 1] == d);
                }
            }
            if before.contains(d) {
                let i = choose|i: int| 0 <= i < before.len() && before[i] == d;
                if i < pos {
                    assert(after[i] == d);
                } else {
                    assert(after[i + 1] == d);
                }
            }
            if d == day {
                assert(after[pos as int] == d);
            }
        }
    }
}

} // verus!
