//! Spaced resurfacing of practiced loops. Days are Julian day numbers. A
//! `Solid` rating advances a loop one rung up the interval ladder, `Shaky`
//! repeats its rung, and `Miss` resets it to the first rung.
use vstd::prelude::*;
use crate::model::LoopId;

verus! {

/// Number of rungs on the interval ladder.
pub const RUNGS: usize = 5;

/// Julian day number of the last representable calendar date (9999-12-31).
pub const MAX_DAY: i32 = 5_373_484;

/// Days until a loop resurfaces on each rung: 1, 2, 4, 7, 14.
pub open spec fn interval_days(idx: int) -> int {
    if idx == 0 { 1 }
    else if idx == 1 { 2 }
    else if idx == 2 { 4 }
    else if idx == 3 { 7 }
    else { 14 }
}

/// The interval (days) of rung `idx`.
pub fn interval(idx: usize) -> (d: i32)
    requires
        idx < RUNGS,
    ensures
        d == interval_days(idx as int),
        d == seq![1int, 2, 4, 7, 14][idx as int],
{
    if idx == 0 { 1 } else if idx == 1 { 2 } else if idx == 2 { 4 } else if idx == 3 { 7 } else { 14 }
}

#[derive(Debug, Clone, Copy, PartialEq, Eq, Structural)]
pub enum Rating {
    Miss,
    Shaky,
    Solid,
}

#[derive(Debug, Clone, Copy, PartialEq, Eq, Structural)]
pub struct Resurfacing {
    pub loop_id: LoopId,
    pub interval_idx: usize,
    /// Julian day number the loop is due on.
    pub due_on: i32,
}

/// The rung a loop lands on after being rated.
pub open spec fn next_rung(prev: Option<Resurfacing>, rating: Rating) -> int {
    match (prev, rating) {
        (None, _) => 0,
        (_, Rating::Miss) => 0,
        (Some(p), Rating::Shaky) => p.interval_idx as int,
        (Some(p), Rating::Solid) => if p.interval_idx + 1 < RUNGS { p.interval_idx + 1 } else { RUNGS - 1 },
    }
}

/// The rating can be applied to the previous state: repeating a rung
/// (`Shaky`) needs a real rung to repeat, and advancing (`Solid`) needs a next
/// index. A `Miss`, or a first rating, applies to anything.
pub open spec fn rating_applies(prev: Option<Resurfacing>, rating: Rating) -> bool {
    match (prev, rating) {
        (Some(p), Rating::Shaky) => p.interval_idx < RUNGS,
        (Some(p), Rating::Solid) => p.interval_idx < usize::MAX,
        _ => true,
    }
}

/// Compute the next schedule state after a rated practice on day `today`.
/// The due date must stay within the calendar.
pub fn next_state(prev: Option<Resurfacing>, loop_id: LoopId, rating: Rating, today: i32) -> (r: Resurfacing)
    requires
        rating_applies(prev, rating),
        today + interval_days(next_rung(prev, rating)) <= MAX_DAY,
    ensures
        r.loop_id == loop_id,
        r.interval_idx == next_rung(prev, rating),
        r.due_on == today + interval_days(r.interval_idx as int),
        r.due_on == today + seq![1int, 2, 4, 7, 14][r.interval_idx as int],
        r.interval_idx < RUNGS,
{
    let interval_idx = match (prev, rating) {
        (None, _) => 0,
        (_, Rating::Miss) => 0,
        (Some(p), Rating::Shaky) => p.interval_idx,
        (Some(p), Rating::Solid) => if p.interval_idx + 1 < RUNGS { p.interval_idx + 1 } else { RUNGS - 1 },
    };
    Resurfacing { loop_id, interval_idx, due_on: today + interval(interval_idx) }
}

/// `s` (ordered by due day) with `x` placed after every entry due no later.
pub open spec fn insert_by_due(s: Seq<Resurfacing>, x: Resurfacing) -> Seq<Resurfacing>
    decreases s.len(),
{
    if s.len() == 0 || s.last().due_on <= x.due_on {
        s.push(x)
    } else {
        insert_by_due(s.drop_last(), x).push(s.last())
    }
}

/// The entries due on or before `today`, soonest first; entries due the same
/// day keep their original order.
pub open spec fn due_entries(items: Seq<Resurfacing>, today: int) -> Seq<Resurfacing>
    decreases items.len(),
{
    if items.len() == 0 {
        Seq::empty()
    } else {
        let rest = due_entries(items.drop_last(), today);
        if items.last().due_on <= today { insert_by_due(rest, items.last()) } else { rest }
    }
}

/// Entries ordered by due day.
pub open spec fn by_due(s: Seq<Resurfacing>) -> bool {
    forall|i: int, j: int| 0 <= i < j < s.len() ==> (#[trigger] s[i]).due_on <= (#[trigger] s[j]).due_on
}

fn insert_entry(hits: &mut Vec<Resurfacing>, x: Resurfacing)
    ensures
        final(hits)@ == insert_by_due(old(hits)@, x),
{
    let mut j = hits.len();
    assert(hits@.take(j as int) == hits@);
    assert(hits@.skip(j as int) =~= Seq::<Resurfacing>::empty());
    assert(insert_by_due(hits@, x) + Seq::<Resurfacing>::empty() == insert_by_due(hits@, x));
    while j > 0 && hits[j - 1].due_on > x.due_on
        invariant
            j <= hits@.len(),
            hits@ == old(hits)@,
            insert_by_due(hits@, x) == insert_by_due(hits@.take(j as int), x) + hits@.skip(j as int),
        decreases j,
    {
        proof {
            let t = hits@.take(j as int);
            assert(t.drop_last() == hits@.take(j - 1));
            assert(t.last() == hits@[j - 1]);
            assert(hits@.skip(j - 1) == seq![hits@[j - 1]] + hits@.skip(j as int));
            assert(insert_by_due(t, x) == insert_by_due(hits@.take(j - 1), x).push(hits@[j - 1]));
            assert(insert_by_due(hits@.take(j - 1), x).push(hits@[j - 1]) + hits@.skip(j as int)
                == insert_by_due(hits@.take(j - 1), x) + hits@.skip(j - 1));
        }
        j = j - 1;
    }
    proof {
        let t = hits@.take(j as int);
        assert(insert_by_due(t, x) == t.push(x));
        assert(t.push(x) + hits@.skip(j as int) == hits@.insert(j as int, x));
    }
    hits.insert(j, x);
}

/// Loops due on or before `today`, soonest-due first (ties keep input order).
pub fn due(items: &[Resurfacing], today: i32) -> (r: Vec<LoopId>)
    ensures
        r@ == due_entries(items@, today as int).map_values(|e: Resurfacing| e.loop_id),
{
    let mut hits: Vec<Resurfacing> = Vec::new();
    let mut i: usize = 0;
    while i < items.len()
        invariant
            i <= items@.len(),
            hits@ == due_entries(items@.take(i as int), today as int),
        decreases items.len() - i,
    {
        proof {
            assert(items@.take(i + 1).drop_last() == items@.take(i as int));
            assert(items@.take(i + 1).last() == items@[i as int]);
        }
        if items[i].due_on <= today {
            insert_entry(&mut hits, items[i]);
        }
        i = i + 1;
    }
    proof {
        assert(items@.take(items@.len() as int) == items@);
    }
    let mut out: Vec<LoopId> = Vec::new();
    let mut k: usize = 0;
    while k < hits.len()
        invariant
            k <= hits@.len(),
            out@ == hits@.take(k as int).map_values(|e: Resurfacing| e.loop_id),
        decreases hits.len() - k,
    {
        out.push(hits[k].loop_id);
        proof {
            assert(hits@.take(k + 1) == hits@.take(k as int).push(hits@[k as int]));
            assert(hits@.take(k + 1).map_values(|e: Resurfacing| e.loop_id)
                == hits@.take(k as int).map_values(|e: Resurfacing| e.loop_id).push(hits@[k as int].loop_id));
        }
        k = k + 1;
    }
    proof {
        assert(hits@.take(hits@.len() as int) == hits@);
    }
    out
}

proof fn lemma_insert_by_due_sorted(s: Seq<Resurfacing>, x: Resurfacing)
    requires
        by_due(s),
    ensures
        by_due(insert_by_due(s, x)),
        insert_by_due(s, x).len() == s.len() + 1,
        forall|k: int| 0 <= k < insert_by_due(s, x).len() ==> (#[trigger] insert_by_due(s, x)[k]) == x
            || s.contains(insert_by_due(s, x)[k]),
    decreases s.len(),
{
    if s.len() > 0 && s.last().due_on > x.due_on {
        let init = s.drop_last();
        assert(by_due(init));
        lemma_insert_by_due_sorted(init, x);
        let r = insert_by_due(init, x);
        assert forall|k: int| 0 <= k < r.len() implies (#[trigger] r[k]).due_on <= s.last().due_on by {
            if r[k] != x {
                let j = choose|j: int| 0 <= j < init.len() && init[j] == r[k];
                assert(s[j] == init[j]);
            }
        }
        assert forall|k: int| 0 <= k < r.push(s.last()).len() implies (#[trigger] r.push(s.last())[k]) == x
            || s.contains(r.push(s.last())[k]) by {
            if k < r.len() && r[k] != x {
                let j = choose|j: int| 0 <= j < init.len() && init[j] == r[k];
                assert(s[j] == init[j]);
            } else if k == r.len() {
                assert(s[s.len() - 1] == s.last());
            }
        }
    } else {
        assert forall|k: int| 0 <= k < s.push(x).len() implies (#[trigger] s.push(x)[k]) == x
            || s.contains(s.push(x)[k]) by {
            if k < s.len() {
                assert(s[k] == s.push(x)[k]);
            }
        }
    }
}

/// The loops `due` returns are ordered soonest-due first, and every one of
/// them is due by `today`.
pub proof fn lemma_due_sorted_and_due(items: Seq<Resurfacing>, today: int)
    ensures
        by_due(due_entries(items, today)),
        forall|k: int| 0 <= k < due_entries(items, today).len()
            ==> (#[trigger] due_entries(items, today)[k]).due_on <= today && items.contains(due_entries(items, today)[k]),
    decreases items.len(),
{
    if items.len() > 0 {
        let init = items.drop_last();
        lemma_due_sorted_and_due(init, today);
        let rest = due_entries(init, today);
        if items.last().due_on <= today {
            lemma_insert_by_due_sorted(rest, items.last());
            let r = insert_by_due(rest, items.last());
            assert forall|k: int| 0 <= k < r.len() implies (#[trigger] r[k]).due_on <= today && items.contains(r[k]) by {
                if r[k] == items.last() {
                    assert(items[items.len() - 1] == items.last());
                } else {
                    let j = choose|j: int| 0 <= j < rest.len() && rest[j] == r[k];
                    let m = choose|m: int| 0 <= m < init.len() && init[m] == rest[j];
                    assert(items[m] == init[m]);
                }
            }
        } else {
            assert forall|k: int| 0 <= k < rest.len() implies (#[trigger] rest[k]).due_on <= today && items.contains(rest[k]) by {
                let m = choose|m: int| 0 <= m < init.len() && init[m] == rest[k];
                assert(items[m] == init[m]);
            }
        }
    }
}

/// The interval ladder: rungs 0 to 4 wait 1, 2, 4, 7 and 14 days, each rung
/// strictly longer than the one below it.
pub proof fn lemma_interval_ladder()
    ensures
        forall|i: int| 0 <= i < RUNGS ==> #[trigger] interval_days(i) == seq![1int, 2, 4, 7, 14][i],
        forall|i: int, j: int| 0 <= i < j < RUNGS ==> #[trigger] interval_days(i) < #[trigger] interval_days(j),
        interval_days(0) == 1,
        interval_days(RUNGS - 1) == 14,
{
    assert(seq![1int, 2, 4, 7, 14][3] == 7);
}

/// A rating moves the due day by the new rung's interval: a `Solid` rating
/// on rung `k < 4` lands on rung `k + 1`, due `[2, 4, 7, 14][k]` days later
/// (longer than rung `k`'s wait); `Shaky` waits rung `k`'s interval again;
/// at the top rung `Solid` stays there, 14 days; a `Miss` (or a first
/// rating) goes back to rung 0, one day.
pub proof fn lemma_rating_moves_due(p: Resurfacing, rating: Rating, today: int)
    requires
        p.interval_idx < RUNGS,
    ensures
        rating == Rating::Solid && p.interval_idx + 1 < RUNGS ==> next_rung(Some(p), rating) == p.interval_idx + 1
            && interval_days(next_rung(Some(p), rating)) == seq![2int, 4, 7, 14][p.interval_idx as int]
            && interval_days(next_rung(Some(p), rating)) > interval_days(p.interval_idx as int),
        rating == Rating::Solid && p.interval_idx + 1 >= RUNGS ==> next_rung(Some(p), rating) == RUNGS - 1
            && interval_days(next_rung(Some(p), rating)) == 14,
        rating == Rating::Shaky ==> next_rung(Some(p), rating) == p.interval_idx
            && interval_days(next_rung(Some(p), rating)) == interval_days(p.interval_idx as int),
        rating == Rating::Miss ==> next_rung(Some(p), rating) == 0 && interval_days(next_rung(Some(p), rating)) == 1,
        next_rung(None, rating) == 0 && interval_days(next_rung(None, rating)) == 1,
{
    lemma_interval_ladder();
}

} // verus!
