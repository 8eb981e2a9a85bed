use earworm::model::LoopId;
use earworm::schedule::{due, next_state, Rating, Resurfacing};
use time::{Date, Month};

fn day(y: i32, m: Month, d: u8) -> i32 {
    Date::from_calendar_date(y, m, d).unwrap().to_julian_day()
}

#[test]
fn first_rating_schedules_first_interval() {
    let s = next_state(None, LoopId(1), Rating::Solid, day(2026, Month::June, 12));
    assert_eq!(s.interval_idx, 0);
    assert_eq!(s.due_on, day(2026, Month::June, 13));
}

#[test]
fn solid_advances_the_ladder() {
    let prev = Resurfacing { loop_id: LoopId(1), interval_idx: 1, due_on: day(2026, Month::June, 12) };
    let s = next_state(Some(prev), LoopId(1), Rating::Solid, day(2026, Month::June, 12));
    assert_eq!(s.interval_idx, 2);
    assert_eq!(s.due_on, day(2026, Month::June, 16));
}

#[test]
fn solid_clamps_at_top_rung() {
    let prev = Resurfacing { loop_id: LoopId(1), interval_idx: 4, due_on: day(2026, Month::June, 12) };
    let s = next_state(Some(prev), LoopId(1), Rating::Solid, day(2026, Month::June, 12));
    assert_eq!(s.interval_idx, 4);
    assert_eq!(s.due_on, day(2026, Month::June, 26));
}

#[test]
fn shaky_repeats_the_rung() {
    let prev = Resurfacing { loop_id: LoopId(1), interval_idx: 2, due_on: day(2026, Month::June, 12) };
    let s = next_state(Some(prev), LoopId(1), Rating::Shaky, day(2026, Month::June, 12));
    assert_eq!(s.interval_idx, 2);
    assert_eq!(s.due_on, day(2026, Month::June, 16));
}

#[test]
fn miss_resets_to_first_rung() {
    let prev = Resurfacing { loop_id: LoopId(1), interval_idx: 3, due_on: day(2026, Month::June, 12) };
    let s = next_state(Some(prev), LoopId(1), Rating::Miss, day(2026, Month::June, 12));
    assert_eq!(s.interval_idx, 0);
    assert_eq!(s.due_on, day(2026, Month::June, 13));
}

#[test]
fn due_returns_overdue_and_today_sorted() {
    let items = vec![
        Resurfacing { loop_id: LoopId(1), interval_idx: 0, due_on: day(2026, Month::June, 14) },
        Resurfacing { loop_id: LoopId(2), interval_idx: 0, due_on: day(2026, Month::June, 10) },
        Resurfacing { loop_id: LoopId(3), interval_idx: 0, due_on: day(2026, Month::June, 12) },
    ];
    assert_eq!(due(&items, day(2026, Month::June, 12)), vec![LoopId(2), LoopId(3)]);
}

#[test]
fn due_keeps_input_order_for_the_same_day() {
    let items = vec![
        Resurfacing { loop_id: LoopId(5), interval_idx: 0, due_on: 100 },
        Resurfacing { loop_id: LoopId(4), interval_idx: 0, due_on: 99 },
        Resurfacing { loop_id: LoopId(6), interval_idx: 0, due_on: 100 },
    ];
    assert_eq!(due(&items, 100), vec![LoopId(4), LoopId(5), LoopId(6)]);
}

#[test]
fn solid_and_miss_apply_to_an_index_off_the_ladder() {
    let prev = Resurfacing { loop_id: LoopId(1), interval_idx: 9, due_on: day(2026, Month::June, 12) };
    let s = next_state(Some(prev), LoopId(1), Rating::Solid, day(2026, Month::June, 12));
    assert_eq!(s.interval_idx, 4);
    let m = next_state(Some(prev), LoopId(1), Rating::Miss, day(2026, Month::June, 12));
    assert_eq!(m.interval_idx, 0);
}
