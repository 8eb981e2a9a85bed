use earworm::ring::RollingRing;

const SAMPLE_RATE: usize = 48_000;

fn ring(frames: usize) -> RollingRing<[f32; 2]> {
    RollingRing::with_capacity_frames(frames, [0.0, 0.0])
}

fn frames(vals: &[f32]) -> Vec<[f32; 2]> {
    vals.iter().map(|v| [*v, *v]).collect()
}

fn firsts(fr: &[[f32; 2]]) -> Vec<f32> {
    fr.iter().map(|f| f[0]).collect()
}

#[test]
fn fills_and_snapshots_chronologically() {
    let mut r = ring(SAMPLE_RATE);
    r.push(&frames(&[1.0, 2.0, 3.0]));
    assert_eq!(firsts(&r.snapshot_last(SAMPLE_RATE)), vec![1.0, 2.0, 3.0]);
}

#[test]
fn overwrites_oldest_when_full() {
    let mut r = ring(4);
    r.push(&frames(&[1.0, 2.0, 3.0, 4.0, 5.0, 6.0]));
    assert_eq!(firsts(&r.snapshot_last(10 * SAMPLE_RATE)), vec![3.0, 4.0, 5.0, 6.0]);
}

#[test]
fn snapshot_subset_returns_most_recent() {
    let mut r = ring(SAMPLE_RATE);
    let vals: Vec<f32> = (0..1000).map(|i| i as f32).collect();
    r.push(&frames(&vals));
    let last = r.snapshot_last(10);
    assert_eq!(firsts(&last), (990..1000).map(|i| i as f32).collect::<Vec<_>>());
}

#[test]
fn push_larger_than_capacity_keeps_tail() {
    let mut r = ring(3);
    r.push(&frames(&[1.0, 2.0, 3.0, 4.0, 5.0, 6.0, 7.0]));
    assert_eq!(firsts(&r.snapshot_last(SAMPLE_RATE)), vec![5.0, 6.0, 7.0]);
}

#[test]
fn push_wrapping_across_two_calls_stays_chronological() {
    let mut r = ring(4);
    r.push(&frames(&[1.0, 2.0, 3.0]));
    r.push(&frames(&[4.0, 5.0, 6.0]));
    assert_eq!(firsts(&r.snapshot_last(10 * SAMPLE_RATE)), vec![3.0, 4.0, 5.0, 6.0]);
}

#[test]
fn filled_secs_caps_at_capacity() {
    let mut r = ring(2);
    r.push(&frames(&[1.0]));
    assert!(r.filled_frames() < 2);
    r.push(&frames(&[2.0, 3.0, 4.0]));
    assert_eq!(r.filled_frames(), 2);
}

#[test]
fn tracks_total_frames_written_monotonically() {
    let mut r = ring(4);
    r.push(&frames(&[1.0, 2.0]));
    assert_eq!(r.total_frames_written(), 2);
    r.push(&frames(&[3.0, 4.0, 5.0, 6.0, 7.0]));
    assert_eq!(r.total_frames_written(), 7);
}

#[test]
fn reads_an_absolute_frame_range_still_in_the_window() {
    let mut r = ring(8);
    for f in 0..6u32 {
        r.push(&frames(&[f as f32]));
    }
    let got = r.read_range(2, 5).expect("in window");
    assert_eq!(firsts(&got), vec![2.0, 3.0, 4.0]);
}

#[test]
fn read_range_returns_none_when_evicted() {
    let mut r = ring(4);
    for f in 0..10u32 {
        r.push(&frames(&[f as f32]));
    }
    assert!(r.read_range(0, 4).is_none());
    assert_eq!(firsts(&r.read_range(6, 10).unwrap()), vec![6.0, 7.0, 8.0, 9.0]);
}

#[test]
fn read_range_matches_snapshot_last_geometry() {
    let mut r = ring(4);
    r.push(&frames(&[1.0, 2.0, 3.0]));
    r.push(&frames(&[4.0, 5.0, 6.0]));
    let total = r.total_frames_written();
    let via_range = r.read_range(total - 4, total).unwrap();
    assert_eq!(firsts(&via_range), firsts(&r.snapshot_last(10 * SAMPLE_RATE)));
}

#[test]
fn zero_capacity_ring_records_nothing() {
    let mut r = ring(0);
    r.push(&frames(&[1.0, 2.0]));
    assert_eq!(r.total_frames_written(), 0);
    assert!(r.snapshot_last(5).is_empty());
    assert_eq!(r.read_range(0, 0), Some(vec![]));
    assert!(r.read_range(0, 1).is_none());
}

#[test]
fn read_range_rejects_reversed_and_future_ranges() {
    let mut r = ring(4);
    r.push(&frames(&[1.0, 2.0, 3.0]));
    assert!(r.read_range(2, 1).is_none());
    assert!(r.read_range(1, 4).is_none());
    assert_eq!(r.read_range(3, 3), Some(vec![]));
}

#[test]
fn held_frames_are_all_written_up_to_the_capacity() {
    let mut r = ring(5);
    assert_eq!(r.filled_frames(), 0);
    r.push(&frames(&[1.0, 2.0, 3.0]));
    assert_eq!(r.filled_frames(), 3);
    r.push(&frames(&[4.0, 5.0, 6.0, 7.0]));
    assert_eq!(r.filled_frames(), 5);
    assert_eq!(r.total_frames_written(), 7);
}

#[test]
fn a_window_without_capacity_records_nothing() {
    let mut r = ring(0);
    r.push(&frames(&[1.0, 2.0]));
    assert_eq!(r.filled_frames(), 0);
    assert_eq!(r.total_frames_written(), 0);
    assert_eq!(r.read_range(0, 0), Some(vec![]));
}
