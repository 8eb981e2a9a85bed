use earworm::looper::{Looper, ReadInfo, Segment, XFADE_FRAMES};

/// Read `n` frames in chunks of at most 256, counting wraps.
fn read_frames(l: &mut Looper, n: usize) -> (Vec<Segment>, usize) {
    let mut segs = Vec::new();
    let mut wraps = 0;
    let mut filled = 0;
    while filled < n {
        let chunk = (n - filled).min(256);
        let (info, s) = l.read(chunk);
        segs.extend(s);
        if info.wrapped {
            wraps += 1;
        }
        if info.finished {
            break;
        }
        filled += info.frames;
    }
    (segs, wraps)
}

#[test]
fn no_region_plays_through_and_finishes() {
    let mut l = Looper::new(1000);
    let (a, segs) = l.read(600);
    assert_eq!(a, ReadInfo { frames: 600, wrapped: false, finished: false });
    assert_eq!(segs, vec![Segment::Run { src: 0, frames: 600 }]);
    let (b, _) = l.read(600);
    assert_eq!(b.frames, 400);
    assert!(b.finished);
}

#[test]
fn loop_period_is_exact() {
    let mut l = Looper::new(50_000);
    l.set_region(10_000, 20_000);
    let (_, wraps) = read_frames(&mut l, 40_000);
    assert_eq!(wraps, 4);
}

#[test]
fn crossfade_is_continuous_and_lands_at_head_plus_xfade() {
    let mut l = Looper::new(50_000);
    l.set_region(10_000, 20_000);
    let (segs, wraps) = read_frames(&mut l, 10_000);
    assert_eq!(wraps, 1);
    assert_eq!(segs[0], Segment::Run { src: 10_000, frames: 256 });
    // the last blended frame pairs the region's last frame with the head
    match segs.last().unwrap() {
        Segment::Blend { tail, head, k, xfade } => {
            assert_eq!(*tail, 19_999);
            assert_eq!(*head, 10_000 + XFADE_FRAMES - 1);
            assert_eq!(*k, XFADE_FRAMES - 1);
            assert_eq!(*xfade, XFADE_FRAMES);
        }
        s => panic!("expected a blend, got {s:?}"),
    }
    assert_eq!(l.pos_frames(), 10_000 + XFADE_FRAMES);
}

#[test]
fn outside_region_jumps_to_start() {
    let mut l = Looper::new(50_000);
    l.seek(40_000);
    assert!(l.set_region(10_000, 20_000));
    let (_, segs) = l.read(1);
    assert_eq!(segs, vec![Segment::Run { src: 10_000, frames: 1 }]);
}

#[test]
fn tiny_region_shrinks_crossfade_instead_of_breaking() {
    let mut l = Looper::new(50_000);
    l.set_region(100, 300);
    let (_, wraps) = read_frames(&mut l, 2_000);
    assert_eq!(wraps, 13);
}

#[test]
fn loop_period_reports_region_less_crossfade() {
    let mut l = Looper::new(50_000);
    assert_eq!(l.loop_period_frames(), None);
    l.set_region(10_000, 20_000);
    assert_eq!(l.loop_period_frames(), Some(10_000 - XFADE_FRAMES));
    l.set_region(100, 300);
    assert_eq!(l.loop_period_frames(), Some(150));
    l.clear_region();
    assert_eq!(l.region(), None);
}

#[test]
fn set_region_inside_keeps_position() {
    let mut l = Looper::new(50_000);
    l.seek(15_000);
    assert!(!l.set_region(10_000, 20_000));
    assert_eq!(l.pos_frames(), 15_000);
    assert_eq!(l.region(), Some((10_000, 20_000)));
}

#[test]
fn region_and_seek_clamp_to_song() {
    let mut l = Looper::new(1_000);
    l.seek(5_000);
    assert_eq!(l.pos_frames(), 1_000);
    l.set_region(2_000, 9_000);
    assert_eq!(l.region(), Some((1_000, 1_000)));
    let (info, segs) = l.read(10);
    assert!(info.finished);
    assert!(segs.is_empty());
}

#[test]
fn read_contiguous_stops_at_song_end() {
    let mut l = Looper::new(100);
    l.seek(90);
    assert_eq!(l.read_contiguous(50), 10);
    assert_eq!(l.pos_frames(), 100);
    assert_eq!(l.read_contiguous(5), 0);
}

#[test]
fn tiny_loop_wraps_at_its_end_without_a_blend() {
    let mut l = Looper::new(10);
    l.set_region(8, 10);
    assert_eq!(l.loop_period_frames(), Some(2));
    let (info, segs) = l.read(5);
    assert_eq!(info, ReadInfo { frames: 2, wrapped: true, finished: false });
    assert_eq!(segs, vec![Segment::Run { src: 8, frames: 2 }]);
    assert_eq!(l.pos_frames(), 8);
    let (info, segs) = l.read(5);
    assert_eq!(info.frames, 2);
    assert_eq!(segs, vec![Segment::Run { src: 8, frames: 2 }]);
}

#[test]
fn playhead_past_the_loop_end_jumps_to_its_start() {
    let mut l = Looper::new(10);
    l.set_region(2, 8);
    l.seek(10);
    let (info, segs) = l.read(3);
    assert_eq!(info.frames, 3);
    assert_eq!(segs[0], Segment::Run { src: 2, frames: 3 });
    for s in &segs {
        if let Segment::Blend { tail, .. } = s {
            assert!(*tail < 8);
        }
    }
}

#[test]
fn empty_region_at_the_playhead_does_not_count_as_a_move() {
    let mut l = Looper::new(100);
    l.seek(50);
    assert!(!l.set_region(50, 50));
    assert_eq!(l.pos_frames(), 50);
    assert!(l.set_region(10, 20));
    assert_eq!(l.pos_frames(), 10);
}

#[test]
fn frames_between_wraps_add_up_to_the_loop_period_for_any_read_size() {
    for (start, end, resume) in [(1000usize, 3000usize, 1480usize), (10, 12, 10), (40, 50, 42)] {
        for chunk in [1usize, 3, 7, 100, 480, 4096] {
            let mut l = Looper::new(10_000);
            l.set_region(start, end);
            while !l.read(chunk).0.wrapped {}
            assert_eq!(l.pos_frames(), resume);
            for _ in 0..3 {
                let mut frames = 0;
                loop {
                    let (info, _) = l.read(chunk);
                    frames += info.frames;
                    if info.wrapped {
                        break;
                    }
                }
                assert_eq!(frames, l.loop_period_frames().unwrap());
                assert_eq!(l.pos_frames(), resume);
            }
        }
    }
}
