use earworm::bundle::{slug, unique_bundle_dir};
use earworm::model::{Isolation, STEM_COUNT};
use earworm::sidecar::sidecar_path;
use earworm::stream_clock::{ring_frame_at_ns, ClockSnapshot};

#[test]
fn maps_graph_time_to_stream_frame() {
    let s = ClockSnapshot { now_ns: 1_000_000_000, ticks: 48_000, rate_hz: 48_000 };
    assert_eq!(s.frame_at_ns(1_000_000_000), 48_000);
    assert_eq!(s.frame_at_ns(1_500_000_000), 48_000 + 24_000);
    assert_eq!(s.frame_at_ns(500_000_000), 48_000 - 24_000);
}

#[test]
fn maps_stream_frame_to_graph_time() {
    let s = ClockSnapshot { now_ns: 1_000_000_000, ticks: 48_000, rate_hz: 48_000 };
    assert_eq!(s.ns_at_frame(48_000), 1_000_000_000);
    assert_eq!(s.ns_at_frame(72_000), 1_500_000_000);
}

#[test]
fn frame_ns_round_trip() {
    let s = ClockSnapshot { now_ns: 5_000_000_000, ticks: 123_456, rate_hz: 48_000 };
    for f in [123_456_i64, 123_456 + 48_000, 123_456 + 96_000] {
        assert_eq!(s.frame_at_ns(s.ns_at_frame(f)), f);
    }
}

#[test]
fn ring_frame_maps_through_graph_time() {
    let cap = ClockSnapshot { now_ns: 0, ticks: 1000, rate_hz: 48_000 };
    let ring_total_at_snapshot = 1000;
    let song = ClockSnapshot { now_ns: 0, ticks: 0, rate_hz: 48_000 };
    let start_song_frame = 48_000;
    let t = song.ns_at_frame(start_song_frame);
    let ring_frame = ring_frame_at_ns(&cap, ring_total_at_snapshot, t);
    assert_eq!(ring_frame, 1000 + 48_000);
}

#[test]
fn ring_frame_with_offset_clocks() {
    let cap = ClockSnapshot { now_ns: 2_000_000_000, ticks: 500_000, rate_hz: 48_000 };
    let ring_total_at_snapshot = 500_000;
    let song = ClockSnapshot { now_ns: 1_900_000_000, ticks: 90_000, rate_hz: 48_000 };
    let start_song_frame = 96_000;
    let t = song.ns_at_frame(start_song_frame);
    let ring_frame = ring_frame_at_ns(&cap, ring_total_at_snapshot, t);
    let expect = ring_total_at_snapshot + (cap.frame_at_ns(t) - cap.ticks);
    assert_eq!(ring_frame, expect);
}

#[test]
fn slug_title_and_artist() {
    assert_eq!(slug("Weird Fishes", Some("Radiohead")), "Weird Fishes \u{2014} Radiohead");
}

#[test]
fn slug_no_artist() {
    assert_eq!(slug("untitled", None), "untitled");
}

#[test]
fn slug_replaces_slash_in_artist() {
    assert_eq!(slug("T.N.T.", Some("AC/DC")), "T.N.T. \u{2014} AC_DC");
}

#[test]
fn slug_whitespace_only_title_becomes_untitled() {
    assert_eq!(slug("   ", None), "untitled");
}

#[test]
fn model_default_is_full_band_no_focus() {
    let i = Isolation::default();
    assert!(!i.bass_focus);
    assert_eq!(i.normalized().levels, vec![100; STEM_COUNT]);
    assert_eq!(i.normalized().mutes, vec![false; STEM_COUNT]);
    assert_eq!(i.normalized().solos, vec![false; STEM_COUNT]);
}

#[test]
fn normalize_pads_short_to_stem_count() {
    let i = Isolation {
        bass_focus: true,
        levels: vec![10, 20, 30, 40],
        mutes: vec![true],
        solos: vec![],
    };
    let n = i.normalized();
    assert_eq!(n.levels, vec![10, 20, 30, 40, 100, 100]);
    assert_eq!(n.mutes, vec![true, false, false, false, false, false]);
    assert_eq!(n.solos, vec![false; STEM_COUNT]);
    assert!(n.bass_focus);
}

#[test]
fn normalize_truncates_long_to_stem_count() {
    let i = Isolation {
        bass_focus: false,
        levels: vec![1; STEM_COUNT + 3],
        mutes: vec![true; STEM_COUNT + 2],
        solos: vec![true; STEM_COUNT + 1],
    };
    let n = i.normalized();
    assert_eq!(n.levels.len(), STEM_COUNT);
    assert_eq!(n.mutes.len(), STEM_COUNT);
    assert_eq!(n.solos.len(), STEM_COUNT);
}

#[test]
fn path_appends_earworm_json() {
    assert_eq!(sidecar_path("/x/song.flac"), "/x/song.flac.earworm.json");
}

#[test]
fn slug_trims_dots_and_control_characters() {
    assert_eq!(slug("..Hidden..", None), "Hidden");
    assert_eq!(slug("a\tb", Some("  ")), "a_b");
    assert_eq!(slug("...", None), "untitled");
    assert_eq!(slug("x", Some(" \\y ")), "x \u{2014} _y");
}

#[test]
fn unique_dir_suffixes_on_collision() {
    let mut taken: Vec<String> = vec![];
    let first = unique_bundle_dir("Song", &taken);
    assert_eq!(first, "Song");
    taken.push(first);
    let second = unique_bundle_dir("Song", &taken);
    assert_eq!(second, "Song-2");
    taken.push(second);
    taken.push("Song-3".into());
    assert_eq!(unique_bundle_dir("Song", &taken), "Song-4");
    assert_eq!(unique_bundle_dir("Other", &taken), "Other");
}

#[test]
fn slug_never_holds_path_hostile_characters() {
    for (title, artist) in [("a/b\\c\0d\u{7}", Some("x/y")), ("...", None), ("\u{85}\u{9f}", Some("  ")), ("  .x. ", None)] {
        let s = slug(title, artist);
        assert!(!s.is_empty());
        assert!(!s.chars().any(|c| c == '/' || c == '\\' || c == '\0' || c.is_control()), "{s:?}");
    }
}

#[test]
fn slug_never_names_a_directory_itself() {
    assert_eq!(slug(". . .", None), "untitled");
    assert_eq!(slug(". .. .", None), "untitled");
    assert_eq!(slug("..x", None), "x");
    assert_eq!(slug("a.b", None), "a.b");
}
