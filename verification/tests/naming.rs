use earworm::model::SectionId;
use earworm::naming::{base_name, disambiguate, fmt_tenths, loop_name, occurrence_label, Hit, SectionTag};

/// Boundary tolerance in seconds, as the host application applies it.
const EPS: f64 = 0.05;

struct Sec {
    tag: SectionTag,
    start: f64,
    end: f64,
}

fn sec(id: i64, name: &str, start: f64, end: f64, position: i32) -> Sec {
    Sec { tag: SectionTag { id: SectionId(id), name: name.to_string(), position }, start, end }
}

// intro[0,10] verse[10,30] verse[30,50] chorus[50,70]
fn song() -> Vec<Sec> {
    vec![
        sec(1, "intro", 0.0, 10.0, 0),
        sec(2, "verse", 10.0, 30.0, 1),
        sec(3, "verse", 30.0, 50.0, 2),
        sec(4, "chorus", 50.0, 70.0, 3),
    ]
}

fn tenths(secs: f64) -> i64 {
    (secs * 10.0).round() as i64
}

fn hits_for(start: f64, end: f64, sections: &[Sec]) -> Vec<Hit> {
    sections
        .iter()
        .enumerate()
        .filter(|(_, s)| s.start < end - EPS && s.end > start + EPS)
        .map(|(i, s)| Hit { index: i, covers_start: start <= s.start + EPS, covers_end: end >= s.end - EPS })
        .collect()
}

fn name_of(start: f64, end: f64, sections: &[Sec], existing: &[String]) -> String {
    let tags: Vec<SectionTag> = sections.iter().map(|s| s.tag.clone()).collect();
    let hits = hits_for(start, end, sections);
    loop_name(tenths(start), tenths(end), &tags, &hits, existing)
}

#[test]
fn full_single_section_uses_occurrence() {
    assert_eq!(name_of(30.0, 50.0, &song(), &[]), "verse 2");
}

#[test]
fn first_occurrence_is_one() {
    assert_eq!(name_of(0.0, 10.0, &song(), &[]), "intro 1");
}

#[test]
fn strict_subset_is_sub() {
    assert_eq!(name_of(34.0, 46.0, &song(), &[]), "sub verse 2");
}

#[test]
fn spans_multiple_names_first_and_last() {
    assert_eq!(name_of(30.0, 70.0, &song(), &[]), "verse 2 → chorus 1");
}

#[test]
fn partial_end_section_is_sub() {
    assert_eq!(name_of(30.0, 60.0, &song(), &[]), "verse 2 → sub chorus 1");
}

#[test]
fn partial_start_section_is_sub() {
    assert_eq!(name_of(40.0, 70.0, &song(), &[]), "sub verse 2 → chorus 1");
}

#[test]
fn middle_sections_dropped() {
    assert_eq!(name_of(0.0, 70.0, &song(), &[]), "intro 1 → chorus 1");
}

#[test]
fn boundary_within_eps_reads_as_full() {
    assert_eq!(name_of(30.02, 49.97, &song(), &[]), "verse 2");
}

#[test]
fn no_section_falls_back_to_timestamp() {
    assert_eq!(name_of(83.0, 105.2, &[], &[]), "riff 1:23.0–1:45.2");
}

#[test]
fn collision_gets_numeric_suffix() {
    let existing = vec!["verse 2".to_string()];
    assert_eq!(name_of(30.0, 50.0, &song(), &existing), "verse 2 (2)");
}

#[test]
fn collision_skips_taken_suffixes() {
    let existing = vec!["verse 2".to_string(), "verse 2 (2)".to_string()];
    assert_eq!(name_of(30.0, 50.0, &song(), &existing), "verse 2 (3)");
}

#[test]
fn occurrence_counts_in_position_order() {
    // Listed out of order: positions decide which verse comes first.
    let tags = vec![
        SectionTag { id: SectionId(7), name: "verse".to_string(), position: 5 },
        SectionTag { id: SectionId(8), name: "verse".to_string(), position: 2 },
        SectionTag { id: SectionId(9), name: "bridge".to_string(), position: 3 },
    ];
    assert_eq!(occurrence_label(&tags[0], &tags), "verse 2");
    assert_eq!(occurrence_label(&tags[1], &tags), "verse 1");
    assert_eq!(occurrence_label(&tags[2], &tags), "bridge 1");
}

#[test]
fn hits_are_ordered_by_position_not_input_order() {
    let tags: Vec<SectionTag> = song().into_iter().map(|s| s.tag).collect();
    let hits = vec![
        Hit { index: 3, covers_start: true, covers_end: false },
        Hit { index: 1, covers_start: false, covers_end: true },
    ];
    assert_eq!(base_name(0, 0, &tags, &hits), "sub verse 1 → sub chorus 1");
}

#[test]
fn disambiguate_leaves_unique_names_alone() {
    let existing = vec!["chorus 1".to_string()];
    assert_eq!(disambiguate("verse 1".to_string(), &existing), "verse 1");
    assert_eq!(disambiguate("chorus 1".to_string(), &existing), "chorus 1 (2)");
}

#[test]
fn fmt_tenths_pads_seconds() {
    assert_eq!(fmt_tenths(0), "0:00.0");
    assert_eq!(fmt_tenths(95), "0:09.5");
    assert_eq!(fmt_tenths(6_000), "10:00.0");
    assert_eq!(fmt_tenths(1_452), "2:25.2");
}
