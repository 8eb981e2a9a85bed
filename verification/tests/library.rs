use std::collections::HashSet;

use earworm::library::{
    clear_marker, clear_snapshot, delete_loop, delete_routine, get_section_notes, insert_loop, marker, note_ids,
    replace_sections, save_routine, save_snapshot, set_marker, set_section_click_guide, set_section_notes, snapshot,
    update_loop, LibraryError, NewLoop, NewSection,
};
use earworm::model::{
    Isolation, IsolationSnapshot, LoopId, LoopKind, LoopRegion, Marker, Routine, RoutineId, SectionId, SectionNote,
    SongId,
};
use earworm::notes::{Block, NotesDoc};

#[test]
fn markers_set_overwrite_clear_and_sort() {
    let mut markers: Vec<Marker<f64>> = Vec::new();
    set_marker(&mut markers, 3, 30.0);
    set_marker(&mut markers, 1, 10.0);
    assert_eq!(markers.iter().map(|m| m.slot).collect::<Vec<_>>(), vec![1, 3]);
    let m = set_marker(&mut markers, 3, 33.0); // overwrite, not duplicate
    assert_eq!(m, Marker { slot: 3, pos: 33.0 });
    assert_eq!(marker(&markers, 3).unwrap().pos, 33.0);
    assert_eq!(markers.len(), 2);
    clear_marker(&mut markers, 1);
    assert!(marker(&markers, 1).is_none());
    assert_eq!(markers, vec![Marker { slot: 3, pos: 33.0 }]);
}

#[test]
fn markers_insert_between_existing_slots() {
    let mut markers: Vec<Marker<f64>> = Vec::new();
    for (slot, pos) in [(5, 5.0), (1, 1.0), (3, 3.0), (9, 9.0)] {
        set_marker(&mut markers, slot, pos);
    }
    assert_eq!(markers.iter().map(|m| m.slot).collect::<Vec<_>>(), vec![1, 3, 5, 9]);
    clear_marker(&mut markers, 7); // nothing there
    assert_eq!(markers.len(), 4);
}

#[test]
fn unsorted_marker_list_is_reordered_when_a_slot_is_added() {
    // A manifest edited by hand may list markers out of order; adding a new
    // slot sorts the whole list, overwriting keeps the order as it is.
    let mut markers = vec![Marker { slot: 4, pos: 4.0 }, Marker { slot: 2, pos: 2.0 }];
    set_marker(&mut markers, 4, 40.0);
    assert_eq!(markers, vec![Marker { slot: 4, pos: 40.0 }, Marker { slot: 2, pos: 2.0 }]);
    set_marker(&mut markers, 3, 3.0);
    assert_eq!(markers.iter().map(|m| m.slot).collect::<Vec<_>>(), vec![2, 3, 4]);
}

#[test]
fn snapshots_save_overwrite_clear_and_sort() {
    let mut snaps: Vec<IsolationSnapshot> = Vec::new();
    save_snapshot(&mut snaps, IsolationSnapshot { slot: 2, name: None, state: Isolation::default() });
    save_snapshot(&mut snaps, IsolationSnapshot { slot: 1, name: Some("full".into()), state: Isolation::default() });
    assert_eq!(snaps.iter().map(|s| s.slot).collect::<Vec<_>>(), vec![1, 2]);
    let mut alt = Isolation::default();
    alt.mutes[0] = true;
    save_snapshot(&mut snaps, IsolationSnapshot { slot: 2, name: None, state: alt.clone() }); // overwrite
    assert_eq!(snapshot(&snaps, 2).unwrap().state, alt);
    assert_eq!(snaps.len(), 2);
    clear_snapshot(&mut snaps, 1);
    assert!(snapshot(&snaps, 1).is_none());
    assert_eq!(snaps.len(), 1);
}

fn routine(id: i64, name: &str, blocks: Vec<u32>) -> Routine<u32> {
    Routine { id: RoutineId(id), name: name.to_string(), blocks }
}

#[test]
fn routines_upsert_and_delete() {
    let mut routines: Vec<Routine<u32>> = Vec::new();
    let saved = save_routine(&mut routines, routine(0, "verse drill", vec![1, 2]), RoutineId(77)).unwrap();
    assert_eq!(saved, RoutineId(77), "a new routine takes the fresh id");
    assert_eq!(routines[0].id, RoutineId(77));
    assert_eq!(routines[0].blocks.len(), 2);

    let r = save_routine(&mut routines, routine(77, "verse drill v2", vec![1]), RoutineId(88)).unwrap();
    assert_eq!(r, RoutineId(77));
    assert_eq!(routines.len(), 1, "upsert, not append");
    assert_eq!(routines[0].name, "verse drill v2");
    assert_eq!(routines[0].blocks, vec![1]);

    let missing = save_routine(&mut routines, routine(5, "ghost", vec![]), RoutineId(99));
    assert_eq!(missing, Err(LibraryError::NotFound));
    assert_eq!(routines.len(), 1);

    delete_routine(&mut routines, RoutineId(77));
    assert!(routines.is_empty());
}

fn new_loop(name: &str, start: f64, end: f64) -> NewLoop<f64> {
    NewLoop { name: name.to_string(), name_override: None, start, end, kind: LoopKind::Manual }
}

#[test]
fn loops_insert_update_and_delete() {
    let mut loops: Vec<LoopRegion<f64>> = Vec::new();
    insert_loop(&mut loops, SongId(1), LoopId(10), new_loop("verse 1", 10.0, 30.0));
    insert_loop(&mut loops, SongId(1), LoopId(11), new_loop("chorus 1", 50.0, 70.0));
    assert_eq!(loops.len(), 2);
    assert_eq!(loops[1].id, LoopId(11));
    assert_eq!(loops[1].song_id, SongId(1));

    let at = update_loop(&mut loops, LoopId(11), "sub chorus 1".into(), Some("hook".into()), 55.0, 65.0).unwrap();
    assert_eq!(at, 1);
    assert_eq!(loops[1].name, "sub chorus 1");
    assert_eq!(loops[1].name_override.as_deref(), Some("hook"));
    assert_eq!((loops[1].start, loops[1].end), (55.0, 65.0));
    assert_eq!(loops[1].kind, LoopKind::Manual);

    assert_eq!(update_loop(&mut loops, LoopId(99), "x".into(), None, 0.0, 1.0), Err(LibraryError::NotFound));

    delete_loop(&mut loops, LoopId(10));
    assert_eq!(loops.iter().map(|l| l.id).collect::<Vec<_>>(), vec![LoopId(11)]);
}

fn new_section(name: &str, start: f64, end: f64, position: i32, click_guide: bool) -> NewSection<f64> {
    NewSection { name: name.to_string(), start, end, position, click_guide }
}

#[test]
fn replace_sections_carries_click_guide() {
    let saved = replace_sections(
        SongId(4),
        vec![new_section("intro", 0.0, 10.0, 0, false), new_section("verse", 10.0, 20.0, 1, true)],
        vec![SectionId(100), SectionId(101)],
    );
    assert_eq!(saved.len(), 2);
    assert!(!saved[0].click_guide, "intro stays unmarked");
    assert!(saved[1].click_guide, "verse keeps its mark through replace");
    assert_eq!(saved[1].id, SectionId(101));
    assert_eq!(saved[1].song_id, SongId(4));
}

#[test]
fn replace_sections_orders_by_position() {
    let saved = replace_sections(
        SongId(1),
        vec![new_section("chorus", 20.0, 30.0, 2, false), new_section("intro", 0.0, 10.0, 0, false),
            new_section("verse", 10.0, 20.0, 1, false)],
        vec![SectionId(1), SectionId(2), SectionId(3)],
    );
    assert_eq!(saved.iter().map(|s| s.name.as_str()).collect::<Vec<_>>(), vec!["intro", "verse", "chorus"]);
    assert_eq!(saved.iter().map(|s| s.id).collect::<Vec<_>>(), vec![SectionId(2), SectionId(3), SectionId(1)]);
}

#[test]
fn set_section_click_guide_flips_only_that_section() {
    let mut sections = replace_sections(
        SongId(1),
        vec![new_section("intro", 0.0, 10.0, 0, false), new_section("verse", 10.0, 20.0, 1, false)],
        vec![SectionId(7), SectionId(8)],
    );
    set_section_click_guide(&mut sections, SectionId(8), true);
    assert!(!sections[0].click_guide);
    assert!(sections[1].click_guide);
    set_section_click_guide(&mut sections, SectionId(99), true); // no such section
    assert!(!sections[0].click_guide);
}

fn text_doc(s: &str) -> NotesDoc {
    NotesDoc { blocks: vec![Block::Text { text: s.to_string() }] }
}

#[test]
fn section_notes_upsert_sort_and_blank_removes() {
    let mut notes: Vec<SectionNote> = Vec::new();
    set_section_notes(&mut notes, "verse 2".into(), text_doc("watch the push"));
    set_section_notes(&mut notes, "chorus 1".into(), text_doc("open up"));
    set_section_notes(&mut notes, "bridge 1".into(), text_doc("half time"));
    assert_eq!(notes.iter().map(|n| n.label.as_str()).collect::<Vec<_>>(), vec!["bridge 1", "chorus 1", "verse 2"]);

    set_section_notes(&mut notes, "chorus 1".into(), text_doc("open up more"));
    assert_eq!(notes.len(), 3);
    assert_eq!(get_section_notes(&notes, "chorus 1"), Some(&text_doc("open up more")));

    set_section_notes(&mut notes, "verse 2".into(), text_doc("   "));
    assert_eq!(get_section_notes(&notes, "verse 2"), None);
    assert_eq!(notes.len(), 2);
    assert_eq!(get_section_notes(&notes, "verse 9"), None);
}

#[test]
fn notes_labels_order_by_code_point() {
    let mut notes: Vec<SectionNote> = Vec::new();
    for label in ["b", "B", "a", "ab", "A"] {
        set_section_notes(&mut notes, label.into(), text_doc("x"));
    }
    let mut expected = vec!["b", "B", "a", "ab", "A"];
    expected.sort();
    assert_eq!(notes.iter().map(|n| n.label.as_str()).collect::<Vec<_>>(), expected);
}

#[test]
fn note_ids_collects_every_id() {
    let sections = replace_sections(
        SongId(1),
        vec![new_section("intro", 0.0, 10.0, 0, false), new_section("verse", 10.0, 20.0, 1, false)],
        vec![SectionId(7), SectionId(8)],
    );
    let mut loops: Vec<LoopRegion<f64>> = Vec::new();
    insert_loop(&mut loops, SongId(1), LoopId(9), new_loop("a", 0.0, 1.0));
    let mut used: HashSet<i64> = HashSet::new();
    used.insert(1);
    note_ids(&mut used, &sections);
    note_ids(&mut used, &loops);
    let mut all: Vec<i64> = used.into_iter().collect();
    all.sort();
    assert_eq!(all, vec![1, 7, 8, 9]);
}
