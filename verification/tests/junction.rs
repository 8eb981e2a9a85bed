use earworm::junction::junction_pairs;
use earworm::model::{LoopKind, SectionId};
use earworm::naming::SectionTag;

struct Sec {
    tag: SectionTag,
    start: f64,
    end: f64,
}

fn sec(id: i64, name: &str, start: f64, end: f64, position: i32) -> Sec {
    Sec { tag: SectionTag { id: SectionId(id), name: name.to_string(), position }, start, end }
}

/// Junction loops as (name, start, end, kind), the windows clamped inside
/// the two sections.
fn derive(secs: &[Sec], tail: f64, head: f64) -> Vec<(String, f64, f64, LoopKind)> {
    let tags: Vec<SectionTag> = secs.iter().map(|s| s.tag.clone()).collect();
    junction_pairs(&tags)
        .into_iter()
        .map(|j| {
            let (a, b) = (&secs[j.from], &secs[j.to]);
            (j.name, (a.end - tail).max(a.start), (b.start + head).min(b.end), j.kind)
        })
        .collect()
}

#[test]
fn derives_one_loop_per_adjacent_pair() {
    let secs = vec![sec(1, "Verse", 10.0, 30.0, 0), sec(2, "Chorus", 30.0, 50.0, 1), sec(3, "Bridge", 50.0, 60.0, 2)];
    let loops = derive(&secs, 2.0, 2.0);
    assert_eq!(loops.len(), 2);
    assert_eq!(loops[0].0, "Verse→Chorus");
    assert_eq!(loops[0].1, 28.0);
    assert_eq!(loops[0].2, 32.0);
    assert_eq!(loops[0].3, LoopKind::Junction { from_section: SectionId(1), to_section: SectionId(2) });
}

#[test]
fn windows_clamped_to_section_bounds() {
    let secs = vec![sec(1, "A", 0.0, 1.0, 0), sec(2, "B", 1.0, 1.5, 1)];
    let loops = derive(&secs, 5.0, 5.0);
    assert_eq!(loops[0].1, 0.0);
    assert_eq!(loops[0].2, 1.5);
}

#[test]
fn gap_between_sections_is_included() {
    let secs = vec![sec(1, "A", 0.0, 10.0, 0), sec(2, "B", 14.0, 20.0, 1)];
    let loops = derive(&secs, 1.0, 1.0);
    assert_eq!(loops[0].1, 9.0);
    assert_eq!(loops[0].2, 15.0);
}

#[test]
fn unsorted_input_is_ordered_by_position() {
    let secs = vec![sec(2, "B", 30.0, 50.0, 1), sec(1, "A", 10.0, 30.0, 0)];
    let loops = derive(&secs, 2.0, 2.0);
    assert_eq!(loops.len(), 1);
    assert_eq!(loops[0].0, "A→B");
}

#[test]
fn fewer_than_two_sections_yields_nothing() {
    assert!(derive(&[], 2.0, 2.0).is_empty());
    assert!(derive(&[sec(1, "A", 0.0, 10.0, 0)], 2.0, 2.0).is_empty());
}

#[test]
fn junction_pairs_point_at_list_indices() {
    let tags = vec![
        SectionTag { id: SectionId(5), name: "outro".into(), position: 9 },
        SectionTag { id: SectionId(6), name: "intro".into(), position: 0 },
        SectionTag { id: SectionId(7), name: "verse".into(), position: 4 },
    ];
    let js = junction_pairs(&tags);
    assert_eq!(js.iter().map(|j| (j.from, j.to)).collect::<Vec<_>>(), vec![(1, 2), (2, 0)]);
    assert_eq!(js[1].name, "verse→outro");
}
