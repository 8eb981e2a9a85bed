use earworm::capture::{capture_node, chunk_range};
use earworm::device::{default_node_name, device_entry, mark_default, AudioDevice};
use earworm::text::{is_control, is_whitespace, parse_u64};
use earworm::error::Error;
use earworm::hashing::content_hash;
use earworm::layers::layer_window;
use earworm::ids::{claim_drawn_id, fresh_id_attempt, id_from_random, IdError, ID_LIMIT};
use earworm::metronome::{sound_for, xorshift32, Kit, Sound, Voice};
use earworm::notes::{Block, NotesDoc};
use earworm::render_core::{output_block_frames, ImpulseSlot, MAX_QUANTUM_FRAMES};
use std::collections::HashSet;
use std::sync::atomic::Ordering;

#[test]
fn content_hash_is_lowercase_hex_of_the_blake3_digest() {
    let h = content_hash(b"abc");
    assert_eq!(h, blake3::hash(b"abc").to_hex().to_string());
    assert_eq!(h, "6437b3ac38465133ffb63b75273a8db548c558465d79db03fd359c6cd5bd9d85");
    assert_eq!(content_hash(b"").len(), 64);
    assert_ne!(content_hash(b"abd"), h);
}

#[test]
fn fresh_ids_are_unique_and_js_safe() {
    const JS_MAX: i64 = 1 << 53;
    let mut used = HashSet::new();
    let mut n = 0;
    while n < 10_000 {
        match fresh_id_attempt(&mut used) {
            Ok(id) => {
                assert!((1..JS_MAX).contains(&id), "id {id} out of JS-safe range");
                n += 1;
            }
            Err(IdError::Taken) => {}
            Err(IdError::RngUnavailable) => panic!("system RNG unavailable"),
        }
    }
    assert_eq!(used.len(), 10_000, "all 10k ids were distinct");
}

#[test]
fn random_draws_map_into_the_id_range() {
    assert_eq!(id_from_random(0), 1);
    assert_eq!(id_from_random(ID_LIMIT - 2), (ID_LIMIT - 1) as i64);
    assert_eq!(id_from_random(ID_LIMIT - 1), 1);
    assert_eq!(id_from_random(u64::MAX), (1 + u64::MAX % (ID_LIMIT - 1)) as i64);
}

#[test]
fn every_kit_has_distinct_accent_and_beat_voices() {
    assert_eq!(sound_for(Kit::Click, true), Sound::ClickHi);
    assert_eq!(sound_for(Kit::Click, false), Sound::ClickLo);
    assert_eq!(sound_for(Kit::KickSnare, true), Sound::Kick);
    assert_eq!(sound_for(Kit::KickSnare, false), Sound::Snare);
    assert_eq!(sound_for(Kit::Cowbell, true), Sound::CowbellHi);
    assert_eq!(sound_for(Kit::Cowbell, false), Sound::CowbellLo);
}

#[test]
fn voice_is_silent_until_triggered_then_decays() {
    let mut v = Voice::default();
    assert!(v.silent);
    v.step(true);
    assert_eq!(v, Voice::default());
    v.trigger(Sound::Kick);
    assert_eq!(v, Voice { age: 0, sound: Sound::Kick, silent: false });
    v.step(true); // a zero on the first frame does not silence
    assert!(!v.silent);
    v.step(false);
    assert!(!v.silent);
    v.step(true);
    assert!(v.silent);
    assert_eq!(v.age, 3);
}

#[test]
fn xorshift_matches_the_reference_steps() {
    let mut x: u32 = 0x1234_5678;
    let r = xorshift32(x);
    x ^= x << 13;
    x ^= x >> 17;
    x ^= x << 5;
    assert_eq!(r, x);
    assert_ne!(xorshift32(1), 0);
}

#[test]
fn default_device_is_marked_by_node_name() {
    let dev = |id: &str| AudioDevice { id: id.into(), name: format!("dev {id}"), is_default: false };
    let found = vec![(dev("1"), "alsa_a".to_string()), (dev("2"), "alsa_b".to_string())];
    let out = mark_default(found.clone(), Some("alsa_b".into()));
    assert_eq!(out.iter().map(|d| d.is_default).collect::<Vec<_>>(), vec![false, true]);
    assert_eq!(out[0].id, "1");
    let none = mark_default(found, None);
    assert!(none.iter().all(|d| !d.is_default));
}

#[test]
fn capture_node_prefers_description_then_app_then_node_name() {
    let n = capture_node(7, None, None, Some("Spotify".into()), Some("spotify".into()), Some("Song".into()));
    assert_eq!(n.app, "Spotify");
    assert_eq!(n.serial, 7);
    assert_eq!(n.media, "Song");
    let m = capture_node(7, Some("99".into()), Some("USB Mic".into()), Some("x".into()), None, None);
    assert_eq!(m.app, "USB Mic");
    assert_eq!(m.serial, 99);
    assert_eq!(m.media, "");
    assert_eq!(capture_node(1, None, None, None, None, None).app, "");
}

#[test]
fn roundtrips_through_json() {
    let doc = NotesDoc {
        blocks: vec![
            Block::Text { text: "intro riff".into() },
            Block::Tab { strings: 2, width: 4, rows: vec!["--5-".into(), "7---".into()] },
        ],
    };
    assert_eq!(doc.clone(), doc);
    assert!(doc.validate().is_ok());
}

#[test]
fn empty_doc_is_empty() {
    assert!(NotesDoc::default().is_empty());
    assert!(NotesDoc { blocks: vec![Block::Text { text: "  \n".into() }] }.is_empty());
    assert!(!NotesDoc { blocks: vec![Block::Text { text: "x".into() }] }.is_empty());
    assert!(!NotesDoc { blocks: vec![Block::Tab { strings: 0, width: 0, rows: vec![] }] }.is_empty());
}

#[test]
fn validate_rejects_malformed_tab() {
    let bad = NotesDoc { blocks: vec![Block::Tab { strings: 2, width: 4, rows: vec!["--5-".into()] }] };
    assert_eq!(bad.validate(), Err("tab: 1 rows for 2 strings".to_string()));
    let bad2 = NotesDoc { blocks: vec![Block::Tab { strings: 1, width: 4, rows: vec!["--".into()] }] };
    assert_eq!(bad2.validate(), Err("tab: row \"--\" is not 4 wide".to_string()));
    let ok = NotesDoc { blocks: vec![Block::Tab { strings: 1, width: 4, rows: vec!["----".into()] }] };
    assert!(ok.validate().is_ok());
}

#[test]
fn error_messages_name_the_failure() {
    assert_eq!(Error::Decode("bad".into()).message(), "decode error: bad");
    assert_eq!(Error::Encode("x".into()).message(), "encode error: x");
    assert_eq!(Error::Unsupported("zero channels".into()).message(), "unsupported: zero channels");
    let io = Error::Io(std::io::Error::other("boom"));
    assert_eq!(io.message(), "io error: boom");
}

#[test]
fn impulse_slot_starts_idle() {
    let s = ImpulseSlot::new();
    assert!(!s.pending.load(Ordering::Acquire));
    assert_eq!(s.emit_ns.load(Ordering::Acquire), 0);
}

#[test]
fn capture_serial_falls_back_to_registry_id_when_unreadable() {
    assert_eq!(capture_node(12, Some("abc".into()), None, None, None, None).serial, 12);
    assert_eq!(capture_node(12, Some("".into()), None, None, None, None).serial, 12);
    assert_eq!(capture_node(12, Some("+40".into()), None, None, None, None).serial, 40);
}

#[test]
fn parse_u64_matches_std() {
    for s in ["0", "42", "+7", "007", "18446744073709551615", "18446744073709551616", "", "+", "-1", "4 2", "1a",
        "99999999999999999999"] {
        assert_eq!(parse_u64(s), s.parse::<u64>().ok(), "input {s:?}");
    }
}

#[test]
fn device_entry_prefers_serial_and_description() {
    let (d, node) = device_entry(31, Some("1057".into()), Some("Speakers".into()), Some("spk".into()),
        Some("alsa_output.pci".into()));
    assert_eq!(d, AudioDevice { id: "1057".into(), name: "Speakers".into(), is_default: false });
    assert_eq!(node, "alsa_output.pci");
    let (d, node) = device_entry(31, Some("".into()), None, Some("spk".into()), None);
    assert_eq!(d.id, "31");
    assert_eq!(d.name, "spk");
    assert_eq!(node, "");
    let (d, _) = device_entry(5, None, None, None, Some("n".into()));
    assert_eq!((d.id.as_str(), d.name.as_str()), ("5", "n"));
}

#[test]
fn output_block_is_bounded_by_buffer_quantum_and_request() {
    assert_eq!(output_block_frames(8 * 1024, 0), 1024);
    assert_eq!(output_block_frames(8 * 1024, 256), 256);
    assert_eq!(output_block_frames(8 * 1024, 4096), 1024);
    assert_eq!(output_block_frames(8 * 100_000, 0), MAX_QUANTUM_FRAMES);
    assert_eq!(output_block_frames(7, 0), 0);
    assert_eq!(output_block_frames(8 * 10 + 5, 0), 10);
}

#[test]
fn chunk_range_stays_inside_the_mapped_bytes() {
    assert_eq!(chunk_range(0, 64, 128), (0, 64));
    assert_eq!(chunk_range(32, 64, 128), (32, 96));
    assert_eq!(chunk_range(100, 64, 128), (100, 128));
    assert_eq!(chunk_range(200, 64, 128), (128, 128));
    assert_eq!(chunk_range(usize::MAX, usize::MAX, 16), (16, 16));
}

/// Mix layers of constant value into `out` through the library's window.
fn mix_constant_layers(layers: &[(i64, usize, f32, f32, bool)], src_start: usize, out: &mut [f32]) {
    let frames = out.len() / 2;
    for &(start_frame, len, v, gain, muted) in layers {
        if muted || gain == 0.0 {
            continue;
        }
        let (lo, hi) = layer_window(src_start, frames, start_frame, len);
        for i in lo..hi {
            out[i * 2] += v * gain;
            out[i * 2 + 1] += v * gain;
        }
    }
}

#[test]
fn places_layer_at_its_offset_and_leaves_the_rest_untouched() {
    let mut out = vec![0.0f32; 6 * 2]; // window [98, 104)
    mix_constant_layers(&[(100, 10, 0.5, 1.0, false)], 98, &mut out);
    assert_eq!(out[0], 0.0);
    assert_eq!(out[2], 0.0);
    for f in 2..6 {
        assert!((out[f * 2] - 0.5).abs() < 1e-6, "frame {f}");
        assert!((out[f * 2 + 1] - 0.5).abs() < 1e-6, "frame {f}");
    }
}

#[test]
fn adds_onto_existing_track_audio() {
    let mut out = vec![0.1f32; 4 * 2];
    mix_constant_layers(&[(0, 4, 0.25, 1.0, false)], 0, &mut out);
    for s in &out {
        assert!((s - 0.35).abs() < 1e-6, "got {s}");
    }
}

#[test]
fn negative_start_frame_clips_the_leading_portion() {
    let mut out = vec![0.0f32; 4 * 2];
    mix_constant_layers(&[(-2, 8, 0.5, 1.0, false)], 0, &mut out);
    for s in &out {
        assert!((s - 0.5).abs() < 1e-6, "got {s}");
    }
}

#[test]
fn layer_window_edges() {
    assert_eq!(layer_window(98, 6, 100, 10), (2, 6));
    assert_eq!(layer_window(0, 4, -2, 8), (0, 4));
    assert_eq!(layer_window(0, 4, -10, 8), (0, 0));
    assert_eq!(layer_window(0, 4, 10, 8), (4, 4));
    assert_eq!(layer_window(5, 10, 7, 3), (2, 5));
    assert_eq!(layer_window(0, 4, 0, 0), (0, 0));
}

#[test]
fn char_classes_match_std_for_every_char() {
    for u in 0u32..=0x10FFFF {
        if let Some(c) = char::from_u32(u) {
            assert_eq!(is_whitespace(c), c.is_whitespace(), "U+{u:04X}");
            assert_eq!(is_control(c), c.is_control(), "U+{u:04X}");
        }
    }
}

#[test]
fn muted_layer_contributes_nothing() {
    let mut out = vec![0.0f32; 4 * 2];
    mix_constant_layers(&[(0, 4, 0.5, 1.0, true)], 0, &mut out);
    assert!(out.iter().all(|s| *s == 0.0));
}

#[test]
fn gain_scales_contribution() {
    let mut out = vec![0.0f32; 4 * 2];
    mix_constant_layers(&[(0, 4, 0.4, 0.5, false)], 0, &mut out);
    for s in &out {
        assert!((s - 0.2).abs() < 1e-6, "got {s}");
    }
}

#[test]
fn claim_drawn_id_keeps_free_ids_and_refuses_taken_ones() {
    let mut used: HashSet<i64> = HashSet::new();
    assert_eq!(claim_drawn_id(&mut used, None), Err(IdError::RngUnavailable));
    assert!(used.is_empty());
    assert_eq!(claim_drawn_id(&mut used, Some(41)), Ok(42));
    assert!(used.contains(&42));
    assert_eq!(claim_drawn_id(&mut used, Some(41)), Err(IdError::Taken));
    assert_eq!(used.len(), 1);
    assert_eq!(claim_drawn_id(&mut used, Some(ID_LIMIT - 1)), Ok(1));
}

#[test]
fn default_metadata_announces_the_name_member_of_its_json() {
    let got = default_node_name(Some("default".into()), Some(r#"{"name":"alsa_output.pci-0000"}"#.into()));
    assert_eq!(got, Some("alsa_output.pci-0000".to_string()));
    let spaced = default_node_name(Some("default".into()), Some(r#" { "other": 1, "name" : "spk" } "#.into()));
    assert_eq!(spaced, Some("spk".to_string()));
}

#[test]
fn only_a_well_formed_default_metadata_announces_a_name() {
    let json = || Some(r#"{"name":"spk"}"#.to_string());
    assert_eq!(default_node_name(Some("route-settings".into()), json()), None);
    assert_eq!(default_node_name(None, json()), None);
    assert_eq!(default_node_name(Some("default".into()), None), None);
    assert_eq!(default_node_name(Some("default".into()), Some("not json".into())), None);
    assert_eq!(default_node_name(Some("default".into()), Some(r#"{"name":7}"#.into())), None);
    assert_eq!(default_node_name(Some("default".into()), Some(r#"["spk"]"#.into())), None);
}
