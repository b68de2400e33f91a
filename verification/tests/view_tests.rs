use leadsheet::arrange::{arrange, Part};
use leadsheet::cloud::{fragment_value, from_url_safe, hex_key, share_url, url_safe, Config};
use leadsheet::model::{Chord, Note, Song, PPQ};
use leadsheet::notation::{
    base_fret, bars_for, chart_layout, chord_shape, dot_row, fret_label, is_sharp, ledger_steps, melody_ticks,
    seek_tick, sounding, stem_up,
};
use leadsheet::playback::{place, schedule_plan, Parts, Planned};
use leadsheet::qr::qr_grid;
use leadsheet::sort::sort_by_tick;
use leadsheet::style::Style;

fn chord_at(beat: u32, root: u8, ext: u8) -> Chord {
    Chord {
        bar: (beat / 4) as u16 + 1,
        beat: (beat % 4) as u8,
        tick: beat * PPQ,
        text: String::new(),
        root,
        ext,
        bass: 255,
        rest: 0,
    }
}

fn chart_song() -> Song {
    let mut s = Song::default();
    s.chords = [0, 2, 4, 8, 12, 16, 20, 24, 28].iter().map(|&b| chord_at(b, 0, 1)).collect();
    s.part_markers = vec![(1, 1), (5, 2)];
    s.chorus_begin = 1;
    s.chorus_end = 8;
    s.choruses = 2;
    s
}

#[test]
fn chart_layout_places_every_chord() {
    let l = chart_layout(&chart_song());
    assert_eq!((l.bars, l.rows), (8, 2));
    assert_eq!(l.marks, vec![Some(1), None, None, None, Some(2), None, None, None]);
    assert_eq!((l.repeat_begin, l.repeat_end), (1, 8));
    assert_eq!(l.labels.len(), 9);
    let first = l.labels[0];
    assert_eq!((first.chord, first.col, first.row, first.beat, first.crowded), (0, 0, 0, 0, true));
    let second = l.labels[1];
    assert_eq!((second.col, second.beat, second.crowded), (0, 2, true));
    let third = l.labels[2];
    assert_eq!((third.col, third.row, third.crowded), (1, 0, false));
    let fifth_bar = l.labels[5];
    assert_eq!((fifth_bar.chord, fifth_bar.col, fifth_bar.row), (5, 0, 1));
}

#[test]
fn chart_layout_clamps_the_repeat() {
    let mut s = chart_song();
    s.chorus_begin = 0;
    s.chorus_end = 40;
    let l = chart_layout(&s);
    assert_eq!((l.repeat_begin, l.repeat_end), (1, 8));
    s.chords.clear();
    let empty = chart_layout(&s);
    assert_eq!((empty.bars, empty.rows), (4, 1));
    assert!(empty.labels.is_empty());
}

#[test]
fn chart_click_seeks_to_the_beat() {
    assert_eq!(seek_tick(1, 0), 0);
    assert_eq!(seek_tick(3, 2), 1200);
}

#[test]
fn staff_marks() {
    assert!(stem_up(60));
    assert!(!stem_up(72));
    assert!(is_sharp(61));
    assert!(!is_sharp(64));
    assert_eq!(ledger_steps(64), Vec::<i32>::new());
    assert_eq!(ledger_steps(60), vec![35]);
    assert_eq!(ledger_steps(57), vec![35, 33]);
    assert_eq!(ledger_steps(81), vec![47]);
}

#[test]
fn staff_length_and_highlight() {
    let mut s = Song::default();
    assert_eq!(melody_ticks(&s), 480);
    s.melody = (0..16u32).map(|b| Note { tick: b * 480, pitch: 60, vel: 96, dur: 120 }).collect();
    assert_eq!(melody_ticks(&s), 7320);
    assert_eq!(bars_for(7320), 16);
    assert_eq!(bars_for(480), 1);
    let n = Note { tick: 480, pitch: 60, vel: 96, dur: 120 };
    assert!(sounding(&n, 480));
    assert!(sounding(&n, 599));
    assert!(!sounding(&n, 600));
    assert!(!sounding(&n, 479));
}

#[test]
fn chord_diagram_frets() {
    assert_eq!(base_fret(&chord_shape(0, false)), 0);
    assert_eq!(base_fret(&chord_shape(0, true)), 3);
    assert_eq!(fret_label(3, 1), 3);
    assert_eq!(fret_label(0, 2), 2);
    assert_eq!(dot_row(5, 3), 3);
    assert_eq!(dot_row(2, 0), 2);
}

#[test]
fn place_clips_at_the_seek_point() {
    assert_eq!(place(100, 50, 120), Some((120, 30)));
    assert_eq!(place(100, 20, 120), None);
    assert_eq!(place(200, 10, 120), Some((200, 10)));
}

fn one_chord_song() -> Song {
    let mut s = Song::default();
    s.chords = vec![chord_at(0, 0, 1)];
    s.melody = vec![Note { tick: 0, pitch: 60, vel: 96, dur: 120 }];
    s
}

#[test]
fn schedule_plays_melody_bass_and_chords() {
    let p = schedule_plan(&one_chord_song(), &Parts::default(), 0).unwrap();
    assert_eq!(p.end_tick, 480);
    assert_eq!(p.notes.len(), 9);
    assert_eq!(p.notes[0], Planned { part: Part::Melody, pitch: 60, vel: 96, tick: 0, dur: 120 });
    assert_eq!(p.notes[1], Planned { part: Part::Bass, pitch: 36, vel: 90, tick: 0, dur: 120 });
    let comp: Vec<u8> = p.notes[2..5].iter().map(|n| n.pitch).collect();
    assert_eq!(comp, vec![48, 52, 55]);
    assert_eq!(p.notes[5], Planned { part: Part::Bass, pitch: 36, vel: 90, tick: 240, dur: 120 });
}

#[test]
fn schedule_from_a_seek_point() {
    let p = schedule_plan(&one_chord_song(), &Parts::default(), 300).unwrap();
    assert_eq!(p.notes.len(), 4);
    assert_eq!(p.notes[0], Planned { part: Part::Bass, pitch: 36, vel: 90, tick: 300, dur: 60 });
    assert!(p.notes.iter().all(|n| n.tick == 300 && n.dur == 60));
}

#[test]
fn schedule_repeats_the_chorus() {
    let mut s = one_chord_song();
    s.chorus_begin = 1;
    s.chorus_end = 1;
    s.choruses = 3;
    let p = schedule_plan(&s, &Parts::default(), 0).unwrap();
    assert_eq!(p.end_tick, 1440);
    let bass: Vec<u32> = p.notes.iter().filter(|n| n.part == Part::Bass).map(|n| n.tick).collect();
    assert_eq!(bass, vec![0, 240, 480, 720, 960, 1200]);
}

#[test]
fn schedule_parts_switch_off() {
    let mut parts = Parts::default();
    parts.chords_on = false;
    parts.bass_on = false;
    let p = schedule_plan(&one_chord_song(), &parts, 0).unwrap();
    assert_eq!(p.end_tick, 120);
    assert_eq!(p.notes.len(), 1);
    parts.melody_on = false;
    parts.bass_on = true;
    let q = schedule_plan(&one_chord_song(), &parts, 0).unwrap();
    assert!(q.notes.iter().all(|n| n.part == Part::Bass));
    assert_eq!(q.notes.len(), 2);
}

#[test]
fn schedule_refuses_overflowing_ticks() {
    let mut s = one_chord_song();
    s.melody[0].tick = u32::MAX;
    assert!(schedule_plan(&s, &Parts::default(), 0).is_none());
    let mut t = one_chord_song();
    t.chords[0].tick = u32::MAX - 100;
    assert!(schedule_plan(&t, &Parts::default(), 0).is_none());
}

#[test]
fn config_is_set_needs_all_fields() {
    let mut c = Config::default();
    assert!(!c.is_set());
    c.url = "https://x.supabase.co".into();
    c.anon = "anon-key".into();
    assert!(!c.is_set());
    c.space = "ab12".into();
    assert!(c.is_set());
}

#[test]
fn url_safe_base64_round_trips() {
    assert_eq!(url_safe("ab+/c="), "ab-_c=");
    assert_eq!(from_url_safe("ab-_c="), "ab+/c=");
    let b64 = "eyJ1cmwiOiJ4In0+/+/";
    assert_eq!(from_url_safe(&url_safe(b64)), b64);
}

#[test]
fn fragment_carries_the_config() {
    assert_eq!(fragment_value("#c=abc"), Some("abc".to_string()));
    assert_eq!(fragment_value("##c=x"), Some("x".to_string()));
    assert_eq!(fragment_value("c="), Some(String::new()));
    assert_eq!(fragment_value("#d=x"), None);
    assert_eq!(fragment_value(""), None);
}

#[test]
fn share_url_replaces_the_fragment() {
    assert_eq!(share_url("https://h/p#old", "XYZ"), "https://h/p#c=XYZ");
    assert_eq!(share_url("https://h/p", "Q"), "https://h/p#c=Q");
    let url = share_url("https://h/p#x", "v-_1");
    let hash = &url[url.find('#').unwrap()..];
    assert_eq!(fragment_value(hash), Some("v-_1".to_string()));
}

#[test]
fn hex_space_key() {
    assert_eq!(hex_key(&[0x00, 0xab, 0x7f]), "00ab7f");
    assert_eq!(hex_key(&[0u8; 12]).len(), 24);
}

#[test]
fn qr_grid_of_a_short_text() {
    let g = qr_grid(b"hello").unwrap();
    assert_eq!(g.side, 27);
    assert!(g.dark.contains(&(3, 3)));
    assert!(g.dark.contains(&(23, 3)));
    assert!(g.dark.contains(&(3, 23)));
    assert!(!g.dark.contains(&(10, 3)));
    assert!(g.dark.iter().all(|&(x, y)| (3..24).contains(&x) && (3..24).contains(&y)));
    assert!(qr_grid(&[b'a'; 3000]).is_none());
}

#[test]
fn sort_by_tick_is_stable() {
    let n = |tick: u32, pitch: u8| Note { tick, pitch, vel: 64, dur: 1 };
    let sorted = sort_by_tick(vec![n(5, 1), n(0, 2), n(5, 3), n(2, 4), n(0, 5)]);
    let order: Vec<(u32, u8)> = sorted.iter().map(|x| (x.tick, x.pitch)).collect();
    assert_eq!(order, vec![(0, 2), (0, 5), (2, 4), (5, 1), (5, 3)]);
}

#[test]
fn midi_melody_comes_out_in_tick_order() {
    // 60 starts first but ends last, so 62 is closed (and collected) first.
    let trk: Vec<u8> = vec![0, 0x90, 60, 100, 10, 0x90, 62, 100, 10, 0x80, 62, 0, 10, 0x80, 60, 0];
    let mut d = b"MThd".to_vec();
    d.extend_from_slice(&[0, 0, 0, 6, 0, 0, 0, 1, 0, 120]);
    d.extend_from_slice(b"MTrk");
    d.extend_from_slice(&(trk.len() as u32).to_be_bytes());
    d.extend(trk);
    let s = leadsheet::formats::midi::parse(&d).unwrap();
    let ticks: Vec<(u32, u8, u32)> = s.melody.iter().map(|n| (n.tick, n.pitch, n.dur)).collect();
    assert_eq!(ticks, vec![(0, 60, 30), (10, 62, 10)]);
}

#[test]
fn a_chord_off_the_pattern_still_sounds() {
    let mut s = Song::default();
    s.chords = vec![chord_at(0, 0, 1), chord_at(1, 5, 1)];
    let ev = arrange(&s, &Style::default());
    let at120: Vec<(Part, u8)> = ev.iter().filter(|e| e.tick == 120).map(|e| (e.part, e.pitch)).collect();
    assert_eq!(at120, vec![(Part::Bass, 41), (Part::Comp, 53), (Part::Comp, 57), (Part::Comp, 60)]);
}
