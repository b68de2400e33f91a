use leadsheet::arrange::{arrange, arrange_checked, Event, Part};
use leadsheet::formats::biab::{decode, encode, form_bars, key_info, timesig_z};
use leadsheet::formats::midi;
use leadsheet::model::{pitch_class_name, pitch_name, Chord, Note, ParseError, Song, PPQ};
use leadsheet::notation::{chord_shape, french_name, pitch_to_tab, staff_step};
use leadsheet::playback::{chart_bar0, chord_cells, Parts};
use leadsheet::style::Style;

fn ch(beat: u32, root: u8, ext: u8, bass: u8) -> Chord {
    Chord {
        bar: (beat / 4) as u16 + 1,
        beat: (beat % 4) as u8,
        tick: beat * PPQ,
        text: String::new(),
        root,
        ext,
        bass,
        rest: 0,
    }
}

fn build(
    title: &str,
    key_pc: u8,
    minor: bool,
    tempo: u16,
    chords: Vec<Chord>,
    markers: Vec<(u16, u8)>,
    chorus: (u16, u16, u16),
    melody: Vec<Note>,
) -> Song {
    let mut s = Song::default();
    s.title = title.into();
    s.key_pc = key_pc;
    s.key_minor = minor;
    s.tempo_bpm = tempo;
    s.form_bars = chorus.1.max(8);
    s.chorus_begin = chorus.0;
    s.chorus_end = chorus.1;
    s.choruses = chorus.2;
    s.part_markers = markers;
    s.chords = chords;
    s.melody = melody;
    s
}

fn note(beat: u32, pitch: u8) -> Note {
    Note { tick: beat * PPQ, pitch, vel: 96, dur: PPQ }
}

/// The public sampler fixture: maj, min, Maj7, 6, m7, 7, a slash chord, a
/// multi-chord bar and A/B markers, in G.
fn sampler() -> Song {
    build(
        "Sampler",
        7,
        false,
        120,
        vec![
            ch(0, 0, 1, 255),
            ch(2, 9, 16, 255),
            ch(4, 0, 6, 255),
            ch(8, 2, 5, 255),
            ch(12, 4, 19, 255),
            ch(16, 7, 64, 255),
            ch(20, 2, 1, 6),
            ch(24, 5, 1, 255),
            ch(28, 7, 1, 255),
        ],
        vec![(1, 1), (5, 2)],
        (1, 8, 2),
        vec![],
    )
}

/// The bundled demo: I–vi–IV–V7 in C, two parts, a simple melody.
fn demo() -> Song {
    build(
        "Démo libre",
        0,
        false,
        100,
        vec![
            ch(0, 0, 1, 255),
            ch(4, 9, 16, 255),
            ch(8, 5, 1, 255),
            ch(12, 7, 64, 255),
            ch(16, 0, 1, 255),
            ch(20, 9, 16, 255),
            ch(24, 5, 1, 255),
            ch(28, 7, 64, 255),
        ],
        vec![(1, 1), (5, 2)],
        (1, 8, 2),
        (0..16u32).map(|b| note(b * 4, [60, 64, 65, 67, 60, 64, 65, 67][(b % 8) as usize])).collect(),
    )
}

#[test]
fn minor_chord_voices_minor_third_not_major() {
    let mut s = Song::default();
    s.chords = vec![Chord { bar: 1, beat: 0, tick: 0, text: "Em".into(), root: 4, ext: 16, bass: 255, rest: 0 }];
    let comp: Vec<u8> = arrange(&s, &Style::default())
        .into_iter()
        .filter(|e| e.part == Part::Comp)
        .map(|e| e.pitch)
        .collect();
    assert!(comp.contains(&55), "Em must comp G (minor 3rd, 48+4+3)");
    assert!(!comp.contains(&56), "Em must NOT comp G# (major 3rd, 48+4+4)");
}

#[test]
fn fixture_sampler() {
    let s = leadsheet::parse(&encode(&sampler())).unwrap();
    assert_eq!(s.title, "Sampler");
    assert_eq!(s.tempo_bpm, 120);
    assert_eq!(s.key_pc, 7);
    let texts: Vec<&str> = s.chords.iter().map(|c| c.text.as_str()).collect();
    assert_eq!(texts, ["C", "Am", "CMaj7", "D6", "Em7", "G7", "D/F#", "F", "G"]);
    assert_eq!(s.part_markers, vec![(1, 1), (5, 2)]);
}

#[test]
fn encode_roundtrip() {
    for song in [sampler(), demo()] {
        let s = leadsheet::parse(&encode(&song)).unwrap();
        let s2 = leadsheet::parse(&encode(&s)).unwrap();
        let a: Vec<&String> = s.chords.iter().map(|c| &c.text).collect();
        let b: Vec<&String> = s2.chords.iter().map(|c| &c.text).collect();
        assert_eq!(a, b);
        assert_eq!((s.tempo_bpm, s.key_pc, s.key_minor), (s2.tempo_bpm, s2.key_pc, s2.key_minor));
        assert_eq!(s.part_markers, s2.part_markers);
    }
}

#[test]
fn demo_reads_back_fully() {
    let s = leadsheet::parse(&encode(&demo())).unwrap();
    // The title goes out as UTF-8 bytes and comes back read as Latin-1.
    assert_eq!(s.title, "D\u{c3}\u{a9}mo libre");
    assert_eq!(s.tempo_bpm, 100);
    assert_eq!(s.key_pc, 0);
    assert!(!s.key_minor);
    let texts: Vec<&str> = s.chords.iter().map(|c| c.text.as_str()).collect();
    assert_eq!(texts, ["C", "Am", "F", "G7", "C", "Am", "F", "G7"]);
    assert_eq!((s.chorus_begin, s.chorus_end, s.choruses), (1, 8, 2));
    assert_eq!(s.form_bars, 8);
    assert_eq!(s.melody.len(), 16);
    assert_eq!(s.melody[1], Note { tick: 480, pitch: 64, vel: 96, dur: 120 });
    assert_eq!(s.bars, 16);
    assert!(s.chords_decoded);
    assert_eq!(s.style, "");
}

#[test]
fn minor_key_and_slash_bass_round_trip() {
    let mut s = sampler();
    s.key_pc = 4;
    s.key_minor = true;
    s.chords = vec![ch(0, 0, 1, 4), ch(4, 4, 16, 255)];
    let t = leadsheet::parse(&encode(&s)).unwrap();
    assert_eq!((t.key_pc, t.key_minor), (4, true));
    let texts: Vec<&str> = t.chords.iter().map(|c| c.text.as_str()).collect();
    assert_eq!(texts, ["C/E", "Em"]);
    assert_eq!(t.chords[0].bass, 4);
    assert_eq!(t.chords[1].bass, 255);
}

#[test]
fn zero_tempo_reads_as_120() {
    let mut s = sampler();
    s.tempo_bpm = 0;
    let t = leadsheet::parse(&encode(&s)).unwrap();
    assert_eq!(t.tempo_bpm, 120);
}

#[test]
fn biab_errors() {
    assert_eq!(leadsheet::parse(&[0u8; 10]).unwrap_err(), ParseError::TooShort);
    let mut d = vec![0u8; 40];
    d[1] = 200;
    assert_eq!(leadsheet::parse(&d).unwrap_err(), ParseError::BadTitle);
    assert_eq!(ParseError::TooShort.message(), "file too short");
    assert_eq!(ParseError::BadTitle.message(), "could not read song title");
    assert_eq!(ParseError::Format("x").message(), "x");
}

#[test]
fn title_is_trimmed_and_cut_at_nul() {
    let mut s = sampler();
    s.title = "  Hi there \0junk".into();
    let t = leadsheet::parse(&encode(&s)).unwrap();
    assert_eq!(t.title, "Hi there");
}

#[test]
fn style_reference_is_read() {
    let mut d = encode(&sampler());
    d.extend_from_slice(&[0, 0, 12]);
    d.extend_from_slice(b"C_DESERT.STY");
    let t = leadsheet::parse(&d).unwrap();
    assert_eq!(t.style, "C_DESERT.STY");
}

#[test]
fn rest_articulation_is_read() {
    // A "shot" (value 0x1f) on beat 4 (the C Maj7 chord): marker 4 + 10.
    let mut d = encode(&sampler());
    d.extend_from_slice(&[14, 0x1f, 0]);
    let t = leadsheet::parse(&d).unwrap();
    assert_eq!(t.chords[2].text, "CMaj7");
    assert_eq!(t.chords[2].rest, 2);
    assert_eq!(t.chords[0].rest, 0);
}

#[test]
fn trailing_resolution_chord_is_dropped() {
    let mut s = sampler();
    s.chorus_end = 7;
    let t = leadsheet::parse(&encode(&s)).unwrap();
    assert_eq!(t.chords.len(), 8);
    assert_eq!(t.chords.last().unwrap().text, "F");
    assert_eq!(t.form_bars, 8);
}

#[test]
fn decode_reads_streams() {
    // Bar stream from bar 1: part 1, skip to 255. Types: C at beat 0, Am at
    // beat 2 (type 16). Roots: 1 (C), 10 (A).
    let mut d = vec![1u8, 1, 0, 253];
    d.extend_from_slice(&[1, 0, 1, 16, 0, 255, 0, 255, 0, 255, 0, 252]);
    d.extend_from_slice(&[1, 0, 1, 10, 0, 255, 0, 255, 0, 255, 0, 252]);
    d.extend_from_slice(&[0, 1, 8, 2]);
    let (chords, chorus, markers) = decode(&d, 0, 4);
    let texts: Vec<&str> = chords.iter().map(|c| c.text.as_str()).collect();
    assert_eq!(texts, ["C", "Am"]);
    assert_eq!((chords[1].bar, chords[1].beat, chords[1].tick), (1, 2, 240));
    assert_eq!(chorus, Some((1, 8, 2)));
    assert_eq!(markers, vec![(1, 1)]);
}

#[test]
fn tables() {
    assert_eq!(key_info(8), (7, false));
    assert_eq!(key_info(0), (0, false));
    assert_eq!(key_info(22), (4, true));
    assert_eq!(key_info(31), (3, true));
    assert_eq!(timesig_z(0), 4);
    assert_eq!(timesig_z(1), 12);
    assert_eq!(timesig_z(7), 3);
    assert_eq!(timesig_z(200), 4);
    assert_eq!(form_bars(&[]), 4);
    assert_eq!(form_bars(&[ch(20, 0, 1, 255)]), 8);
    assert_eq!(form_bars(&[ch(32, 0, 1, 255)]), 12);
}

#[test]
fn pitch_names() {
    assert_eq!(pitch_class_name(0), "C");
    assert_eq!(pitch_class_name(13), "C#");
    assert_eq!(pitch_class_name(11), "B");
    assert_eq!(pitch_name(60), "C4");
    assert_eq!(pitch_name(69), "A4");
    assert_eq!(pitch_name(0), "C-1");
    assert_eq!(pitch_name(127), "G9");
    assert_eq!(pitch_name(120), "C9");
    assert_eq!(pitch_name(132), "C10");
    assert_eq!(pitch_name(255), "D#20");
}

fn vlq(mut v: u32) -> Vec<u8> {
    let mut out = vec![(v & 0x7f) as u8];
    v >>= 7;
    while v > 0 {
        out.insert(0, (v & 0x7f) as u8 | 0x80);
        v >>= 7;
    }
    out
}

fn midi_file(division: u16, events: &[(u32, Vec<u8>)]) -> Vec<u8> {
    let mut trk = Vec::new();
    for (dt, ev) in events {
        trk.extend(vlq(*dt));
        trk.extend_from_slice(ev);
    }
    let mut d = b"MThd".to_vec();
    d.extend_from_slice(&[0, 0, 0, 6, 0, 0, 0, 1]);
    d.extend_from_slice(&division.to_be_bytes());
    d.extend_from_slice(b"MTrk");
    d.extend_from_slice(&(trk.len() as u32).to_be_bytes());
    d.extend(trk);
    d
}

#[test]
fn midi_notes_tempo_and_title() {
    let d = midi_file(
        480,
        &[
            (0, vec![0xFF, 0x03, 6, b' ', b'S', b'o', b'n', b'g', b' ']),
            (0, vec![0xFF, 0x51, 3, 0x07, 0xA1, 0x20]),
            (0, vec![0x90, 60, 100]),
            (480, vec![0x80, 60, 0]),
            (0, vec![0x90, 62, 90]),
            (240, vec![62, 0]),
        ],
    );
    let s = leadsheet::parse(&d).unwrap();
    assert_eq!(s.title, "Song");
    assert_eq!(s.tempo_bpm, 120);
    assert_eq!(s.melody, vec![
        Note { tick: 0, pitch: 60, vel: 64, dur: 120 },
        Note { tick: 120, pitch: 62, vel: 64, dur: 60 },
    ]);
    assert_eq!(s.bars, 1);
    assert_eq!((s.form_bars, s.chorus_begin, s.chorus_end, s.choruses), (1, 1, 1, 1));
    assert!(s.chords.is_empty());
}

#[test]
fn midi_tempo_change() {
    let d = midi_file(120, &[(0, vec![0xFF, 0x51, 3, 0x09, 0x27, 0xC0]), (0, vec![0x90, 60, 1]), (960, vec![0x90, 60, 0])]);
    let s = midi::parse(&d).unwrap();
    assert_eq!(s.tempo_bpm, 100);
    assert_eq!(s.melody, vec![Note { tick: 0, pitch: 60, vel: 64, dur: 960 }]);
    assert_eq!(s.bars, 3);
}

#[test]
fn midi_errors() {
    assert_eq!(midi::parse(b"MThd").unwrap_err(), ParseError::Format("not a MIDI file"));
    assert_eq!(midi::parse(&[0u8; 20]).unwrap_err(), ParseError::Format("not a MIDI file"));
    // A note-on cut off by the end of the file.
    let d = midi_file(120, &[(0, vec![0x90, 60])]);
    assert_eq!(midi::parse(&d).unwrap_err(), ParseError::Format("malformed MIDI file"));
    assert_eq!(leadsheet::parse(&d).unwrap_err(), ParseError::Format("malformed MIDI file"));
    let mut e = b"MThd".to_vec();
    e.extend_from_slice(&[0, 0, 0, 6, 0, 1, 0, 1, 0, 0x78]);
    e.extend_from_slice(b"MTrk");
    e.extend_from_slice(&[0, 0, 0, 3, 0x00, 0x90, 0x3C]);
    assert_eq!(midi::parse(&e).unwrap_err(), ParseError::Format("malformed MIDI file"));
    // A tick that overflows.
    let f = midi_file(120, &vec![(0x0FFF_FFFF, vec![0x90, 60, 1]); 20]);
    assert!(matches!(midi::parse(&f), Err(ParseError::Format(_))));
    assert!(leadsheet::parse(&encode(&sampler())).is_ok());
}

#[test]
fn arrange_is_sorted_and_voices_every_chord() {
    let s = leadsheet::parse(&encode(&demo())).unwrap();
    let ev = arrange(&s, &Style::default());
    assert!(ev.windows(2).all(|w| w[0].tick <= w[1].tick));
    assert_eq!(ev.iter().filter(|e| e.part == Part::Melody).count(), 16);
    // Bar 1 (C, part A): bass + triad on beats 1 and 3 only.
    let bar1: Vec<&Event> = ev.iter().filter(|e| e.tick < 480 && e.part != Part::Melody).collect();
    assert_eq!(bar1.len(), 8);
    assert_eq!(bar1[0].pitch, 36);
    // Bar 5 (part B): comping on every beat.
    let comp5 = ev.iter().filter(|e| e.tick >= 1920 && e.tick < 2400 && e.part == Part::Comp).count();
    assert_eq!(comp5, 12);
    // G7 (ext 64) comps a major triad on G: 55, 59, 62.
    let g7: Vec<u8> = ev.iter().filter(|e| e.tick == 1440 && e.part == Part::Comp).map(|e| e.pitch).collect();
    assert_eq!(g7, vec![55, 59, 62]);
}

#[test]
fn arrange_checked_rejects_huge_ticks() {
    let mut s = Song::default();
    s.chords = vec![ch(0, 0, 1, 255)];
    s.chords[0].tick = u32::MAX - 100;
    assert!(arrange_checked(&s, &Style::default()).is_none());
    s.chords[0].root = 255;
    assert_eq!(arrange_checked(&s, &Style::default()).unwrap().len(), 0);
}

#[test]
fn style_default() {
    let st = Style::default();
    assert_eq!(st.name, "Basique");
    assert!(!st.swing);
    assert_eq!((st.bass.instrument, st.bass.beats.clone()), (8, vec![0, 2]));
    assert_eq!((st.comp.instrument, st.comp.beats.clone()), (3, vec![0, 2]));
}

#[test]
fn guitar_notation() {
    assert_eq!(staff_step(64), 37);
    assert_eq!(staff_step(60), 35);
    assert_eq!(staff_step(61), 35);
    assert_eq!(pitch_to_tab(39), None);
    assert_eq!(pitch_to_tab(40), Some((0, 0)));
    assert_eq!(pitch_to_tab(64), Some((5, 0)));
    assert_eq!(pitch_to_tab(62), Some((4, 3)));
    assert_eq!(pitch_to_tab(83), Some((5, 19)));
    assert_eq!(pitch_to_tab(84), None);
    let c = chord_shape(0, false);
    assert_eq!((c.frets, c.fingers), ([-1, 3, 2, 0, 1, 0], [0, 3, 2, 0, 1, 0]));
    let fm = chord_shape(5, true);
    assert_eq!((fm.frets, fm.fingers), ([1, 3, 3, 1, 1, 1], [1, 3, 4, 1, 1, 1]));
    let cm = chord_shape(0, true);
    assert_eq!((cm.frets, cm.fingers), ([-1, 3, 5, 5, 4, 3], [0, 1, 3, 4, 2, 1]));
    assert_eq!(french_name(0), "Do");
    assert_eq!(french_name(3), "Mi♭");
    assert_eq!(french_name(14), "Ré");
}

#[test]
fn playback_mapping() {
    // Intro bars 1..=2, chorus 3..=4 twice, then the ending bar 5.
    let m: Vec<u32> = (0..8).map(|lb| chart_bar0(lb, 3, 4, 2, 5)).collect();
    assert_eq!(m, vec![0, 1, 2, 3, 2, 3, 4, 4]);
    let s = leadsheet::parse(&encode(&sampler())).unwrap();
    let cells = chord_cells(&s);
    assert_eq!(cells[0], (0, 240, 0));
    assert_eq!(cells[1], (240, 240, 9));
    assert_eq!(cells[8], (3360, 480, 7));
    let p = Parts::default();
    assert!(p.melody_on && p.chords_on && p.bass_on);
    assert_eq!((p.melody_instr, p.chords_instr, p.bass_instr), (0, 3, 8));
}

#[test]
fn empty_song_encodes_and_parses_back() {
    let d = encode(&Song::default());
    assert_eq!(d.len(), 32);
    let s = leadsheet::parse(&d).unwrap();
    assert_eq!(s.title, "");
    assert!(s.chords.is_empty());
    assert_eq!(s.tempo_bpm, 120);
}

#[test]
fn round_trip_of_type_zero_off_beat_and_unsorted_markers() {
    let mut s = sampler();
    s.chords[0].ext = 0;
    s.chords[2].tick += 37;
    s.part_markers = vec![(5, 2), (1, 1)];
    let t = leadsheet::parse(&encode(&s)).unwrap();
    assert_eq!(t.chords[0].ext, 1);
    assert_eq!(t.chords[0].text, "C");
    assert_eq!(t.chords[2].tick, 480);
    assert_eq!(t.chords[2].text, "CMaj7");
    assert_eq!(t.part_markers, vec![(1, 1), (5, 2)]);
}
