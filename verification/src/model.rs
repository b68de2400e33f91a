//! Format-agnostic lead-sheet model shared by every input format.

use vstd::prelude::*;
use crate::text::push_char;
use crate::sort::TickKeyed;

verus! {

/// Ticks per quarter note used by Band-in-a-Box (matches its MIDI export).
pub const PPQ: u32 = 120;

/// Ticks in one 4/4 bar.
pub const TICKS_PER_BAR: u32 = 480;

#[derive(Clone, Copy, Debug, PartialEq, Eq, Structural)]
pub struct Note {
    /// Absolute start position in ticks (120 PPQ).
    pub tick: u32,
    /// MIDI pitch (60 = middle C).
    pub pitch: u8,
    /// MIDI velocity 1..=127.
    pub vel: u8,
    /// Duration in ticks.
    pub dur: u32,
}

impl TickKeyed for Note {
    open spec fn key(&self) -> u32 {
        self.tick
    }

    fn tick_key(&self) -> (r: u32) {
        self.tick
    }
}

#[derive(Clone, Debug)]
pub struct Chord {
    /// 1-based bar number.
    pub bar: u16,
    /// 0-based beat within the bar (0..=3 in 4/4).
    pub beat: u8,
    /// Absolute start position in ticks (120 PPQ).
    pub tick: u32,
    /// Display text, e.g. "CMaj7".
    pub text: String,
    /// Root as a pitch class 0..=11 (C=0), or 255 if unknown.
    pub root: u8,
    /// Chord-type index (Band-in-a-Box table); 0 if unknown. Kept for re-encoding.
    pub ext: u8,
    /// Slash-bass pitch class 0..=11, or 255 if no slash.
    pub bass: u8,
    /// Articulation dots: 0 = none, 1 = rest (`.`), 2 = shot (`..`), 3 = hold (`...`).
    pub rest: u8,
}

/// A chord with its text as a character sequence.
pub struct ChordView {
    pub bar: u16,
    pub beat: u8,
    pub tick: u32,
    pub text: Seq<char>,
    pub root: u8,
    pub ext: u8,
    pub bass: u8,
    pub rest: u8,
}

impl View for Chord {
    type V = ChordView;

    open spec fn view(&self) -> ChordView {
        ChordView {
            bar: self.bar,
            beat: self.beat,
            tick: self.tick,
            text: self.text@,
            root: self.root,
            ext: self.ext,
            bass: self.bass,
            rest: self.rest,
        }
    }
}

#[derive(Clone, Debug)]
pub struct Song {
    pub title: String,
    pub style: String,
    pub tempo_bpm: u16,
    /// Key as a pitch class 0..=11 (C=0). Default 0 (C major).
    pub key_pc: u8,
    /// True if the song's key is minor.
    pub key_minor: bool,
    pub melody: Vec<Note>,
    pub chords: Vec<Chord>,
    /// Part markers `(bar, part)` — part 1 = substyle A, 2 = substyle B.
    pub part_markers: Vec<(u16, u8)>,
    /// Number of bars covered by the melody (derived). The melody is stored
    /// expanded over every chorus, so this is usually several times `form_bars`.
    pub bars: u16,
    /// Total bars in the chord chart (intro + chorus + ending), shown once.
    pub form_bars: u16,
    /// First/last bar of the repeated chorus section (the loop). For songs
    /// with no intro, `chorus_begin` is 1.
    pub chorus_begin: u16,
    pub chorus_end: u16,
    /// Number of times the chorus repeats, read from the file.
    pub choruses: u16,
    /// True if chords were decoded (vs. provisional/empty).
    pub chords_decoded: bool,
}

/// A song with its strings as character sequences and its chords as views.
pub struct SongView {
    pub title: Seq<char>,
    pub style: Seq<char>,
    pub tempo_bpm: u16,
    pub key_pc: u8,
    pub key_minor: bool,
    pub melody: Seq<Note>,
    pub chords: Seq<ChordView>,
    pub part_markers: Seq<(u16, u8)>,
    pub bars: u16,
    pub form_bars: u16,
    pub chorus_begin: u16,
    pub chorus_end: u16,
    pub choruses: u16,
    pub chords_decoded: bool,
}

impl View for Song {
    type V = SongView;

    open spec fn view(&self) -> SongView {
        SongView {
            title: self.title@,
            style: self.style@,
            tempo_bpm: self.tempo_bpm,
            key_pc: self.key_pc,
            key_minor: self.key_minor,
            melody: self.melody@,
            chords: self.chords@.map_values(|c: Chord| c@),
            part_markers: self.part_markers@,
            bars: self.bars,
            form_bars: self.form_bars,
            chorus_begin: self.chorus_begin,
            chorus_end: self.chorus_end,
            choruses: self.choruses,
            chords_decoded: self.chords_decoded,
        }
    }
}

/// The empty song: no text, no notes, every number zero.
pub open spec fn empty_song() -> SongView {
    SongView {
        title: Seq::empty(),
        style: Seq::empty(),
        tempo_bpm: 0,
        key_pc: 0,
        key_minor: false,
        melody: Seq::empty(),
        chords: Seq::empty(),
        part_markers: Seq::empty(),
        bars: 0,
        form_bars: 0,
        chorus_begin: 0,
        chorus_end: 0,
        choruses: 0,
        chords_decoded: false,
    }
}

impl Default for Song {
    fn default() -> (s: Song)
        ensures
            s@ == empty_song(),
    {
        let s = Song {
            title: String::new(),
            style: String::new(),
            tempo_bpm: 0,
            key_pc: 0,
            key_minor: false,
            melody: Vec::new(),
            chords: Vec::new(),
            part_markers: Vec::new(),
            bars: 0,
            form_bars: 0,
            chorus_begin: 0,
            chorus_end: 0,
            choruses: 0,
            chords_decoded: false,
        };
        assert(s@.chords =~= Seq::<ChordView>::empty());
        s
    }
}

#[derive(Clone, Copy, Debug, PartialEq, Eq)]
pub enum ParseError {
    TooShort,
    BadTitle,
    /// A format-specific decoding error (e.g. malformed MIDI).
    Format(&'static str),
}

impl ParseError {
    /// Human-readable description of the error.
    pub fn message(&self) -> (m: &'static str)
        ensures
            self is TooShort ==> m@ == "file too short"@,
            self is BadTitle ==> m@ == "could not read song title"@,
            self matches ParseError::Format(t) ==> m@ == t@,
    {
        match self {
            ParseError::TooShort => "file too short",
            ParseError::BadTitle => "could not read song title",
            ParseError::Format(m) => m,
        }
    }
}

/// Name of a pitch class (sharps), e.g. 1 -> "C#".
pub open spec fn pc_name(pc: int) -> Seq<char> {
    if pc == 0 {
        seq!['C']
    } else if pc == 1 {
        seq!['C', '#']
    } else if pc == 2 {
        seq!['D']
    } else if pc == 3 {
        seq!['D', '#']
    } else if pc == 4 {
        seq!['E']
    } else if pc == 5 {
        seq!['F']
    } else if pc == 6 {
        seq!['F', '#']
    } else if pc == 7 {
        seq!['G']
    } else if pc == 8 {
        seq!['G', '#']
    } else if pc == 9 {
        seq!['A']
    } else if pc == 10 {
        seq!['A', '#']
    } else {
        seq!['B']
    }
}

/// Pitch-class (taken mod 12) to note name (sharps).
pub fn pitch_class_name(pc: u8) -> (r: &'static str)
    ensures
        r@ == pc_name((pc % 12) as int),
{
    let k = pc % 12;
    if k == 0 {
        proof { reveal_strlit("C"); }
        "C"
    } else if k == 1 {
        proof { reveal_strlit("C#"); }
        "C#"
    } else if k == 2 {
        proof { reveal_strlit("D"); }
        "D"
    } else if k == 3 {
        proof { reveal_strlit("D#"); }
        "D#"
    } else if k == 4 {
        proof { reveal_strlit("E"); }
        "E"
    } else if k == 5 {
        proof { reveal_strlit("F"); }
        "F"
    } else if k == 6 {
        proof { reveal_strlit("F#"); }
        "F#"
    } else if k == 7 {
        proof { reveal_strlit("G"); }
        "G"
    } else if k == 8 {
        proof { reveal_strlit("G#"); }
        "G#"
    } else if k == 9 {
        proof { reveal_strlit("A"); }
        "A"
    } else if k == 10 {
        proof { reveal_strlit("A#"); }
        "A#"
    } else {
        proof { reveal_strlit("B"); }
        "B"
    }
}

/// The decimal digit of `d` (0..10).
pub open spec fn digit(d: int) -> char {
    ('0' as int + d) as char
}

/// Decimal text of a natural number, without leading zeros.
pub open spec fn decimal(n: nat) -> Seq<char>
    decreases n,
{
    if n < 10 {
        seq![digit(n as int)]
    } else {
        decimal(n / 10).push(digit((n % 10) as int))
    }
}

/// Decimal text of an integer, with a leading `-` when negative.
pub open spec fn int_text(v: int) -> Seq<char> {
    if v < 0 {
        seq!['-'] + decimal((-v) as nat)
    } else {
        decimal(v as nat)
    }
}

/// MIDI pitch to "C4"-style name (MIDI 60 = C4): the pitch class and the
/// octave in decimal.
pub fn pitch_name(pitch: u8) -> (r: String)
    ensures
        r@ == pc_name((pitch % 12) as int) + int_text(pitch / 12 - 1),
{
    let mut r = String::from_str(pitch_class_name(pitch % 12));
    let ghost name = r@;
    let oct = pitch / 12;
    if oct == 0 {
        push_char(&mut r, '-');
        push_char(&mut r, '1');
        assert(decimal(1) == seq!['1']);
        assert(r@ =~= name + int_text(-1));
    } else {
        let o = oct - 1;
        if o >= 10 {
            push_char(&mut r, (48 + o / 10) as char);
            push_char(&mut r, (48 + o % 10) as char);
            assert(decimal((o / 10) as nat) == seq![digit((o / 10) as int)]);
            assert(decimal(o as nat) == decimal((o / 10) as nat).push(digit((o % 10) as int)));
        } else {
            push_char(&mut r, (48 + o) as char);
        }
        assert(r@ =~= name + int_text(o as int));
    }
    r
}

} // verus!
