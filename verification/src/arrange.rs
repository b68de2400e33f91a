//! Combine a song (what to play) with a style (how to play it) into a flat
//! list of playable note events.

use vstd::prelude::*;
use crate::model::{Chord, ChordView, Note, Song, SongView};
use crate::sort::{sort_by_tick, tick_sort, TickKeyed};
use crate::style::{Style, StyleView};

verus! {

#[derive(Clone, Copy, Debug, PartialEq, Eq, Structural)]
pub enum Part {
    Melody,
    Bass,
    Comp,
}

#[derive(Clone, Copy, Debug, PartialEq, Eq, Structural)]
pub struct Event {
    pub tick: u32,
    pub pitch: u8,
    pub vel: u8,
    pub dur: u32,
    pub instrument: u8,
    pub part: Part,
}

impl TickKeyed for Event {
    open spec fn key(&self) -> u32 {
        self.tick
    }

    fn tick_key(&self) -> (r: u32) {
        self.tick
    }
}

/// Chord-tone intervals (from the root) of a Band-in-a-Box chord-type
/// index: diminished, minor family, augmented, else major.
pub open spec fn chord_tones(ext: u8) -> Seq<u8> {
    if ext == 32 || ext == 33 {
        seq![0u8, 3u8, 6u8]
    } else if 16 <= ext <= 23 {
        seq![0u8, 3u8, 7u8]
    } else if ext == 4 {
        seq![0u8, 4u8, 8u8]
    } else {
        seq![0u8, 4u8, 7u8]
    }
}

/// Chord-tone intervals (from the root) for a Band-in-a-Box chord-type index.
/// Picks the right 3rd/5th so minor chords don't sound a major 3rd.
fn voicing(ext: u8) -> (r: [u8; 3])
    ensures
        r@ == chord_tones(ext),
{
    let r: [u8; 3] = if ext == 32 || ext == 33 {
        [0, 3, 6]
    } else if 16 <= ext && ext <= 23 {
        [0, 3, 7]
    } else if ext == 4 {
        [0, 4, 8]
    } else {
        [0, 4, 7]
    };
    assert(r@ =~= chord_tones(ext));
    r
}

/// Substyle in force after the markers from `i` on, reading them in order
/// up to the first that starts after `bar`.
pub open spec fn part_from(ms: Seq<(u16, u8)>, i: int, bar: u16, cur: u8) -> u8
    decreases ms.len() - i,
{
    if i < 0 || i >= ms.len() || ms[i].0 > bar {
        cur
    } else {
        part_from(ms, i + 1, bar, ms[i].1)
    }
}

/// Active substyle (1 = A, 2 = B) at `bar`, from the part markers.
pub open spec fn part_in(ms: Seq<(u16, u8)>, bar: u16) -> u8 {
    part_from(ms, 0, bar, 1)
}

/// Active substyle (1 = A, 2 = B) at `bar`, from the decoded part markers.
fn part_at(song: &Song, bar: u16) -> (r: u8)
    ensures
        r == part_in(song.part_markers@, bar),
{
    let mut cur: u8 = 1;
    let mut i: usize = 0;
    while i < song.part_markers.len() && song.part_markers[i].0 <= bar
        invariant
            i <= song.part_markers@.len(),
            part_in(song.part_markers@, bar) == part_from(song.part_markers@, i as int, bar, cur),
        decreases song.part_markers@.len() - i,
    {
        cur = song.part_markers[i].1;
        i = i + 1;
    }
    cur
}

fn has_beat(beats: &Vec<u8>, b: u8) -> (r: bool)
    ensures
        r == beats@.contains(b),
{
    let mut i: usize = 0;
    while i < beats.len()
        invariant
            i <= beats@.len(),
            forall|k: int| 0 <= k < i ==> beats@[k] != b,
        decreases beats@.len() - i,
    {
        if beats[i] == b {
            assert(beats@[i as int] == b);
            return true;
        }
        i = i + 1;
    }
    false
}

/// The events sounding the chord `c` at tick `t`: the bass root and the
/// chord tones, each when the style's pattern (or, for the comping,
/// substyle B) plays on that beat, or always at the chord's `onset`.
/// `None` when the bar number of `t` does not fit.
pub open spec fn emit(s: SongView, st: StyleView, c: ChordView, t: u32, onset: bool) -> Option<
    Seq<Event>,
> {
    if ((t / 480) as u16) == 65535 {
        None
    } else {
        let bar_no = ((t / 480) as u16 + 1) as u16;
        let bib = ((t / 120) % 4) as u8;
        let comp_on = part_in(s.part_markers, bar_no) == 2 || st.comp.beats.contains(bib);
        let bass_on = st.bass.beats.contains(bib);
        let bass = if onset || bass_on {
            seq![
                Event {
                    tick: t,
                    pitch: (36 + c.root) as u8,
                    vel: 90,
                    dur: 120,
                    instrument: st.bass.instrument,
                    part: Part::Bass,
                },
            ]
        } else {
            Seq::empty()
        };
        let comp = if onset || comp_on {
            chord_tones(c.ext).map_values(
                |iv: u8|
                    Event {
                        tick: t,
                        pitch: (48 + c.root + iv) as u8,
                        vel: 55,
                        dur: 120,
                        instrument: st.comp.instrument,
                        part: Part::Comp,
                    },
            )
        } else {
            Seq::empty()
        };
        Some(bass + comp)
    }
}

/// `Some(x + r)` for `Some(r)`; `None` stays `None`.
pub open spec fn prefixed(x: Seq<Event>, r: Option<Seq<Event>>) -> Option<Seq<Event>> {
    match r {
        None => None,
        Some(r) => Some(x + r),
    }
}

/// The pattern events of `c` on the beat slots from `t` (a multiple of a beat)
/// up to `end`; `None` when a slot's bar does not fit or the next slot passes
/// `u32::MAX`.
pub open spec fn slots(s: SongView, st: StyleView, c: ChordView, t: int, end: int) -> Option<
    Seq<Event>,
>
    decreases (if end > t { end - t } else { 0 }),
{
    if t >= end || t < 0 || t > u32::MAX {
        Some(Seq::empty())
    } else {
        match emit(s, st, c, t as u32, false) {
            None => None,
            Some(e) => if t + 120 > u32::MAX {
                None
            } else {
                prefixed(e, slots(s, st, c, t + 120, end))
            },
        }
    }
}

/// The events of chord `i`: voiced at its onset, then on the pattern beats
/// until the next chord (or one bar for the last), at least one beat.
/// `None` when its tick is within a bar of `u32::MAX` or a slot fails.
pub open spec fn chord_events(s: SongView, st: StyleView, i: int) -> Option<Seq<Event>> {
    let c = s.chords[i];
    let start = c.tick as int;
    if start + 480 > u32::MAX {
        None
    } else {
        let next = if i + 1 < s.chords.len() {
            s.chords[i + 1].tick as int
        } else {
            start + 480
        };
        let end = if next > start + 120 {
            next
        } else {
            start + 120
        };
        match emit(s, st, c, start as u32, true) {
            None => None,
            Some(e0) => prefixed(e0, slots(s, st, c, (start / 120 + 1) * 120, end)),
        }
    }
}

/// The events of the chords from `i` on (a root above 11 is a slash-bass
/// marker and sounds nothing).
pub open spec fn chords_from(s: SongView, st: StyleView, i: int) -> Option<Seq<Event>>
    decreases s.chords.len() - i,
{
    if i < 0 || i >= s.chords.len() {
        Some(Seq::empty())
    } else if s.chords[i].root > 11 {
        chords_from(s, st, i + 1)
    } else {
        match chord_events(s, st, i) {
            None => None,
            Some(e) => prefixed(e, chords_from(s, st, i + 1)),
        }
    }
}

/// The melody as events (instrument 0).
pub open spec fn melody_events(m: Seq<Note>) -> Seq<Event> {
    m.map_values(
        |n: Note|
            Event {
                tick: n.tick,
                pitch: n.pitch,
                vel: n.vel,
                dur: n.dur,
                instrument: 0,
                part: Part::Melody,
            },
    )
}

/// The arrangement: the melody as-is plus bass and comped chords, stably
/// sorted by tick. `None` where the arranger fails (see [`chord_events`]).
pub open spec fn arrangement(s: SongView, st: StyleView) -> Option<Seq<Event>> {
    match chords_from(s, st, 0) {
        None => None,
        Some(ce) => Some(tick_sort(melody_events(s.melody) + ce)),
    }
}

fn emit_events(song: &Song, style: &Style, c: &Chord, t: u32, onset: bool) -> (r: Option<Vec<Event>>)
    requires
        c.root <= 11,
    ensures
        match r {
            Some(v) => emit(song@, style@, c@, t, onset) == Some(v@),
            None => emit(song@, style@, c@, t, onset) is None,
        },
{
    let bar = t / 480;
    if bar as u16 == 65535 {
        return None;
    }
    let bar_no = bar as u16 + 1;
    let bib = ((t / 120) % 4) as u8;
    let comp_on = part_at(song, bar_no) == 2 || has_beat(&style.comp.beats, bib);
    let bass_on = has_beat(&style.bass.beats, bib);
    let mut out: Vec<Event> = Vec::new();
    if onset || bass_on {
        out.push(
            Event {
                tick: t,
                pitch: 36 + c.root,
                vel: 90,
                dur: 120,
                instrument: style.bass.instrument,
                part: Part::Bass,
            },
        );
    }
    let ghost bass = out@;
    if onset || comp_on {
        let ivs = voicing(c.ext);
        let mut k: usize = 0;
        while k < 3
            invariant
                k <= 3,
                c.root <= 11,
                ivs@ == chord_tones(c.ext),
                out@ == bass + ivs@.take(k as int).map_values(
                    |iv: u8|
                        Event {
                            tick: t,
                            pitch: (48 + c.root + iv) as u8,
                            vel: 55,
                            dur: 120,
                            instrument: style.comp.instrument,
                            part: Part::Comp,
                        },
                ),
            decreases 3 - k,
        {
            out.push(
                Event {
                    tick: t,
                    pitch: 48 + c.root + ivs[k],
                    vel: 55,
                    dur: 120,
                    instrument: style.comp.instrument,
                    part: Part::Comp,
                },
            );
            k = k + 1;
            assert(out@ =~= bass + ivs@.take(k as int).map_values(
                |iv: u8|
                    Event {
                        tick: t,
                        pitch: (48 + c.root + iv) as u8,
                        vel: 55,
                        dur: 120,
                        instrument: style.comp.instrument,
                        part: Part::Comp,
                    },
            ));
        }
        assert(ivs@.take(3) =~= ivs@);
    }
    assert(out@ =~= emit(song@, style@, c@, t, onset).unwrap());
    Some(out)
}


fn chord_events_of(song: &Song, style: &Style, i: usize) -> (r: Option<Vec<Event>>)
    requires
        i < song.chords@.len(),
        song.chords@[i as int].root <= 11,
    ensures
        match r {
            Some(v) => chord_events(song@, style@, i as int) == Some(v@),
            None => chord_events(song@, style@, i as int) is None,
        },
{
    let c = &song.chords[i];
    assert(song@.chords[i as int] == c@);
    let start = c.tick;
    if start > u32::MAX - 480 {
        return None;
    }
    let next = if i < song.chords.len() - 1 {
        assert(song@.chords[i + 1] == song.chords@[i + 1]@);
        song.chords[i + 1].tick
    } else {
        start + 480
    };
    let end: u32 = if next > start + 120 { next } else { start + 120 };
    let mut out = match emit_events(song, style, c, start, true) {
        None => {
            return None;
        },
        Some(v) => v,
    };
    let mut t: u32 = (start / 120 + 1) * 120;
    while t < end
        invariant
            c.root <= 11,
            c@ == song@.chords[i as int],
            chord_events(song@, style@, i as int) == prefixed(out@, slots(song@, style@, c@, t as int, end as int)),
        decreases (if end > t { end - t } else { 0 }),
    {
        match emit_events(song, style, c, t, false) {
            None => {
                return None;
            },
            Some(v) => {
                if t > u32::MAX - 120 {
                    return None;
                }
                let ghost before = out@;
                let ghost vv = v@;
                let mut v = v;
                out.append(&mut v);
                assert(prefixed(before, prefixed(vv, slots(song@, style@, c@, t + 120, end as int))) == prefixed(out@, slots(song@, style@, c@, t + 120, end as int))) by {
                    assert(before + vv == out@);
                    match slots(song@, style@, c@, t + 120, end as int) {
                        None => {},
                        Some(r) => {
                            assert(before + (vv + r) =~= out@ + r);
                        },
                    }
                }
                t = t + 120;
            },
        }
    }
    assert(out@ + Seq::<Event>::empty() =~= out@);
    Some(out)
}

/// Produce events: the melody as-is, plus bass + comped chords on the style's
/// pattern beats, sorted by tick; `None` where arranging fails (a chord
/// within a bar of the largest tick, or a bar number that does not fit).
pub fn arrange_checked(song: &Song, style: &Style) -> (r: Option<Vec<Event>>)
    ensures
        match r {
            Some(v) => arrangement(song@, style@) == Some(v@),
            None => arrangement(song@, style@) is None,
        },
{
    let mut out: Vec<Event> = Vec::new();
    let mut i: usize = 0;
    while i < song.melody.len()
        invariant
            i <= song.melody@.len(),
            out@ == melody_events(song.melody@.take(i as int)),
        decreases song.melody@.len() - i,
    {
        let n = song.melody[i];
        out.push(
            Event {
                tick: n.tick,
                pitch: n.pitch,
                vel: n.vel,
                dur: n.dur,
                instrument: 0,
                part: Part::Melody,
            },
        );
        i = i + 1;
        assert(out@ =~= melody_events(song.melody@.take(i as int)));
    }
    assert(song.melody@.take(song.melody@.len() as int) =~= song.melody@);
    let mut ce: Vec<Event> = Vec::new();
    let mut i: usize = 0;
    assert(ce@ + Seq::<Event>::empty() =~= ce@);
    assert(prefixed(ce@, chords_from(song@, style@, 0)) == chords_from(song@, style@, 0)) by {
        match chords_from(song@, style@, 0) {
            None => {},
            Some(r) => {
                assert(ce@ + r =~= r);
            },
        }
    }
    while i < song.chords.len()
        invariant
            i <= song.chords@.len(),
            chords_from(song@, style@, 0) == prefixed(ce@, chords_from(song@, style@, i as int)),
        decreases song.chords@.len() - i,
    {
        assert(song@.chords[i as int] == song.chords@[i as int]@);
        if song.chords[i].root <= 11 {
            match chord_events_of(song, style, i) {
                None => {
                    return None;
                },
                Some(v) => {
                    let ghost before = ce@;
                    let ghost vv = v@;
                    let mut v = v;
                    ce.append(&mut v);
                    assert(prefixed(before, prefixed(vv, chords_from(song@, style@, i + 1))) == prefixed(ce@, chords_from(song@, style@, i + 1))) by {
                        match chords_from(song@, style@, i + 1) {
                            None => {},
                            Some(r) => {
                                assert(before + (vv + r) =~= ce@ + r);
                            },
                        }
                    }
                },
            }
        }
        i = i + 1;
    }
    assert(ce@ + Seq::<Event>::empty() =~= ce@);
    out.append(&mut ce);
    Some(sort_by_tick(out))
}

/// Produce events: the melody as-is, plus bass + comped chords on the style's
/// pattern beats, sorted by tick (the songs on which arranging fails are
/// left out; see [`arrange_checked`]).
pub fn arrange(song: &Song, style: &Style) -> (r: Vec<Event>)
    requires
        arrangement(song@, style@) is Some,
    ensures
        arrangement(song@, style@) == Some(r@),
{
    match arrange_checked(song, style) {
        Some(v) => v,
        None => Vec::new(),
    }
}


/// The arrangement is in tick order and holds every melody event and every
/// chord event exactly once.
pub proof fn lemma_arrangement_sorted(s: SongView, st: StyleView)
    ensures
        arrangement(s, st) matches Some(ev) ==> crate::sort::sorted_by_tick(ev) && ev.to_multiset()
            == (melody_events(s.melody) + chords_from(s, st, 0)->Some_0).to_multiset(),
{
    if let Some(ce) = chords_from(s, st, 0) {
        crate::sort::lemma_tick_sort_sorted(melody_events(s.melody) + ce);
        crate::sort::lemma_tick_sort_permutes(melody_events(s.melody) + ce);
    }
}

/// What chord `c` sounds at its onset: its bass root and every one of its
/// chord tones, at its tick.
pub open spec fn onset_events(st: StyleView, c: ChordView) -> Seq<Event> {
    seq![
        Event {
            tick: c.tick,
            pitch: (36 + c.root) as u8,
            vel: 90,
            dur: 120,
            instrument: st.bass.instrument,
            part: Part::Bass,
        },
    ] + chord_tones(c.ext).map_values(
        |iv: u8|
            Event {
                tick: c.tick,
                pitch: (48 + c.root + iv) as u8,
                vel: 55,
                dur: 120,
                instrument: st.comp.instrument,
                part: Part::Comp,
            },
    )
}

proof fn lemma_chord_events_onset(s: SongView, st: StyleView, i: int)
    requires
        0 <= i < s.chords.len(),
        chord_events(s, st, i) is Some,
    ensures
        forall|k: int|
            0 <= k < onset_events(st, s.chords[i]).len() ==> chord_events(s, st, i)->Some_0.contains(
                #[trigger] onset_events(st, s.chords[i])[k],
            ),
{
    let c = s.chords[i];
    let e = chord_events(s, st, i)->Some_0;
    let e0 = emit(s, st, c, c.tick, true)->Some_0;
    assert(e0 =~= onset_events(st, c));
    assert forall|k: int| 0 <= k < onset_events(st, c).len() implies e.contains(
        #[trigger] onset_events(st, c)[k],
    ) by {
        assert(e[k] == e0[k]);
    }
}

proof fn lemma_chords_from_holds(s: SongView, st: StyleView, j: int, i: int)
    requires
        0 <= j <= i < s.chords.len(),
        s.chords[i].root <= 11,
        chords_from(s, st, j) is Some,
    ensures
        chord_events(s, st, i) is Some,
        forall|x: Event| chord_events(s, st, i)->Some_0.contains(x) ==> #[trigger] chords_from(
            s,
            st,
            j,
        )->Some_0.contains(x),
    decreases i - j,
{
    let cf = chords_from(s, st, j)->Some_0;
    if s.chords[j].root > 11 {
        lemma_chords_from_holds(s, st, j + 1, i);
    } else {
        let e = chord_events(s, st, j)->Some_0;
        let rest = chords_from(s, st, j + 1)->Some_0;
        assert(cf == e + rest);
        if j == i {
            assert forall|x: Event| e.contains(x) implies #[trigger] cf.contains(x) by {
                let k = choose|k: int| 0 <= k < e.len() && e[k] == x;
                assert(cf[k] == x);
            }
        } else {
            lemma_chords_from_holds(s, st, j + 1, i);
            assert forall|x: Event| chord_events(s, st, i)->Some_0.contains(x) implies #[trigger] cf.contains(x) by {
                assert(rest.contains(x));
                let k = choose|k: int| 0 <= k < rest.len() && rest[k] == x;
                assert(cf[e.len() + k] == x);
            }
        }
    }
}

/// Every chord change sounds: for each chord whose root is a pitch class,
/// the arrangement holds its bass root and all its chord tones at its tick,
/// whatever the style's pattern.
pub proof fn lemma_every_chord_sounds(s: SongView, st: StyleView, i: int)
    requires
        0 <= i < s.chords.len(),
        s.chords[i].root <= 11,
    ensures
        arrangement(s, st) matches Some(ev) ==> forall|k: int|
            0 <= k < onset_events(st, s.chords[i]).len() ==> ev.contains(
                #[trigger] onset_events(st, s.chords[i])[k],
            ),
{
    broadcast use vstd::seq_lib::group_to_multiset_ensures;
    if let Some(ev) = arrangement(s, st) {
        let ce = chords_from(s, st, 0)->Some_0;
        let all = melody_events(s.melody) + ce;
        lemma_arrangement_sorted(s, st);
        lemma_chords_from_holds(s, st, 0, i);
        lemma_chord_events_onset(s, st, i);
        assert forall|k: int| 0 <= k < onset_events(st, s.chords[i]).len() implies ev.contains(
            #[trigger] onset_events(st, s.chords[i])[k],
        ) by {
            let x = onset_events(st, s.chords[i])[k];
            assert(ce.contains(x));
            let p = choose|p: int| 0 <= p < ce.len() && ce[p] == x;
            assert(all[melody_events(s.melody).len() + p] == x);
            assert(all.contains(x));
            assert(all.to_multiset().count(x) > 0);
            assert(ev.to_multiset().count(x) > 0);
        }
    }
}

/// The comp event of chord `c` that sounds `offset` semitones above its
/// root, at the chord's tick.
pub open spec fn comp_at(st: StyleView, c: ChordView, offset: int) -> Event {
    Event {
        tick: c.tick,
        pitch: (48 + c.root + offset) as u8,
        vel: 55,
        dur: 120,
        instrument: st.comp.instrument,
        part: Part::Comp,
    }
}

/// Chords are comped with the right triad for their quality: at its tick, a
/// chord sounds its root, its third and its fifth ([`third_of`],
/// [`fifth_of`]): a chord of the minor family (type 16 to 23: m, m#5, mMaj7,
/// m7, m9, m11, m13, m6) 0, 3, 7 semitones up, a diminished chord (32, 33)
/// 0, 3, 6, the augmented one (4) 0, 4, 8, any other chord 0, 4, 7.
pub proof fn lemma_comp_triads(s: SongView, st: StyleView, i: int)
    requires
        0 <= i < s.chords.len(),
        s.chords[i].root <= 11,
    ensures
        arrangement(s, st) matches Some(ev) ==> {
            let c = s.chords[i];
            &&& ev.contains(comp_at(st, c, 0))
            &&& ev.contains(comp_at(st, c, third_of(c.ext)))
            &&& ev.contains(comp_at(st, c, fifth_of(c.ext)))
        },
{
    lemma_every_chord_sounds(s, st, i);
    if let Some(ev) = arrangement(s, st) {
        let c = s.chords[i];
        let o = onset_events(st, c);
        assert(o[1] == comp_at(st, c, chord_tones(c.ext)[0] as int));
        assert(o[2] == comp_at(st, c, chord_tones(c.ext)[1] as int));
        assert(o[3] == comp_at(st, c, chord_tones(c.ext)[2] as int));
        assert(ev.contains(o[1]) && ev.contains(o[2]) && ev.contains(o[3]));
    }
}

/// The third of a chord's triad, in semitones above its root: minor (3)
/// for the minor family (16 to 23) and the diminished chords (32, 33),
/// major (4) otherwise.
pub open spec fn third_of(ext: u8) -> int {
    if (16 <= ext <= 23) || ext == 32 || ext == 33 {
        3
    } else {
        4
    }
}

/// The fifth of a chord's triad: flat (6) for the diminished chords, sharp
/// (8) for the augmented one (4), perfect (7) otherwise.
pub open spec fn fifth_of(ext: u8) -> int {
    if ext == 32 || ext == 33 {
        6
    } else if ext == 4 {
        8
    } else {
        7
    }
}

/// `e` is a bass root or a comped triad tone of chord `c`.
pub open spec fn sounds_chord(c: ChordView, e: Event) -> bool {
    ||| e.part == Part::Bass && e.pitch == 36 + c.root
    ||| e.part == Part::Comp && (e.pitch == 48 + c.root || e.pitch == 48 + c.root + third_of(c.ext)
        || e.pitch == 48 + c.root + fifth_of(c.ext))
}

proof fn lemma_emit_sounds(s: SongView, st: StyleView, c: ChordView, t: u32, onset: bool)
    requires
        c.root <= 11,
    ensures
        emit(s, st, c, t, onset) matches Some(es) ==> forall|x: Event| #[trigger] es.contains(x) ==> sounds_chord(c, x),
{
    if let Some(es) = emit(s, st, c, t, onset) {
        assert forall|x: Event| #[trigger] es.contains(x) implies sounds_chord(c, x) by {
            let j = choose|j: int| 0 <= j < es.len() && es[j] == x;
            let tones = chord_tones(c.ext);
            assert(tones[0] == 0 && tones[1] == third_of(c.ext) && tones[2] == fifth_of(c.ext));
        }
    }
}

proof fn lemma_slots_sound(s: SongView, st: StyleView, c: ChordView, t: int, end: int)
    requires
        c.root <= 11,
    ensures
        slots(s, st, c, t, end) matches Some(es) ==> forall|x: Event| #[trigger] es.contains(x) ==> sounds_chord(c, x),
    decreases (if end > t { end - t } else { 0 }),
{
    if !(t >= end || t < 0 || t > u32::MAX) {
        lemma_emit_sounds(s, st, c, t as u32, false);
        if t + 120 <= u32::MAX {
            lemma_slots_sound(s, st, c, t + 120, end);
        }
        if let Some(es) = slots(s, st, c, t, end) {
            let e = emit(s, st, c, t as u32, false)->Some_0;
            let r = slots(s, st, c, t + 120, end)->Some_0;
            assert(es == e + r);
            assert forall|x: Event| #[trigger] es.contains(x) implies sounds_chord(c, x) by {
                let j = choose|j: int| 0 <= j < es.len() && es[j] == x;
                if j < e.len() {
                    assert(e.contains(e[j]));
                } else {
                    assert(r.contains(r[j - e.len()]));
                }
            }
        }
    }
}

proof fn lemma_chord_events_sound(s: SongView, st: StyleView, i: int)
    requires
        0 <= i < s.chords.len(),
        s.chords[i].root <= 11,
    ensures
        chord_events(s, st, i) matches Some(es) ==> forall|x: Event| #[trigger] es.contains(x) ==> sounds_chord(
            s.chords[i],
            x,
        ),
{
    let c = s.chords[i];
    let start = c.tick as int;
    if let Some(es) = chord_events(s, st, i) {
        let next = if i + 1 < s.chords.len() { s.chords[i + 1].tick as int } else { start + 480 };
        let end = if next > start + 120 { next } else { start + 120 };
        lemma_emit_sounds(s, st, c, start as u32, true);
        lemma_slots_sound(s, st, c, (start / 120 + 1) * 120, end);
        let e0 = emit(s, st, c, start as u32, true)->Some_0;
        let r = slots(s, st, c, (start / 120 + 1) * 120, end)->Some_0;
        assert(es == e0 + r);
        assert forall|x: Event| #[trigger] es.contains(x) implies sounds_chord(c, x) by {
            let j = choose|j: int| 0 <= j < es.len() && es[j] == x;
            if j < e0.len() {
                assert(e0.contains(e0[j]));
            } else {
                assert(r.contains(r[j - e0.len()]));
            }
        }
    }
}

/// Some chord of `s` with a pitch-class root that `e` sounds.
pub open spec fn of_some_chord(s: SongView, e: Event) -> bool {
    exists|i: int| 0 <= i < s.chords.len() && s.chords[i].root <= 11 && #[trigger] sounds_chord(s.chords[i], e)
}

proof fn lemma_chords_from_sound(s: SongView, st: StyleView, j: int)
    requires
        0 <= j,
    ensures
        chords_from(s, st, j) matches Some(es) ==> forall|x: Event| #[trigger] es.contains(x) ==> of_some_chord(s, x),
    decreases s.chords.len() - j,
{
    if j < s.chords.len() {
        lemma_chords_from_sound(s, st, j + 1);
        if let Some(es) = chords_from(s, st, j) {
            if s.chords[j].root <= 11 {
                lemma_chord_events_sound(s, st, j);
                let e = chord_events(s, st, j)->Some_0;
                let r = chords_from(s, st, j + 1)->Some_0;
                assert(es == e + r);
                assert forall|x: Event| #[trigger] es.contains(x) implies of_some_chord(s, x) by {
                    let k = choose|k: int| 0 <= k < es.len() && es[k] == x;
                    if k < e.len() {
                        assert(e.contains(e[k]));
                        assert(sounds_chord(s.chords[j], x));
                    } else {
                        assert(r.contains(r[k - e.len()]));
                    }
                }
            }
        }
    }
}

/// The arrangement plays nothing but the melody and the chords: every bass
/// event is the root of a chord of the song, and every comp event a tone of
/// a chord's triad (root, its third, its fifth; see [`third_of`] and
/// [`fifth_of`]), so a minor chord never sounds a major third above its
/// root on its own account.
pub proof fn lemma_arrangement_only_chord_tones(s: SongView, st: StyleView)
    ensures
        arrangement(s, st) matches Some(ev) ==> forall|x: Event|
            #[trigger] ev.contains(x) ==> x.part == Part::Melody || of_some_chord(s, x),
{
    broadcast use vstd::seq_lib::group_to_multiset_ensures;
    if let Some(ev) = arrangement(s, st) {
        let ce = chords_from(s, st, 0)->Some_0;
        let m = melody_events(s.melody);
        let all = m + ce;
        lemma_arrangement_sorted(s, st);
        lemma_chords_from_sound(s, st, 0);
        assert forall|x: Event| #[trigger] ev.contains(x) implies x.part == Part::Melody || of_some_chord(s, x) by {
            assert(ev.to_multiset().count(x) > 0);
            assert(all.to_multiset().count(x) > 0);
            assert(all.contains(x));
            let k = choose|k: int| 0 <= k < all.len() && all[k] == x;
            if k < m.len() {
                assert(m[k].part == Part::Melody);
            } else {
                assert(ce.contains(ce[k - m.len()]));
            }
        }
    }
}

} // verus!
