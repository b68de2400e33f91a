//! The integer side of the chart, staff, tablature and chord-diagram
//! drawings: chart size, staff positions, fret choice and chord shapes.

use vstd::prelude::*;
use crate::model::{Chord, ChordView, Note, Song};

verus! {

/// Diatonic degree (C-major lattice) of each pitch class.
pub open spec fn degree(pc: int) -> int {
    if pc <= 1 {
        0
    } else if pc <= 3 {
        1
    } else if pc == 4 {
        2
    } else if pc <= 6 {
        3
    } else if pc <= 8 {
        4
    } else if pc <= 10 {
        5
    } else {
        6
    }
}

/// Absolute diatonic step index (C-major lattice). E4 = 37.
pub fn staff_step(pitch: u8) -> (r: i32)
    ensures
        r == pitch as int / 12 * 7 + degree(pitch as int % 12),
{
    let oct = (pitch / 12) as i32;
    let pc = pitch % 12;
    let deg: i32 = if pc <= 1 {
        0
    } else if pc <= 3 {
        1
    } else if pc == 4 {
        2
    } else if pc <= 6 {
        3
    } else if pc <= 8 {
        4
    } else if pc <= 10 {
        5
    } else {
        6
    };
    oct * 7 + deg
}

/// Step of the bottom line of the treble staff (E4).
pub const BOTTOM_STEP: i32 = 37;

/// A note is drawn with its stem up when it sits below the middle line.
pub fn stem_up(pitch: u8) -> (r: bool)
    ensures
        r == (pitch as int / 12 * 7 + degree(pitch as int % 12) < 41),
{
    staff_step(pitch) < BOTTOM_STEP + 4
}

/// Pitch classes written with a sharp: C# D# F# G# A#.
pub open spec fn sharp_pc(pc: int) -> bool {
    pc == 1 || pc == 3 || pc == 6 || pc == 8 || pc == 10
}

/// A note is written with a sharp sign.
pub fn is_sharp(pitch: u8) -> (r: bool)
    ensures
        r == sharp_pc(pitch as int % 12),
{
    let pc = pitch % 12;
    pc == 1 || pc == 3 || pc == 6 || pc == 8 || pc == 10
}

/// Ledger lines of a note on staff step `step`: every other step from just
/// below the staff down to the note, then from just above the staff up to it.
pub open spec fn ledgers(step: int) -> Seq<i32> {
    let below = if step <= 35 { (35 - step) / 2 + 1 } else { 0 };
    let above = if step >= 47 { (step - 47) / 2 + 1 } else { 0 };
    Seq::new(below as nat, |k: int| (35 - 2 * k) as i32) + Seq::new(above as nat, |k: int| (47 + 2 * k) as i32)
}

/// Steps of the ledger lines drawn for `pitch`.
pub fn ledger_steps(pitch: u8) -> (r: Vec<i32>)
    ensures
        r@ == ledgers(pitch as int / 12 * 7 + degree(pitch as int % 12)),
{
    let step = staff_step(pitch);
    assert(0 <= step <= 153) by (nonlinear_arith)
        requires
            step == pitch as int / 12 * 7 + degree(pitch as int % 12),
            0 <= degree(pitch as int % 12) <= 6,
            0 <= pitch <= 255;
    let ghost below = if step <= 35 { (35 - step) / 2 + 1 } else { 0 };
    let ghost above = if step >= 47 { (step - 47) / 2 + 1 } else { 0 };
    let mut out: Vec<i32> = Vec::new();
    let mut s: i32 = BOTTOM_STEP - 2;
    while s >= step
        invariant
            0 <= step <= 153,
            below == (if step <= 35 { (35 - step) / 2 + 1 } else { 0 }),
            s == 35 - 2 * out@.len(),
            out@.len() <= below,
            forall|k: int| 0 <= k < out@.len() ==> #[trigger] out@[k] == 35 - 2 * k,
        decreases s - step + 2,
    {
        out.push(s);
        s = s - 2;
    }
    assert(out@.len() == below);
    let ghost nb = out@.len();
    let mut s2: i32 = BOTTOM_STEP + 10;
    while s2 <= step
        invariant
            0 <= step <= 153,
            above == (if step >= 47 { (step - 47) / 2 + 1 } else { 0 }),
            s2 == 47 + 2 * (out@.len() - nb),
            nb <= out@.len() <= nb + above,
            forall|k: int| 0 <= k < nb ==> #[trigger] out@[k] == 35 - 2 * k,
            forall|k: int| nb <= k < out@.len() ==> #[trigger] out@[k] == 47 + 2 * (k - nb),
        decreases step + 2 - s2,
    {
        out.push(s2);
        s2 = s2 + 2;
    }
    assert(out@.len() == nb + above);
    assert(out@ =~= ledgers(step as int));
    out
}

/// End of the melody: the latest end tick of a note, 0 without notes.
pub open spec fn melody_end(m: Seq<Note>) -> int
    decreases m.len(),
{
    if m.len() == 0 {
        0
    } else {
        let prev = melody_end(m.drop_last());
        let e = m.last().tick + m.last().dur;
        if e > prev {
            e
        } else {
            prev
        }
    }
}

/// Ticks covered by the staff and the tablature: the end of the melody, at
/// least one bar.
pub fn melody_ticks(song: &Song) -> (r: u32)
    requires
        forall|i: int| 0 <= i < song.melody@.len() ==> #[trigger] song.melody@[i].tick + song.melody@[i].dur <= u32::MAX,
    ensures
        r == (if melody_end(song.melody@) > 480 { melody_end(song.melody@) } else { 480 }),
{
    let mut end: u32 = 0;
    let mut i: usize = 0;
    while i < song.melody.len()
        invariant
            i <= song.melody@.len(),
            forall|k: int| 0 <= k < song.melody@.len() ==> #[trigger] song.melody@[k].tick + song.melody@[k].dur <= u32::MAX,
            end == melody_end(song.melody@.take(i as int)),
        decreases song.melody@.len() - i,
    {
        let n = song.melody[i];
        assert(song.melody@.take(i + 1).drop_last() =~= song.melody@.take(i as int));
        let e = n.tick + n.dur;
        if e > end {
            end = e;
        }
        i = i + 1;
    }
    assert(song.melody@.take(song.melody@.len() as int) =~= song.melody@);
    if end > 480 { end } else { 480 }
}

/// Whole bars needed for `total` ticks (barlines are drawn at each).
pub fn bars_for(total: u32) -> (r: u32)
    requires
        total <= u32::MAX - 479,
    ensures
        r == (total + 479) / 480,
{
    (total + 479) / 480
}

/// A note sounds at `tick` (drawn highlighted).
pub fn sounding(n: &Note, tick: u32) -> (r: bool)
    ensures
        r == (n.tick <= tick < n.tick + n.dur),
{
    tick >= n.tick && tick - n.tick < n.dur
}

/// Open-string pitches, lowest string first: E2 A2 D3 G3 B3 E4.
pub open spec fn open_string(i: int) -> int {
    if i == 0 {
        40
    } else if i == 1 {
        45
    } else if i == 2 {
        50
    } else if i == 3 {
        55
    } else if i == 4 {
        59
    } else {
        64
    }
}

/// The highest string whose open pitch is not above `pitch` (for a pitch
/// from 40 up).
pub open spec fn top_string(pitch: int) -> int {
    if pitch >= 64 {
        5
    } else if pitch >= 59 {
        4
    } else if pitch >= 55 {
        3
    } else if pitch >= 50 {
        2
    } else if pitch >= 45 {
        1
    } else {
        0
    }
}

/// Where to play `pitch` on a standard-tuned guitar: the string giving the
/// lowest fret, if that fret is at most 19.
pub open spec fn tab_of(pitch: u8) -> Option<(usize, u8)> {
    if pitch < 40 {
        None
    } else {
        let i = top_string(pitch as int);
        let fret = pitch - open_string(i);
        if fret <= 19 {
            Some((i as usize, fret as u8))
        } else {
            None
        }
    }
}

/// Choose the string giving the smallest non-negative fret, capped at fret 19.
pub fn pitch_to_tab(pitch: u8) -> (r: Option<(usize, u8)>)
    ensures
        r == tab_of(pitch),
{
    let strings: [u8; 6] = [40, 45, 50, 55, 59, 64];
    let mut best: Option<(usize, u8)> = None;
    let mut i: usize = 0;
    while i < 6
        invariant
            i <= 6,
            forall|k: int| 0 <= k < 6 ==> #[trigger] strings@[k] == open_string(k),
            best == (if pitch < 40 || i == 0 {
                None
            } else {
                let t = if top_string(pitch as int) < i { top_string(pitch as int) } else { i - 1 };
                if pitch - open_string(t) <= 19 {
                    Some((t as usize, (pitch - open_string(t)) as u8))
                } else {
                    None::<(usize, u8)>
                }
            }),
        decreases 6 - i,
    {
        let open = strings[i];
        if pitch >= open {
            let fret = pitch - open;
            if fret <= 19 {
                match best {
                    Some((_, bf)) if fret >= bf => {},
                    _ => {
                        best = Some((i, fret));
                    },
                }
            }
        }
        i = i + 1;
    }
    best
}

/// Bars of the chord chart: the later of the last chord's bar and the
/// melody's bars (at most 64), rounded up to a row of four, at least one row.
pub open spec fn chart_bars(last_chord_bar: int, bars: int) -> u16 {
    let b = if bars < 64 { bars } else { 64 };
    let last = if last_chord_bar > b { last_chord_bar } else { b };
    let r = (last + 3) / 4 * 4;
    (if r < 4 { 4 } else { r }) as u16
}

/// Bars shown by the chord chart of a song.
pub fn form_bars(song: &Song) -> (r: u16)
    ensures
        r == chart_bars(
            if song.chords@.len() == 0 { 0 } else { song.chords@.last().bar as int },
            song.bars as int,
        ),
{
    let lastc: u32 = if song.chords.len() == 0 { 0 } else { song.chords[song.chords.len() - 1].bar as u32 };
    let b: u32 = if song.bars < 64 { song.bars as u32 } else { 64 };
    let last = if lastc > b { lastc } else { b };
    let r = (last + 3) / 4 * 4;
    (if r < 4 { 4 } else { r }) as u16
}

proof fn lemma_chart_bars(last: int, bars: int)
    requires
        0 <= last <= 65532,
        0 <= bars,
    ensures
        4 <= chart_bars(last, bars) <= 65532,
        chart_bars(last, bars) % 4 == 0,
{
    let b = if bars < 64 { bars } else { 64 };
    let l = if last > b { last } else { b };
    assert(0 <= (l + 3) / 4 * 4 <= 65532) by (nonlinear_arith)
        requires 0 <= l <= 65532;
    assert(((l + 3) / 4 * 4) % 4 == 0) by (nonlinear_arith)
        requires 0 <= l;
}

/// Number of chords of `cs` that start in bar `bar`.
pub open spec fn bar_count(cs: Seq<ChordView>, bar: int) -> nat
    decreases cs.len(),
{
    if cs.len() == 0 {
        0
    } else {
        bar_count(cs.drop_last(), bar) + (if cs.last().bar == bar {
            1nat
        } else {
            0nat
        })
    }
}

proof fn lemma_bar_count_le(cs: Seq<ChordView>, bar: int)
    ensures
        bar_count(cs, bar) <= cs.len(),
    decreases cs.len(),
{
    if cs.len() > 0 {
        lemma_bar_count_le(cs.drop_last(), bar);
    }
}

/// A chord name placed on the chart.
#[derive(Clone, Copy, Debug, PartialEq, Eq, Structural)]
pub struct ChartLabel {
    /// Index of the chord in the song.
    pub chord: usize,
    /// Column (0..4) of its bar's cell.
    pub col: u16,
    /// Row of its bar's cell.
    pub row: u16,
    /// Beat within the bar where the name starts.
    pub beat: u8,
    /// The bar holds more than one chord, so the name is drawn smaller.
    pub crowded: bool,
}

/// The label of chord `i`: in the cell of its bar, four bars to a row.
pub open spec fn label_of(cs: Seq<ChordView>, i: int) -> ChartLabel {
    ChartLabel {
        chord: i as usize,
        col: ((cs[i].bar - 1) % 4) as u16,
        row: ((cs[i].bar - 1) / 4) as u16,
        beat: cs[i].beat,
        crowded: bar_count(cs, cs[i].bar as int) > 1,
    }
}

/// Labels of those of the first `n` chords whose bar lies on a chart of
/// `bars` bars, in chord order.
pub open spec fn chart_labels(cs: Seq<ChordView>, n: int, bars: int) -> Seq<ChartLabel>
    decreases n,
{
    if n <= 0 {
        Seq::empty()
    } else {
        let prev = chart_labels(cs, n - 1, bars);
        if 1 <= cs[n - 1].bar <= bars {
            prev.push(label_of(cs, n - 1))
        } else {
            prev
        }
    }
}

/// The part of the first marker from index `k` on that names bar `bar`.
pub open spec fn marker_from(ms: Seq<(u16, u8)>, k: int, bar: int) -> Option<u8>
    decreases ms.len() - k,
{
    if k < 0 || k >= ms.len() {
        None
    } else if ms[k].0 == bar {
        Some(ms[k].1)
    } else {
        marker_from(ms, k + 1, bar)
    }
}

/// `v` held within `lo..=hi` (for `lo <= hi`).
pub open spec fn clamp(v: int, lo: int, hi: int) -> int {
    if v < lo {
        lo
    } else if v > hi {
        hi
    } else {
        v
    }
}

/// Everything the chord chart shows, short of pixels.
pub struct ChartLayout {
    /// Bars on the chart, a whole number of rows of four.
    pub bars: u16,
    /// Rows of four bars.
    pub rows: u16,
    /// The part marker (1 = A, 2 = B) of bar `b`, at index `b - 1`.
    pub marks: Vec<Option<u8>>,
    /// Bar that carries the begin-repeat sign.
    pub repeat_begin: u16,
    /// Bar that carries the end-repeat sign (and the chorus count).
    pub repeat_end: u16,
    /// The chord names, in chord order.
    pub labels: Vec<ChartLabel>,
}

/// Bar of the last chord of a song, or 0 without chords.
pub open spec fn last_chord_bar(cs: Seq<ChordView>) -> int {
    if cs.len() == 0 {
        0
    } else {
        cs.last().bar as int
    }
}

/// The layout of the chord chart: four bars to a row, a part marker box on
/// the bars that start a part, repeat signs around the chorus and each
/// chord name in its bar at its beat.
pub fn chart_layout(song: &Song) -> (r: ChartLayout)
    requires
        last_chord_bar(song@.chords) <= 65532,
    ensures
        r.bars == chart_bars(last_chord_bar(song@.chords), song.bars as int),
        4 <= r.bars,
        r.bars % 4 == 0,
        r.rows == r.bars / 4,
        r.marks@.len() == r.bars,
        forall|b: int| 0 <= b < r.bars ==> #[trigger] r.marks@[b] == marker_from(song@.part_markers, 0, b + 1),
        r.repeat_begin == clamp(song.chorus_begin as int, 1, r.bars as int),
        r.repeat_end == clamp(song.chorus_end as int, r.repeat_begin as int, r.bars as int),
        r.labels@ == chart_labels(song@.chords, song@.chords.len() as int, r.bars as int),
{
    proof {
        if song.chords@.len() > 0 {
            assert(song@.chords.last() == song.chords@.last()@);
        }
    }
    let bars = form_bars(song);
    proof {
        lemma_chart_bars(last_chord_bar(song@.chords), song.bars as int);
        assert(bars == chart_bars(last_chord_bar(song@.chords), song.bars as int));
    }
    let cols: u16 = 4;
    let rows = (bars - 1) / cols + 1;
    let mut marks: Vec<Option<u8>> = Vec::new();
    let mut b: u16 = 1;
    while b <= bars
        invariant
            1 <= b <= bars + 1,
            bars <= 65532,
            marks@.len() == b - 1,
            forall|k: int| 0 <= k < b - 1 ==> #[trigger] marks@[k] == marker_from(song@.part_markers, 0, k + 1),
        decreases bars + 1 - b,
    {
        let mut k: usize = 0;
        let mut found: Option<u8> = None;
        while k < song.part_markers.len()
            invariant_except_break
                found is None,
            invariant
                k <= song.part_markers@.len(),
                marker_from(song@.part_markers, 0, b as int) == marker_from(song@.part_markers, k as int, b as int),
            ensures
                found == marker_from(song@.part_markers, 0, b as int),
            decreases song.part_markers@.len() - k,
        {
            let (mb, mp) = song.part_markers[k];
            if mb == b {
                found = Some(mp);
                break;
            }
            k = k + 1;
        }
        marks.push(found);
        b = b + 1;
    }
    let first = if song.chorus_begin < 1 { 1 } else if song.chorus_begin > bars { bars } else { song.chorus_begin };
    let last = if song.chorus_end < first { first } else if song.chorus_end > bars { bars } else { song.chorus_end };

    // Chords per bar, for the names that share a bar.
    let n = song.chords.len();
    let mut counts: Vec<usize> = Vec::new();
    let mut z: usize = 0;
    while z < bars as usize + 2
        invariant
            z <= bars + 2,
            counts@.len() == z,
            forall|k: int| 0 <= k < z ==> counts@[k] == 0,
        decreases bars + 2 - z,
    {
        counts.push(0);
        z = z + 1;
    }
    assert(song@.chords.take(0) =~= Seq::<ChordView>::empty());
    let mut i: usize = 0;
    while i < n
        invariant
            n == song.chords@.len(),
            n == song@.chords.len(),
            i <= n,
            4 <= bars <= 65532,
            counts@.len() == bars + 2,
            forall|k: int| 1 <= k <= bars ==> #[trigger] counts@[k] == bar_count(song@.chords.take(i as int), k),
        decreases n - i,
    {
        let bar = song.chords[i].bar;
        proof {
            assert(song@.chords[i as int] == song.chords@[i as int]@);
            assert(song@.chords.take(i + 1).drop_last() =~= song@.chords.take(i as int));
            assert(song@.chords.take(i + 1).last() == song@.chords[i as int]);
        }
        if 1 <= bar && bar <= bars {
            proof {
                lemma_bar_count_le(song@.chords.take(i as int), bar as int);
            }
            let c = counts[bar as usize];
            counts.set(bar as usize, c + 1);
        }
        i = i + 1;
    }
    assert(song@.chords.take(n as int) =~= song@.chords);

    let mut labels: Vec<ChartLabel> = Vec::new();
    let mut j: usize = 0;
    while j < n
        invariant
            n == song.chords@.len(),
            n == song@.chords.len(),
            j <= n,
            4 <= bars <= 65532,
            counts@.len() == bars + 2,
            forall|k: int| 1 <= k <= bars ==> #[trigger] counts@[k] == bar_count(song@.chords, k),
            labels@ == chart_labels(song@.chords, j as int, bars as int),
            cols == 4,
        decreases n - j,
    {
        let c = &song.chords[j];
        proof {
            assert(song@.chords[j as int] == song.chords@[j as int]@);
        }
        if 1 <= c.bar && c.bar <= bars {
            labels.push(ChartLabel {
                chord: j,
                col: (c.bar - 1) % cols,
                row: (c.bar - 1) / cols,
                beat: c.beat,
                crowded: counts[c.bar as usize] > 1,
            });
            assert(labels@.last() == label_of(song@.chords, j as int));
        }
        j = j + 1;
    }
    ChartLayout { bars, rows, marks, repeat_begin: first, repeat_end: last, labels }
}

/// The tick a click on the chart seeks to: the start of beat `beat` of bar
/// `bar`.
pub fn seek_tick(bar: u16, beat: u8) -> (r: u32)
    requires
        1 <= bar,
    ensures
        r == (bar - 1) * 480 + beat * 120,
{
    (bar as u32 - 1) * 480 + beat as u32 * 120
}

/// A playable voicing: fret per string (low-E→high-E; -1 muted, 0 open) plus
/// the fretting finger for each string (0 = none/open).
#[derive(Clone, Copy)]
pub struct ChordShape {
    pub frets: [i8; 6],
    pub fingers: [u8; 6],
}

fn sh(frets: [i8; 6], fingers: [u8; 6]) -> (s: ChordShape)
    ensures
        s.frets@ == frets@,
        s.fingers@ == fingers@,
{
    ChordShape { frets, fingers }
}

/// Frets of the movable barre shape: E-shape with the root on the low E
/// string at frets 1..=7, else A-shape with the root on the A string.
pub open spec fn barre_frets(root_pc: int, minor: bool) -> Seq<i8> {
    let fe = ((root_pc + 8) % 12) as i8;
    let fa = ((root_pc + 3) % 12) as i8;
    if 1 <= fe <= 7 {
        if minor {
            seq![fe, (fe + 2) as i8, (fe + 2) as i8, fe, fe, fe]
        } else {
            seq![fe, (fe + 2) as i8, (fe + 2) as i8, (fe + 1) as i8, fe, fe]
        }
    } else if minor {
        seq![-1i8, fa, (fa + 2) as i8, (fa + 2) as i8, (fa + 1) as i8, fa]
    } else {
        seq![-1i8, fa, (fa + 2) as i8, (fa + 2) as i8, (fa + 2) as i8, fa]
    }
}

/// Fingering of the movable barre shape.
pub open spec fn barre_fingers(root_pc: int, minor: bool) -> Seq<u8> {
    let fe = (root_pc + 8) % 12;
    if 1 <= fe <= 7 {
        if minor {
            seq![1u8, 3, 4, 1, 1, 1]
        } else {
            seq![1u8, 3, 4, 2, 1, 1]
        }
    } else if minor {
        seq![0u8, 1, 3, 4, 2, 1]
    } else {
        seq![0u8, 1, 2, 3, 4, 1]
    }
}

fn barre(root_pc: u8, minor: bool) -> (s: ChordShape)
    requires
        root_pc <= 243,
    ensures
        s.frets@ == barre_frets(root_pc as int, minor),
        s.fingers@ == barre_fingers(root_pc as int, minor),
{
    let fe = ((root_pc + 12 - 4) % 12) as i8;
    let s = if 1 <= fe && fe <= 7 {
        if minor {
            sh([fe, fe + 2, fe + 2, fe, fe, fe], [1, 3, 4, 1, 1, 1])
        } else {
            sh([fe, fe + 2, fe + 2, fe + 1, fe, fe], [1, 3, 4, 2, 1, 1])
        }
    } else {
        let fa = ((root_pc + 12 - 9) % 12) as i8;
        if minor {
            sh([-1, fa, fa + 2, fa + 2, fa + 1, fa], [0, 1, 3, 4, 2, 1])
        } else {
            sh([-1, fa, fa + 2, fa + 2, fa + 2, fa], [0, 1, 2, 3, 4, 1])
        }
    };
    assert(s.frets@ =~= barre_frets(root_pc as int, minor));
    assert(s.fingers@ =~= barre_fingers(root_pc as int, minor));
    s
}

/// The open voicing of a common triad (C D E F G A, Dm Em Am Bm), if any.
pub open spec fn open_shape(pc: int, minor: bool) -> Option<(Seq<i8>, Seq<u8>)> {
    if !minor && pc == 0 {
        Some((seq![-1i8, 3, 2, 0, 1, 0], seq![0u8, 3, 2, 0, 1, 0]))
    } else if !minor && pc == 2 {
        Some((seq![-1i8, -1i8, 0, 2, 3, 2], seq![0u8, 0, 0, 1, 3, 2]))
    } else if !minor && pc == 4 {
        Some((seq![0i8, 2, 2, 1, 0, 0], seq![0u8, 2, 3, 1, 0, 0]))
    } else if !minor && pc == 5 {
        Some((seq![1i8, 3, 3, 2, 1, 1], seq![1u8, 3, 4, 2, 1, 1]))
    } else if !minor && pc == 7 {
        Some((seq![3i8, 2, 0, 0, 0, 3], seq![2u8, 1, 0, 0, 0, 3]))
    } else if !minor && pc == 9 {
        Some((seq![-1i8, 0, 2, 2, 2, 0], seq![0u8, 0, 1, 2, 3, 0]))
    } else if minor && pc == 2 {
        Some((seq![-1i8, -1i8, 0, 2, 3, 1], seq![0u8, 0, 0, 2, 3, 1]))
    } else if minor && pc == 4 {
        Some((seq![0i8, 2, 2, 0, 0, 0], seq![0u8, 2, 3, 0, 0, 0]))
    } else if minor && pc == 9 {
        Some((seq![-1i8, 0, 2, 2, 1, 0], seq![0u8, 0, 2, 3, 1, 0]))
    } else if minor && pc == 11 {
        Some((seq![-1i8, 2, 4, 4, 3, 2], seq![0u8, 1, 3, 4, 2, 1]))
    } else {
        None
    }
}

/// The triad has one of the open voicings (so [`chord_shape`] takes any
/// root with that pitch class).
pub fn has_open_shape(root_pc: u8, minor: bool) -> (r: bool)
    ensures
        r == open_shape(root_pc as int % 12, minor) is Some,
{
    let pc = root_pc % 12;
    if minor {
        pc == 2 || pc == 4 || pc == 9 || pc == 11
    } else {
        pc == 0 || pc == 2 || pc == 4 || pc == 5 || pc == 7 || pc == 9
    }
}

/// Fret `fret` on string `k` (standard tuning) sounds a tone of the major
/// (or minor) triad on `root`: the root, the major (minor) third or the
/// fifth, in any octave.
pub open spec fn triad_tone(root: int, minor: bool, k: int, fret: int) -> bool {
    let n = (open_string(k) + fret) % 12;
    let third = if minor {
        3int
    } else {
        4int
    };
    n == root % 12 || n == (root + third) % 12 || n == (root + 7) % 12
}

/// The frets of the shape [`chord_shape`] gives.
pub open spec fn shape_frets(root: int, minor: bool) -> Seq<i8> {
    match open_shape(root % 12, minor) {
        Some(o) => o.0,
        None => barre_frets(root, minor),
    }
}

proof fn lemma_triads_pc(pc: int, minor: bool)
    requires
        0 <= pc < 12,
    ensures
        shape_frets(pc, minor).len() == 6,
        forall|k: int|
            0 <= k < 6 && #[trigger] shape_frets(pc, minor)[k] >= 0 ==> triad_tone(
                pc,
                minor,
                k,
                shape_frets(pc, minor)[k] as int,
            ),
{
    let f = shape_frets(pc, minor);
    if pc == 0 {
    } else if pc == 1 {
    } else if pc == 2 {
    } else if pc == 3 {
    } else if pc == 4 {
    } else if pc == 5 {
    } else if pc == 6 {
    } else if pc == 7 {
    } else if pc == 8 {
    } else if pc == 9 {
    } else if pc == 10 {
    } else {
    }
    assert forall|k: int| 0 <= k < 6 && #[trigger] f[k] >= 0 implies triad_tone(pc, minor, k, f[k] as int) by {
        if k == 0 {
        } else if k == 1 {
        } else if k == 2 {
        } else if k == 3 {
        } else if k == 4 {
        } else {
        }
    }
}

/// Every chord shape sounds only its triad: each string that is played
/// (fret 0 or more) gives the root, the third (minor or major) or the fifth.
pub proof fn lemma_shapes_sound_triads(root: int, minor: bool)
    requires
        0 <= root,
    ensures
        shape_frets(root, minor).len() == 6,
        forall|k: int|
            0 <= k < 6 && #[trigger] shape_frets(root, minor)[k] >= 0 ==> triad_tone(
                root,
                minor,
                k,
                shape_frets(root, minor)[k] as int,
            ),
{
    let pc = root % 12;
    lemma_triads_pc(pc, minor);
    lemma_shape_mod(root, minor);
    assert forall|k: int|
        0 <= k < 6 && #[trigger] shape_frets(root, minor)[k] >= 0 implies triad_tone(
            root,
            minor,
            k,
            shape_frets(root, minor)[k] as int,
        ) by {
        lemma_triad_tone_mod(root, minor, k, shape_frets(pc, minor)[k] as int);
    }
}

proof fn lemma_shape_mod(root: int, minor: bool)
    requires
        0 <= root,
    ensures
        shape_frets(root, minor) == shape_frets(root % 12, minor),
{
    let pc = root % 12;
    assert((root + 8) % 12 == (pc + 8) % 12) by (nonlinear_arith)
        requires pc == root % 12, 0 <= root;
    assert((root + 3) % 12 == (pc + 3) % 12) by (nonlinear_arith)
        requires pc == root % 12, 0 <= root;
    assert(pc % 12 == pc);
    assert(barre_frets(root, minor) =~= barre_frets(pc, minor));
}

proof fn lemma_triad_tone_mod(root: int, minor: bool, k: int, fret: int)
    requires
        0 <= root,
    ensures
        triad_tone(root, minor, k, fret) == triad_tone(root % 12, minor, k, fret),
{
    let pc = root % 12;
    assert((root + 3) % 12 == (pc + 3) % 12 && (root + 4) % 12 == (pc + 4) % 12 && (root + 7) % 12 == (pc
        + 7) % 12 && pc % 12 == pc) by (nonlinear_arith)
        requires pc == root % 12, 0 <= root;
}

/// A playable shape for a major/minor triad. Common chords use familiar open
/// voicings with standard fingerings; the rest fall back to movable E-shape /
/// A-shape barre chords.
pub fn chord_shape(root_pc: u8, minor: bool) -> (s: ChordShape)
    requires
        root_pc <= 243 || open_shape(root_pc as int % 12, minor) is Some,
    ensures
        match open_shape(root_pc as int % 12, minor) {
            Some(o) => s.frets@ == o.0 && s.fingers@ == o.1,
            None => s.frets@ == barre_frets(root_pc as int, minor) && s.fingers@ == barre_fingers(
                root_pc as int,
                minor,
            ),
        },
        forall|k: int|
            0 <= k < 6 && #[trigger] s.frets@[k] >= 0 ==> triad_tone(root_pc as int, minor, k, s.frets@[k] as int),
{
    proof {
        lemma_shapes_sound_triads(root_pc as int, minor);
    }
    let pc = root_pc % 12;
    let s = if !minor && pc == 0 {
        sh([-1, 3, 2, 0, 1, 0], [0, 3, 2, 0, 1, 0])
    } else if !minor && pc == 2 {
        sh([-1, -1, 0, 2, 3, 2], [0, 0, 0, 1, 3, 2])
    } else if !minor && pc == 4 {
        sh([0, 2, 2, 1, 0, 0], [0, 2, 3, 1, 0, 0])
    } else if !minor && pc == 5 {
        sh([1, 3, 3, 2, 1, 1], [1, 3, 4, 2, 1, 1])
    } else if !minor && pc == 7 {
        sh([3, 2, 0, 0, 0, 3], [2, 1, 0, 0, 0, 3])
    } else if !minor && pc == 9 {
        sh([-1, 0, 2, 2, 2, 0], [0, 0, 1, 2, 3, 0])
    } else if minor && pc == 2 {
        sh([-1, -1, 0, 2, 3, 1], [0, 0, 0, 2, 3, 1])
    } else if minor && pc == 4 {
        sh([0, 2, 2, 0, 0, 0], [0, 2, 3, 0, 0, 0])
    } else if minor && pc == 9 {
        sh([-1, 0, 2, 2, 1, 0], [0, 0, 2, 3, 1, 0])
    } else if minor && pc == 11 {
        sh([-1, 2, 4, 4, 3, 2], [0, 1, 3, 4, 2, 1])
    } else {
        return barre(root_pc, minor);
    };
    proof {
        let o = open_shape(root_pc as int % 12, minor)->Some_0;
        assert(s.frets@ =~= o.0);
        assert(s.fingers@ =~= o.1);
    }
    s
}

/// The lowest fretted (positive) fret of `f`, or 127 when none is fretted.
pub open spec fn min_fretted(f: Seq<i8>) -> int
    decreases f.len(),
{
    if f.len() == 0 {
        127
    } else {
        let m = min_fretted(f.drop_last());
        if 0 < f.last() < m {
            f.last() as int
        } else {
            m
        }
    }
}

/// The fret at the top of a chord diagram: 0 (the nut) when the shape fits in
/// the first four frets, else its lowest fretted fret.
pub open spec fn diagram_base(f: Seq<i8>) -> int {
    if exists|k: int| 0 <= k < f.len() && f[k] > 4 {
        min_fretted(f)
    } else {
        0
    }
}

/// The first fret shown on the diagram of `shape` (0 for the nut).
pub fn base_fret(shape: &ChordShape) -> (r: i8)
    ensures
        r == diagram_base(shape.frets@),
{
    let mut high = false;
    let mut low: i8 = 127;
    let mut i: usize = 0;
    while i < 6
        invariant
            i <= 6,
            shape.frets@.len() == 6,
            high == (exists|k: int| 0 <= k < i && shape.frets@[k] > 4),
            low == min_fretted(shape.frets@.take(i as int)),
        decreases 6 - i,
    {
        let f = shape.frets[i];
        assert(shape.frets@.take(i + 1).drop_last() =~= shape.frets@.take(i as int));
        if f > 4 {
            high = true;
        }
        if 0 < f && f < low {
            low = f;
        }
        i = i + 1;
    }
    assert(shape.frets@.take(6) =~= shape.frets@);
    if high { low } else { 0 }
}

/// The number written beside row `i` (1..=4) of a diagram whose top fret is
/// `base`.
pub fn fret_label(base: i8, i: u8) -> (r: i32)
    ensures
        r == (if base == 0 { i as int } else { base + i - 1 }),
{
    if base == 0 { i as i32 } else { base as i32 + i as i32 - 1 }
}

/// The row (1 = top) of the dot for fret `f` on a diagram whose top fret is
/// `base`.
pub fn dot_row(f: i8, base: i8) -> (r: i32)
    ensures
        r == f - base + (if base == 0 { 0int } else { 1int }),
{
    f as i32 - base as i32 + if base == 0 { 0 } else { 1 }
}

/// French note name (solfège) for a pitch class.
pub open spec fn solfege(pc: int) -> Seq<char> {
    if pc == 0 {
        seq!['D', 'o']
    } else if pc == 1 {
        seq!['D', 'o', '♯']
    } else if pc == 2 {
        seq!['R', 'é']
    } else if pc == 3 {
        seq!['M', 'i', '♭']
    } else if pc == 4 {
        seq!['M', 'i']
    } else if pc == 5 {
        seq!['F', 'a']
    } else if pc == 6 {
        seq!['F', 'a', '♯']
    } else if pc == 7 {
        seq!['S', 'o', 'l']
    } else if pc == 8 {
        seq!['S', 'o', 'l', '♯']
    } else if pc == 9 {
        seq!['L', 'a']
    } else if pc == 10 {
        seq!['S', 'i', '♭']
    } else {
        seq!['S', 'i']
    }
}

/// French note name (solfège) for a pitch class (taken mod 12).
pub fn french_name(pc: u8) -> (r: &'static str)
    ensures
        r@ == solfege(pc as int % 12),
{
    let k = pc % 12;
    if k == 0 {
        proof { reveal_strlit("Do"); }
        "Do"
    } else if k == 1 {
        proof { reveal_strlit("Do♯"); }
        "Do♯"
    } else if k == 2 {
        proof { reveal_strlit("Ré"); }
        "Ré"
    } else if k == 3 {
        proof { reveal_strlit("Mi♭"); }
        "Mi♭"
    } else if k == 4 {
        proof { reveal_strlit("Mi"); }
        "Mi"
    } else if k == 5 {
        proof { reveal_strlit("Fa"); }
        "Fa"
    } else if k == 6 {
        proof { reveal_strlit("Fa♯"); }
        "Fa♯"
    } else if k == 7 {
        proof { reveal_strlit("Sol"); }
        "Sol"
    } else if k == 8 {
        proof { reveal_strlit("Sol♯"); }
        "Sol♯"
    } else if k == 9 {
        proof { reveal_strlit("La"); }
        "La"
    } else if k == 10 {
        proof { reveal_strlit("Si♭"); }
        "Si♭"
    } else {
        proof { reveal_strlit("Si"); }
        "Si"
    }
}

} // verus!
