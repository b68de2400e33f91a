//! The integer side of playback: which parts play, how a linear performance
//! bar maps onto the chart, how long each chord sounds, and which notes sound
//! from a seek point on, in ticks.

use vstd::prelude::*;
use crate::arrange::{arrange_checked, arrangement, Event, Part};
use crate::notation::melody_end;
use crate::style::{basic_style, Style};
use crate::model::{ChordView, Note, Song, SongView};

verus! {

/// Which parts play, and with which instrument preset.
#[derive(Clone, Copy, Debug, PartialEq, Eq, Structural)]
pub struct Parts {
    pub melody_on: bool,
    pub melody_instr: usize,
    pub chords_on: bool,
    pub chords_instr: usize,
    pub bass_on: bool,
    pub bass_instr: usize,
}

impl Default for Parts {
    /// All three parts on: melody on nylon guitar (0), chords on piano (3),
    /// bass on finger bass (8).
    fn default() -> (p: Parts)
        ensures
            p == (Parts {
                melody_on: true,
                melody_instr: 0,
                chords_on: true,
                chords_instr: 3,
                bass_on: true,
                bass_instr: 8,
            }),
    {
        Parts {
            melody_on: true,
            melody_instr: 0,
            chords_on: true,
            chords_instr: 3,
            bass_on: true,
            bass_instr: 8,
        }
    }
}

/// Length of the chorus from bar `cb` to bar `ce` (at least one bar).
pub open spec fn chorus_len(cb: int, ce: int) -> int {
    if ce + 1 - cb >= 1 {
        ce + 1 - cb
    } else {
        1
    }
}

/// The 0-based chart bar played at 0-based performance bar `lb`: the intro
/// (bars before `cb`) once, then the chorus `cb..=ce` cycled exactly
/// `choruses` times, then the ending, held on the last bar of the form.
pub open spec fn chart_bar(lb: int, cb: int, ce: int, choruses: int, form_bars: int) -> int {
    let intro = cb - 1;
    let clen = chorus_len(cb, ce);
    if lb < intro {
        lb
    } else if lb - intro < clen * choruses {
        intro + (lb - intro) % clen
    } else {
        let e = ce + (lb - intro - clen * choruses);
        let last = if form_bars >= 1 { form_bars - 1 } else { 0 };
        if e < last {
            e
        } else {
            last
        }
    }
}

/// Map a 0-based linear performance bar to its 0-based chart bar: intro once,
/// then the chorus cycled exactly `choruses` times, then the ending.
pub fn chart_bar0(lb: u32, cb: u32, ce: u32, choruses: u32, form_bars: u32) -> (r: u32)
    requires
        cb >= 1,
        ce < u32::MAX,
        ce + 1 >= cb,
        chorus_len(cb as int, ce as int) * choruses <= u32::MAX,
        lb - (cb - 1) >= chorus_len(cb as int, ce as int) * choruses ==> ce + (lb - (cb - 1)
            - chorus_len(cb as int, ce as int) * choruses) <= u32::MAX,
    ensures
        r == chart_bar(lb as int, cb as int, ce as int, choruses as int, form_bars as int),
{
    let intro = cb - 1;
    let clen = if ce + 1 - cb >= 1 { ce + 1 - cb } else { 1 };
    if lb < intro {
        return lb;
    }
    let after = lb - intro;
    let total_chorus = clen * choruses;
    if after < total_chorus {
        intro + after % clen
    } else {
        let e = ce + (after - total_chorus);
        let last = if form_bars >= 1 { form_bars - 1 } else { 0 };
        if e < last { e } else { last }
    }
}

/// Within the chorus, a bar one chorus later plays the same chart bar.
pub proof fn lemma_chart_bar_cycles(lb: int, cb: int, ce: int, choruses: int, form_bars: int)
    requires
        cb >= 1,
        cb - 1 <= lb,
        lb + chorus_len(cb, ce) - (cb - 1) < chorus_len(cb, ce) * choruses,
    ensures
        chart_bar(lb + chorus_len(cb, ce), cb, ce, choruses, form_bars) == chart_bar(
            lb,
            cb,
            ce,
            choruses,
            form_bars,
        ),
        cb - 1 <= chart_bar(lb, cb, ce, choruses, form_bars) < cb - 1 + chorus_len(cb, ce),
{
    let clen = chorus_len(cb, ce);
    let a = lb - (cb - 1);
    assert((a + clen) % clen == a % clen) by {
        vstd::arithmetic::div_mod::lemma_mod_add_multiples_vanish(a, clen);
    }
    assert(a < clen * choruses) by {
        assert(a < a + clen);
    }
    assert(0 <= a % clen < clen) by {
        vstd::arithmetic::div_mod::lemma_mod_bound(a, clen);
    }
}

/// Start, length (until the next chord or one bar for the last, at least one
/// beat) and root of chord `i`.
pub open spec fn cell(cs: Seq<ChordView>, i: int) -> (u32, u32, u8) {
    let start = cs[i].tick as int;
    let end = if i + 1 < cs.len() {
        cs[i + 1].tick as int
    } else {
        start + 480
    };
    let d = if end > start { end - start } else { 0 };
    (start as u32, (if d > 120 { d } else { 120 }) as u32, cs[i].root)
}

/// (start_tick, dur_ticks, root_pc) for each chord, using the decoded
/// sub-bar tick positions so syncopated bars play correctly.
pub fn chord_cells(song: &Song) -> (r: Vec<(u32, u32, u8)>)
    requires
        forall|i: int| 0 <= i < song.chords@.len() ==> #[trigger] song.chords@[i].tick <= u32::MAX - 480,
    ensures
        r@.len() == song.chords@.len(),
        forall|i: int| 0 <= i < r@.len() ==> #[trigger] r@[i] == cell(song@.chords, i),
{
    let mut out: Vec<(u32, u32, u8)> = Vec::new();
    let n = song.chords.len();
    let mut i: usize = 0;
    while i < n
        invariant
            n == song.chords@.len(),
            i <= n,
            forall|k: int| 0 <= k < n ==> #[trigger] song.chords@[k].tick <= u32::MAX - 480,
            out@.len() == i,
            forall|k: int| 0 <= k < i ==> #[trigger] out@[k] == cell(song@.chords, k),
        decreases n - i,
    {
        let start = song.chords[i].tick;
        let end = if i < n - 1 { song.chords[i + 1].tick } else { start + 480 };
        let d = if end > start { end - start } else { 0 };
        let dur = if d > 120 { d } else { 120 };
        proof {
            assert(song@.chords[i as int] == song.chords@[i as int]@);
            if i + 1 < n {
                assert(song@.chords[i + 1] == song.chords@[i + 1]@);
            }
        }
        out.push((start, dur, song.chords[i].root));
        i = i + 1;
    }
    out
}

/// A note of the performance on the song's tick line, clipped to start no
/// earlier than the seek point.
#[derive(Clone, Copy, Debug, PartialEq, Eq, Structural)]
pub struct Planned {
    pub part: Part,
    pub pitch: u8,
    pub vel: u8,
    pub tick: u32,
    pub dur: u32,
}

/// A note from `abs` lasting `dur`, seen from the seek point `floor`: none if
/// it is over by then, else clipped to start at `floor` at the earliest.
pub open spec fn placed(abs: int, dur: int, floor: int) -> Option<(u32, u32)> {
    let end = abs + dur;
    if end <= floor {
        None
    } else {
        let eff = if abs > floor {
            abs
        } else {
            floor
        };
        Some((eff as u32, (end - eff) as u32))
    }
}

/// Start and length of a note from `abs` lasting `dur` as heard from the seek
/// point `floor`; `None` for a note that is over by then.
pub fn place(abs: u32, dur: u32, floor: u32) -> (r: Option<(u32, u32)>)
    requires
        abs + dur <= u32::MAX,
    ensures
        r == placed(abs as int, dur as int, floor as int),
{
    let end = abs + dur;
    if end <= floor {
        return None;
    }
    let eff = if abs > floor { abs } else { floor };
    Some((eff, end - eff))
}

/// The melody notes among the first `k` that still sound from `floor` on;
/// `None` once a note's end passes `u32::MAX`.
pub open spec fn melody_plan(m: Seq<Note>, k: int, floor: u32) -> Option<Seq<Planned>>
    decreases k,
{
    if k <= 0 {
        Some(Seq::empty())
    } else {
        match melody_plan(m, k - 1, floor) {
            None => None,
            Some(prev) => {
                let n = m[k - 1];
                if n.tick + n.dur > u32::MAX {
                    None
                } else {
                    match placed(n.tick as int, n.dur as int, floor as int) {
                        None => Some(prev),
                        Some(p) => Some(
                            prev.push(
                                Planned { part: Part::Melody, pitch: n.pitch, vel: n.vel, tick: p.0, dur: p.1 },
                            ),
                        ),
                    }
                }
            },
        }
    }
}

fn plan_melody(melody: &Vec<Note>, floor: u32) -> (r: Option<Vec<Planned>>)
    ensures
        match r {
            Some(v) => melody_plan(melody@, melody@.len() as int, floor) == Some(v@),
            None => melody_plan(melody@, melody@.len() as int, floor) is None,
        },
{
    let mut out: Vec<Planned> = Vec::new();
    let mut i: usize = 0;
    while i < melody.len()
        invariant
            i <= melody@.len(),
            melody_plan(melody@, i as int, floor) == Some(out@),
        decreases melody@.len() - i,
    {
        let n = melody[i];
        if n.tick > u32::MAX - n.dur {
            proof { lemma_melody_plan_none(melody@, i as int + 1, floor); }
            return None;
        }
        match place(n.tick, n.dur, floor) {
            None => {},
            Some((t, d)) => {
                out.push(Planned { part: Part::Melody, pitch: n.pitch, vel: n.vel, tick: t, dur: d });
            },
        }
        i = i + 1;
    }
    Some(out)
}

proof fn lemma_melody_plan_none(m: Seq<Note>, k: int, floor: u32)
    requires
        0 <= k <= m.len(),
        melody_plan(m, k, floor) is None,
    ensures
        melody_plan(m, m.len() as int, floor) is None,
    decreases m.len() - k,
{
    if k < m.len() {
        lemma_melody_plan_none(m, k + 1, floor);
    }
}

/// Bars the melody reaches into, each note's end rounded up to a whole bar;
/// `None` when that rounding passes `u32::MAX`.
pub open spec fn melody_bars(m: Seq<Note>) -> Option<u32>
    decreases m.len(),
{
    if m.len() == 0 {
        Some(0)
    } else {
        match melody_bars(m.drop_last()) {
            None => None,
            Some(prev) => {
                let e = m.last().tick + m.last().dur + 479;
                if e > u32::MAX {
                    None
                } else if e / 480 > prev {
                    Some((e / 480) as u32)
                } else {
                    Some(prev)
                }
            },
        }
    }
}

fn melody_bars_of(m: &Vec<Note>) -> (r: Option<u32>)
    ensures
        r == melody_bars(m@),
{
    let mut bars: u32 = 0;
    let mut i: usize = 0;
    while i < m.len()
        invariant
            i <= m@.len(),
            melody_bars(m@.take(i as int)) == Some(bars),
        decreases m@.len() - i,
    {
        let n = m[i];
        assert(m@.take(i + 1).drop_last() =~= m@.take(i as int));
        if n.tick > u32::MAX - 479 || n.dur > u32::MAX - 479 - n.tick {
            proof { lemma_melody_bars_none(m@, i as int + 1); }
            return None;
        }
        let b = (n.tick + n.dur + 479) / 480;
        if b > bars {
            bars = b;
        }
        i = i + 1;
    }
    assert(m@.take(m@.len() as int) =~= m@);
    Some(bars)
}

proof fn lemma_melody_bars_none(m: Seq<Note>, k: int)
    requires
        0 <= k <= m.len(),
        melody_bars(m.take(k)) is None,
    ensures
        melody_bars(m) is None,
    decreases m.len() - k,
{
    if k < m.len() {
        assert(m.take(k + 1).drop_last() =~= m.take(k));
        lemma_melody_bars_none(m, k + 1);
    } else {
        assert(m.take(k) =~= m);
    }
}

/// The frame of the performance of a form of `form_ticks` ticks: first and
/// last chorus bar, chorus count, bars of the form and bars played (at least
/// the melody, the intro + chorus × count + ending, and the form). `None` when
/// one of these counts passes `u32::MAX`.
pub open spec fn frame(s: SongView, form_ticks: u32) -> Option<(u32, u32, u32, u32, u32)> {
    let cb = if s.chorus_begin >= 1 { s.chorus_begin as int } else { 1 };
    let ce0 = if s.chorus_end >= s.chorus_begin { s.chorus_end as int } else { s.chorus_begin as int };
    let ce = if ce0 >= 1 { ce0 } else { 1 };
    let fb0 = if s.form_bars >= ce { s.form_bars as int } else { ce };
    let fb = if fb0 >= form_ticks / 480 { fb0 } else { (form_ticks / 480) as int };
    let ch = if s.choruses >= 1 { s.choruses as int } else { 1 };
    let structural = (cb - 1) + chorus_len(cb, ce) * ch + (fb - ce);
    if structural > u32::MAX {
        None
    } else {
        match melody_bars(s.melody) {
            None => None,
            Some(mb) => {
                let t0 = if mb >= structural { mb as int } else { structural };
                let total = if t0 >= fb { t0 } else { fb };
                Some((cb as u32, ce as u32, ch as u32, fb as u32, total as u32))
            },
        }
    }
}

/// The frame of [`frame`], computed.
fn frame_of(song: &Song, form_ticks: u32) -> (r: Option<(u32, u32, u32, u32, u32)>)
    ensures
        r == frame(song@, form_ticks),
{
    let cb: u32 = if song.chorus_begin >= 1 { song.chorus_begin as u32 } else { 1 };
    let ce0: u32 = if song.chorus_end >= song.chorus_begin { song.chorus_end as u32 } else { song.chorus_begin as u32 };
    let ce: u32 = if ce0 >= 1 { ce0 } else { 1 };
    let fb0: u32 = if song.form_bars as u32 >= ce { song.form_bars as u32 } else { ce };
    let fb: u32 = if fb0 >= form_ticks / 480 { fb0 } else { form_ticks / 480 };
    let ch: u32 = if song.choruses >= 1 { song.choruses as u32 } else { 1 };
    let clen: u32 = if ce + 1 - cb >= 1 { ce + 1 - cb } else { 1 };
    assert(clen * ch <= 65535 * 65535) by (nonlinear_arith)
        requires clen <= 65535, ch <= 65535;
    let structural: u64 = (cb - 1) as u64 + clen as u64 * ch as u64 + (fb - ce) as u64;
    if structural > u32::MAX as u64 {
        return None;
    }
    let structural = structural as u32;
    let mb = match melody_bars_of(&song.melody) {
        None => {
            return None;
        },
        Some(b) => b,
    };
    let t0 = if mb >= structural { mb } else { structural };
    let total = if t0 >= fb { t0 } else { fb };
    Some((cb, ce, ch, fb, total))
}

/// An accompaniment event of `part` is played when its part is switched on.
pub open spec fn plays(part: Part, chords_on: bool, bass_on: bool) -> bool {
    (part == Part::Comp && chords_on) || (part == Part::Bass && bass_on)
}

/// Of the first `k` events, those of chart bar `cbar` that are played, moved
/// to performance bar `lb` and seen from the seek point `floor`; `None` when
/// a moved event's start or end passes `u32::MAX`.
pub open spec fn bar_plan(
    ev: Seq<Event>,
    k: int,
    cbar: int,
    lb: int,
    floor: u32,
    chords_on: bool,
    bass_on: bool,
) -> Option<Seq<Planned>>
    decreases k,
{
    if k <= 0 {
        Some(Seq::empty())
    } else {
        match bar_plan(ev, k - 1, cbar, lb, floor, chords_on, bass_on) {
            None => None,
            Some(prev) => {
                let e = ev[k - 1];
                let abs = lb * 480 + e.tick % 480;
                if e.tick / 480 != cbar {
                    Some(prev)
                } else if abs > u32::MAX {
                    None
                } else if !plays(e.part, chords_on, bass_on) {
                    Some(prev)
                } else if abs + e.dur > u32::MAX {
                    None
                } else {
                    match placed(abs, e.dur as int, floor as int) {
                        None => Some(prev),
                        Some(p) => Some(
                            prev.push(Planned { part: e.part, pitch: e.pitch, vel: e.vel, tick: p.0, dur: p.1 }),
                        ),
                    }
                }
            },
        }
    }
}

/// The accompaniment of the first `n` performance bars: each bar plays the
/// events of the chart bar it maps to (see [`chart_bar`]).
pub open spec fn accomp_plan(
    ev: Seq<Event>,
    n: int,
    fr: (u32, u32, u32, u32, u32),
    floor: u32,
    chords_on: bool,
    bass_on: bool,
) -> Option<Seq<Planned>>
    decreases n,
{
    if n <= 0 {
        Some(Seq::empty())
    } else {
        match accomp_plan(ev, n - 1, fr, floor, chords_on, bass_on) {
            None => None,
            Some(prev) => match bar_plan(
                ev,
                ev.len() as int,
                chart_bar(n - 1, fr.0 as int, fr.1 as int, fr.2 as int, fr.3 as int),
                n - 1,
                floor,
                chords_on,
                bass_on,
            ) {
                None => None,
                Some(b) => Some(prev + b),
            },
        }
    }
}

fn plan_bar(
    ev: &Vec<Event>,
    cbar: u32,
    lb: u32,
    floor: u32,
    chords_on: bool,
    bass_on: bool,
    out: &mut Vec<Planned>,
) -> (ok: bool)
    ensures
        ok ==> (bar_plan(ev@, ev@.len() as int, cbar as int, lb as int, floor, chords_on, bass_on) matches Some(b)
            && final(out)@ == old(out)@ + b),
        !ok ==> bar_plan(ev@, ev@.len() as int, cbar as int, lb as int, floor, chords_on, bass_on) is None,
{
    let ghost start = out@;
    let mut j: usize = 0;
    while j < ev.len()
        invariant
            j <= ev@.len(),
            start == old(out)@,
            (bar_plan(ev@, j as int, cbar as int, lb as int, floor, chords_on, bass_on) matches Some(b) && out@ == start + b),
        decreases ev@.len() - j,
    {
        let e = ev[j];
        let ghost prev = bar_plan(ev@, j as int, cbar as int, lb as int, floor, chords_on, bass_on)->Some_0;
        if e.tick / 480 == cbar {
            let abs64: u64 = lb as u64 * 480 + (e.tick % 480) as u64;
            if abs64 > u32::MAX as u64 {
                proof { lemma_bar_plan_none(ev@, j as int + 1, cbar as int, lb as int, floor, chords_on, bass_on); }
                return false;
            }
            let abs = abs64 as u32;
            let on = match e.part {
                Part::Comp => chords_on,
                Part::Bass => bass_on,
                Part::Melody => false,
            };
            if on {
                if abs > u32::MAX - e.dur {
                    proof { lemma_bar_plan_none(ev@, j as int + 1, cbar as int, lb as int, floor, chords_on, bass_on); }
                    return false;
                }
                match place(abs, e.dur, floor) {
                    None => {},
                    Some((t, d)) => {
                        out.push(Planned { part: e.part, pitch: e.pitch, vel: e.vel, tick: t, dur: d });
                        assert(out@ == start + prev.push(Planned { part: e.part, pitch: e.pitch, vel: e.vel, tick: t, dur: d }));
                    },
                }
            }
        }
        j = j + 1;
    }
    true
}

proof fn lemma_bar_plan_none(
    ev: Seq<Event>,
    k: int,
    cbar: int,
    lb: int,
    floor: u32,
    chords_on: bool,
    bass_on: bool,
)
    requires
        0 <= k <= ev.len(),
        bar_plan(ev, k, cbar, lb, floor, chords_on, bass_on) is None,
    ensures
        bar_plan(ev, ev.len() as int, cbar, lb, floor, chords_on, bass_on) is None,
    decreases ev.len() - k,
{
    if k < ev.len() {
        lemma_bar_plan_none(ev, k + 1, cbar, lb, floor, chords_on, bass_on);
    }
}

/// A frame whose chorus and bar counts keep [`chart_bar0`] within `u32` on
/// every performance bar.
pub open spec fn frame_ok(fr: (u32, u32, u32, u32, u32)) -> bool {
    &&& fr.0 >= 1
    &&& fr.1 < u32::MAX
    &&& fr.1 + 1 >= fr.0
    &&& chorus_len(fr.0 as int, fr.1 as int) * fr.2 <= u32::MAX
    &&& fr.1 + fr.4 - (fr.0 - 1) - chorus_len(fr.0 as int, fr.1 as int) * fr.2 <= u32::MAX + 1
}

proof fn lemma_melody_bars_bound(m: Seq<Note>)
    ensures
        melody_bars(m) matches Some(b) ==> b <= 8947849,
    decreases m.len(),
{
    if m.len() > 0 {
        lemma_melody_bars_bound(m.drop_last());
    }
}

proof fn lemma_frame_ok(s: SongView, form_ticks: u32)
    ensures
        frame(s, form_ticks) matches Some(fr) ==> frame_ok(fr),
{
    lemma_melody_bars_bound(s.melody);
    if let Some(fr) = frame(s, form_ticks) {
        let clen = chorus_len(fr.0 as int, fr.1 as int);
        assert(clen <= 65535);
        assert(fr.2 <= 65535);
        assert(clen * fr.2 <= 65535 * 65535) by (nonlinear_arith)
            requires clen <= 65535, fr.2 <= 65535, 0 <= clen, 0 <= fr.2;
    }
}

/// The whole accompaniment, bar by bar over the performance of frame `fr`.
fn plan_accompaniment(
    ev: &Vec<Event>,
    fr: (u32, u32, u32, u32, u32),
    floor: u32,
    chords_on: bool,
    bass_on: bool,
) -> (r: Option<Vec<Planned>>)
    requires
        frame_ok(fr),
    ensures
        match r {
            Some(v) => accomp_plan(ev@, fr.4 as int, fr, floor, chords_on, bass_on) == Some(v@),
            None => accomp_plan(ev@, fr.4 as int, fr, floor, chords_on, bass_on) is None,
        },
{
    let mut out: Vec<Planned> = Vec::new();
    let mut lb: u32 = 0;
    while lb < fr.4
        invariant
            lb <= fr.4,
            frame_ok(fr),
            accomp_plan(ev@, lb as int, fr, floor, chords_on, bass_on) == Some(out@),
        decreases fr.4 - lb,
    {
        let cbar = chart_bar0(lb, fr.0, fr.1, fr.2, fr.3);
        if !plan_bar(ev, cbar, lb, floor, chords_on, bass_on, &mut out) {
            proof { lemma_accomp_none(ev@, lb as int + 1, fr, floor, chords_on, bass_on); }
            return None;
        }
        lb = lb + 1;
    }
    Some(out)
}

proof fn lemma_accomp_none(
    ev: Seq<Event>,
    n: int,
    fr: (u32, u32, u32, u32, u32),
    floor: u32,
    chords_on: bool,
    bass_on: bool,
)
    requires
        0 <= n <= fr.4,
        accomp_plan(ev, n, fr, floor, chords_on, bass_on) is None,
    ensures
        accomp_plan(ev, fr.4 as int, fr, floor, chords_on, bass_on) is None,
    decreases fr.4 - n,
{
    if n < fr.4 {
        lemma_accomp_none(ev, n + 1, fr, floor, chords_on, bass_on);
    }
}

/// Ticks in one pass of the form: the latest end of a chord cell, 0 without
/// chords.
pub open spec fn form_ticks(cells: Seq<(u32, u32, u8)>) -> int
    decreases cells.len(),
{
    if cells.len() == 0 {
        0
    } else {
        let prev = form_ticks(cells.drop_last());
        let e = cells.last().0 + cells.last().1;
        if e > prev {
            e
        } else {
            prev
        }
    }
}

fn form_ticks_of(cells: &Vec<(u32, u32, u8)>) -> (r: u32)
    requires
        forall|i: int| 0 <= i < cells@.len() ==> #[trigger] cells@[i].0 + cells@[i].1 <= u32::MAX,
    ensures
        r == form_ticks(cells@),
{
    let mut end: u32 = 0;
    let mut i: usize = 0;
    while i < cells.len()
        invariant
            i <= cells@.len(),
            forall|k: int| 0 <= k < cells@.len() ==> #[trigger] cells@[k].0 + cells@[k].1 <= u32::MAX,
            end == form_ticks(cells@.take(i as int)),
        decreases cells@.len() - i,
    {
        let (st, d, _) = cells[i];
        assert(cells@.take(i + 1).drop_last() =~= cells@.take(i as int));
        let e = st + d;
        if e > end {
            end = e;
        }
        i = i + 1;
    }
    assert(cells@.take(cells@.len() as int) =~= cells@);
    end
}

/// No note ends past `u32::MAX`.
pub open spec fn notes_fit(m: Seq<Note>) -> bool {
    forall|i: int| 0 <= i < m.len() ==> #[trigger] m[i].tick + m[i].dur <= u32::MAX
}

/// Every chord starts a bar or more before `u32::MAX`.
pub open spec fn chords_fit(cs: Seq<ChordView>) -> bool {
    forall|i: int| 0 <= i < cs.len() ==> #[trigger] cs[i].tick <= u32::MAX - 480
}

/// When playback is over: the end of the melody, and with accompaniment the
/// latest of that, the end of the form and the end of the performance
/// (intro + chorus × count + ending); `None` when the performance's end
/// passes `u32::MAX`.
pub open spec fn end_tick(s: SongView, form_ticks: int, accompaniment: bool) -> Option<u32> {
    let cb = if s.chorus_begin >= 1 { s.chorus_begin as int } else { 1 };
    let ce0 = if s.chorus_end >= s.chorus_begin { s.chorus_end as int } else { s.chorus_begin as int };
    let ce = if ce0 >= 1 { ce0 } else { 1 };
    let fb = if s.form_bars >= ce { s.form_bars as int } else { ce };
    let ch = if s.choruses >= 1 { s.choruses as int } else { 1 };
    let perform = ((cb - 1) + chorus_len(cb, ce) * ch + (fb - ce)) * 480;
    let me = melody_end(s.melody);
    if perform > u32::MAX {
        None
    } else if !accompaniment {
        Some(me as u32)
    } else {
        let a = if me >= form_ticks { me } else { form_ticks };
        Some((if a >= perform { a } else { perform }) as u32)
    }
}

/// The playback of a song from tick `start` with the parts `parts`: when it
/// is over, and its notes (the melody's, then the accompaniment's that the
/// basic style gives, laid out over the performance). `None` where a tick
/// passes `u32::MAX` on the way.
pub open spec fn schedule(s: SongView, parts: Parts, start: u32) -> Option<(u32, Seq<Planned>)> {
    if !notes_fit(s.melody) || !chords_fit(s.chords) {
        None
    } else {
        let ft = form_ticks(Seq::new(s.chords.len(), |i: int| cell(s.chords, i)));
        let acc = (parts.chords_on || parts.bass_on) && ft > 0;
        match end_tick(s, ft, acc) {
            None => None,
            Some(end) => {
                let mel = if parts.melody_on {
                    melody_plan(s.melody, s.melody.len() as int, start)
                } else {
                    Some(Seq::empty())
                };
                match mel {
                    None => None,
                    Some(mp) => if !acc {
                        Some((end, mp))
                    } else {
                        match arrangement(s, basic_style()) {
                            None => None,
                            Some(ev) => match frame(s, ft as u32) {
                                None => None,
                                Some(fr) => match accomp_plan(ev, fr.4 as int, fr, start, parts.chords_on, parts.bass_on) {
                                    None => None,
                                    Some(ap) => Some((end, mp + ap)),
                                },
                            },
                        }
                    },
                }
            },
        }
    }
}

/// What to play: when playback is over and every note from the seek point on.
pub struct Schedule {
    pub end_tick: u32,
    pub notes: Vec<Planned>,
}

fn end_tick_of(song: &Song, form_ticks: u32, accompaniment: bool) -> (r: Option<u32>)
    requires
        notes_fit(song.melody@),
    ensures
        r == end_tick(song@, form_ticks as int, accompaniment),
{
    let cb: u32 = if song.chorus_begin >= 1 { song.chorus_begin as u32 } else { 1 };
    let ce0: u32 = if song.chorus_end >= song.chorus_begin { song.chorus_end as u32 } else { song.chorus_begin as u32 };
    let ce: u32 = if ce0 >= 1 { ce0 } else { 1 };
    let fb: u32 = if song.form_bars as u32 >= ce { song.form_bars as u32 } else { ce };
    let ch: u32 = if song.choruses >= 1 { song.choruses as u32 } else { 1 };
    let clen: u32 = if ce + 1 - cb >= 1 { ce + 1 - cb } else { 1 };
    assert(clen * ch <= 65535 * 65535) by (nonlinear_arith)
        requires clen <= 65535, ch <= 65535;
    let bars: u64 = (cb - 1) as u64 + clen as u64 * ch as u64 + (fb - ce) as u64;
    if bars > (u32::MAX / 480) as u64 {
        return None;
    }
    let perform = bars as u32 * 480;
    let mut me: u32 = 0;
    let mut i: usize = 0;
    while i < song.melody.len()
        invariant
            i <= song.melody@.len(),
            notes_fit(song.melody@),
            me == melody_end(song.melody@.take(i as int)),
        decreases song.melody@.len() - i,
    {
        let n = song.melody[i];
        assert(song.melody@.take(i + 1).drop_last() =~= song.melody@.take(i as int));
        let e = n.tick + n.dur;
        if e > me {
            me = e;
        }
        i = i + 1;
    }
    assert(song.melody@.take(song.melody@.len() as int) =~= song.melody@);
    if !accompaniment {
        return Some(me);
    }
    let a = if me >= form_ticks { me } else { form_ticks };
    Some(if a >= perform { a } else { perform })
}

/// Plan the playback of `song` from tick `start` with `parts`: the notes of
/// every part that is on, clipped at the seek point, and the tick at which
/// playback is over. `None` where a tick would pass `u32::MAX`.
pub fn schedule_plan(song: &Song, parts: &Parts, start: u32) -> (r: Option<Schedule>)
    ensures
        match r {
            Some(p) => schedule(song@, *parts, start) == Some((p.end_tick, p.notes@)),
            None => schedule(song@, *parts, start) is None,
        },
{
    let mut i: usize = 0;
    while i < song.melody.len()
        invariant
            i <= song.melody@.len(),
            forall|k: int| 0 <= k < i ==> #[trigger] song.melody@[k].tick + song.melody@[k].dur <= u32::MAX,
        decreases song.melody@.len() - i,
    {
        if song.melody[i].tick > u32::MAX - song.melody[i].dur {
            return None;
        }
        i = i + 1;
    }
    let mut j: usize = 0;
    while j < song.chords.len()
        invariant
            j <= song.chords@.len(),
            forall|k: int| 0 <= k < j ==> #[trigger] song.chords@[k].tick <= u32::MAX - 480,
        decreases song.chords@.len() - j,
    {
        if song.chords[j].tick > u32::MAX - 480 {
            proof {
                assert(song@.chords[j as int] == song.chords@[j as int]@);
                assert(song@.chords[j as int].tick > u32::MAX - 480);
                assert(!chords_fit(song@.chords));
            }
            return None;
        }
        j = j + 1;
    }
    proof {
        assert forall|k: int| 0 <= k < song@.chords.len() implies #[trigger] song@.chords[k].tick <= u32::MAX - 480 by {
            assert(song@.chords[k] == song.chords@[k]@);
        }
    }
    let cells = chord_cells(song);
    let ghost cs = Seq::new(song@.chords.len(), |k: int| cell(song@.chords, k));
    assert(cells@ =~= cs);
    let ft = form_ticks_of(&cells);
    let acc = (parts.chords_on || parts.bass_on) && ft > 0;
    let end = match end_tick_of(song, ft, acc) {
        None => {
            return None;
        },
        Some(e) => e,
    };
    let mut notes = if parts.melody_on {
        match plan_melody(&song.melody, start) {
            None => {
                return None;
            },
            Some(v) => v,
        }
    } else {
        Vec::new()
    };
    if !acc {
        return Some(Schedule { end_tick: end, notes });
    }
    let style = Style::default();
    let events = match arrange_checked(song, &style) {
        None => {
            return None;
        },
        Some(v) => v,
    };
    let fr = match frame_of(song, ft) {
        None => {
            return None;
        },
        Some(f) => f,
    };
    proof { lemma_frame_ok(song@, ft); }
    let mut accomp = match plan_accompaniment(&events, fr, start, parts.chords_on, parts.bass_on) {
        None => {
            return None;
        },
        Some(v) => v,
    };
    notes.append(&mut accomp);
    Some(Schedule { end_tick: end, notes })
}

proof fn lemma_melody_plan_from(m: Seq<Note>, k: int, floor: u32)
    ensures
        melody_plan(m, k, floor) matches Some(v) ==> forall|i: int| 0 <= i < v.len() ==> #[trigger] v[i].tick >= floor,
    decreases k,
{
    if k > 0 {
        lemma_melody_plan_from(m, k - 1, floor);
    }
}

proof fn lemma_bar_plan_from(
    ev: Seq<Event>,
    k: int,
    cbar: int,
    lb: int,
    floor: u32,
    chords_on: bool,
    bass_on: bool,
)
    ensures
        bar_plan(ev, k, cbar, lb, floor, chords_on, bass_on) matches Some(v) ==> forall|i: int|
            0 <= i < v.len() ==> #[trigger] v[i].tick >= floor,
    decreases k,
{
    if k > 0 {
        lemma_bar_plan_from(ev, k - 1, cbar, lb, floor, chords_on, bass_on);
    }
}

proof fn lemma_accomp_plan_from(
    ev: Seq<Event>,
    n: int,
    fr: (u32, u32, u32, u32, u32),
    floor: u32,
    chords_on: bool,
    bass_on: bool,
)
    ensures
        accomp_plan(ev, n, fr, floor, chords_on, bass_on) matches Some(v) ==> forall|i: int|
            0 <= i < v.len() ==> #[trigger] v[i].tick >= floor,
    decreases n,
{
    if n > 0 {
        lemma_accomp_plan_from(ev, n - 1, fr, floor, chords_on, bass_on);
        lemma_bar_plan_from(
            ev,
            ev.len() as int,
            chart_bar(n - 1, fr.0 as int, fr.1 as int, fr.2 as int, fr.3 as int),
            n - 1,
            floor,
            chords_on,
            bass_on,
        );
        if let Some(v) = accomp_plan(ev, n, fr, floor, chords_on, bass_on) {
            let prev = accomp_plan(ev, n - 1, fr, floor, chords_on, bass_on)->Some_0;
            let b = bar_plan(
                ev,
                ev.len() as int,
                chart_bar(n - 1, fr.0 as int, fr.1 as int, fr.2 as int, fr.3 as int),
                n - 1,
                floor,
                chords_on,
                bass_on,
            )->Some_0;
            assert forall|i: int| 0 <= i < v.len() implies #[trigger] v[i].tick >= floor by {
                if i < prev.len() {
                    assert(v[i] == prev[i]);
                } else {
                    assert(v[i] == b[i - prev.len()]);
                }
            }
        }
    }
}

/// Playback from a seek point starts nothing before it: every planned note
/// of a schedule from tick `start` starts at `start` or later.
pub proof fn lemma_schedule_from_seek_point(s: SongView, parts: Parts, start: u32)
    ensures
        schedule(s, parts, start) matches Some(p) ==> forall|i: int| 0 <= i < p.1.len() ==> #[trigger] p.1[i].tick >= start,
{
    lemma_melody_plan_from(s.melody, s.melody.len() as int, start);
    if let Some(p) = schedule(s, parts, start) {
        let ft = form_ticks(Seq::new(s.chords.len(), |i: int| cell(s.chords, i)));
        let acc = (parts.chords_on || parts.bass_on) && ft > 0;
        let mp = if parts.melody_on {
            melody_plan(s.melody, s.melody.len() as int, start)->Some_0
        } else {
            Seq::empty()
        };
        if acc {
            let ev = arrangement(s, basic_style())->Some_0;
            let fr = frame(s, ft as u32)->Some_0;
            lemma_accomp_plan_from(ev, fr.4 as int, fr, start, parts.chords_on, parts.bass_on);
            let ap = accomp_plan(ev, fr.4 as int, fr, start, parts.chords_on, parts.bass_on)->Some_0;
            assert(p.1 == mp + ap);
            assert forall|i: int| 0 <= i < p.1.len() implies #[trigger] p.1[i].tick >= start by {
                if i < mp.len() {
                    assert(p.1[i] == mp[i]);
                } else {
                    assert(p.1[i] == ap[i - mp.len()]);
                }
            }
        } else {
            assert(p.1 == mp);
        }
    }
}

} // verus!
