//! Minimal Standard MIDI File reader into the common model. Decodes tempo, an
//! optional title, and note events (with durations) into the melody. Chords
//! are left empty. The header gives the number of tracks (bytes 10..12) and
//! the ticks per quarter note (bytes 12..14); meta events (status `0xFF`)
//! carry the tempo and the title.

use vstd::prelude::*;
use crate::model::{Note, ParseError, Song, SongView};
use crate::sort::{sort_by_tick, tick_sort};
use crate::text::{latin1, latin1_trimmed, trim};

verus! {

/// Big-endian `u16` at `d[i..i + 2]`.
pub open spec fn be16(d: Seq<u8>, i: int) -> int {
    d[i] * 256 + d[i + 1]
}

/// Big-endian `u32` at `d[i..i + 4]`.
pub open spec fn be32(d: Seq<u8>, i: int) -> int {
    d[i] * 16777216 + d[i + 1] * 65536 + d[i + 2] * 256 + d[i + 3]
}

/// A variable-length quantity at `p` (before `end`), continuing from value
/// `v`: seven bits per byte, most significant first, ended by a byte below
/// 0x80; the value keeps its low 32 bits. Gives the value and the index past
/// it.
pub open spec fn vlq(d: Seq<u8>, p: int, end: int, v: u32) -> (u32, int)
    decreases end - p,
{
    if p < 0 || p >= end || p >= d.len() {
        (v, p)
    } else {
        let c = d[p];
        let v2 = ((v % 33554432) * 128 + c % 128) as u32;
        if c < 128 {
            (v2, p + 1)
        } else {
            vlq(d, p + 1, end, v2)
        }
    }
}

/// What a MIDI file has given so far: title, tempo and finished notes.
pub struct MidiAcc {
    pub title: Seq<char>,
    pub tempo: u16,
    pub melody: Seq<Note>,
}

/// Index of the last sounding note with `pitch`, or -1.
pub open spec fn last_pos(a: Seq<(u8, u32)>, pitch: u8) -> int
    decreases a.len(),
{
    if a.len() == 0 {
        -1
    } else if a.last().0 == pitch {
        a.len() - 1
    } else {
        last_pos(a.drop_last(), pitch)
    }
}

/// Ends the last sounding note with `pitch` at tick `t`: it becomes a note of
/// velocity 64 lasting at least one tick.
pub open spec fn closed(a: Seq<(u8, u32)>, m: Seq<Note>, pitch: u8, t: u32) -> (
    Seq<(u8, u32)>,
    Seq<Note>,
) {
    let i = last_pos(a, pitch);
    if i < 0 {
        (a, m)
    } else {
        let start = a[i].1;
        (
            a.remove(i),
            m.push(
                Note {
                    tick: start,
                    pitch,
                    vel: 64,
                    dur: if t > start {
                        (t - start) as u32
                    } else {
                        1
                    },
                },
            ),
        )
    }
}

/// Byte `i` of `d`, or 0 past the end.
pub open spec fn byte_or0(d: Seq<u8>, i: int) -> u8 {
    if 0 <= i < d.len() {
        d[i]
    } else {
        0
    }
}

/// A meta event whose type byte is at `p`: tempo (0x51, three bytes of
/// microseconds per quarter) and the first non-empty title (0x03).
pub open spec fn meta_event(d: Seq<u8>, end: int, p: int, acc: MidiAcc) -> (int, MidiAcc) {
    let meta = byte_or0(d, p);
    let lv = vlq(d, p + 1, end, 0);
    let l = lv.0 as int;
    let q = lv.1;
    let acc1 = if meta == 0x51 && l == 3 && q + 3 <= end {
        let us = d[q] * 65536 + d[q + 1] * 256 + d[q + 2];
        if us > 0 {
            MidiAcc { tempo: (60000000int / us) as u16, ..acc }
        } else {
            acc
        }
    } else {
        acc
    };
    let acc2 = if meta == 0x03 && acc1.title.len() == 0 && q + l <= end {
        MidiAcc { title: latin1(trim(d.subrange(q, q + l))), ..acc1 }
    } else {
        acc1
    };
    (q + l, acc2)
}

/// One event body at `p` with running status `st` at tick `t` (120 PPQ).
/// `None` when a note event's data bytes lie past the end of the file, or
/// when an event length carries the index past `usize::MAX`.
pub open spec fn event(d: Seq<u8>, end: int, p: int, st: u8, t: u32, a: Seq<(u8, u32)>, acc: MidiAcc) -> Option<(int, Seq<(u8, u32)>, MidiAcc)> {
    if st == 0xFF {
        let r = meta_event(d, end, p, acc);
        if r.0 > usize::MAX {
            None
        } else {
            Some((r.0, a, r.1))
        }
    } else if st >= 0xF0 {
        let lv = vlq(d, p, end, 0);
        if lv.1 + lv.0 > usize::MAX {
            None
        } else {
            Some((lv.1 + lv.0, a, acc))
        }
    } else if st / 16 == 9 {
        if p + 1 >= d.len() {
            None
        } else if d[p + 1] > 0 {
            Some((p + 2, a.push((d[p], t)), acc))
        } else {
            let c = closed(a, acc.melody, d[p], t);
            Some((p + 2, c.0, MidiAcc { melody: c.1, ..acc }))
        }
    } else if st / 16 == 8 {
        if p >= d.len() {
            None
        } else {
            let c = closed(a, acc.melody, d[p], t);
            Some((p + 2, c.0, MidiAcc { melody: c.1, ..acc }))
        }
    } else if st / 16 == 0xA || st / 16 == 0xB || st / 16 == 0xE {
        Some((p + 2, a, acc))
    } else {
        Some((p + 1, a, acc))
    }
}

pub proof fn lemma_vlq_advances(d: Seq<u8>, p: int, end: int, v: u32)
    ensures
        vlq(d, p, end, v).1 >= p,
        0 <= p < end && p < d.len() ==> vlq(d, p, end, v).1 > p,
    decreases end - p,
{
    if !(p < 0 || p >= end || p >= d.len()) {
        let c = d[p];
        let v2 = ((v % 33554432) * 128 + c % 128) as u32;
        if c >= 128 {
            lemma_vlq_advances(d, p + 1, end, v2);
        }
    }
}

pub proof fn lemma_event_advances(d: Seq<u8>, end: int, p: int, st: u8, t: u32, a: Seq<(u8, u32)>, acc: MidiAcc)
    ensures
        event(d, end, p, st, t, a, acc) matches Some(r) ==> r.0 >= p,
{
    lemma_vlq_advances(d, p, end, 0);
    lemma_vlq_advances(d, p + 1, end, 0);
}

/// The events of a track from `p` to `end`, with the running tick, status
/// and sounding notes. `None` when reading fails: a tick
/// past `u32::MAX` or a note event cut off by the end of the file.
pub open spec fn run_track(
    d: Seq<u8>,
    end: int,
    div: u32,
    p: int,
    tick: u32,
    st: u8,
    a: Seq<(u8, u32)>,
    acc: MidiAcc,
) -> Option<MidiAcc>
    decreases (if end > p { end - p } else { 0 }),
{
    if p < 0 || p >= end || end > d.len() || div == 0 {
        Some(acc)
    } else {
        let dv = vlq(d, p, end, 0);
        let p1 = dv.1;
        if tick + dv.0 > u32::MAX {
            None
        } else if p1 >= end {
            Some(acc)
        } else {
            let tick1 = (tick + dv.0) as u32;
            let st1 = if d[p1] >= 128 {
                d[p1]
            } else {
                st
            };
            let p2 = if d[p1] >= 128 {
                p1 + 1
            } else {
                p1
            };
            if tick1 * 120 > u32::MAX {
                None
            } else {
                let t = (tick1 * 120 / (div as int)) as u32;
                match event(d, end, p2, st1, t, a, acc) {
                    None => None,
                    Some(r) => {
                        proof {
                            lemma_vlq_advances(d, p, end, 0);
                            lemma_event_advances(d, end, p2, st1, t, a, acc);
                            assert(p1 > p);
                            assert(r.0 >= p2);
                        }
                        run_track(d, end, div, r.0, tick1, st1, r.1, r.2)
                    },
                }
            }
        }
    }
}

/// How many data bytes a channel event takes, as the MIDI standard fixes
/// them: two for note off/on (0x80, 0x90), key pressure (0xA0), control
/// change (0xB0) and pitch bend (0xE0), one for program change (0xC0) and
/// channel pressure (0xD0). Events other than notes leave the sounding
/// notes and what has been read unchanged.
pub proof fn lemma_channel_event_lengths(
    d: Seq<u8>,
    end: int,
    p: int,
    st: u8,
    t: u32,
    a: Seq<(u8, u32)>,
    acc: MidiAcc,
)
    requires
        0 <= p,
        p + 1 < d.len(),
        0x80 <= st < 0xF0,
    ensures
        event(d, end, p, st, t, a, acc) matches Some(r) && r.0 == p + (if 0xC0 <= st < 0xE0 {
            1int
        } else {
            2int
        }),
        !(0x80 <= st < 0xA0) ==> event(d, end, p, st, t, a, acc) == Some((p + (if 0xC0 <= st < 0xE0 {
            1int
        } else {
            2int
        }), a, acc)),
{
}

/// A program change or channel pressure event (status 0xC0 to 0xDF) takes
/// exactly one data byte: one placed with no delta time at `p` in a track
/// changes nothing of what the rest of the track reads (notes, title,
/// tempo), only the running status.
pub proof fn lemma_one_byte_channel_events(
    d: Seq<u8>,
    end: int,
    div: u32,
    p: int,
    tick: u32,
    st: u8,
    a: Seq<(u8, u32)>,
    acc: MidiAcc,
)
    requires
        0 <= p,
        p + 2 < end <= d.len(),
        div >= 1,
        d[p] == 0,
        0xC0 <= d[p + 1] <= 0xDF,
        tick * 120 <= u32::MAX,
    ensures
        run_track(d, end, div, p, tick, st, a, acc) == run_track(d, end, div, p + 3, tick, d[p + 1], a, acc),
{
    assert(vlq(d, p, end, 0) == (0u32, p + 1));
    let t = (tick * 120 / (div as int)) as u32;
    assert(event(d, end, p + 2, d[p + 1], t, a, acc) == Some((p + 3, a, acc)));
}

/// `MTrk`, the track chunk tag.
pub open spec fn mtrk() -> Seq<u8> {
    seq![0x4du8, 0x54u8, 0x72u8, 0x6bu8]
}

/// `MThd`, the header chunk tag.
pub open spec fn mthd() -> Seq<u8> {
    seq![0x4du8, 0x54u8, 0x68u8, 0x64u8]
}

/// Up to `k` track chunks from `idx`; reading stops at the first chunk that
/// is not a track.
pub open spec fn run_tracks(d: Seq<u8>, div: u32, k: int, idx: int, acc: MidiAcc) -> Option<MidiAcc>
    decreases k,
{
    if k <= 0 || idx < 0 || idx + 8 > d.len() || d.subrange(idx, idx + 4) != mtrk() {
        Some(acc)
    } else if idx + 8 + be32(d, idx + 4) > usize::MAX {
        None
    } else {
        let end = if idx + 8 + be32(d, idx + 4) < d.len() {
            idx + 8 + be32(d, idx + 4)
        } else {
            d.len() as int
        };
        match run_track(d, end, div, idx + 8, 0, 0, Seq::empty(), acc) {
            None => None,
            Some(acc2) => run_tracks(d, div, k - 1, end, acc2),
        }
    }
}

/// Bars covered by the melody: one past the bar in which its last note ends.
/// `None` when a note's end passes `u32::MAX` or its bar number does not fit.
pub open spec fn span_bars(m: Seq<Note>) -> Option<u16>
    decreases m.len(),
{
    if m.len() == 0 {
        Some(0)
    } else {
        match span_bars(m.drop_last()) {
            None => None,
            Some(prev) => {
                let e = m.last().tick + m.last().dur;
                if e > u32::MAX || ((e / 480) as u16) == 65535 {
                    None
                } else {
                    let b = ((e / 480) as u16 + 1) as u16;
                    Some(
                        if b > prev {
                            b
                        } else {
                            prev
                        },
                    )
                }
            },
        }
    }
}

/// Ticks per quarter note of a MIDI file (at least 1).
pub open spec fn midi_div(d: Seq<u8>) -> u32 {
    let div0 = be16(d, 12) % 32768;
    if div0 < 1 {
        1
    } else {
        div0 as u32
    }
}

/// Nothing read yet: no title, 120 BPM, no notes.
pub open spec fn init_acc() -> MidiAcc {
    MidiAcc { title: Seq::empty(), tempo: 120, melody: Seq::empty() }
}

/// The song of what the tracks gave, its melody sorted by tick.
pub open spec fn midi_song(acc: MidiAcc, bars: u16) -> SongView {
    SongView {
        title: acc.title,
        style: Seq::empty(),
        tempo_bpm: acc.tempo,
        key_pc: 0,
        key_minor: false,
        melody: tick_sort(acc.melody),
        chords: Seq::empty(),
        part_markers: Seq::empty(),
        bars,
        form_bars: bars,
        chorus_begin: 1,
        chorus_end: bars,
        choruses: 1,
        chords_decoded: false,
    }
}

/// The song a Standard MIDI File gives: an error for a file that is not
/// MIDI, and a `Format` error for a malformed one, on which reading fails
/// (see [`run_track`]) or whose melody's bar count does not fit.
pub open spec fn midi_of(d: Seq<u8>) -> Result<SongView, ParseError> {
    if d.len() < 14 || d.subrange(0, 4) != mthd() {
        Err(ParseError::Format("not a MIDI file"))
    } else {
        match run_tracks(d, midi_div(d), be16(d, 10), 14, init_acc()) {
            None => Err(ParseError::Format("malformed MIDI file")),
            Some(acc) => match span_bars(tick_sort(acc.melody)) {
                None => Err(ParseError::Format("malformed MIDI file")),
                Some(bars) => Ok(midi_song(acc, bars)),
            },
        }
    }
}

/// The song under construction while the tracks are read.
struct Reader {
    title: String,
    tempo: u16,
    melody: Vec<Note>,
}

spec fn acc_of(r: Reader) -> MidiAcc {
    MidiAcc { title: r.title@, tempo: r.tempo, melody: r.melody@ }
}

fn be16_at(d: &[u8], i: usize) -> (r: u16)
    requires
        i + 2 <= d@.len(),
    ensures
        r == be16(d@, i as int),
{
    d[i] as u16 * 256 + d[i + 1] as u16
}

fn be32_at(d: &[u8], i: usize) -> (r: u32)
    requires
        i + 4 <= d@.len(),
    ensures
        r == be32(d@, i as int),
{
    d[i] as u32 * 16777216 + d[i + 1] as u32 * 65536 + d[i + 2] as u32 * 256 + d[i + 3] as u32
}

/// Read a variable-length quantity at `p`, advancing it.
fn read_vlq(data: &[u8], p: &mut usize, end: usize) -> (v: u32)
    requires
        end <= data@.len(),
    ensures
        (v, *final(p) as int) == vlq(data@, *old(p) as int, end as int, 0),
{
    let ghost p0 = *p as int;
    let mut v: u32 = 0;
    while *p < end
        invariant
            end <= data@.len(),
            vlq(data@, *p as int, end as int, v) == vlq(data@, *old(p) as int, end as int, 0),
        decreases end - *p,
    {
        let ghost pb = *p as int;
        let ghost vb = v;
        let c = data[*p];
        *p = *p + 1;
        v = (v % 33554432) * 128 + (c % 128) as u32;
        assert(v == ((vb % 33554432) * 128 + c % 128) as u32);
        if c < 128 {
            assert(vlq(data@, pb, end as int, vb) == (v, *p as int));
            return v;
        }
        assert(vlq(data@, pb, end as int, vb) == vlq(data@, *p as int, end as int, v));
    }
    v
}

fn close_note(active: &mut Vec<(u8, u32)>, melody: &mut Vec<Note>, pitch: u8, end_tick: u32)
    ensures
        (final(active)@, final(melody)@) == closed(old(active)@, old(melody)@, pitch, end_tick),
{
    let mut i = active.len();
    assert(active@.take(i as int) =~= active@);
    while i > 0 && active[i - 1].0 != pitch
        invariant
            i <= active@.len(),
            last_pos(active@, pitch) == last_pos(active@.take(i as int), pitch),
        decreases i,
    {
        assert(active@.take(i as int).drop_last() =~= active@.take(i - 1));
        i = i - 1;
    }
    if i > 0 {
        assert(active@.take(i as int).last() == active@[i - 1]);
        let (_, start) = active.remove(i - 1);
        melody.push(
            Note { tick: start, pitch, vel: 64, dur: if end_tick > start { end_tick - start } else { 1 } },
        );
    }
}

fn tag_at(d: &[u8], i: usize, t: &[u8; 4]) -> (r: bool)
    requires
        i + 4 <= d@.len(),
    ensures
        r == (d@.subrange(i as int, i + 4) == t@),
{
    let r = d[i] == t[0] && d[i + 1] == t[1] && d[i + 2] == t[2] && d[i + 3] == t[3];
    proof {
        if r {
            assert(d@.subrange(i as int, i + 4) =~= t@);
        } else if d@.subrange(i as int, i + 4) == t@ {
            assert(d@.subrange(i as int, i + 4)[0] == d@[i as int]);
            assert(d@.subrange(i as int, i + 4)[1] == d@[i + 1]);
            assert(d@.subrange(i as int, i + 4)[2] == d@[i + 2]);
            assert(d@.subrange(i as int, i + 4)[3] == d@[i + 3]);
        }
    }
    r
}

/// A meta event whose type byte is at `p`; returns the index past it.
fn read_meta(data: &[u8], end: usize, p: usize, acc: &mut Reader) -> (q: Option<usize>)
    requires
        end <= data@.len() <= isize::MAX,
        p <= data@.len(),
    ensures
        match q {
            Some(q) => (q as int, acc_of(*final(acc))) == meta_event(
                data@,
                end as int,
                p as int,
                acc_of(*old(acc)),
            ),
            None => meta_event(data@, end as int, p as int, acc_of(*old(acc))).0 > usize::MAX,
        },
{
    let meta: u8 = if p < data.len() { data[p] } else { 0 };
    let mut q = p + 1;
    let l = read_vlq(data, &mut q, end) as usize;
    proof {
        lemma_vlq_le(data@, p + 1, end as int, 0);
    }
    let ghost acc0 = acc_of(*acc);
    if l > usize::MAX - q {
        return None;
    }
    if meta == 0x51 && l == 3 && q <= end && end - q >= 3 {
        let us: u32 = data[q] as u32 * 65536 + data[q + 1] as u32 * 256 + data[q + 2] as u32;
        if us > 0 {
            let bpm: u32 = 60_000_000 / us;
            acc.tempo = bpm as u16;
        }
    }
    if meta == 0x03 && acc.title.as_str().is_empty() && q <= end && end - q >= l {
        acc.title = latin1_trimmed(data, q, q + l);
    }
    Some(q + l)
}

proof fn lemma_vlq_le(d: Seq<u8>, p: int, end: int, v: u32)
    requires
        end <= d.len(),
    ensures
        vlq(d, p, end, v).1 <= if p > d.len() { p } else { d.len() as int },
    decreases end - p,
{
    if !(p < 0 || p >= end || p >= d.len()) {
        let c = d[p];
        let v2 = ((v % 33554432) * 128 + c % 128) as u32;
        if c >= 128 {
            lemma_vlq_le(d, p + 1, end, v2);
        }
    }
}

/// One event body at `p` (see [`event`]); `None` when reading fails.
fn read_event(
    data: &[u8],
    end: usize,
    p: usize,
    status: u8,
    t: u32,
    active: &mut Vec<(u8, u32)>,
    acc: &mut Reader,
) -> (r: Option<usize>)
    requires
        end <= data@.len() <= isize::MAX,
        p <= data@.len(),
    ensures
        match r {
            Some(q) => event(data@, end as int, p as int, status, t, old(active)@, acc_of(*old(acc)))
                == Some((q as int, final(active)@, acc_of(*final(acc)))),
            None => event(data@, end as int, p as int, status, t, old(active)@, acc_of(*old(acc))) is None,
        },
{
    let mut p = p;
    if status == 0xFF {
        match read_meta(data, end, p, acc) {
            Some(q) => Some(q),
            None => None,
        }
    } else if status >= 0xF0 {
        let l = read_vlq(data, &mut p, end) as usize;
        if l > usize::MAX - p {
            return None;
        }
        Some(p + l)
    } else if status / 16 == 9 {
        if p + 1 >= data.len() {
            return None;
        }
        let pitch = data[p];
        let vel = data[p + 1];
        if vel > 0 {
            active.push((pitch, t));
        } else {
            close_note(active, &mut acc.melody, pitch, t);
        }
        Some(p + 2)
    } else if status / 16 == 8 {
        if p >= data.len() {
            return None;
        }
        let pitch = data[p];
        close_note(active, &mut acc.melody, pitch, t);
        Some(p + 2)
    } else if status / 16 == 0xA || status / 16 == 0xB || status / 16 == 0xE {
        Some(p + 2)
    } else {
        Some(p + 1)
    }
}

/// Reads one track's events from `start` to `end` into `acc`; false when
/// reading fails (see [`run_track`]).
fn read_track(data: &[u8], end: usize, div: u32, start: usize, acc: &mut Reader) -> (ok: bool)
    requires
        end <= data@.len() <= isize::MAX,
        start <= end,
        div >= 1,
    ensures
        ok ==> run_track(data@, end as int, div, start as int, 0, 0, Seq::empty(), acc_of(*old(acc)))
            == Some(acc_of(*final(acc))),
        !ok ==> run_track(data@, end as int, div, start as int, 0, 0, Seq::empty(), acc_of(*old(acc))) is None,
{
    let ghost goal = run_track(data@, end as int, div, start as int, 0, 0, Seq::empty(), acc_of(*acc));
    let mut p = start;
    let mut tick: u32 = 0;
    let mut status: u8 = 0;
    let mut active: Vec<(u8, u32)> = Vec::new();
    while p < end
        invariant
            end <= data@.len() <= isize::MAX,
            div >= 1,
            goal == run_track(data@, end as int, div, start as int, 0, 0, Seq::empty(), acc_of(*old(acc))),
            run_track(data@, end as int, div, p as int, tick, status, active@, acc_of(*acc)) == goal,
        decreases end - p,
    {
        let ghost p0 = p as int;
        let ghost tick0 = tick;
        let ghost st0 = status;
        let ghost a0 = active@;
        let ghost acc0 = acc_of(*acc);
        let dv = read_vlq(data, &mut p, end);
        proof {
            lemma_vlq_advances(data@, p0, end as int, 0);
            lemma_vlq_le(data@, p0, end as int, 0);
        }
        if tick > u32::MAX - dv {
            return false;
        }
        tick = tick + dv;
        if p >= end {
            return true;
        }
        if data[p] >= 128 {
            status = data[p];
            p = p + 1;
        }
        if tick > u32::MAX / 120 {
            return false;
        }
        let t: u32 = tick * 120 / div;
        let ghost p2 = p as int;
        let ghost a1 = active@;
        let ghost acc1 = acc_of(*acc);
        match read_event(data, end, p, status, t, &mut active, acc) {
            None => {
                return false;
            },
            Some(q) => {
                proof {
                    lemma_event_advances(data@, end as int, p2, status, t, a1, acc1);
                }
                p = q;
            },
        }
        if p >= end {
            return true;
        }
    }
    true
}

/// Reads the track chunks after the header into `acc`; false when reading
/// fails.
fn read_tracks(data: &[u8], acc: &mut Reader) -> (ok: bool)
    requires
        14 <= data@.len() <= isize::MAX,
        acc_of(*old(acc)) == init_acc(),
    ensures
        ok ==> run_tracks(data@, midi_div(data@), be16(data@, 10), 14, init_acc()) == Some(
            acc_of(*final(acc)),
        ),
        !ok ==> run_tracks(data@, midi_div(data@), be16(data@, 10), 14, init_acc()) is None,
{
    let mtrk_tag: [u8; 4] = [0x4d, 0x54, 0x72, 0x6b];
    assert(mtrk_tag@ =~= mtrk());
    let ntrk = be16_at(data, 10);
    let div0 = be16_at(data, 12) % 32768;
    let division: u32 = if div0 < 1 { 1 } else { div0 as u32 };
    let ghost goal = run_tracks(data@, division, ntrk as int, 14, init_acc());
    let mut idx: usize = 14;
    let mut k: u16 = 0;
    while k < ntrk && idx <= data.len() && data.len() - idx >= 8 && tag_at(data, idx, &mtrk_tag)
        invariant
            data@.len() <= isize::MAX,
            division >= 1,
            division == midi_div(data@),
            ntrk == be16(data@, 10),
            goal == run_tracks(data@, midi_div(data@), be16(data@, 10), 14, init_acc()),
            k <= ntrk,
            idx <= data@.len(),
            mtrk_tag@ == mtrk(),
            run_tracks(data@, division, ntrk - k, idx as int, acc_of(*acc)) == goal,
        decreases ntrk - k,
    {
        let len = be32_at(data, idx + 4) as usize;
        if len > usize::MAX - idx - 8 {
            return false;
        }
        let end: usize = if len < data.len() - idx - 8 { idx + 8 + len } else { data.len() };
        if !read_track(data, end, division, idx + 8, acc) {
            return false;
        }
        idx = end;
        k = k + 1;
    }
    true
}

fn melody_span(melody: &Vec<Note>) -> (r: Option<u16>)
    ensures
        r == span_bars(melody@),
{
    let mut bars: u16 = 0;
    let mut i: usize = 0;
    while i < melody.len()
        invariant
            i <= melody@.len(),
            span_bars(melody@.take(i as int)) == Some(bars),
        decreases melody@.len() - i,
    {
        let n = melody[i];
        assert(melody@.take(i + 1).drop_last() =~= melody@.take(i as int));
        assert(melody@.take(i + 1).last() == n);
        if n.tick > u32::MAX - n.dur {
            proof { lemma_span_bars_none(melody@, i as int + 1); }
            return None;
        }
        let e = (n.tick + n.dur) / 480;
        if e as u16 == 65535 {
            proof { lemma_span_bars_none(melody@, i as int + 1); }
            return None;
        }
        let b = e as u16 + 1;
        if b > bars {
            bars = b;
        }
        i = i + 1;
    }
    assert(melody@.take(melody@.len() as int) =~= melody@);
    Some(bars)
}

/// Parse a Standard MIDI File. A malformed file (a running tick past
/// `u32::MAX`, a note event cut off by the end of the file, or a melody
/// whose bar count does not fit) is a `Format` error.
pub fn parse(data: &[u8]) -> (r: Result<Song, ParseError>)
    requires
        data@.len() <= isize::MAX,
    ensures
        match r {
            Ok(s) => midi_of(data@) == Ok::<SongView, ParseError>(s@),
            Err(e) => midi_of(data@) == Err::<SongView, ParseError>(e),
        },
{
    let mthd_tag: [u8; 4] = [0x4d, 0x54, 0x68, 0x64];
    assert(mthd_tag@ =~= mthd());
    if data.len() < 14 || !tag_at(data, 0, &mthd_tag) {
        return Err(ParseError::Format("not a MIDI file"));
    }
    let mut acc = Reader { title: String::new(), tempo: 120, melody: Vec::new() };
    assert(acc_of(acc) == init_acc());
    if !read_tracks(data, &mut acc) {
        return Err(ParseError::Format("malformed MIDI file"));
    }
    let ghost fin = acc_of(acc);
    let melody = sort_by_tick(acc.melody);
    let bars = match melody_span(&melody) {
        None => {
            return Err(ParseError::Format("malformed MIDI file"));
        },
        Some(b) => b,
    };
    let song = Song {
        title: acc.title,
        style: String::new(),
        tempo_bpm: acc.tempo,
        key_pc: 0,
        key_minor: false,
        melody,
        chords: Vec::new(),
        part_markers: Vec::new(),
        bars,
        form_bars: bars,
        chorus_begin: 1,
        chorus_end: bars,
        choruses: 1,
        chords_decoded: false,
    };
    assert(song@.chords =~= Seq::<crate::model::ChordView>::empty());
    assert(song@ == midi_song(fin, bars));
    Ok(song)
}

/// Once a prefix of the melody has no bar count, neither has the melody.
proof fn lemma_span_bars_none(m: Seq<Note>, i: int)
    requires
        0 <= i <= m.len(),
        span_bars(m.take(i)) is None,
    ensures
        span_bars(m) is None,
    decreases m.len() - i,
{
    if i < m.len() {
        assert(m.take(i + 1).drop_last() =~= m.take(i));
        lemma_span_bars_none(m, i + 1);
    } else {
        assert(m.take(i) =~= m);
    }
}

/// The melody that reading a MIDI file gives is in tick order and holds
/// exactly the notes that the tracks closed.
pub proof fn lemma_midi_melody_sorted(d: Seq<u8>)
    ensures
        midi_of(d) matches Ok(s) ==> crate::sort::sorted_by_tick(s.melody) && (run_tracks(
            d,
            midi_div(d),
            be16(d, 10),
            14,
            init_acc(),
        ) matches Some(acc) && s.melody.to_multiset() == acc.melody.to_multiset()),
{
    if let Ok(s) = midi_of(d) {
        let acc = run_tracks(d, midi_div(d), be16(d, 10), 14, init_acc())->Some_0;
        crate::sort::lemma_tick_sort_sorted(acc.melody);
        crate::sort::lemma_tick_sort_permutes(acc.melody);
    }
}

} // verus!
