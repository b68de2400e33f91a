//! Encoding a chart and reading it back gives the same chart.

use vstd::prelude::*;
use crate::formats::biab::{
    bar_types, bars_rle, bass_index, beats_per_bar, chord_at_beat, chord_text, chorus_at, chorus_bytes,
    decode_of, encode_of, encoding_body, gap_bytes, header_bytes, key_byte_of, key_of, marker_bytes, max_bar,
    melody_bytes, nonzero, pack, padding, paired, parse_of, playable, rle, rle_bytes, root_index, root_pairs,
    root_to_pc, sane_chorus, skip_bytes, song_of, suffix, title_of, trimmed, type_pairs, byte_or,
    bars_upto, is_rec, le32, le_bytes, melody_of, note_bytes, rec_note, scan_notes,
};
use crate::model::{pc_name, ChordView, Note, SongView};
use crate::sort::{ins_pos, tick_sort, TickKeyed};

verus! {

/// `d` holds `x` from index `i`.
pub open spec fn has_at(d: Seq<u8>, i: int, x: Seq<u8>) -> bool {
    0 <= i && i + x.len() <= d.len() && d.subrange(i, i + x.len()) == x
}

proof fn lemma_has_at_split(d: Seq<u8>, i: int, x: Seq<u8>, y: Seq<u8>)
    requires
        has_at(d, i, x + y),
    ensures
        has_at(d, i, x),
        has_at(d, i + x.len(), y),
{
    let w = d.subrange(i, i + (x + y).len());
    assert(w == x + y);
    assert forall|k: int| 0 <= k < x.len() implies #[trigger] d.subrange(i, i + x.len())[k] == x[k] by {
        assert(w[k] == d[i + k]);
        assert((x + y)[k] == x[k]);
    }
    assert(d.subrange(i, i + x.len()) =~= x);
    assert forall|k: int| 0 <= k < y.len() implies #[trigger] d.subrange(i + x.len(), i + x.len() + y.len())[k] == y[k] by {
        assert(w[x.len() + k] == d[i + x.len() + k]);
        assert((x + y)[x.len() + k] == y[k]);
    }
    assert(d.subrange(i + x.len(), i + x.len() + y.len()) =~= y);
}

proof fn lemma_has_at_index(d: Seq<u8>, i: int, x: Seq<u8>, k: int)
    requires
        has_at(d, i, x),
        0 <= k < x.len(),
    ensures
        d[i + k] == x[k],
{
    assert(d.subrange(i, i + x.len())[k] == d[i + k]);
}

proof fn lemma_skip_len(n: int)
    ensures
        skip_bytes(n).len() >= 0,
        n > 0 ==> skip_bytes(n).len() >= 2,
    decreases n,
{
    if n > 0 {
        let c = if n < 255 { n } else { 255 };
        lemma_skip_len(n - c);
    }
}

/// Reading over a skip of `n` beats moves the beat on by `n`.
proof fn lemma_rle_skip(d: Seq<u8>, i: int, b: int, n: int)
    requires
        has_at(d, i, skip_bytes(n)),
        0 <= b,
        0 <= n,
        b + n <= 1020,
    ensures
        rle(d, i, b) == rle(d, i + skip_bytes(n).len(), b + n),
    decreases n,
{
    if n > 0 {
        let c = if n < 255 { n } else { 255 };
        assert(skip_bytes(n) == seq![0u8, c as u8] + skip_bytes(n - c));
        lemma_has_at_split(d, i, seq![0u8, c as u8], skip_bytes(n - c));
        lemma_has_at_index(d, i, seq![0u8, c as u8], 0);
        lemma_has_at_index(d, i, seq![0u8, c as u8], 1);
        lemma_skip_len(n - c);
        lemma_rle_skip(d, i + 2, b + c, n - c);
    } else {
        assert(skip_bytes(n).len() == 0);
    }
}

/// Reading over a skip of `n` bars moves the bar on by `n`.
proof fn lemma_bars_skip(d: Seq<u8>, i: int, b: int, n: int)
    requires
        has_at(d, i, skip_bytes(n)),
        0 <= b,
        0 <= n,
        b + n <= 255,
    ensures
        bars_rle(d, i, b) == bars_rle(d, i + skip_bytes(n).len(), b + n),
    decreases n,
{
    if n > 0 {
        let c = if n < 255 { n } else { 255 };
        assert(skip_bytes(n) == seq![0u8, c as u8] + skip_bytes(n - c));
        lemma_has_at_split(d, i, seq![0u8, c as u8], skip_bytes(n - c));
        lemma_has_at_index(d, i, seq![0u8, c as u8], 0);
        lemma_has_at_index(d, i, seq![0u8, c as u8], 1);
        lemma_skip_len(n - c);
        lemma_bars_skip(d, i + 2, b + c, n - c);
    } else {
        assert(skip_bytes(n).len() == 0);
    }
}

/// Stream pairs that [`rle_bytes`] writes and [`rle`] reads back unchanged:
/// beats from `cur`, strictly increasing, below 1020, values non-zero.
pub open spec fn stream_ok(ps: Seq<(u32, u8)>, cur: int) -> bool {
    &&& 0 <= cur <= 1020
    &&& forall|k: int| 0 <= k < ps.len() ==> cur <= #[trigger] ps[k].0 < 1020 && ps[k].1 >= 1
    &&& forall|k: int, l: int| 0 <= k < l < ps.len() ==> #[trigger] ps[k].0 < #[trigger] ps[l].0
}

/// The run-length stream round-trips: wherever the bytes that the writer
/// gives for strictly increasing beats below 1020 with non-zero values
/// stand in a file, the reader gives back exactly those pairs and stops
/// right after them (what follows is not read).
pub proof fn lemma_rle_roundtrip(d: Seq<u8>, i: int, ps: Seq<(u32, u8)>, cur: int)
    requires
        has_at(d, i, rle_bytes(ps, cur, 1020)),
        stream_ok(ps, cur),
    ensures
        rle(d, i, cur) == (ps, i + rle_bytes(ps, cur, 1020).len()),
    decreases ps.len(),
{
    if ps.len() == 0 {
        if 1020 > cur {
            lemma_rle_skip(d, i, cur, 1020 - cur);
        }
        assert(ps =~= Seq::<(u32, u8)>::empty());
    } else {
        let b0 = ps[0].0 as int;
        let g = gap_bytes(b0, cur);
        let rest = rle_bytes(ps.drop_first(), b0 + 1, 1020);
        assert(rle_bytes(ps, cur, 1020) == g + seq![nonzero(ps[0].1)] + rest);
        lemma_has_at_split(d, i, g + seq![nonzero(ps[0].1)], rest);
        lemma_has_at_split(d, i, g, seq![nonzero(ps[0].1)]);
        if b0 > cur {
            lemma_rle_skip(d, i, cur, b0 - cur);
        }
        lemma_has_at_index(d, i + g.len(), seq![nonzero(ps[0].1)], 0);
        assert forall|k: int| 0 <= k < ps.drop_first().len() implies b0 + 1 <= #[trigger] ps.drop_first()[k].0 < 1020 && ps.drop_first()[k].1 >= 1 by {
            assert(ps.drop_first()[k] == ps[k + 1]);
        }
        assert forall|k: int, l: int| 0 <= k < l < ps.drop_first().len() implies #[trigger] ps.drop_first()[k].0 < #[trigger] ps.drop_first()[l].0 by {
            assert(ps.drop_first()[k] == ps[k + 1]);
            assert(ps.drop_first()[l] == ps[l + 1]);
        }
        lemma_rle_roundtrip(d, i + g.len() + 1, ps.drop_first(), b0 + 1);
        assert(seq![(b0 as u32, d[i + g.len()])] + ps.drop_first() =~= ps);
    }
}

/// Markers that [`marker_bytes`] writes and [`bars_rle`] reads back
/// unchanged: bars from `cur`, strictly increasing, at most 253, parts
/// non-zero.
pub open spec fn markers_ok(ms: Seq<(u16, u8)>, cur: int) -> bool {
    &&& 1 <= cur <= 254
    &&& forall|k: int| 0 <= k < ms.len() ==> cur <= #[trigger] ms[k].0 <= 253 && ms[k].1 >= 1
    &&& forall|k: int, l: int| 0 <= k < l < ms.len() ==> #[trigger] ms[k].0 < #[trigger] ms[l].0
}

/// The bar-type stream round-trips: wherever the bytes written for
/// markers on strictly increasing bars (from `cur`, at most 253, non-zero
/// parts) stand in a file, the reader gives back exactly those markers and
/// stops right after them.
pub proof fn lemma_markers_roundtrip(d: Seq<u8>, i: int, ms: Seq<(u16, u8)>, cur: int)
    requires
        has_at(d, i, marker_bytes(ms, cur)),
        markers_ok(ms, cur),
    ensures
        bars_rle(d, i, cur) == (ms, i + marker_bytes(ms, cur).len()),
    decreases ms.len(),
{
    if ms.len() == 0 {
        lemma_bars_skip(d, i, cur, 255 - cur);
        assert(ms =~= Seq::<(u16, u8)>::empty());
    } else {
        let b0 = ms[0].0 as int;
        let g = gap_bytes(b0, cur);
        let rest = marker_bytes(ms.drop_first(), b0 + 1);
        assert(marker_bytes(ms, cur) == g + seq![nonzero(ms[0].1)] + rest);
        lemma_has_at_split(d, i, g + seq![nonzero(ms[0].1)], rest);
        lemma_has_at_split(d, i, g, seq![nonzero(ms[0].1)]);
        if b0 > cur {
            lemma_bars_skip(d, i, cur, b0 - cur);
        }
        lemma_has_at_index(d, i + g.len(), seq![nonzero(ms[0].1)], 0);
        assert forall|k: int| 0 <= k < ms.drop_first().len() implies b0 + 1 <= #[trigger] ms.drop_first()[k].0 <= 253 && ms.drop_first()[k].1 >= 1 by {
            assert(ms.drop_first()[k] == ms[k + 1]);
        }
        assert forall|k: int, l: int| 0 <= k < l < ms.drop_first().len() implies #[trigger] ms.drop_first()[k].0 < #[trigger] ms.drop_first()[l].0 by {
            assert(ms.drop_first()[k] == ms[k + 1]);
            assert(ms.drop_first()[l] == ms[l + 1]);
        }
        lemma_markers_roundtrip(d, i + g.len() + 1, ms.drop_first(), b0 + 1);
        assert(seq![(b0 as u16, d[i + g.len()])] + ms.drop_first() =~= ms);
    }
}

/// A stable sort by tick leaves an already sorted sequence as it is.
pub proof fn lemma_tick_sort_sorted_id<T: TickKeyed>(s: Seq<T>)
    requires
        forall|i: int, j: int| 0 <= i <= j < s.len() ==> s[i].key() <= s[j].key(),
    ensures
        tick_sort(s) == s,
    decreases s.len(),
{
    if s.len() > 0 {
        let d = s.drop_last();
        lemma_tick_sort_sorted_id(d);
        lemma_ins_pos_all(d, s.last().key());
        assert(d.insert(d.len() as int, s.last()) =~= s);
    }
}

proof fn lemma_ins_pos_all<T: TickKeyed>(s: Seq<T>, k: u32)
    requires
        forall|i: int| 0 <= i < s.len() ==> s[i].key() <= k,
    ensures
        ins_pos(s, k) == s.len(),
{
}


/// Display text of a chord from its root pitch class, type index and slash
/// bass (none above 11).
pub open spec fn display_text(root: u8, ext: u8, bass: u8) -> Seq<char> {
    pc_name(root as int) + suffix(ext) + if bass <= 11 {
        seq!['/'] + pc_name(bass as int)
    } else {
        Seq::empty()
    }
}

proof fn lemma_bars_upto_from(s: Seq<ChordView>, end: u16, p: spec_fn(ChordView) -> bool)
    requires
        forall|i: int| 0 <= i < s.len() ==> p(#[trigger] s[i]),
    ensures
        forall|i: int| 0 <= i < bars_upto(s, end).len() ==> p(#[trigger] bars_upto(s, end)[i]),
    decreases s.len(),
{
    if s.len() > 0 {
        let d = s.drop_last();
        assert forall|i: int| 0 <= i < d.len() implies p(#[trigger] d[i]) by {
            assert(d[i] == s[i]);
        }
        lemma_bars_upto_from(d, end, p);
        let u = bars_upto(d, end);
        if s.last().bar <= end {
            assert(p(s[s.len() - 1]));
            assert forall|i: int| 0 <= i < u.push(s.last()).len() implies p(#[trigger] u.push(s.last())[i]) by {
                if i < u.len() {
                    assert(u.push(s.last())[i] == u[i]);
                }
            }
        }
    }
}

/// What every song that parsing gives satisfies: a non-zero tempo, a key
/// pitch class below 12, and chords that read as their root, type and slash
/// bass (a pitch class, or 255 for none).
pub open spec fn parsed_song(t: SongView) -> bool {
    &&& t.tempo_bpm != 0
    &&& t.key_pc < 12
    &&& forall|i: int|
        0 <= i < t.chords.len() ==> {
            let c = #[trigger] t.chords[i];
            &&& c.text == display_text(c.root, c.ext, c.bass)
            &&& (c.bass <= 11 || c.bass == 255)
        }
}

/// Chord names follow the Band-in-a-Box symbols: every chord of a parsed
/// chart reads as its root name, the symbol of its type index (16 "m",
/// 19 "m7", 23 "m6", 64 "7", ...; 1, 2 and any unknown index a plain triad)
/// and, with a slash bass, "/" and the bass name.
pub proof fn lemma_chord_symbols(d: Seq<u8>, i: int)
    requires
        parse_of(d) is Ok,
        0 <= i < parse_of(d)->Ok_0.chords.len(),
    ensures
        ({
            let c = parse_of(d)->Ok_0.chords[i];
            let head = pc_name(c.root as int);
            let tail = if c.bass <= 11 {
                seq!['/'] + pc_name(c.bass as int)
            } else {
                Seq::<char>::empty()
            };
            &&& c.ext == 3 ==> c.text == head + seq!['(', 'b', '5', ')'] + tail
            &&& c.ext == 4 ==> c.text == head + seq!['+'] + tail
            &&& c.ext == 5 ==> c.text == head + seq!['6'] + tail
            &&& c.ext == 6 ==> c.text == head + seq!['M', 'a', 'j', '7'] + tail
            &&& c.ext == 7 ==> c.text == head + seq!['M', 'a', 'j', '9'] + tail
            &&& c.ext == 8 ==> c.text == head + seq!['M', 'a', 'j', '9', '#', '1', '1'] + tail
            &&& c.ext == 14 ==> c.text == head + seq!['6', '/', '9'] + tail
            &&& c.ext == 15 ==> c.text == head + seq!['s', 'u', 's', '2'] + tail
            &&& c.ext == 16 ==> c.text == head + seq!['m'] + tail
            &&& c.ext == 17 ==> c.text == head + seq!['m', '#', '5'] + tail
            &&& c.ext == 18 ==> c.text == head + seq!['m', 'M', 'a', 'j', '7'] + tail
            &&& c.ext == 19 ==> c.text == head + seq!['m', '7'] + tail
            &&& c.ext == 20 ==> c.text == head + seq!['m', '9'] + tail
            &&& c.ext == 21 ==> c.text == head + seq!['m', '1', '1'] + tail
            &&& c.ext == 22 ==> c.text == head + seq!['m', '1', '3'] + tail
            &&& c.ext == 23 ==> c.text == head + seq!['m', '6'] + tail
            &&& c.ext == 32 ==> c.text == head + seq!['d', 'i', 'm', '7'] + tail
            &&& c.ext == 33 ==> c.text == head + seq!['d', 'i', 'm'] + tail
            &&& c.ext == 40 ==> c.text == head + seq!['5'] + tail
            &&& c.ext == 56 ==> c.text == head + seq!['7', '#', '5'] + tail
            &&& c.ext == 64 ==> c.text == head + seq!['7'] + tail
            &&& c.ext == 65 ==> c.text == head + seq!['1', '3'] + tail
            &&& c.ext == 66 ==> c.text == head + seq!['7', 'b', '1', '3'] + tail
            &&& c.ext == 67 ==> c.text == head + seq!['7', '#', '1', '1'] + tail
            &&& c.ext == 70 ==> c.text == head + seq!['9'] + tail
            &&& c.ext == 73 ==> c.text == head + seq!['9', '#', '1', '1'] + tail
            &&& c.ext == 76 ==> c.text == head + seq!['7', 'b', '9'] + tail
            &&& c.ext == 82 ==> c.text == head + seq!['7', '#', '9'] + tail
            &&& c.ext == 88 ==> c.text == head + seq!['7', 'b', '5'] + tail
            &&& c.ext == 128 ==> c.text == head + seq!['7', 's', 'u', 's'] + tail
            &&& c.ext == 134 ==> c.text == head + seq!['9', 's', 'u', 's'] + tail
            &&& c.ext == 177 ==> c.text == head + seq!['s', 'u', 's', '4'] + tail
            &&& c.ext == 184 ==> c.text == head + seq!['s', 'u', 's', '4'] + tail
            &&& (c.ext != 3 && c.ext != 4 && c.ext != 5 && c.ext != 6 && c.ext != 7 && c.ext != 8 && c.ext != 14 && c.ext != 15 && c.ext != 16 && c.ext != 17 && c.ext != 18 && c.ext != 19 && c.ext != 20 && c.ext != 21 && c.ext != 22 && c.ext != 23 && c.ext != 32 && c.ext != 33 && c.ext != 40 && c.ext != 56 && c.ext != 64 && c.ext != 65 && c.ext != 66 && c.ext != 67 && c.ext != 70 && c.ext != 73 && c.ext != 76 && c.ext != 82 && c.ext != 88 && c.ext != 128 && c.ext != 134 && c.ext != 177 && c.ext != 184) ==> c.text == head + tail
        }),
{
    lemma_parsed_song(d);
    let c = parse_of(d)->Ok_0.chords[i];
    assert(parsed_song(parse_of(d)->Ok_0));
    assert(c.text == display_text(c.root, c.ext, c.bass));
}

/// Note names: C C# D D# E F F# G G# A A# B for pitch classes 0 to 11.
pub proof fn lemma_note_names()
    ensures
        pc_name(0) == seq!['C'] && pc_name(1) == seq!['C', '#'] && pc_name(2) == seq!['D'],
        pc_name(3) == seq!['D', '#'] && pc_name(4) == seq!['E'] && pc_name(5) == seq!['F'],
        pc_name(6) == seq!['F', '#'] && pc_name(7) == seq!['G'] && pc_name(8) == seq!['G', '#'],
        pc_name(9) == seq!['A'] && pc_name(10) == seq!['A', '#'] && pc_name(11) == seq!['B'],
{
}

/// Every song that parsing a Band-in-a-Box file gives is a [`parsed_song`].
pub proof fn lemma_parsed_song(d: Seq<u8>)
    ensures
        parse_of(d) matches Ok(t) ==> parsed_song(t),
{
    if let Ok(t) = parse_of(d) {
        let p = 2 + d[1] + 2;
        let style_byte = byte_or(d, p, 1);
        let style_idx: u8 = if style_byte >= 1 { (style_byte - 1) as u8 } else { 0 };
        let dec = decode_of(d, p + 4, beats_per_bar(style_idx));
        let f = |c: ChordView| c.text == display_text(c.root, c.ext, c.bass) && (c.bass <= 11 || c.bass == 255);
        assert forall|i: int| 0 <= i < dec.0.len() implies f(#[trigger] dec.0[i]) by {}
        match dec.1 {
            Some(ch) => {
                lemma_bars_upto_from(dec.0, ch.1, f);
            },
            None => {},
        }
        assert(t.chords == trimmed(dec.0, dec.1));
        assert forall|i: int| 0 <= i < t.chords.len() implies f(#[trigger] t.chords[i]) by {}
    }
}

/// Bar of a chord in 4/4.
pub open spec fn bar4(c: ChordView) -> int {
    c.tick / 480 + 1
}

/// Largest 4/4 bar among the chords (0 without chords).
pub open spec fn max_bar4(s: Seq<ChordView>) -> int
    decreases s.len(),
{
    if s.len() == 0 {
        0
    } else {
        let m = max_bar4(s.drop_last());
        if bar4(s.last()) > m {
            bar4(s.last())
        } else {
            m
        }
    }
}

/// A chord that the encoder writes and the decoder reads back: a known
/// root, starting within the first 1020 beats, with a slash bass (if any)
/// that differs from the root and packs into one byte.
pub open spec fn chord_ok(c: ChordView) -> bool {
    &&& c.root <= 11
    &&& c.tick / 120 < 1020
    &&& c.bass <= 11 ==> c.bass != c.root && c.root + 1 + 18 * ((c.bass - c.root) % 18) <= 255
}

proof fn lemma_sort_distinct_bars(ms: Seq<(u16, u8)>)
    requires
        forall|i: int, j: int| 0 <= i < j < ms.len() ==> #[trigger] ms[i].0 != #[trigger] ms[j].0,
    ensures
        tick_sort(ms).len() == ms.len(),
        forall|i: int| 0 <= i < tick_sort(ms).len() ==> ms.contains(#[trigger] tick_sort(ms)[i]),
        forall|i: int, j: int|
            0 <= i < j < tick_sort(ms).len() ==> #[trigger] tick_sort(ms)[i].0 != #[trigger] tick_sort(ms)[j].0,
    decreases ms.len(),
{
    if ms.len() > 0 {
        let d = ms.drop_last();
        let x = ms.last();
        assert forall|i: int, j: int| 0 <= i < j < d.len() implies #[trigger] d[i].0 != #[trigger] d[j].0 by {
            assert(d[i] == ms[i] && d[j] == ms[j]);
        }
        lemma_sort_distinct_bars(d);
        let t = tick_sort(d);
        crate::sort::lemma_tick_sort_sorted(d);
        let p = ins_pos(t, x.key());
        assert(0 <= p <= t.len()) by {
            lemma_ins_pos_le(t, x.key());
        }
        let u = t.insert(p, x);
        assert forall|i: int| 0 <= i < t.len() implies #[trigger] t[i].0 != x.0 by {
            let j = choose|j: int| 0 <= j < d.len() && d[j] == t[i];
            assert(d[j] == ms[j]);
            assert(ms[j].0 != ms[ms.len() - 1].0);
        }
        assert forall|i: int| 0 <= i < u.len() implies ms.contains(#[trigger] u[i]) by {
            if i == p {
                assert(ms[ms.len() - 1] == x);
            } else {
                let k = if i < p { i } else { i - 1 };
                assert(u[i] == t[k]);
                let j = choose|j: int| 0 <= j < d.len() && d[j] == t[k];
                assert(ms[j] == d[j]);
            }
        }
        assert forall|i: int, j: int| 0 <= i < j < u.len() implies #[trigger] u[i].0 != #[trigger] u[j].0 by {
            let ki = if i < p { i } else { i - 1 };
            let kj = if j < p { j } else { j - 1 };
            if i == p {
                assert(u[j] == t[kj]);
            } else if j == p {
                assert(u[i] == t[ki]);
            } else {
                assert(u[i] == t[ki] && u[j] == t[kj]);
            }
        }
    }
}

proof fn lemma_ins_pos_le<T: TickKeyed>(s: Seq<T>, k: u32)
    ensures
        0 <= ins_pos(s, k) <= s.len(),
    decreases s.len(),
{
    if s.len() > 0 && s.last().key() > k {
        lemma_ins_pos_le(s.drop_last(), k);
    }
}

/// Part markers on distinct bars 1..=253 with non-zero parts, in any order.
pub open spec fn markers_fit(ms: Seq<(u16, u8)>) -> bool {
    &&& forall|i: int| 0 <= i < ms.len() ==> 1 <= (#[trigger] ms[i]).0 <= 253 && ms[i].1 >= 1
    &&& forall|i: int, j: int| 0 <= i < j < ms.len() ==> #[trigger] ms[i].0 != #[trigger] ms[j].0
}

/// Markers that fit, sorted by bar, are what the bar-type stream writes and
/// reads back unchanged.
pub proof fn lemma_markers_sortable(ms: Seq<(u16, u8)>)
    requires
        markers_fit(ms),
    ensures
        markers_ok(tick_sort(ms), 1),
{
    lemma_sort_distinct_bars(ms);
    crate::sort::lemma_tick_sort_sorted(ms);
    let t = tick_sort(ms);
    assert forall|k: int| 0 <= k < t.len() implies 1 <= #[trigger] t[k].0 <= 253 && t[k].1 >= 1 by {
        assert(ms.contains(t[k]));
        let j = choose|j: int| 0 <= j < ms.len() && ms[j] == t[k];
        assert(1 <= ms[j].0 <= 253);
    }
    assert forall|k: int, l: int| 0 <= k < l < t.len() implies #[trigger] t[k].0 < #[trigger] t[l].0 by {
        assert(t[k].key() <= t[l].key());
    }
}

/// A song that the encoder writes and the decoder reads back: chords as
/// [`chord_ok`] on strictly increasing beats at most 32 apart; a plausible
/// chorus record with no chart ending 1 to 4 bars past it; part markers on
/// distinct bars 1..=253 with non-zero parts, in any order.
pub open spec fn encodable(s: SongView) -> bool {
    let cs = s.chords;
    &&& forall|i: int| 0 <= i < cs.len() ==> chord_ok(#[trigger] cs[i])
    &&& forall|i: int, j: int|
        0 <= i < j < cs.len() ==> #[trigger] cs[i].tick / 120 < #[trigger] cs[j].tick / 120
    &&& forall|i: int| 0 < i < cs.len() ==> #[trigger] cs[i].tick / 120 <= cs[i - 1].tick / 120 + 32
    &&& 1 <= s.chorus_begin && s.chorus_begin < s.chorus_end && s.chorus_end <= 250
    &&& 1 <= s.choruses <= 16
    &&& !(cs.len() > 0 && max_bar4(cs) > s.chorus_end && max_bar4(cs) - s.chorus_end <= 4)
    &&& markers_fit(s.part_markers)
}

/// What reading back the encoding of `s` keeps: tempo (0 reads as 120),
/// key, part markers (sorted by bar), chorus, and each chord's root, slash
/// bass and beat (its tick rounded down to a beat), its type (0 reads as 1)
/// and its usual text.
pub open spec fn round_trips(s: SongView, t: SongView) -> bool {
    &&& t.tempo_bpm == (if s.tempo_bpm == 0 { 120 } else { s.tempo_bpm })
    &&& t.key_pc == s.key_pc % 12
    &&& t.key_minor == s.key_minor
    &&& t.part_markers == tick_sort(s.part_markers)
    &&& t.chorus_begin == s.chorus_begin
    &&& t.chorus_end == s.chorus_end
    &&& t.choruses == s.choruses
    &&& t.chords.len() == s.chords.len()
    &&& forall|i: int|
        0 <= i < t.chords.len() ==> {
            let a = s.chords[i];
            let b = #[trigger] t.chords[i];
            &&& b.tick == a.tick / 120 * 120
            &&& b.root == a.root
            &&& b.ext == nonzero(a.ext)
            &&& b.bass == (if a.bass <= 11 { a.bass } else { 255 })
            &&& b.text == display_text(a.root, a.ext, b.bass)
        }
}

proof fn lemma_playable_all(s: Seq<ChordView>)
    requires
        forall|i: int| 0 <= i < s.len() ==> (#[trigger] s[i]).root <= 11,
    ensures
        playable(s) == s,
    decreases s.len(),
{
    if s.len() > 0 {
        assert forall|i: int| 0 <= i < s.drop_last().len() implies (#[trigger] s.drop_last()[i]).root <= 11 by {
            assert(s.drop_last()[i] == s[i]);
        }
        lemma_playable_all(s.drop_last());
        assert(s.drop_last().push(s.last()) =~= s);
    }
}

proof fn lemma_pack(r: u8, b: u8)
    requires
        r <= 11,
        b <= 11 ==> b != r && r + 1 + 18 * ((b - r) % 18) <= 255,
    ensures
        root_index(pack(r, b)) == r + 1,
        bass_index(pack(r, b)) == (if b <= 11 { b + 1 } else { 0 }),
        pack(r, b) >= 1,
{
    let ri = r % 12 + 1;
    assert(ri == r + 1);
    if b > 11 {
        assert(pack(r, b) == ri);
    } else {
        let off = (b % 12 + 1 - ri) % 18;
        assert(b % 12 == b);
        assert(off == (b - r) % 18);
        let v = ri + 18 * off;
        assert(v <= 255);
        assert(pack(r, b) == v);
        assert(0 <= off < 18);
        assert(v % 18 == ri) by {
            vstd::arithmetic::div_mod::lemma_mod_multiples_vanish(off, ri, 18);
        }
        assert(v / 18 == off) by {
            vstd::arithmetic::div_mod::lemma_div_multiples_vanish_fancy(off, ri, 18);
        }
        if b >= r {
            assert(off == b - r);
        } else {
            assert(off == b - r + 18);
        }
    }
}

proof fn lemma_paired_all(ts: Seq<(u32, u8)>, rs: Seq<(u32, u8)>, i: int)
    requires
        0 <= i <= rs.len(),
        ts.len() == rs.len(),
        forall|k: int| 0 <= k < rs.len() ==> #[trigger] ts[k].0 == rs[k].0,
        forall|k: int| 0 < k < rs.len() ==> #[trigger] rs[k].0 <= rs[k - 1].0 + 32,
    ensures
        paired(ts, rs, i) == rs.len(),
    decreases rs.len() - i,
{
    if i < rs.len() {
        lemma_paired_all(ts, rs, i + 1);
    }
}

proof fn lemma_max_bar_same(a: Seq<ChordView>, b: Seq<ChordView>)
    requires
        a.len() == b.len(),
        forall|i: int| 0 <= i < a.len() ==> (#[trigger] a[i]).bar as int == bar4(b[i]),
    ensures
        max_bar(a) == max_bar4(b),
    decreases a.len(),
{
    if a.len() > 0 {
        assert forall|i: int| 0 <= i < a.drop_last().len() implies (#[trigger] a.drop_last()[i]).bar as int == bar4(b.drop_last()[i]) by {
            assert(a.drop_last()[i] == a[i]);
            assert(b.drop_last()[i] == b[i]);
        }
        lemma_max_bar_same(a.drop_last(), b.drop_last());
    }
}


/// Where the parts of an encoding start: header, bar-type stream, type
/// stream, root stream, chorus record.
pub open spec fn layout(s: SongView) -> (int, int, int, int) {
    let ph = header_bytes(s).len() as int;
    let pt = ph + 1 + marker_bytes(tick_sort(s.part_markers), 1).len();
    let pr = pt + rle_bytes(type_pairs(playable(s.chords)), 0, 1020).len();
    let pc = pr + rle_bytes(root_pairs(playable(s.chords)), 0, 1020).len();
    (ph, pt, pr, pc)
}

proof fn lemma_layout(s: SongView)
    ensures
        ({
            let d = encode_of(s);
            let l = layout(s);
            &&& has_at(d, 0, header_bytes(s))
            &&& has_at(d, l.0, seq![1u8])
            &&& has_at(d, l.0 + 1, marker_bytes(tick_sort(s.part_markers), 1))
            &&& has_at(d, l.1, rle_bytes(type_pairs(playable(s.chords)), 0, 1020))
            &&& has_at(d, l.2, rle_bytes(root_pairs(playable(s.chords)), 0, 1020))
            &&& has_at(d, l.3, chorus_bytes(s))
        }),
{
    let d = encode_of(s);
    let cs = playable(s.chords);
    let hb = header_bytes(s);
    let mb = marker_bytes(tick_sort(s.part_markers), 1);
    let tb = rle_bytes(type_pairs(cs), 0, 1020);
    let rb = rle_bytes(root_pairs(cs), 0, 1020);
    let cb = chorus_bytes(s);
    let mel = melody_bytes(s.melody) + padding(encoding_body(s).len() as int);
    assert(d =~= hb + seq![1u8] + mb + tb + rb + cb + mel);
    assert(has_at(d, 0, d)) by {
        assert(d.subrange(0, d.len() as int) =~= d);
    }
    lemma_has_at_split(d, 0, hb + seq![1u8] + mb + tb + rb + cb, mel);
    lemma_has_at_split(d, 0, hb + seq![1u8] + mb + tb + rb, cb);
    lemma_has_at_split(d, 0, hb + seq![1u8] + mb + tb, rb);
    lemma_has_at_split(d, 0, hb + seq![1u8] + mb, tb);
    lemma_has_at_split(d, 0, hb + seq![1u8], mb);
    lemma_has_at_split(d, 0, hb, seq![1u8]);
}

/// The header of an encoding reads back as style 1 (4/4), the key and the
/// tempo, after a title that fits.
proof fn lemma_header(s: SongView)
    requires
        encode_of(s).len() >= 2,
    ensures
        ({
            let d = encode_of(s);
            let p = 2 + d[1] + 2;
            &&& title_of(d) is Ok
            &&& p + 4 == layout(s).0
            &&& byte_or(d, p, 1) == 1
            &&& key_of(byte_or(d, p + 1, 1)) == (s.key_pc % 12, s.key_minor)
            &&& byte_or(d, p + 2, 120) + 256 * byte_or(d, p + 3, 0) == s.tempo_bpm
            &&& d[layout(s).0] == 1
        }),
{
    let d = encode_of(s);
    lemma_layout(s);
    let hb = header_bytes(s);
    let t8 = vstd::utf8::encode_utf8(s.title);
    let tlen = if t8.len() < 255 { t8.len() as int } else { 255 };
    assert(hb.len() == tlen + 8);
    lemma_has_at_index(d, 0, hb, 1);
    lemma_has_at_index(d, 0, hb, tlen + 4);
    lemma_has_at_index(d, 0, hb, tlen + 5);
    lemma_has_at_index(d, 0, hb, tlen + 6);
    lemma_has_at_index(d, 0, hb, tlen + 7);
    lemma_has_at_index(d, layout(s).0, seq![1u8], 0);
    assert(d[1] == tlen);
}

/// The chord streams of an encodable song read back as its chords.
#[verifier::rlimit(30)]
proof fn lemma_streams(s: SongView)
    requires
        encodable(s),
    ensures
        ({
            let d = encode_of(s);
            let l = layout(s);
            &&& bar_types(d, l.0) == (tick_sort(s.part_markers), l.1)
            &&& rle(d, l.1, 0) == (type_pairs(s.chords), l.2)
            &&& rle(d, l.2, 0) == (root_pairs(s.chords), l.3)
            &&& paired(type_pairs(s.chords), root_pairs(s.chords), 0) == s.chords.len()
            &&& chorus_at(d, l.3, 0) == Some((s.chorus_begin, s.chorus_end, s.choruses))
        }),
{
    let d = encode_of(s);
    let cs = s.chords;
    let l = layout(s);
    assert forall|i: int| 0 <= i < cs.len() implies (#[trigger] cs[i]).root <= 11 by {
        assert(chord_ok(cs[i]));
    }
    lemma_playable_all(cs);
    let ms = tick_sort(s.part_markers);
    lemma_markers_sortable(s.part_markers);
    lemma_layout(s);
    lemma_header(s);
    let tp = type_pairs(cs);
    let rp = root_pairs(cs);
    lemma_markers_roundtrip(d, l.0 + 1, ms, 1);
    assert(stream_ok(tp, 0)) by {
        assert forall|k: int| 0 <= k < tp.len() implies 0 <= #[trigger] tp[k].0 < 1020 && tp[k].1 >= 1 by {
            assert(chord_ok(cs[k]));
        }
        assert forall|k: int, l: int| 0 <= k < l < tp.len() implies #[trigger] tp[k].0 < #[trigger] tp[l].0 by {
            assert(cs[k].tick / 120 < cs[l].tick / 120);
        }
    }
    assert(stream_ok(rp, 0)) by {
        assert forall|k: int| 0 <= k < rp.len() implies 0 <= #[trigger] rp[k].0 < 1020 && rp[k].1 >= 1 by {
            assert(chord_ok(cs[k]));
            lemma_pack(cs[k].root, cs[k].bass);
        }
        assert forall|k: int, l: int| 0 <= k < l < rp.len() implies #[trigger] rp[k].0 < #[trigger] rp[l].0 by {
            assert(cs[k].tick / 120 < cs[l].tick / 120);
        }
    }
    lemma_rle_roundtrip(d, l.1, tp, 0);
    lemma_rle_roundtrip(d, l.2, rp, 0);
    assert forall|k: int| 0 < k < rp.len() implies #[trigger] rp[k].0 <= rp[k - 1].0 + 32 by {
        assert(cs[k].tick / 120 <= cs[k - 1].tick / 120 + 32);
    }
    lemma_paired_all(tp, rp, 0);
    let cb = chorus_bytes(s);
    lemma_has_at_index(d, l.3, cb, 0);
    lemma_has_at_index(d, l.3, cb, 1);
    lemma_has_at_index(d, l.3, cb, 2);
    assert(sane_chorus(d[l.3], d[l.3 + 1], d[l.3 + 2]));
}

/// Whatever the song, its encoding parses back to a song: the encoding has
/// the 32 bytes a file needs and a title that fits (the empty song too).
pub proof fn lemma_encode_parses(s: SongView)
    ensures
        encode_of(s).len() >= 32,
        parse_of(encode_of(s)) is Ok,
{
    let b = encoding_body(s);
    assert(encode_of(s).len() == b.len() + padding(b.len() as int).len());
    lemma_header(s);
}

/// Encoding a song and parsing the bytes back keeps its tempo, key, part
/// markers (sorted by bar), chorus record and chords (beat, root, type with
/// 0 read as 1, slash bass and their text), for every song the format can
/// hold (see [`encodable`] and [`round_trips`]).
pub proof fn lemma_encode_parse(s: SongView)
    requires
        encodable(s),
    ensures
        parse_of(encode_of(s)) matches Ok(t) && round_trips(s, t),
{
    let d = encode_of(s);
    let cs = s.chords;
    let l = layout(s);
    lemma_header(s);
    lemma_streams(s);
    let tp = type_pairs(cs);
    let rp = root_pairs(cs);
    let dec = decode_of(d, l.0, 4);
    assert(beats_per_bar(0) == 4);
    assert(dec.2 == tick_sort(s.part_markers));
    assert(dec.1 == Some((s.chorus_begin, s.chorus_end, s.choruses)));
    let c0 = dec.0;
    assert(c0.len() == cs.len());
    assert forall|i: int| 0 <= i < c0.len() implies (#[trigger] c0[i]).bar as int == bar4(cs[i])
        && c0[i].tick == cs[i].tick / 120 * 120 && c0[i].root == cs[i].root && c0[i].ext == nonzero(cs[i].ext)
        && c0[i].bass == (if cs[i].bass <= 11 { cs[i].bass } else { 255 }) && c0[i].text
        == display_text(cs[i].root, cs[i].ext, c0[i].bass) by {
        let a = cs[i];
        assert(chord_ok(a));
        lemma_pack(a.root, a.bass);
        assert(tp[i].0 == (a.tick / 120) as u32);
        assert(rp[i] == ((a.tick / 120) as u32, pack(a.root, a.bass)));
        assert(tp[i].1 == nonzero(a.ext));
        assert(suffix(nonzero(a.ext)) == suffix(a.ext));
        let beat = (a.tick / 120) as u32;
        assert(beat / 4 == a.tick / 480) by {
            vstd::arithmetic::div_mod::lemma_div_denominator(a.tick as int, 120, 4);
        }
    }
    lemma_max_bar_same(c0, cs);
    assert(trimmed(c0, dec.1) == c0);
}


/// The markers of a bar-type stream come on strictly increasing bars, from
/// its first bar on.
proof fn lemma_bars_rle_sorted(d: Seq<u8>, i: int, bar: int)
    requires
        0 <= bar,
    ensures
        forall|k: int| 0 <= k < bars_rle(d, i, bar).0.len() ==> bar <= #[trigger] bars_rle(d, i, bar).0[k].0,
        forall|k: int, l: int|
            0 <= k < l < bars_rle(d, i, bar).0.len() ==> #[trigger] bars_rle(d, i, bar).0[k].0
                < #[trigger] bars_rle(d, i, bar).0[l].0,
    decreases d.len() - i,
{
    if !(bar >= 255 || i < 0 || i >= d.len()) {
        if d[i] == 0 {
            if i + 1 < d.len() {
                lemma_bars_rle_sorted(d, i + 2, bar + d[i + 1]);
                assert(bars_rle(d, i, bar) == bars_rle(d, i + 2, bar + d[i + 1]));
            } else {
                assert(bars_rle(d, i, bar).0.len() == 0);
            }
        } else {
            assert((bar as u16) as int == bar);
            lemma_bars_rle_sorted(d, i + 1, bar + 1);
            let r = bars_rle(d, i + 1, bar + 1).0;
            let all = bars_rle(d, i, bar).0;
            assert(all == seq![(bar as u16, d[i])] + r);
            assert forall|k: int| 0 <= k < all.len() implies bar <= #[trigger] all[k].0 by {
                if k > 0 {
                    assert(all[k] == r[k - 1]);
                }
            }
            assert forall|k: int, l: int| 0 <= k < l < all.len() implies #[trigger] all[k].0 < #[trigger] all[l].0 by {
                assert(all[l] == r[l - 1]);
                if k > 0 {
                    assert(all[k] == r[k - 1]);
                }
            }
        }
    }
}

/// Decode → encode → decode reproduces the same chord texts, tempo, key and
/// part markers, for every parsed song the format can hold again.
#[verifier::spinoff_prover]
#[verifier::rlimit(40)]
pub proof fn lemma_parse_encode_parse(d: Seq<u8>)
    requires
        parse_of(d) is Ok,
        encodable(parse_of(d)->Ok_0),
    ensures
        ({
            let s = parse_of(d)->Ok_0;
            parse_of(encode_of(s)) matches Ok(t) && {
                &&& t.chords.map_values(|c: ChordView| c.text) == s.chords.map_values(
                    |c: ChordView| c.text,
                )
                &&& t.tempo_bpm == s.tempo_bpm
                &&& t.key_pc == s.key_pc
                &&& t.key_minor == s.key_minor
                &&& t.part_markers == s.part_markers
            }
        }),
{
    let s = parse_of(d)->Ok_0;
    lemma_parsed_song(d);
    lemma_encode_parse(s);
    let p = 2 + d[1] + 2;
    let b0 = if 0 <= p + 4 < d.len() { d[p + 4] as int } else { 255 };
    lemma_bars_rle_sorted(d, p + 5, b0);
    assert(s.part_markers == bars_rle(d, p + 5, b0).0);
    lemma_tick_sort_sorted_id(s.part_markers);
    let t = parse_of(encode_of(s))->Ok_0;
    assert forall|i: int| 0 <= i < t.chords.len() implies #[trigger] t.chords[i].text == s.chords[i].text by {
        let c = s.chords[i];
        assert(c.text == display_text(c.root, c.ext, c.bass));
    }
    assert(t.chords.map_values(|c: ChordView| c.text) =~= s.chords.map_values(|c: ChordView| c.text));
}


/// The melody that parsing a Band-in-a-Box file gives is in tick order, and
/// holds exactly the note records of the file.
pub proof fn lemma_parsed_melody(d: Seq<u8>)
    ensures
        parse_of(d) matches Ok(t) ==> crate::sort::sorted_by_tick(t.melody)
            && t.melody.to_multiset() == crate::formats::biab::scan_notes(d, 0).to_multiset(),
{
    crate::sort::lemma_tick_sort_sorted(crate::formats::biab::scan_notes(d, 0));
    crate::sort::lemma_tick_sort_permutes(crate::formats::biab::scan_notes(d, 0));
}

// ---- Melody round trip -------------------------------------------------------

/// The chart sections of an encoding: everything before the melody records.
pub open spec fn chart_sections(s: SongView) -> Seq<u8> {
    let cs = playable(s.chords);
    header_bytes(s) + seq![1u8] + marker_bytes(tick_sort(s.part_markers), 1) + rle_bytes(
        type_pairs(cs),
        0,
        1020,
    ) + rle_bytes(root_pairs(cs), 0, 1020) + chorus_bytes(s)
}

/// A note that a melody record holds and the scanner reads back: a tick
/// below 65536, pitch 24..=127, velocity 1..=127, duration of 1 to 1920 ticks.
pub open spec fn note_ok(n: Note) -> bool {
    &&& n.tick < 65536
    &&& 24 <= n.pitch <= 127
    &&& 1 <= n.vel <= 127
    &&& 1 <= n.dur <= 1920
}

proof fn lemma_le32_le_bytes(v: u32)
    ensures
        le_bytes(v).len() == 4,
        le_bytes(v)[0] + 256 * le_bytes(v)[1] + 65536 * le_bytes(v)[2] + 16777216 * le_bytes(v)[3] == v,
        v < 65536 ==> le_bytes(v)[2] == 0 && le_bytes(v)[3] == 0,
{
    let x = v as int;
    let q1 = x / 256;
    let q2 = x / 65536;
    let q3 = x / 16777216;
    vstd::arithmetic::div_mod::lemma_fundamental_div_mod(x, 256);
    vstd::arithmetic::div_mod::lemma_fundamental_div_mod(q1, 256);
    vstd::arithmetic::div_mod::lemma_fundamental_div_mod(q2, 256);
    vstd::arithmetic::div_mod::lemma_div_denominator(x, 256, 256);
    vstd::arithmetic::div_mod::lemma_div_denominator(x, 65536, 256);
    assert(q1 / 256 == q2);
    assert(q2 / 256 == q3);
    assert(0 <= q3 < 256) by (nonlinear_arith)
        requires q3 == x / 16777216, 0 <= x < 4294967296;
    assert(0 <= x % 256 < 256 && 0 <= q1 % 256 < 256 && 0 <= q2 % 256 < 256) by (nonlinear_arith)
        requires 0 <= x, q1 == x / 256, q2 == x / 65536;
    assert(q2 % 256 + 256 * q3 == q2);
    assert(x % 256 + 256 * (q1 % 256) + 65536 * (q2 % 256) + 16777216 * q3 == x) by (nonlinear_arith)
        requires
            x == 256 * q1 + x % 256,
            q1 == 256 * q2 + q1 % 256,
            q2 == 256 * q3 + q2 % 256;
    if x < 65536 {
        assert(q2 == 0) by (nonlinear_arith)
            requires q2 == x / 65536, 0 <= x < 65536;
        assert(q3 == 0) by (nonlinear_arith)
            requires q3 == x / 16777216, 0 <= x < 65536;
    }
    assert(le_bytes(v)[0] == x % 256);
    assert(le_bytes(v)[1] == q1 % 256);
    assert(le_bytes(v)[2] == q2 % 256);
    assert(le_bytes(v)[3] == q3);
}

/// The melody records of notes below tick 65536: twelve bytes per note, in
/// order.
proof fn lemma_melody_bytes_layout(m: Seq<Note>)
    requires
        forall|i: int| 0 <= i < m.len() ==> (#[trigger] m[i]).tick < 65536,
    ensures
        melody_bytes(m).len() == 12 * m.len(),
        forall|k: int, j: int|
            0 <= k < m.len() && 0 <= j < 12 ==> #[trigger] melody_bytes(m)[12 * k + j] == note_bytes(m[k])[j],
    decreases m.len(),
{
    if m.len() > 0 {
        let p = m.drop_last();
        assert forall|i: int| 0 <= i < p.len() implies (#[trigger] p[i]).tick < 65536 by {
            assert(p[i] == m[i]);
        }
        lemma_melody_bytes_layout(p);
        assert(m.last().tick < 65536);
        let mb = melody_bytes(m);
        assert(mb == melody_bytes(p) + note_bytes(m.last()));
        assert forall|k: int, j: int| 0 <= k < m.len() && 0 <= j < 12 implies #[trigger] mb[12 * k + j]
            == note_bytes(m[k])[j] by {
            if k < p.len() {
                assert(m[k] == p[k]);
                assert(mb[12 * k + j] == melody_bytes(p)[12 * k + j]);
            } else {
                assert(mb[12 * k + j] == note_bytes(m.last())[j]);
            }
        }
    }
}

proof fn lemma_scan_zeros(d: Seq<u8>, i: int, start: int)
    requires
        0 <= start <= i,
        forall|j: int| start <= j < d.len() ==> d[j] == 0,
    ensures
        scan_notes(d, i) == Seq::<Note>::empty(),
    decreases d.len() - i,
{
    if i + 12 <= d.len() {
        assert(d[i + 4] == 0);
        lemma_scan_zeros(d, i + 1, start);
    }
}

proof fn lemma_note_record(d: Seq<u8>, q: int, n: Note)
    requires
        note_ok(n),
        0 <= q,
        q + 12 <= d.len(),
        forall|j: int| 0 <= j < 12 ==> #[trigger] d[q + j] == note_bytes(n)[j],
    ensures
        is_rec(d, q),
        rec_note(d, q) == n,
{
    let nb = note_bytes(n);
    lemma_le32_le_bytes(n.tick);
    lemma_le32_le_bytes(n.dur);
    let lt = le_bytes(n.tick);
    let ld = le_bytes(n.dur);
    assert(nb == lt + seq![0x90u8, n.pitch, nonzero(n.vel), 0x01u8] + ld);
    assert(d[q] == lt[0] && d[q + 1] == lt[1] && d[q + 2] == lt[2] && d[q + 3] == lt[3]) by {
        assert(d[q + 0] == nb[0]);
        assert(d[q + 1] == nb[1]);
        assert(d[q + 2] == nb[2]);
        assert(d[q + 3] == nb[3]);
    }
    assert(d[q + 4] == 0x90 && d[q + 5] == n.pitch && d[q + 6] == n.vel && d[q + 7] == 1) by {
        assert(d[q + 4] == nb[4]);
        assert(d[q + 5] == nb[5]);
        assert(d[q + 6] == nb[6]);
        assert(d[q + 7] == nb[7]);
    }
    assert(d[q + 8] == ld[0] && d[q + 9] == ld[1] && d[q + 10] == ld[2] && d[q + 11] == ld[3]) by {
        assert(d[q + 8] == nb[8]);
        assert(d[q + 9] == nb[9]);
        assert(d[q + 10] == nb[10]);
        assert(d[q + 11] == nb[11]);
    }
    assert(le32(d, q) == n.tick);
    assert(le32(d, q + 8) == n.dur);
}

/// Scanning aligned on the melody records reads back the notes in order.
proof fn lemma_scan_records(d: Seq<u8>, q0: int, m: Seq<Note>, k: int)
    requires
        forall|i: int| 0 <= i < m.len() ==> note_ok(#[trigger] m[i]),
        0 <= q0,
        q0 + 12 * m.len() <= d.len(),
        forall|k2: int, j: int|
            0 <= k2 < m.len() && 0 <= j < 12 ==> #[trigger] d[q0 + 12 * k2 + j] == note_bytes(m[k2])[j],
        forall|j: int| q0 + 12 * m.len() <= j < d.len() ==> d[j] == 0,
        0 <= k <= m.len(),
    ensures
        scan_notes(d, q0 + 12 * k) == m.subrange(k, m.len() as int),
    decreases m.len() - k,
{
    if k == m.len() {
        lemma_scan_zeros(d, q0 + 12 * k, q0 + 12 * m.len());
        assert(m.subrange(k, m.len() as int) =~= Seq::<Note>::empty());
    } else {
        let q = q0 + 12 * k;
        assert forall|j: int| 0 <= j < 12 implies #[trigger] d[q + j] == note_bytes(m[k])[j] by {
            assert(d[q0 + 12 * k + j] == note_bytes(m[k])[j]);
        }
        lemma_note_record(d, q, m[k]);
        lemma_scan_records(d, q0, m, k + 1);
        assert(q + 12 == q0 + 12 * (k + 1));
        assert(m.subrange(k, m.len() as int) =~= seq![m[k]] + m.subrange(k + 1, m.len() as int));
    }
}

proof fn lemma_scan_prefix(d: Seq<u8>, i: int, pl: int)
    requires
        0 <= i <= pl,
        forall|j: int| i <= j < pl ==> !is_rec(d, j),
    ensures
        scan_notes(d, i) == scan_notes(d, pl),
    decreases pl - i,
{
    if i < pl {
        if i + 12 <= d.len() {
            assert(!is_rec(d, i));
            lemma_scan_prefix(d, i + 1, pl);
        }
    }
}

/// The melody round-trips: for a song whose notes a record can hold (tick
/// below 65536, pitch 24..=127, velocity 1..=127, duration 1..=1920) and
/// whose chart sections hold no note-on byte 0x90 (so that nothing there
/// reads as a note record), parsing its encoding gives back exactly its
/// notes, sorted by tick.
#[verifier::spinoff_prover]
#[verifier::rlimit(40)]
pub proof fn lemma_melody_round_trip(s: SongView)
    requires
        forall|i: int| 0 <= i < s.melody.len() ==> note_ok(#[trigger] s.melody[i]),
        !chart_sections(s).contains(0x90u8),
    ensures
        parse_of(encode_of(s)) matches Ok(t) && t.melody == tick_sort(s.melody),
{
    lemma_encode_parses(s);
    let d = encode_of(s);
    let cp = chart_sections(s);
    let m = s.melody;
    let mb = melody_bytes(m);
    assert forall|i: int| 0 <= i < m.len() implies (#[trigger] m[i]).tick < 65536 by {
        assert(note_ok(m[i]));
    }
    lemma_melody_bytes_layout(m);
    let body = encoding_body(s);
    assert(body =~= cp + mb);
    let z = padding(body.len() as int);
    assert(d == body + z);
    let pl = cp.len() as int;
    let n = m.len() as int;
    assert forall|k: int, j: int| 0 <= k < n && 0 <= j < 12 implies #[trigger] d[pl + 12 * k + j] == note_bytes(
        m[k],
    )[j] by {
        assert(d[pl + 12 * k + j] == body[pl + 12 * k + j]);
        assert(body[pl + 12 * k + j] == mb[12 * k + j]);
    }
    assert forall|j: int| pl + 12 * n <= j < d.len() implies d[j] == 0 by {
        assert(d[j] == z[j - body.len()]);
    }
    lemma_scan_records(d, pl, m, 0);
    assert(m.subrange(0, n) =~= m);
    assert forall|j: int| 0 <= j < pl implies !is_rec(d, j) by {
        if is_rec(d, j) {
            if j + 4 < pl {
                assert(d[j + 4] == cp[j + 4]);
                assert(cp.contains(0x90u8));
            } else if n > 0 {
                let nb = note_bytes(m[0]);
                lemma_le32_le_bytes(m[0].tick);
                assert(nb == le_bytes(m[0].tick) + seq![0x90u8, m[0].pitch, nonzero(m[0].vel), 0x01u8]
                    + le_bytes(m[0].dur));
                assert(d[pl + 12 * 0 + 2] == nb[2]);
                assert(d[pl + 12 * 0 + 3] == nb[3]);
                assert(d[pl + 12 * 0 + 4] == nb[4]);
                assert(d[pl + 2] == 0 && d[pl + 3] == 0 && d[pl + 4] == 0x90);
            } else {
                assert(d[j + 4] == 0);
            }
        }
    }
    lemma_scan_prefix(d, 0, pl);
    assert(scan_notes(d, 0) == m);
}

} // verus!
