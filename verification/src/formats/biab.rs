//! Band-in-a-Box `.MGU` / `.SGU` decoder (RLE type/root streams, %18 slash)
//! and encoder.

use vstd::prelude::*;
use crate::model::{pc_name, pitch_class_name, Chord, ChordView, Note, ParseError, Song, SongView, PPQ, TICKS_PER_BAR};
use crate::sort::{sort_by_tick, tick_sort};
use vstd::utf8::encode_utf8;
use crate::text::{latin1, latin1_range, latin1_trimmed, push_char, trim, until_nul};

verus! {

// ---- Tables ---------------------------------------------------------------

/// Root index (clamped to 1..=17) -> pitch class. Indices 13..=17 are the
/// sharp spellings of 1, 3, 6, 8, 10.
pub open spec fn root_to_pc(r: int) -> u8 {
    if r <= 1 {
        0
    } else if r <= 12 {
        (r - 1) as u8
    } else if r == 13 {
        1
    } else if r == 14 {
        3
    } else if r == 15 {
        6
    } else if r == 16 {
        8
    } else {
        10
    }
}

fn root_pc(root: u8) -> (r: u8)
    ensures
        r == root_to_pc(root as int),
        r < 12,
{
    if root <= 1 {
        0
    } else if root <= 12 {
        root - 1
    } else if root == 13 {
        1
    } else if root == 14 {
        3
    } else if root == 15 {
        6
    } else if root == 16 {
        8
    } else {
        10
    }
}

/// Display suffix of a Band-in-a-Box chord-type index; unknown indices
/// show as a plain triad.
pub open spec fn suffix(ext: u8) -> Seq<char> {
    if ext == 3 {
        seq!['(', 'b', '5', ')']
    } else if ext == 4 {
        seq!['+']
    } else if ext == 5 {
        seq!['6']
    } else if ext == 6 {
        seq!['M', 'a', 'j', '7']
    } else if ext == 7 {
        seq!['M', 'a', 'j', '9']
    } else if ext == 8 {
        seq!['M', 'a', 'j', '9', '#', '1', '1']
    } else if ext == 14 {
        seq!['6', '/', '9']
    } else if ext == 15 {
        seq!['s', 'u', 's', '2']
    } else if ext == 16 {
        seq!['m']
    } else if ext == 17 {
        seq!['m', '#', '5']
    } else if ext == 18 {
        seq!['m', 'M', 'a', 'j', '7']
    } else if ext == 19 {
        seq!['m', '7']
    } else if ext == 20 {
        seq!['m', '9']
    } else if ext == 21 {
        seq!['m', '1', '1']
    } else if ext == 22 {
        seq!['m', '1', '3']
    } else if ext == 23 {
        seq!['m', '6']
    } else if ext == 32 {
        seq!['d', 'i', 'm', '7']
    } else if ext == 33 {
        seq!['d', 'i', 'm']
    } else if ext == 40 {
        seq!['5']
    } else if ext == 56 {
        seq!['7', '#', '5']
    } else if ext == 64 {
        seq!['7']
    } else if ext == 65 {
        seq!['1', '3']
    } else if ext == 66 {
        seq!['7', 'b', '1', '3']
    } else if ext == 67 {
        seq!['7', '#', '1', '1']
    } else if ext == 70 {
        seq!['9']
    } else if ext == 73 {
        seq!['9', '#', '1', '1']
    } else if ext == 76 {
        seq!['7', 'b', '9']
    } else if ext == 82 {
        seq!['7', '#', '9']
    } else if ext == 88 {
        seq!['7', 'b', '5']
    } else if ext == 128 {
        seq!['7', 's', 'u', 's']
    } else if ext == 134 {
        seq!['9', 's', 'u', 's']
    } else if ext == 177 || ext == 184 {
        seq!['s', 'u', 's', '4']
    } else {
        Seq::empty()
    }
}

/// Chord-type index -> display suffix (the common Band-in-a-Box symbols).
fn type_suffix(ext: u8) -> (r: &'static str)
    ensures
        r@ == suffix(ext),
{
    if ext == 3 {
        proof { reveal_strlit("(b5)"); }
        "(b5)"
    } else if ext == 4 {
        proof { reveal_strlit("+"); }
        "+"
    } else if ext == 5 {
        proof { reveal_strlit("6"); }
        "6"
    } else if ext == 6 {
        proof { reveal_strlit("Maj7"); }
        "Maj7"
    } else if ext == 7 {
        proof { reveal_strlit("Maj9"); }
        "Maj9"
    } else if ext == 8 {
        proof { reveal_strlit("Maj9#11"); }
        "Maj9#11"
    } else if ext == 14 {
        proof { reveal_strlit("6/9"); }
        "6/9"
    } else if ext == 15 {
        proof { reveal_strlit("sus2"); }
        "sus2"
    } else if ext == 16 {
        proof { reveal_strlit("m"); }
        "m"
    } else if ext == 17 {
        proof { reveal_strlit("m#5"); }
        "m#5"
    } else if ext == 18 {
        proof { reveal_strlit("mMaj7"); }
        "mMaj7"
    } else if ext == 19 {
        proof { reveal_strlit("m7"); }
        "m7"
    } else if ext == 20 {
        proof { reveal_strlit("m9"); }
        "m9"
    } else if ext == 21 {
        proof { reveal_strlit("m11"); }
        "m11"
    } else if ext == 22 {
        proof { reveal_strlit("m13"); }
        "m13"
    } else if ext == 23 {
        proof { reveal_strlit("m6"); }
        "m6"
    } else if ext == 32 {
        proof { reveal_strlit("dim7"); }
        "dim7"
    } else if ext == 33 {
        proof { reveal_strlit("dim"); }
        "dim"
    } else if ext == 40 {
        proof { reveal_strlit("5"); }
        "5"
    } else if ext == 56 {
        proof { reveal_strlit("7#5"); }
        "7#5"
    } else if ext == 64 {
        proof { reveal_strlit("7"); }
        "7"
    } else if ext == 65 {
        proof { reveal_strlit("13"); }
        "13"
    } else if ext == 66 {
        proof { reveal_strlit("7b13"); }
        "7b13"
    } else if ext == 67 {
        proof { reveal_strlit("7#11"); }
        "7#11"
    } else if ext == 70 {
        proof { reveal_strlit("9"); }
        "9"
    } else if ext == 73 {
        proof { reveal_strlit("9#11"); }
        "9#11"
    } else if ext == 76 {
        proof { reveal_strlit("7b9"); }
        "7b9"
    } else if ext == 82 {
        proof { reveal_strlit("7#9"); }
        "7#9"
    } else if ext == 88 {
        proof { reveal_strlit("7b5"); }
        "7b5"
    } else if ext == 128 {
        proof { reveal_strlit("7sus"); }
        "7sus"
    } else if ext == 134 {
        proof { reveal_strlit("9sus"); }
        "9sus"
    } else if ext == 177 || ext == 184 {
        proof { reveal_strlit("sus4"); }
        "sus4"
    } else {
        proof { reveal_strlit(""); }
        ""
    }
}

/// Beats per bar of a Band-in-a-Box style index (from the styles table).
pub open spec fn beats_per_bar(style: u8) -> u8 {
    if style == 1 || style == 21 || style == 22 {
        12
    } else if style == 7 || style == 16 {
        3
    } else {
        4
    }
}

/// Beats per bar for a Band-in-a-Box style index (from the styles table).
pub fn timesig_z(style: u8) -> (z: u8)
    ensures
        z == beats_per_bar(style),
{
    if style == 1 || style == 21 || style == 22 {
        12
    } else if style == 7 || style == 16 {
        3
    } else {
        4
    }
}

/// Key byte -> (tonic pitch class, is_minor): `<= 17` is a major key given by
/// its root index, `>= 18` a minor key whose root index is `byte - 17`.
pub open spec fn key_of(key_byte: u8) -> (u8, bool) {
    if key_byte >= 18 {
        (root_to_pc(key_byte - 17), true)
    } else {
        (root_to_pc(key_byte as int), false)
    }
}

/// Decode the key byte: `<= 17` is a major key (root index), `>= 18` a minor
/// key (root = byte − 18). Returns (tonic pitch class, is_minor).
pub fn key_info(key_byte: u8) -> (r: (u8, bool))
    ensures
        r == key_of(key_byte),
        r.0 < 12,
{
    if key_byte >= 18 {
        (root_pc(key_byte - 18 + 1), true)
    } else {
        (root_pc(if key_byte < 1 { 1 } else { key_byte }), false)
    }
}

/// Bars of the chart for a chord form whose last chord starts at bar `last`:
/// rounded up to a whole row of four, at least one row.
pub open spec fn form_bars_of(last: int) -> u16 {
    let r = (last + 3) / 4 * 4;
    if r < 4 {
        4
    } else {
        r as u16
    }
}

/// The chart of a chord form is whole rows of four bars, at least one row.
pub proof fn lemma_form_bars_rows(last: int)
    requires
        0 <= last <= 65532,
    ensures
        form_bars_of(last) >= 4,
        form_bars_of(last) % 4 == 0,
        form_bars_of(last) >= last,
{
    assert((last + 3) / 4 * 4 >= last && (last + 3) / 4 * 4 <= 65532 && ((last + 3) / 4 * 4) % 4 == 0)
        by (nonlinear_arith)
        requires 0 <= last <= 65532;
}

/// Bar of the last chord, or 0 without chords.
pub open spec fn last_bar(chords: Seq<ChordView>) -> int {
    if chords.len() == 0 {
        0
    } else {
        chords.last().bar as int
    }
}

/// Total bars covered by the chord form (for the chart layout).
pub fn form_bars(chords: &[Chord]) -> (r: u16)
    ensures
        r == form_bars_of(last_bar(chords@.map_values(|c: Chord| c@))),
{
    let last: u32 = if chords.len() == 0 {
        0
    } else {
        chords[chords.len() - 1].bar as u32
    };
    let r = (last + 3) / 4 * 4;
    if r < 4 {
        4
    } else {
        r as u16
    }
}

// ---- Chord symbols ----------------------------------------------------------

/// Display text of a chord: root name, type suffix, and `/bass` when the slash
/// bass index is non-zero.
pub open spec fn chord_text(root_idx: int, ext: u8, bass_idx: int) -> Seq<char> {
    pc_name(root_to_pc(root_idx) as int) + suffix(ext) + if bass_idx >= 1 {
        seq!['/'] + pc_name(root_to_pc(bass_idx) as int)
    } else {
        Seq::empty()
    }
}

/// Root index packed in a root-stream byte.
pub open spec fn root_index(val: u8) -> int {
    let r = val % 18;
    if r < 1 {
        1
    } else {
        r as int
    }
}

/// Slash-bass index packed in a root-stream byte (0 when it equals the root).
pub open spec fn bass_index(val: u8) -> int {
    let root = root_index(val);
    let b = (root - 1 + val / 18) % 18 + 1;
    if b == root {
        0
    } else {
        b
    }
}

/// The chord decoded from a root-stream byte `val` and a type index `ext` at
/// absolute beat `beat`, with `z` beats per bar.
pub open spec fn chord_at_beat(beat: u32, val: u8, ext: u8, z: u32, rest: u8) -> ChordView {
    ChordView {
        bar: (beat / z + 1) as u16,
        beat: (beat % z) as u8,
        tick: (beat * 120) as u32,
        text: chord_text(root_index(val), ext, bass_index(val)),
        root: root_to_pc(root_index(val)),
        ext,
        bass: if bass_index(val) >= 1 {
            root_to_pc(bass_index(val))
        } else {
            255
        },
        rest,
    }
}

fn append_str(s: &mut String, t: &str)
    ensures
        final(s)@ == old(s)@ + t@,
{
    s.append(t);
}

fn make_chord(beat: u32, val: u8, ext: u8, z: u32, rest: u8) -> (c: Chord)
    requires
        beat < 1020,
        1 <= z <= 255,
    ensures
        c@ == chord_at_beat(beat, val, ext, z, rest),
{
    let r0 = val % 18;
    let root: u8 = if r0 < 1 { 1 } else { r0 };
    let b: u8 = (root - 1 + val / 18) % 18 + 1;
    let bass: u8 = if b == root { 0 } else { b };
    let rpc = root_pc(root);
    let mut text = String::from_str(pitch_class_name(rpc));
    append_str(&mut text, type_suffix(ext));
    let bass_pc: u8 = if bass >= 1 {
        push_char(&mut text, '/');
        let p = root_pc(bass);
        append_str(&mut text, pitch_class_name(p));
        p
    } else {
        255
    };
    proof {
        assert(text@ =~= chord_text(root_index(val), ext, bass_index(val)));
    }
    Chord {
        bar: (beat / z) as u16 + 1,
        beat: (beat % z) as u8,
        tick: beat * 120,
        text,
        root: rpc,
        ext,
        bass: bass_pc,
        rest,
    }
}


// ---- Header strings ---------------------------------------------------------

/// The title: the Latin-1 text of the length-prefixed field at byte 1, cut at
/// its first NUL and trimmed of whitespace.
pub open spec fn title_of(d: Seq<u8>) -> Result<Seq<char>, ParseError> {
    if d.len() < 2 {
        Err(ParseError::TooShort)
    } else if 2 + d[1] > d.len() {
        Err(ParseError::BadTitle)
    } else {
        Ok(latin1(trim(until_nul(d.subrange(2, 2 + d[1])))))
    }
}

fn read_title(data: &[u8]) -> (r: Result<String, ParseError>)
    ensures
        match r {
            Ok(s) => title_of(data@) == Ok::<Seq<char>, ParseError>(s@),
            Err(e) => title_of(data@) == Err::<Seq<char>, ParseError>(e),
        },
{
    if data.len() < 2 {
        return Err(ParseError::TooShort);
    }
    let end = 2 + data[1] as usize;
    if end > data.len() {
        return Err(ParseError::BadTitle);
    }
    let mut k: usize = 2;
    while k < end && data[k] != 0
        invariant
            2 <= k <= end <= data@.len(),
            until_nul(data@.subrange(2, end as int)) == data@.subrange(2, k as int) + until_nul(
                data@.subrange(k as int, end as int),
            ),
        decreases end - k,
    {
        assert(data@.subrange(k as int, end as int).drop_first() =~= data@.subrange(
            k + 1,
            end as int,
        ));
        assert(data@.subrange(2, k as int) + seq![data@[k as int]] =~= data@.subrange(
            2,
            k + 1,
        ));
        k = k + 1;
    }
    assert(until_nul(data@.subrange(k as int, end as int)) =~= Seq::<u8>::empty());
    assert(until_nul(data@.subrange(2, end as int)) =~= data@.subrange(2, k as int));
    Ok(latin1_trimmed(data, 2, k))
}

/// `n` occurs in `h` at position `p`.
pub open spec fn occurs_at(h: Seq<u8>, n: Seq<u8>, p: int) -> bool {
    0 <= p && p + n.len() <= h.len() && h.subrange(p, p + n.len()) == n
}

/// First position `>= p` where `n` occurs in `h`.
pub open spec fn first_occurrence(h: Seq<u8>, n: Seq<u8>, p: int) -> Option<int>
    decreases h.len() + 1 - p,
{
    if p < 0 || p + n.len() > h.len() {
        None
    } else if occurs_at(h, n, p) {
        Some(p)
    } else {
        first_occurrence(h, n, p + 1)
    }
}

/// First position of a non-empty `n` in `h`.
pub open spec fn find_sub(h: Seq<u8>, n: Seq<u8>) -> Option<int> {
    if n.len() == 0 {
        None
    } else {
        first_occurrence(h, n, 0)
    }
}

fn find_subslice(haystack: &[u8], needle: &[u8]) -> (r: Option<usize>)
    ensures
        match r {
            Some(p) => find_sub(haystack@, needle@) == Some(p as int),
            None => find_sub(haystack@, needle@) is None,
        },
{
    if needle.len() == 0 || haystack.len() < needle.len() {
        return None;
    }
    let n = needle.len();
    let mut p: usize = 0;
    assert(haystack@.len() == haystack.len());
    while p <= haystack.len() - n
        invariant
            n == needle@.len(),
            0 < n <= haystack@.len() <= usize::MAX,
            p + n <= haystack@.len() + 1,
            first_occurrence(haystack@, needle@, 0) == first_occurrence(
                haystack@,
                needle@,
                p as int,
            ),
        decreases haystack@.len() + 1 - p,
    {
        let mut j: usize = 0;
        while j < n && haystack[p + j] == needle[j]
            invariant
                j <= n,
                n == needle@.len(),
                p + n <= haystack@.len() <= usize::MAX,
                forall|t: int| 0 <= t < j ==> haystack@[p + t] == needle@[t],
            decreases n - j,
        {
            j = j + 1;
        }
        if j == n {
            assert(haystack@.subrange(p as int, p + n) =~= needle@);
            return Some(p);
        }
        assert(!occurs_at(haystack@, needle@, p as int)) by {
            if haystack@.subrange(p as int, p + n) == needle@ {
                assert(haystack@.subrange(p as int, p + n)[j as int] == haystack@[p + j]);
            }
        }
        p = p + 1;
    }
    None
}

/// A printable ASCII byte other than space.
pub open spec fn graphic(b: u8) -> bool {
    0x21 <= b <= 0x7e
}

fn graphic_byte(b: u8) -> (r: bool)
    ensures
        r == graphic(b),
{
    0x21 <= b && b <= 0x7e
}

/// `".STY"`, the extension that ends a style reference.
pub open spec fn sty() -> Seq<u8> {
    seq![0x2eu8, 0x53u8, 0x54u8, 0x59u8]
}

/// `d[ns..end]` is a style name preceded by its length byte (mod 256).
pub open spec fn style_start_ok(d: Seq<u8>, end: int, ns: int) -> bool {
    &&& 1 <= ns < end <= d.len()
    &&& d[ns - 1] as int == (end - ns) % 256
    &&& graphic(d[ns])
    &&& forall|i: int| ns <= i < end ==> graphic(#[trigger] d[i]) || d[i] == 0x20
}

/// The largest start `<= ns` of a length-prefixed style name ending at `end`.
pub open spec fn style_start(d: Seq<u8>, end: int, ns: int) -> Option<int>
    decreases ns,
{
    if ns < 1 {
        None
    } else if style_start_ok(d, end, ns) {
        Some(ns)
    } else {
        style_start(d, end, ns - 1)
    }
}

/// Start of the run of printable bytes before `end`, at most 32 long.
pub open spec fn graphic_run_start(d: Seq<u8>, end: int, s: int) -> int
    decreases s,
{
    if s > 0 && graphic(d[s - 1]) && end - s < 32 {
        graphic_run_start(d, end, s - 1)
    } else {
        s
    }
}

/// The `*.STY` style reference: the first `.STY` in the file, with the name
/// that its length byte announces, or else the printable run before it.
pub open spec fn style_of(d: Seq<u8>) -> Seq<char> {
    match find_sub(d, sty()) {
        None => Seq::empty(),
        Some(p) => {
            let e = p + 4;
            match style_start(d, e, e - 1) {
                Some(ns) => latin1(d.subrange(ns, e)),
                None => latin1(d.subrange(graphic_run_start(d, e, e), e)),
            }
        },
    }
}

/// Find the `*.STY` style reference. The style name is length-prefixed:
/// `[len:u8] <name bytes including ".STY">`.
fn read_style(data: &[u8]) -> (r: String)
    ensures
        r@ == style_of(data@),
{
    let needle: [u8; 4] = [0x2e, 0x53, 0x54, 0x59];
    let sl = needle.as_slice();
    assert(sl@ =~= sty());
    match find_subslice(data, sl) {
        None => String::new(),
        Some(p) => {
            proof {
                assert(sty().len() == 4);
                assert(find_sub(data@, sty()) == Some(p as int));
                assert(first_occurrence(data@, sty(), 0) == Some(p as int));
                lemma_first_occurrence(data@, sty(), 0);
                assert(occurs_at(data@, sty(), p as int));
                assert(p + 4 <= data@.len());
                assert(data@.len() == data.len());
            }
            let name_end = p + 4;
            let mut ns = name_end - 1;
            while ns >= 1
                invariant
                    ns < name_end <= data@.len(),
                    name_end == p + 4,
                    find_sub(data@, sty()) == Some(p as int),
                    style_start(data@, name_end as int, name_end - 1) == style_start(
                        data@,
                        name_end as int,
                        ns as int,
                    ),
                decreases ns,
            {
                let len = ((name_end - ns) % 256) as u8;
                if data[ns - 1] == len && graphic_byte(data[ns]) {
                    let mut k = ns;
                    while k < name_end && (graphic_byte(data[k]) || data[k] == 0x20)
                        invariant
                            ns <= k <= name_end <= data@.len(),
                            forall|i: int| ns <= i < k ==> graphic(#[trigger] data@[i]) || data@[i]
                                == 0x20,
                        decreases name_end - k,
                    {
                        k = k + 1;
                    }
                    if k == name_end {
                        assert(style_start_ok(data@, name_end as int, ns as int));
                        assert(style_start(data@, name_end as int, ns as int) == Some(ns as int));
                        return latin1_range(data, ns, name_end);
                    }
                    assert(!style_start_ok(data@, name_end as int, ns as int));
                }
                ns = ns - 1;
            }
            let mut s = name_end;
            while s > 0 && graphic_byte(data[s - 1]) && name_end - s < 32
                invariant
                    s <= name_end <= data@.len(),
                    name_end == p + 4,
                    find_sub(data@, sty()) == Some(p as int),
                    style_start(data@, name_end as int, name_end - 1) is None,
                    graphic_run_start(data@, name_end as int, name_end as int)
                        == graphic_run_start(data@, name_end as int, s as int),
                decreases s,
            {
                s = s - 1;
            }
            latin1_range(data, s, name_end)
        },
    }
}

proof fn lemma_first_occurrence(h: Seq<u8>, n: Seq<u8>, p: int)
    ensures
        first_occurrence(h, n, p) matches Some(q) ==> occurs_at(h, n, q) && p <= q,
    decreases h.len() + 1 - p,
{
    if p >= 0 && p + n.len() <= h.len() && !occurs_at(h, n, p) {
        lemma_first_occurrence(h, n, p + 1);
    }
}

// ---- Melody -------------------------------------------------------------------

/// Little-endian `u32` at `d[i..i + 4]`.
pub open spec fn le32(d: Seq<u8>, i: int) -> int {
    d[i] + 256 * d[i + 1] + 65536 * d[i + 2] + 16777216 * d[i + 3]
}

/// A melody note record at `i`: `tick:u32 | 90 | pitch | vel | 01 | dur:u32`
/// with a tick below 65536, a plausible pitch (24..=127) and velocity
/// (1..=127), and a duration of 1 to 4 bars.
pub open spec fn is_rec(d: Seq<u8>, i: int) -> bool {
    &&& 0 <= i && i + 12 <= d.len()
    &&& d[i + 2] == 0 && d[i + 3] == 0
    &&& d[i + 4] == 0x90
    &&& d[i + 7] == 0x01
    &&& 24 <= d[i + 5] <= 127
    &&& 1 <= d[i + 6] <= 127
    &&& 1 <= le32(d, i + 8) <= 1920
}

/// The note of the record at `i`.
pub open spec fn rec_note(d: Seq<u8>, i: int) -> Note {
    Note { tick: le32(d, i) as u32, pitch: d[i + 5], vel: d[i + 6], dur: le32(d, i + 8) as u32 }
}

/// Records found scanning from `i`: a record is taken whole, otherwise the
/// scan moves one byte on.
pub open spec fn scan_notes(d: Seq<u8>, i: int) -> Seq<Note>
    decreases d.len() - i,
{
    if i < 0 || i + 12 > d.len() {
        Seq::empty()
    } else if is_rec(d, i) {
        seq![rec_note(d, i)] + scan_notes(d, i + 12)
    } else {
        scan_notes(d, i + 1)
    }
}

/// The melody: every record of the file, stably sorted by tick.
pub open spec fn melody_of(d: Seq<u8>) -> Seq<Note> {
    tick_sort(scan_notes(d, 0))
}

fn read_le32(d: &[u8], i: usize) -> (r: u32)
    requires
        i + 4 <= d@.len(),
    ensures
        r == le32(d@, i as int),
{
    d[i] as u32 + d[i + 1] as u32 * 256 + d[i + 2] as u32 * 65536 + d[i + 3] as u32 * 16777216
}

/// Verified record signature: `.. .. 00 00 | 90 | pitch | vel | 01 | dur:u32`.
fn is_record(d: &[u8], i: usize) -> (r: bool)
    ensures
        r == is_rec(d@, i as int),
{
    if i > d.len() || d.len() - i < 12 {
        return false;
    }
    let dur = read_le32(d, i + 8);
    d[i + 2] == 0 && d[i + 3] == 0 && d[i + 4] == 0x90 && d[i + 7] == 0x01 && 1 <= d[i + 5] && d[i
        + 5] <= 127 && 1 <= d[i + 6] && d[i + 6] <= 127 && d[i + 5] >= 24 && 1 <= dur && dur <= 4
        * TICKS_PER_BAR
}

/// Decode the melody note array: every record matching the signature, in
/// tick order.
fn read_melody(data: &[u8]) -> (r: Vec<Note>)
    ensures
        r@ == melody_of(data@),
{
    let n = data.len();
    let mut notes: Vec<Note> = Vec::new();
    let mut i: usize = 0;
    while i <= n && n - i >= 12
        invariant
            n == data@.len(),
            notes@ + scan_notes(data@, i as int) == scan_notes(data@, 0),
        decreases n + 1 - i,
    {
        if is_record(data, i) {
            let tick = read_le32(data, i);
            let pitch = data[i + 5];
            let vel = data[i + 6];
            let dur = read_le32(data, i + 8);
            notes.push(Note { tick, pitch, vel, dur });
            i = i + 12;
        } else {
            i = i + 1;
        }
    }
    assert(scan_notes(data@, i as int) =~= Seq::<Note>::empty());
    assert(notes@ =~= scan_notes(data@, 0));
    sort_by_tick(notes)
}


// ---- Streams ------------------------------------------------------------------

/// The run-length stream starting at byte `i` and beat `beat`: a non-zero byte
/// is a value at the current beat, `00 n` skips `n` beats; the stream ends at
/// beat 1020 or at the end of the data. Gives the `(beat, value)` pairs and the
/// index just past the stream.
pub open spec fn rle(d: Seq<u8>, i: int, beat: int) -> (Seq<(u32, u8)>, int)
    decreases d.len() - i,
{
    if beat >= 1020 || i < 0 || i >= d.len() {
        (Seq::empty(), i)
    } else if d[i] == 0 {
        if i + 1 >= d.len() {
            (Seq::empty(), i + 1)
        } else {
            rle(d, i + 2, beat + d[i + 1])
        }
    } else {
        let r = rle(d, i + 1, beat + 1);
        (seq![(beat as u32, d[i])] + r.0, r.1)
    }
}

/// The bar-type stream from byte `i` and bar `bar`: like [`rle`], keyed by
/// bar and ending at bar 255. Gives the `(bar, part)` markers and the index
/// just past the stream.
pub open spec fn bars_rle(d: Seq<u8>, i: int, bar: int) -> (Seq<(u16, u8)>, int)
    decreases d.len() - i,
{
    if bar >= 255 || i < 0 || i >= d.len() {
        (Seq::empty(), i)
    } else if d[i] == 0 {
        if i + 1 >= d.len() {
            (Seq::empty(), i + 1)
        } else {
            bars_rle(d, i + 2, bar + d[i + 1])
        }
    } else {
        let r = bars_rle(d, i + 1, bar + 1);
        (seq![(bar as u16, d[i])] + r.0, r.1)
    }
}

/// The bar-type stream at `start`: its first byte is the starting bar (255,
/// an empty stream, past the end of the data).
pub open spec fn bar_types(d: Seq<u8>, start: int) -> (Seq<(u16, u8)>, int) {
    let b0 = if 0 <= start < d.len() {
        d[start] as int
    } else {
        255
    };
    bars_rle(d, start + 1, b0)
}

/// One RLE-decoded stream, advancing `idx` past it.
fn read_rle(data: &[u8], idx: &mut usize) -> (out: Vec<(u32, u8)>)
    ensures
        (out@, *final(idx) as int) == rle(data@, *old(idx) as int, 0),
        *final(idx) <= if *old(idx) <= data@.len() { data@.len() as int } else { *old(idx) as int },
{
    let ghost i0 = *idx as int;
    let ghost goal = rle(data@, i0, 0);
    let mut out: Vec<(u32, u8)> = Vec::new();
    let mut beat: u32 = 0;
    assert(data@.len() == data.len());
    while beat < 1020 && *idx < data.len()
        invariant
            beat < 1020 + 256,
            data@.len() <= usize::MAX,
            *idx <= if i0 <= data@.len() { data@.len() as int } else { i0 },
            out@ + rle(data@, *idx as int, beat as int).0 == goal.0,
            rle(data@, *idx as int, beat as int).1 == goal.1,
        decreases data@.len() - *idx,
    {
        let val = data[*idx];
        *idx = *idx + 1;
        if val == 0 {
            if *idx < data.len() {
                let skip = data[*idx];
                *idx = *idx + 1;
                beat = beat + skip as u32;
            }
        } else {
            let ghost r = rle(data@, *idx as int, beat + 1);
            assert(out@.push((beat, val)) + r.0 =~= out@ + (seq![(beat, val)] + r.0));
            out.push((beat, val));
            beat = beat + 1;
        }
    }
    assert(out@ =~= out@ + Seq::<(u32, u8)>::empty());
    out
}

/// Read the bar-type stream (RLE keyed by bar, terminated at bar 255). Returns
/// the part markers `(bar, part)` where part 1 = substyle A, 2 = substyle B.
fn read_bar_types(data: &[u8], idx: &mut usize) -> (markers: Vec<(u16, u8)>)
    requires
        *old(idx) < usize::MAX - 1,
    ensures
        (markers@, *final(idx) as int) == bar_types(data@, *old(idx) as int),
        *final(idx) <= if *old(idx) < data@.len() { data@.len() as int } else { *old(idx) + 1 },
{
    let ghost i0 = *idx as int;
    let ghost goal = bar_types(data@, i0);
    let mut markers: Vec<(u16, u8)> = Vec::new();
    let mut bar: u32 = if *idx < data.len() {
        data[*idx] as u32
    } else {
        255
    };
    *idx = *idx + 1;
    assert(data@.len() == data.len());
    while bar < 255 && *idx < data.len()
        invariant
            bar < 255 + 256,
            data@.len() <= usize::MAX,
            *idx <= if i0 < data@.len() { data@.len() as int } else { i0 + 1 },
            markers@ + bars_rle(data@, *idx as int, bar as int).0 == goal.0,
            bars_rle(data@, *idx as int, bar as int).1 == goal.1,
        decreases data@.len() - *idx,
    {
        let val = data[*idx];
        *idx = *idx + 1;
        if val == 0 {
            if *idx < data.len() {
                let n = data[*idx];
                *idx = *idx + 1;
                bar = bar + n as u32;
            }
        } else {
            let ghost r = bars_rle(data@, *idx as int, bar + 1);
            assert(markers@.push((bar as u16, val)) + r.0 =~= markers@ + (seq![(bar as u16, val)]
                + r.0));
            markers.push((bar as u16, val));
            bar = bar + 1;
        }
    }
    assert(markers@ =~= markers@ + Seq::<(u16, u8)>::empty());
    markers
}

/// Beats in an RLE stream start at `beat`, stay below 1020, strictly
/// increase, and carry non-zero values.
pub proof fn lemma_rle_beats(d: Seq<u8>, i: int, beat: int)
    requires
        0 <= beat,
    ensures
        ({
            let s = rle(d, i, beat).0;
            &&& forall|k: int| 0 <= k < s.len() ==> beat <= #[trigger] s[k].0 < 1020 && s[k].1 != 0
            &&& forall|k: int, l: int| 0 <= k < l < s.len() ==> #[trigger] s[k].0 < #[trigger] s[l].0
        }),
    decreases d.len() - i,
{
    if beat >= 1020 || i < 0 || i >= d.len() {
        assert(rle(d, i, beat).0 =~= Seq::<(u32, u8)>::empty());
    } else if d[i] == 0 {
        if i + 1 < d.len() {
            lemma_rle_beats(d, i + 2, beat + d[i + 1]);
            assert(rle(d, i, beat) == rle(d, i + 2, beat + d[i + 1]));
        } else {
            assert(rle(d, i, beat).0 =~= Seq::<(u32, u8)>::empty());
        }
    } else {
        lemma_rle_beats(d, i + 1, beat + 1);
        let r = rle(d, i + 1, beat + 1).0;
        let s = rle(d, i, beat).0;
        assert(s == seq![(beat as u32, d[i])] + r);
        assert forall|k: int, l: int| 0 <= k < l < s.len() implies #[trigger] s[k].0 < #[trigger] s[l].0 by {
            if k > 0 {
                assert(s[k] == r[k - 1] && s[l] == r[l - 1]);
            } else {
                assert(s[l] == r[l - 1]);
            }
        }
        assert forall|k: int| 0 <= k < s.len() implies beat <= #[trigger] s[k].0 < 1020 && s[k].1 != 0 by {
            if k > 0 {
                assert(s[k] == r[k - 1]);
            }
        }
    }
}

// ---- Chords -------------------------------------------------------------------

/// How many leading root-stream entries pair with the type stream: the two
/// streams must agree beat for beat, and a chord more than 32 beats after the
/// previous one is padding noise that ends the chart.
pub open spec fn paired(exts: Seq<(u32, u8)>, roots: Seq<(u32, u8)>, i: int) -> int
    decreases roots.len() - i,
{
    if 0 <= i < roots.len() && i < exts.len() && exts[i].0 == roots[i].0 && (i == 0 || roots[i].0
        <= roots[i - 1].0 + 32) {
        paired(exts, roots, i + 1)
    } else {
        i
    }
}

/// Articulation of a marker value byte: 1 = rest, 2 = shot, 3 = hold, else 0.
pub open spec fn rest_code(b: u8) -> u8 {
    if b == 0x3f {
        1
    } else if b == 0x1f {
        2
    } else if b == 0x5f {
        3
    } else {
        0
    }
}

/// `d[i..i + 3]` is an articulation entry `[beat + 10][value][00]` for `beat`.
pub open spec fn rest_mark(d: Seq<u8>, i: int, beat: int) -> bool {
    d[i + 2] == 0 && rest_code(d[i + 1]) != 0 && d[i] - 10 == beat
}

/// The articulation of `beat`: that of the last entry for it that starts in
/// `lo..hi`, or 0.
pub open spec fn last_rest(d: Seq<u8>, lo: int, hi: int, beat: int) -> u8
    decreases hi - lo,
{
    if hi <= lo {
        0
    } else if rest_mark(d, hi - 1, beat) {
        rest_code(d[hi])
    } else {
        last_rest(d, lo, hi - 1, beat)
    }
}

/// A plausible chorus record `[begin][end][repeats]`.
pub open spec fn sane_chorus(b: u8, e: u8, r: u8) -> bool {
    1 <= b <= 250 && b < e && e <= 250 && 1 <= r <= 16
}

/// The first plausible chorus record at `i + o`, for `o` up to 3.
pub open spec fn chorus_at(d: Seq<u8>, i: int, o: int) -> Option<(u16, u16, u16)>
    decreases 4 - o,
{
    if o >= 4 {
        None
    } else if 0 <= i + o && i + o + 2 < d.len() && sane_chorus(d[i + o], d[i + o + 1], d[i + o + 2]) {
        Some((d[i + o] as u16, d[i + o + 1] as u16, d[i + o + 2] as u16))
    } else {
        chorus_at(d, i, o + 1)
    }
}

/// What [`decode`] reads from `start` with `tz` beats per bar: the chords,
/// the chorus record, and the part markers.
pub open spec fn decode_of(d: Seq<u8>, start: int, tz: u8) -> (
    Seq<ChordView>,
    Option<(u16, u16, u16)>,
    Seq<(u16, u8)>,
) {
    let z: u32 = if tz < 1 {
        1
    } else {
        tz as u32
    };
    let bt = bar_types(d, start);
    let e = rle(d, bt.1, 0);
    let r = rle(d, e.1, 0);
    let exts = e.0;
    let roots = r.0;
    let hi = if d.len() >= 2 {
        d.len() - 2
    } else {
        0
    };
    let n = paired(exts, roots, 0);
    let chords = Seq::new(
        n as nat,
        |j: int|
            chord_at_beat(
                roots[j].0,
                roots[j].1,
                exts[j].1,
                z,
                last_rest(d, r.1, hi, roots[j].0 as int),
            ),
    );
    (chords, chorus_at(d, r.1, 0), bt.0)
}

proof fn lemma_paired(exts: Seq<(u32, u8)>, roots: Seq<(u32, u8)>, i: int)
    requires
        0 <= i,
    ensures
        i <= paired(exts, roots, i) <= if i <= roots.len() { roots.len() as int } else { i },
        paired(exts, roots, i) <= exts.len() || paired(exts, roots, i) == i,
    decreases roots.len() - i,
{
    if 0 <= i < roots.len() && i < exts.len() && exts[i].0 == roots[i].0 && (i == 0 || roots[i].0
        <= roots[i - 1].0 + 32) {
        lemma_paired(exts, roots, i + 1);
    }
}

/// Decode chords + chorus from `start` (the byte after the header). `timesig_z`
/// is beats per bar (4 for 4/4). Returns the chords, the optional chorus
/// record `(begin, end, repeats)` and the part markers.
pub fn decode(data: &[u8], start: usize, timesig_z: u8) -> (r: (
    Vec<Chord>,
    Option<(u16, u16, u16)>,
    Vec<(u16, u8)>,
))
    requires
        start <= usize::MAX - 4,
        data@.len() <= isize::MAX,
    ensures
        (r.0@.map_values(|c: Chord| c@), r.1, r.2@) == decode_of(data@, start as int, timesig_z),
{
    let z: u32 = if timesig_z < 1 {
        1
    } else {
        timesig_z as u32
    };
    let ghost d = data@;
    let mut idx = start;
    let markers = read_bar_types(data, &mut idx);
    let ghost i1 = idx as int;
    assert(i1 == bar_types(d, start as int).1);
    let exts = read_rle(data, &mut idx);
    let ghost i2 = idx as int;
    assert(exts@ == rle(d, i1, 0).0);
    let roots = read_rle(data, &mut idx);
    assert(roots@ == rle(d, i2, 0).0);
    proof {
        lemma_rle_beats(d, i1, 0);
        lemma_rle_beats(d, i2, 0);
    }
    let mut n: usize = 0;
    while n < roots.len() && n < exts.len() && exts[n].0 == roots[n].0 && (n == 0 || roots[n].0
        <= roots[n - 1].0 + 32)
        invariant
            n <= roots@.len(),
            n <= exts@.len(),
            paired(exts@, roots@, 0) == paired(exts@, roots@, n as int),
            forall|k: int| 0 <= k < roots@.len() ==> #[trigger] roots@[k].0 < 1020,
        decreases roots@.len() - n,
    {
        n = n + 1;
    }
    proof {
        lemma_paired(exts@, roots@, n as int);
    }
    let ghost count = paired(exts@, roots@, 0);
    assert(n == count);
    let hi: usize = if data.len() >= 2 {
        data.len() - 2
    } else {
        0
    };
    let mut rests: Vec<u8> = Vec::new();
    let mut j: usize = 0;
    while j < n
        invariant
            j <= n,
            rests@.len() == j,
            forall|k: int| 0 <= k < j ==> #[trigger] rests@[k] == 0,
        decreases n - j,
    {
        rests.push(0);
        j = j + 1;
    }
    let mut i: usize = idx;
    while i < hi
        invariant
            n == count <= roots@.len(),
            n <= exts@.len(),
            hi as int == (if d.len() >= 2 { d.len() - 2 } else { 0 }),
            d == data@,
            data@.len() <= isize::MAX,
            rests@.len() == n,
            i == idx || idx <= i <= hi,
            forall|k: int| 0 <= k < n ==> #[trigger] rests@[k] == last_rest(
                d,
                idx as int,
                i as int,
                roots@[k].0 as int,
            ),
            forall|k: int, l: int|
                0 <= k < l < roots@.len() ==> #[trigger] roots@[k].0 < #[trigger] roots@[l].0,
        decreases hi - i,
    {
        if data[i + 2] == 0 {
            let v = data[i + 1];
            let dots: u8 = if v == 0x3f {
                1
            } else if v == 0x1f {
                2
            } else if v == 0x5f {
                3
            } else {
                0
            };
            if dots != 0 && data[i] >= 10 {
                let b = (data[i] - 10) as u32;
                let mut k: usize = 0;
                while k < n && roots[k].0 != b
                    invariant
                        k <= n <= roots@.len(),
                        forall|t: int| 0 <= t < k ==> #[trigger] roots@[t].0 != b,
                    decreases n - k,
                {
                    k = k + 1;
                }
                if k < n {
                    rests.set(k, dots);
                }
            }
        }
        proof {
            assert forall|k: int| 0 <= k < n implies #[trigger] rests@[k] == last_rest(
                d,
                idx as int,
                i + 1,
                roots@[k].0 as int,
            ) by {
                if idx <= i {
                    assert(last_rest(d, idx as int, i + 1, roots@[k].0 as int) == if rest_mark(
                        d,
                        i as int,
                        roots@[k].0 as int,
                    ) {
                        rest_code(d[i + 1])
                    } else {
                        last_rest(d, idx as int, i as int, roots@[k].0 as int)
                    });
                }
            }
        }
        i = i + 1;
    }
    let mut chords: Vec<Chord> = Vec::new();
    let mut j: usize = 0;
    while j < n
        invariant
            j <= n == count <= roots@.len(),
            n <= exts@.len(),
            rests@.len() == n,
            forall|k: int| 0 <= k < roots@.len() ==> #[trigger] roots@[k].0 < 1020,
            1 <= z <= 255,
            z == (if timesig_z < 1 { 1 } else { timesig_z as u32 }),
            chords@.len() == j,
            forall|k: int|
                0 <= k < j ==> #[trigger] chords@[k]@ == chord_at_beat(
                    roots@[k].0,
                    roots@[k].1,
                    exts@[k].1,
                    z,
                    rests@[k],
                ),
        decreases n - j,
    {
        let c = make_chord(roots[j].0, roots[j].1, exts[j].1, z, rests[j]);
        chords.push(c);
        j = j + 1;
    }
    let chorus = find_chorus(data, idx);
    proof {
        let hi_s = if d.len() >= 2 {
            d.len() - 2
        } else {
            0
        };
        assert forall|k: int| 0 <= k < n implies #[trigger] rests@[k] == last_rest(
            d,
            idx as int,
            hi_s,
            roots@[k].0 as int,
        ) by {
            if i != hi {
                lemma_last_rest_empty(d, idx as int, hi as int, i as int, roots@[k].0 as int);
            }
        }
        assert(chords@.map_values(|c: Chord| c@) =~= decode_of(data@, start as int, timesig_z).0);
    }
    (chords, chorus, markers)
}

proof fn lemma_last_rest_empty(d: Seq<u8>, lo: int, hi: int, i: int, beat: int)
    requires
        hi <= lo,
        hi <= i,
        i <= lo || i == hi,
    ensures
        last_rest(d, lo, i, beat) == 0,
        last_rest(d, lo, hi, beat) == 0,
{
}

fn find_chorus(data: &[u8], idx: usize) -> (r: Option<(u16, u16, u16)>)
    requires
        idx <= usize::MAX - 3,
    ensures
        r == chorus_at(data@, idx as int, 0),
{
    let mut o: usize = 0;
    while o < 4
        invariant
            o <= 4,
            idx <= usize::MAX - 3,
            chorus_at(data@, idx as int, 0) == chorus_at(data@, idx as int, o as int),
        decreases 4 - o,
    {
        if idx + o < data.len() && data.len() - (idx + o) > 2 {
            let b = data[idx + o];
            let e = data[idx + o + 1];
            let r = data[idx + o + 2];
            if 1 <= b && b <= 250 && b < e && e <= 250 && 1 <= r && r <= 16 {
                return Some((b as u16, e as u16, r as u16));
            }
        }
        o = o + 1;
    }
    None
}


// ---- Whole file -----------------------------------------------------------------

/// Byte `i` of `d`, or `dflt` past the end.
pub open spec fn byte_or(d: Seq<u8>, i: int, dflt: u8) -> u8 {
    if 0 <= i < d.len() {
        d[i]
    } else {
        dflt
    }
}

/// Bars covered by a melody: one past the bar in which its last note ends.
pub open spec fn melody_bars(m: Seq<Note>) -> int
    decreases m.len(),
{
    if m.len() == 0 {
        0
    } else {
        let prev = melody_bars(m.drop_last());
        let b = ((m.last().tick + m.last().dur) / 480) as u16 + 1;
        if b > prev {
            b
        } else {
            prev
        }
    }
}

/// Largest bar number among the chords (0 without chords).
pub open spec fn max_bar(s: Seq<ChordView>) -> int
    decreases s.len(),
{
    if s.len() == 0 {
        0
    } else {
        let m = max_bar(s.drop_last());
        if s.last().bar > m {
            s.last().bar as int
        } else {
            m
        }
    }
}

/// The chords that start at or before bar `end`, in order.
pub open spec fn bars_upto(s: Seq<ChordView>, end: u16) -> Seq<ChordView>
    decreases s.len(),
{
    if s.len() == 0 {
        s
    } else if s.last().bar <= end {
        bars_upto(s.drop_last(), end).push(s.last())
    } else {
        bars_upto(s.drop_last(), end)
    }
}

/// Drops a short trailing "resolution" chord a bar or two past the chorus end
/// (at most 4 bars past it); a chart that runs further is kept whole.
pub open spec fn trimmed(s: Seq<ChordView>, chorus: Option<(u16, u16, u16)>) -> Seq<ChordView> {
    match chorus {
        Some(t) => if s.len() > 0 && max_bar(s) > t.1 && max_bar(s) - t.1 <= 4 {
            bars_upto(s, t.1)
        } else {
            s
        },
        None => s,
    }
}

/// The song read from `d` once its title is known.
pub open spec fn song_of(d: Seq<u8>, title: Seq<char>) -> SongView {
    let p = 2 + d[1] + 2;
    let style_byte = byte_or(d, p, 1);
    let key_byte = byte_or(d, p + 1, 1);
    let tempo = byte_or(d, p + 2, 120) + 256 * byte_or(d, p + 3, 0);
    let style_idx: u8 = if style_byte >= 1 {
        (style_byte - 1) as u8
    } else {
        0
    };
    let key = key_of(key_byte);
    let dec = decode_of(d, p + 4, beats_per_bar(style_idx));
    let chords = trimmed(dec.0, dec.1);
    let fb = form_bars_of(last_bar(chords));
    let melody = melody_of(d);
    let chorus = match dec.1 {
        Some(t) => t,
        None => (1u16, fb, 1u16),
    };
    SongView {
        title,
        style: style_of(d),
        tempo_bpm: if tempo == 0 {
            120
        } else {
            tempo as u16
        },
        key_pc: key.0,
        key_minor: key.1,
        melody,
        chords,
        part_markers: dec.2,
        bars: melody_bars(melody) as u16,
        form_bars: fb,
        chorus_begin: chorus.0,
        chorus_end: chorus.1,
        choruses: chorus.2,
        chords_decoded: chords.len() > 0,
    }
}

/// What [`parse`] reads from a Band-in-a-Box file: a file under 32 bytes is
/// too short, one whose title overruns the data has a bad title, any other
/// gives a song.
pub open spec fn parse_of(d: Seq<u8>) -> Result<SongView, ParseError> {
    if d.len() < 32 {
        Err(ParseError::TooShort)
    } else {
        match title_of(d) {
            Err(e) => Err(e),
            Ok(title) => Ok(song_of(d, title)),
        }
    }
}

/// Every note of a stable sort by tick satisfies what every input note does.
proof fn lemma_tick_sort_all<T: crate::sort::TickKeyed>(s: Seq<T>, f: spec_fn(T) -> bool)
    requires
        forall|i: int| 0 <= i < s.len() ==> f(#[trigger] s[i]),
    ensures
        forall|i: int| 0 <= i < tick_sort(s).len() ==> f(#[trigger] tick_sort(s)[i]),
    decreases s.len(),
{
    if s.len() > 0 {
        let d = s.drop_last();
        lemma_tick_sort_all(d, f);
        let t = tick_sort(d);
        lemma_ins_pos_range(t, s.last().key());
        let p = crate::sort::ins_pos(t, s.last().key());
        let u = t.insert(p, s.last());
        assert forall|i: int| 0 <= i < u.len() implies f(#[trigger] u[i]) by {
            if i < p {
                assert(u[i] == t[i]);
            } else if i > p {
                assert(u[i] == t[i - 1]);
            }
        }
    }
}

proof fn lemma_ins_pos_range<T: crate::sort::TickKeyed>(s: Seq<T>, k: u32)
    ensures
        0 <= crate::sort::ins_pos(s, k) <= s.len(),
    decreases s.len(),
{
    if s.len() > 0 && s.last().key() > k {
        lemma_ins_pos_range(s.drop_last(), k);
    }
}

/// Note records have a tick below 65536 and last at most 4 bars.
proof fn lemma_scan_bounds(d: Seq<u8>, i: int)
    ensures
        ({
            let s = scan_notes(d, i);
            forall|k: int| 0 <= k < s.len() ==> #[trigger] s[k].tick < 65536 && s[k].dur <= 1920
        }),
    decreases d.len() - i,
{
    let s = scan_notes(d, i);
    if i < 0 || i + 12 > d.len() {
        assert(s =~= Seq::<Note>::empty());
    } else if is_rec(d, i) {
        lemma_scan_bounds(d, i + 12);
        let r = scan_notes(d, i + 12);
        assert(s == seq![rec_note(d, i)] + r);
        assert(le32(d, i) < 65536);
        assert forall|k: int| 0 <= k < s.len() implies #[trigger] s[k].tick < 65536 && s[k].dur
            <= 1920 by {
            if k > 0 {
                assert(s[k] == r[k - 1]);
            }
        }
    } else {
        lemma_scan_bounds(d, i + 1);
        assert(s == scan_notes(d, i + 1));
    }
}

fn melody_bar_count(m: &Vec<Note>) -> (r: u16)
    requires
        forall|k: int| 0 <= k < m@.len() ==> (#[trigger] m@[k]).tick < 65536 && m@[k].dur <= 1920,
    ensures
        r == melody_bars(m@),
{
    let mut best: u16 = 0;
    let mut i: usize = 0;
    while i < m.len()
        invariant
            i <= m@.len(),
            forall|k: int| 0 <= k < m@.len() ==> (#[trigger] m@[k]).tick < 65536 && m@[k].dur <= 1920,
            best == melody_bars(m@.take(i as int)),
        decreases m@.len() - i,
    {
        let b = ((m[i].tick + m[i].dur) / 480) as u16 + 1;
        assert(m@.take(i + 1).drop_last() =~= m@.take(i as int));
        if b > best {
            best = b;
        }
        i = i + 1;
    }
    assert(m@.take(m@.len() as int) =~= m@);
    best
}

/// Drops a short trailing chord past the chorus end (see [`trimmed`]).
fn trim_trailing(chords: Vec<Chord>, chorus: Option<(u16, u16, u16)>) -> (r: Vec<Chord>)
    ensures
        r@.map_values(|c: Chord| c@) == trimmed(chords@.map_values(|c: Chord| c@), chorus),
{
    let ghost cv = chords@.map_values(|c: Chord| c@);
    let end = match chorus {
        Some(t) => t.1,
        None => {
            return chords;
        },
    };
    if chords.len() == 0 {
        return chords;
    }
    let mut maxbar: u16 = 0;
    let mut i: usize = 0;
    while i < chords.len()
        invariant
            i <= chords@.len(),
            cv == chords@.map_values(|c: Chord| c@),
            maxbar == max_bar(cv.take(i as int)),
        decreases chords@.len() - i,
    {
        assert(cv.take(i + 1).drop_last() =~= cv.take(i as int));
        if chords[i].bar > maxbar {
            maxbar = chords[i].bar;
        }
        i = i + 1;
    }
    assert(cv.take(cv.len() as int) =~= cv);
    if !(maxbar > end && maxbar - end <= 4) {
        return chords;
    }
    let n = chords.len();
    let mut rest = chords;
    let mut kept: Vec<Chord> = Vec::new();
    let mut i: usize = 0;
    while i < n
        invariant
            i <= n == cv.len(),
            rest@.len() == n - i,
            forall|k: int| 0 <= k < n - i ==> (#[trigger] rest@[k])@ == cv[i + k],
            kept@.map_values(|c: Chord| c@) == bars_upto(cv.take(i as int), end),
        decreases n - i,
    {
        let c = rest.remove(0);
        assert(c@ == cv[i as int]);
        assert(cv.take(i + 1).drop_last() =~= cv.take(i as int));
        assert(cv.take(i + 1).last() == cv[i as int]);
        if c.bar <= end {
            let ghost before = kept@;
            kept.push(c);
            assert(kept@.map_values(|c: Chord| c@) =~= before.map_values(|c: Chord| c@).push(c@));
        }
        i = i + 1;
    }
    assert(cv.take(n as int) =~= cv);
    kept
}

/// Parse a Band-in-a-Box file: header (version, title, two reserved bytes,
/// style index, key, little-endian BPM), then the chord streams and the
/// melody records.
pub fn parse(data: &[u8]) -> (r: Result<Song, ParseError>)
    requires
        data@.len() <= isize::MAX,
    ensures
        match r {
            Ok(s) => parse_of(data@) == Ok::<SongView, ParseError>(s@),
            Err(e) => parse_of(data@) == Err::<SongView, ParseError>(e),
        },
{
    if data.len() < 0x20 {
        return Err(ParseError::TooShort);
    }
    let title = match read_title(data) {
        Ok(t) => t,
        Err(e) => {
            return Err(e);
        },
    };
    let style = read_style(data);
    let mut idx: usize = 2 + data[1] as usize;
    idx = idx + 2;
    let style_byte: u8 = if idx < data.len() { data[idx] } else { 1 };
    idx = idx + 1;
    let style_idx: u8 = if style_byte >= 1 { style_byte - 1 } else { 0 };
    let key_byte: u8 = if idx < data.len() { data[idx] } else { 1 };
    idx = idx + 1;
    let lo: u16 = if idx < data.len() { data[idx] as u16 } else { 120 };
    let hi: u16 = if idx + 1 < data.len() { data[idx + 1] as u16 } else { 0 };
    let tempo_bpm: u16 = lo + hi * 256;
    idx = idx + 2;
    let (key_pc, key_minor) = key_info(key_byte);
    let z = timesig_z(style_idx);
    let melody = read_melody(data);
    proof {
        lemma_scan_bounds(data@, 0);
        lemma_tick_sort_all(
            scan_notes(data@, 0),
            |n: Note| n.tick < 65536 && n.dur <= 1920,
        );
    }
    let bars = melody_bar_count(&melody);
    let (chords0, chorus, part_markers) = decode(data, idx, z);
    let chords = trim_trailing(chords0, chorus);
    let form_bars = form_bars(chords.as_slice());
    let (chorus_begin, chorus_end, choruses) = match chorus {
        Some(t) => t,
        None => (1, form_bars, 1),
    };
    let chords_decoded = chords.len() > 0;
    let song = Song {
        title,
        style,
        tempo_bpm: if tempo_bpm == 0 { 120 } else { tempo_bpm },
        key_pc,
        key_minor,
        melody,
        chords,
        part_markers,
        bars,
        form_bars,
        chorus_begin,
        chorus_end,
        choruses,
        chords_decoded,
    };
    proof {
        assert(song@.chords.len() == song.chords@.len());
    }
    Ok(song)
}


// ---- Encoder (inverse of `parse`) ---------------------------------------------

/// The bytes that skip `n` beats: `00 c` pairs of at most 255 each.
pub open spec fn skip_bytes(n: int) -> Seq<u8>
    decreases n,
{
    if n <= 0 {
        Seq::empty()
    } else {
        let c = if n < 255 {
            n
        } else {
            255
        };
        seq![0u8, c as u8] + skip_bytes(n - c)
    }
}

/// The bytes before value `v` at `beat` when the stream stands at `cur`.
pub open spec fn gap_bytes(beat: int, cur: int) -> Seq<u8> {
    if beat > cur {
        skip_bytes(beat - cur)
    } else {
        Seq::empty()
    }
}

/// A stream value byte: never 0, which would read as a skip.
pub open spec fn nonzero(v: u8) -> u8 {
    if v < 1 {
        1
    } else {
        v
    }
}

/// The run-length bytes of `(beat, value)` pairs from beat `cur`, padded to
/// `total` beats; a pair before the current beat is left out.
pub open spec fn rle_bytes(pairs: Seq<(u32, u8)>, cur: int, total: int) -> Seq<u8>
    decreases pairs.len(),
{
    if pairs.len() == 0 {
        gap_bytes(total, cur)
    } else if pairs[0].0 < cur {
        rle_bytes(pairs.drop_first(), cur, total)
    } else {
        gap_bytes(pairs[0].0 as int, cur) + seq![nonzero(pairs[0].1)] + rle_bytes(
            pairs.drop_first(),
            pairs[0].0 + 1,
            total,
        )
    }
}

/// The bar-type stream bytes after its starting bar: like [`rle_bytes`], and
/// then a skip to bar 255 (at least one beat).
pub open spec fn marker_bytes(ms: Seq<(u16, u8)>, cur: int) -> Seq<u8>
    decreases ms.len(),
{
    if ms.len() == 0 {
        skip_bytes(if 255 - cur >= 1 { 255 - cur } else { 1 })
    } else if ms[0].0 < cur {
        marker_bytes(ms.drop_first(), cur)
    } else {
        gap_bytes(ms[0].0 as int, cur) + seq![nonzero(ms[0].1)] + marker_bytes(
            ms.drop_first(),
            ms[0].0 + 1,
        )
    }
}

/// The chords with a known root, in order.
pub open spec fn playable(s: Seq<ChordView>) -> Seq<ChordView>
    decreases s.len(),
{
    if s.len() == 0 {
        s
    } else if s.last().root <= 11 {
        playable(s.drop_last()).push(s.last())
    } else {
        playable(s.drop_last())
    }
}

/// Root-stream byte for a root pitch class and a slash bass (none above 11):
/// root index plus 18 times the bass offset, the slash dropped when that would
/// not fit in a byte.
pub open spec fn pack(root_pc: u8, bass_pc: u8) -> u8 {
    let ri = root_pc % 12 + 1;
    if bass_pc > 11 {
        ri as u8
    } else {
        let off = (bass_pc % 12 + 1 - ri) % 18;
        let v = ri + 18 * off;
        if v <= 255 {
            v as u8
        } else {
            ri as u8
        }
    }
}

/// The type-stream pairs of the playable chords.
pub open spec fn type_pairs(cs: Seq<ChordView>) -> Seq<(u32, u8)> {
    cs.map_values(|c: ChordView| ((c.tick / 120) as u32, nonzero(c.ext)))
}

/// The root-stream pairs of the playable chords.
pub open spec fn root_pairs(cs: Seq<ChordView>) -> Seq<(u32, u8)> {
    cs.map_values(|c: ChordView| ((c.tick / 120) as u32, pack(c.root, c.bass)))
}

/// Little-endian bytes of a `u32`.
pub open spec fn le_bytes(v: u32) -> Seq<u8> {
    seq![(v % 256) as u8, (v / 256 % 256) as u8, (v / 65536 % 256) as u8, (v / 16777216) as u8]
}

/// The 12-byte melody record of a note.
pub open spec fn note_bytes(n: Note) -> Seq<u8> {
    le_bytes(n.tick) + seq![0x90u8, n.pitch, nonzero(n.vel), 0x01u8] + le_bytes(n.dur)
}

/// Records of the notes that start before tick 65536.
pub open spec fn melody_bytes(m: Seq<Note>) -> Seq<u8>
    decreases m.len(),
{
    if m.len() == 0 {
        Seq::empty()
    } else {
        melody_bytes(m.drop_last()) + if m.last().tick < 65536 {
            note_bytes(m.last())
        } else {
            Seq::empty()
        }
    }
}

/// `v` clamped to `lo..=hi`.
pub open spec fn clamp(v: int, lo: int, hi: int) -> int {
    if v < lo {
        lo
    } else if v > hi {
        hi
    } else {
        v
    }
}

/// Key byte of a key: minor keys from 18, major keys from 1.
pub open spec fn key_byte_of(key_pc: u8, minor: bool) -> u8 {
    if minor {
        (18 + key_pc % 12) as u8
    } else {
        (key_pc % 12 + 1) as u8
    }
}

/// The header: version, title (UTF-8, at most 255 bytes), two reserved
/// bytes, style 1 (4/4), key and little-endian BPM.
pub open spec fn header_bytes(s: SongView) -> Seq<u8> {
    let t = encode_utf8(s.title);
    let tlen = if t.len() < 255 {
        t.len() as int
    } else {
        255
    };
    seq![0x49u8, tlen as u8] + t.take(tlen) + seq![
        0u8,
        0u8,
        1u8,
        key_byte_of(s.key_pc, s.key_minor),
        (s.tempo_bpm % 256) as u8,
        (s.tempo_bpm / 256) as u8,
    ]
}

/// The chorus record `[begin][end][repeats]`, clamped to plausible values.
pub open spec fn chorus_bytes(s: SongView) -> Seq<u8> {
    let e = if s.chorus_end >= s.chorus_begin + 1 {
        s.chorus_end as int
    } else {
        s.chorus_begin + 1
    };
    seq![
        clamp(s.chorus_begin as int, 1, 250) as u8,
        clamp(e, 2, 250) as u8,
        clamp(s.choruses as int, 1, 16) as u8,
    ]
}

/// The sections of an encoding: header, bar-type stream, chord-type and
/// chord-root streams, chorus record and melody records.
pub open spec fn encoding_body(s: SongView) -> Seq<u8> {
    let cs = playable(s.chords);
    header_bytes(s) + seq![1u8] + marker_bytes(tick_sort(s.part_markers), 1) + rle_bytes(
        type_pairs(cs),
        0,
        1020,
    ) + rle_bytes(root_pairs(cs), 0, 1020) + chorus_bytes(s) + melody_bytes(s.melody)
}

/// Zero bytes that bring `n` bytes up to the 32 bytes a file holds at least.
pub open spec fn padding(n: int) -> Seq<u8> {
    Seq::new(
        if n < 32 {
            (32 - n) as nat
        } else {
            0
        },
        |i: int| 0u8,
    )
}

/// The `.MGU` bytes [`encode`] writes for a song: its sections, padded with
/// zeros to the 32 bytes that [`parse`] reads at least.
pub open spec fn encode_of(s: SongView) -> Seq<u8> {
    encoding_body(s) + padding(encoding_body(s).len() as int)
}

impl crate::sort::TickKeyed for (u16, u8) {
    open spec fn key(&self) -> u32 {
        self.0 as u32
    }

    fn tick_key(&self) -> (r: u32) {
        self.0 as u32
    }
}

fn write_skip(out: &mut Vec<u8>, total: u32)
    ensures
        final(out)@ == old(out)@ + skip_bytes(total as int),
{
    let mut n = total;
    while n > 0
        invariant
            out@ + skip_bytes(n as int) == old(out)@ + skip_bytes(total as int),
        decreases n,
    {
        let c: u32 = if n < 255 { n } else { 255 };
        let ghost before = out@;
        out.push(0);
        out.push(c as u8);
        assert(before + skip_bytes(n as int) =~= out@ + skip_bytes(n - c));
        n = n - c;
    }
}

/// Write an RLE stream of `(beat, value)` pairs, padded to `total` beats.
fn write_rle(out: &mut Vec<u8>, pairs: &Vec<(u32, u8)>, total: u32)
    requires
        forall|k: int| 0 <= k < pairs@.len() ==> #[trigger] pairs@[k].0 < u32::MAX,
    ensures
        final(out)@ == old(out)@ + rle_bytes(pairs@, 0, total as int),
{
    let mut cur: u32 = 0;
    let mut i: usize = 0;
    assert(pairs@.skip(0) =~= pairs@);
    while i < pairs.len()
        invariant
            i <= pairs@.len(),
            forall|k: int| 0 <= k < pairs@.len() ==> #[trigger] pairs@[k].0 < u32::MAX,
            out@ + rle_bytes(pairs@.skip(i as int), cur as int, total as int) == old(out)@
                + rle_bytes(pairs@, 0, total as int),
        decreases pairs@.len() - i,
    {
        let (beat, val) = pairs[i];
        assert(pairs@.skip(i as int).drop_first() =~= pairs@.skip(i + 1));
        assert(pairs@.skip(i as int)[0] == pairs@[i as int]);
        if beat >= cur {
            let ghost before = out@;
            if beat > cur {
                write_skip(out, beat - cur);
            }
            out.push(if val < 1 { 1 } else { val });
            assert(out@ + rle_bytes(pairs@.skip(i + 1), beat + 1, total as int) =~= before
                + rle_bytes(pairs@.skip(i as int), cur as int, total as int));
            cur = beat + 1;
        }
        i = i + 1;
    }
    assert(pairs@.skip(i as int) =~= Seq::<(u32, u8)>::empty());
    let ghost before = out@;
    if total > cur {
        write_skip(out, total - cur);
    }
    assert(out@ =~= before + rle_bytes(pairs@.skip(i as int), cur as int, total as int));
}

/// Pack a root pitch class + optional slash bass into a root-stream byte.
fn pack_root(root_pc: u8, bass_pc: u8) -> (r: u8)
    ensures
        r == pack(root_pc, bass_pc),
{
    let root_idx: u32 = (root_pc % 12) as u32 + 1;
    if bass_pc > 11 {
        return root_idx as u8;
    }
    let bass_idx: u32 = (bass_pc % 12) as u32 + 1;
    let offset: u32 = (bass_idx + 18 - root_idx) % 18;
    assert(offset == (bass_idx - root_idx) % 18);
    let val: u32 = root_idx + 18 * offset;
    if val <= 255 {
        val as u8
    } else {
        root_idx as u8
    }
}

fn push_le32(out: &mut Vec<u8>, v: u32)
    ensures
        final(out)@ == old(out)@ + le_bytes(v),
{
    out.push((v % 256) as u8);
    out.push((v / 256 % 256) as u8);
    out.push((v / 65536 % 256) as u8);
    out.push((v / 16777216) as u8);
    assert(final(out)@ =~= old(out)@ + le_bytes(v));
}

fn write_header(out: &mut Vec<u8>, song: &Song)
    requires
        old(out)@.len() == 0,
    ensures
        final(out)@ == header_bytes(song@),
{
    out.push(0x49);
    let title = song.title.as_str().as_bytes();
    let tlen: usize = if title.len() < 255 { title.len() } else { 255 };
    out.push(tlen as u8);
    let mut i: usize = 0;
    while i < tlen
        invariant
            i <= tlen <= title@.len(),
            out@ == seq![0x49u8, tlen as u8] + title@.take(i as int),
        decreases tlen - i,
    {
        out.push(title[i]);
        i = i + 1;
        assert(out@ =~= seq![0x49u8, tlen as u8] + title@.take(i as int));
    }
    out.push(0);
    out.push(0);
    out.push(1);
    out.push(if song.key_minor { 18 + song.key_pc % 12 } else { song.key_pc % 12 + 1 });
    out.push((song.tempo_bpm % 256) as u8);
    out.push((song.tempo_bpm / 256) as u8);
    assert(out@ =~= header_bytes(song@));
}

/// Bar-type (part marker) stream: starting bar 1, the markers in bar order,
/// padded to bar 255.
fn write_markers(out: &mut Vec<u8>, part_markers: &Vec<(u16, u8)>)
    ensures
        final(out)@ == old(out)@ + seq![1u8] + marker_bytes(tick_sort(part_markers@), 1),
{
    out.push(1);
    let mut copy: Vec<(u16, u8)> = Vec::new();
    let mut i: usize = 0;
    while i < part_markers.len()
        invariant
            i <= part_markers@.len(),
            copy@ == part_markers@.take(i as int),
        decreases part_markers@.len() - i,
    {
        copy.push(part_markers[i]);
        i = i + 1;
        assert(copy@ =~= part_markers@.take(i as int));
    }
    assert(copy@ =~= part_markers@);
    let markers = sort_by_tick(copy);
    let ghost base = out@;
    let mut cur: u32 = 1;
    let mut i: usize = 0;
    assert(markers@.skip(0) =~= markers@);
    while i < markers.len()
        invariant
            i <= markers@.len(),
            cur <= 65536,
            out@ + marker_bytes(markers@.skip(i as int), cur as int) == base + marker_bytes(
                markers@,
                1,
            ),
        decreases markers@.len() - i,
    {
        let (bar, part) = markers[i];
        assert(markers@.skip(i as int).drop_first() =~= markers@.skip(i + 1));
        assert(markers@.skip(i as int)[0] == markers@[i as int]);
        let bar = bar as u32;
        if bar >= cur {
            let ghost before = out@;
            if bar > cur {
                write_skip(out, bar - cur);
            }
            out.push(if part < 1 { 1 } else { part });
            assert(out@ + marker_bytes(markers@.skip(i + 1), bar + 1) =~= before + marker_bytes(
                markers@.skip(i as int),
                cur as int,
            ));
            cur = bar + 1;
        }
        i = i + 1;
    }
    assert(markers@.skip(i as int) =~= Seq::<(u16, u8)>::empty());
    let ghost before = out@;
    write_skip(out, if cur < 255 && 255 - cur >= 1 { 255 - cur } else { 1 });
    assert(out@ =~= before + marker_bytes(markers@.skip(i as int), cur as int));
}

/// The type and root stream pairs of the chords with a known root.
fn chord_pairs(chords: &Vec<Chord>) -> (r: (Vec<(u32, u8)>, Vec<(u32, u8)>))
    ensures
        r.0@ == type_pairs(playable(chords@.map_values(|c: Chord| c@))),
        r.1@ == root_pairs(playable(chords@.map_values(|c: Chord| c@))),
        forall|k: int| 0 <= k < r.0@.len() ==> #[trigger] r.0@[k].0 < u32::MAX,
        forall|k: int| 0 <= k < r.1@.len() ==> #[trigger] r.1@[k].0 < u32::MAX,
{
    let mut types: Vec<(u32, u8)> = Vec::new();
    let mut roots: Vec<(u32, u8)> = Vec::new();
    let ghost cv = chords@.map_values(|c: Chord| c@);
    let mut i: usize = 0;
    while i < chords.len()
        invariant
            i <= chords@.len(),
            cv == chords@.map_values(|c: Chord| c@),
            types@ == type_pairs(playable(cv.take(i as int))),
            roots@ == root_pairs(playable(cv.take(i as int))),
            forall|k: int| 0 <= k < types@.len() ==> #[trigger] types@[k].0 < u32::MAX,
            forall|k: int| 0 <= k < roots@.len() ==> #[trigger] roots@[k].0 < u32::MAX,
        decreases chords@.len() - i,
    {
        let c = &chords[i];
        assert(cv.take(i + 1).drop_last() =~= cv.take(i as int));
        assert(cv.take(i + 1).last() == c@);
        if c.root <= 11 {
            let beat = c.tick / 120;
            let ghost pt = playable(cv.take(i as int));
            types.push((beat, if c.ext == 0 { 1 } else { c.ext }));
            roots.push((beat, pack_root(c.root, c.bass)));
            assert(types@ =~= type_pairs(pt.push(c@)));
            assert(roots@ =~= root_pairs(pt.push(c@)));
        }
        i = i + 1;
    }
    assert(cv.take(cv.len() as int) =~= cv);
    (types, roots)
}

fn clamp_u16(v: u16, lo: u16, hi: u16) -> (r: u8)
    requires
        lo <= hi <= 255,
    ensures
        r == clamp(v as int, lo as int, hi as int),
{
    if v < lo {
        lo as u8
    } else if v > hi {
        hi as u8
    } else {
        v as u8
    }
}

fn write_melody(out: &mut Vec<u8>, melody: &Vec<Note>)
    ensures
        final(out)@ == old(out)@ + melody_bytes(melody@),
{
    let ghost before = out@;
    let mut i: usize = 0;
    while i < melody.len()
        invariant
            i <= melody@.len(),
            out@ == before + melody_bytes(melody@.take(i as int)),
        decreases melody@.len() - i,
    {
        let n = melody[i];
        assert(melody@.take(i + 1).drop_last() =~= melody@.take(i as int));
        let ghost mid = out@;
        if n.tick < 0x1_0000 {
            push_le32(out, n.tick);
            out.push(0x90);
            out.push(n.pitch);
            out.push(if n.vel < 1 { 1 } else { n.vel });
            out.push(0x01);
            push_le32(out, n.dur);
            assert(out@ =~= mid + note_bytes(n));
        }
        i = i + 1;
        assert(out@ =~= before + melody_bytes(melody@.take(i as int)));
    }
    assert(melody@.take(melody@.len() as int) =~= melody@);
}

/// Encode a `Song` back to a Band-in-a-Box `.MGU` (round-trips with [`parse`]).
/// Assumes 4/4.
pub fn encode(song: &Song) -> (out: Vec<u8>)
    requires
        song.chorus_begin < u16::MAX,
    ensures
        out@ == encode_of(song@),
{
    let mut out: Vec<u8> = Vec::new();
    write_header(&mut out, song);
    write_markers(&mut out, &song.part_markers);
    let (types, roots) = chord_pairs(&song.chords);
    write_rle(&mut out, &types, 1020);
    write_rle(&mut out, &roots, 1020);
    let b = song.chorus_begin;
    out.push(clamp_u16(b, 1, 250));
    let e = if song.chorus_end >= b + 1 { song.chorus_end } else { b + 1 };
    out.push(clamp_u16(e, 2, 250));
    out.push(clamp_u16(song.choruses, 1, 16));
    write_melody(&mut out, &song.melody);
    proof {
        let sv = song@;
        assert(out@ =~= encoding_body(sv));
    }
    let ghost body = out@;
    while out.len() < 32
        invariant
            body.len() <= out@.len() <= 32 || out@.len() == body.len(),
            out@ =~= body + Seq::new((out@.len() - body.len()) as nat, |i: int| 0u8),
        decreases 32 - out@.len(),
    {
        out.push(0);
    }
    assert(out@ =~= body + padding(body.len() as int));
    out
}

} // verus!
