//! Input formats. Each decoder produces the common song model.

pub mod biab;
pub mod midi;
pub mod roundtrip;

use vstd::prelude::*;
use crate::model::{ParseError, Song, SongView};

verus! {

/// The file starts with the Standard MIDI magic `MThd`.
pub open spec fn is_midi(d: Seq<u8>) -> bool {
    d.len() >= 4 && d.subrange(0, 4) == midi::mthd()
}

/// What parsing gives, the format detected from the contents.
pub open spec fn parse_any(d: Seq<u8>) -> Result<SongView, ParseError> {
    if is_midi(d) {
        midi::midi_of(d)
    } else {
        biab::parse_of(d)
    }
}

fn starts_with_mthd(data: &[u8]) -> (r: bool)
    ensures
        r == is_midi(data@),
{
    if data.len() < 4 {
        return false;
    }
    let r = data[0] == 0x4d && data[1] == 0x54 && data[2] == 0x68 && data[3] == 0x64;
    proof {
        if r {
            assert(data@.subrange(0, 4) =~= midi::mthd());
        } else if data@.subrange(0, 4) == midi::mthd() {
            assert(data@.subrange(0, 4)[0] == data@[0]);
            assert(data@.subrange(0, 4)[1] == data@[1]);
            assert(data@.subrange(0, 4)[2] == data@[2]);
            assert(data@.subrange(0, 4)[3] == data@[3]);
        }
    }
    r
}

/// Parse, auto-detecting the format by magic bytes: `MThd` → Standard MIDI,
/// otherwise Band-in-a-Box (`.MGU`/`.SGU`).
pub fn parse(data: &[u8]) -> (r: Result<Song, ParseError>)
    requires
        data@.len() <= isize::MAX,
    ensures
        match r {
            Ok(s) => parse_any(data@) == Ok::<SongView, ParseError>(s@),
            Err(e) => parse_any(data@) == Err::<SongView, ParseError>(e),
        },
{
    if starts_with_mthd(data) {
        midi::parse(data)
    } else {
        biab::parse(data)
    }
}

} // verus!
