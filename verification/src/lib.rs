//! `leadsheet` — read song charts (chords + melody + structure) from several
//! formats into one common song model, write Band-in-a-Box charts back, and
//! arrange them with simple accompaniment styles.

pub mod arrange;
pub mod cloud;
pub mod formats;
pub mod model;
pub mod notation;
pub mod playback;
pub mod qr;
pub mod sort;
pub mod style;
pub mod text;

pub use model::{pitch_class_name, pitch_name, Chord, Note, ParseError, Song, PPQ, TICKS_PER_BAR};

use vstd::prelude::*;
use crate::formats::parse_any;
use crate::model::SongView;

verus! {

/// Parse any supported file, auto-detecting the format from its contents.
pub fn parse(data: &[u8]) -> (r: Result<Song, ParseError>)
    requires
        data@.len() <= isize::MAX,
    ensures
        match r {
            Ok(s) => parse_any(data@) == Ok::<SongView, ParseError>(s@),
            Err(e) => parse_any(data@) == Err::<SongView, ParseError>(e),
        },
{
    formats::parse(data)
}

} // verus!
