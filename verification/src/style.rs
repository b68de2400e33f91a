//! Accompaniment styles: per part, which instrument plays and on which beats
//! of the bar.

use vstd::prelude::*;

verus! {

/// One part's pattern over a bar: an instrument + the beats (0-based) it hits.
#[derive(Clone, Debug)]
pub struct Pattern {
    /// Instrument preset index (matches the web app's instrument palette).
    pub instrument: u8,
    /// Beats of the bar to play (0-based; e.g. `[0, 2]` = beats 1 and 3).
    pub beats: Vec<u8>,
}

/// A pattern with its beats as a sequence.
pub struct PatternView {
    pub instrument: u8,
    pub beats: Seq<u8>,
}

impl View for Pattern {
    type V = PatternView;

    open spec fn view(&self) -> PatternView {
        PatternView { instrument: self.instrument, beats: self.beats@ }
    }
}

/// How to accompany a chart.
#[derive(Clone, Debug)]
pub struct Style {
    pub name: String,
    pub swing: bool,
    pub bass: Pattern,
    pub comp: Pattern,
}

/// A style with its name and patterns as views.
pub struct StyleView {
    pub name: Seq<char>,
    pub swing: bool,
    pub bass: PatternView,
    pub comp: PatternView,
}

impl View for Style {
    type V = StyleView;

    open spec fn view(&self) -> StyleView {
        StyleView { name: self.name@, swing: self.swing, bass: self.bass@, comp: self.comp@ }
    }
}

/// The default style "Basique": straight time, bass (instrument 8) and piano
/// comping (instrument 3) on beats 1 and 3.
pub open spec fn basic_style() -> StyleView {
    StyleView {
        name: seq!['B', 'a', 's', 'i', 'q', 'u', 'e'],
        swing: false,
        bass: PatternView { instrument: 8, beats: seq![0u8, 2u8] },
        comp: PatternView { instrument: 3, beats: seq![0u8, 2u8] },
    }
}

fn beats_1_and_3() -> (v: Vec<u8>)
    ensures
        v@ == seq![0u8, 2u8],
{
    let mut v = Vec::new();
    v.push(0);
    v.push(2);
    assert(v@ =~= seq![0u8, 2u8]);
    v
}

impl Default for Style {
    fn default() -> (s: Style)
        ensures
            s@ == basic_style(),
    {
        proof {
            reveal_strlit("Basique");
        }
        let s = Style {
            name: String::from_str("Basique"),
            swing: false,
            bass: Pattern { instrument: 8, beats: beats_1_and_3() },
            comp: Pattern { instrument: 3, beats: beats_1_and_3() },
        };
        assert(s@.name =~= basic_style().name);
        s
    }
}

} // verus!
