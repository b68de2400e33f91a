# leadsheet

Reads song charts (chords, melody, structure) from Band-in-a-Box `.MGU`/`.SGU`
files and Standard MIDI files into one song model, writes Band-in-a-Box charts
back, arranges a simple accompaniment, and lays out what the web front-end
draws and plays. The library is verified with Verus.

- `src/` — the verified library: `formats` (detection, `biab` decoder and
  encoder with their round-trip laws in `formats/roundtrip.rs`, `midi`),
  `model`, `sort` (stable sort by tick), `arrange`, `style`, `notation`
  (chart layout, staff, tablature, chord shapes), `playback` (performance
  bars and the note plan from a seek point), `cloud` (share fragment, URL and
  space keys), `qr` (QR grid, over the `qrcode` crate), `text`.
- `tests/` — executable tests.
- `app/` — the browser front-end around the library: egui drawing, Web Audio,
  the IndexedDB library, the cloud glue and RON styles.
