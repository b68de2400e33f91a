[package]
name = "leadsheet"
version = "0.1.0"
edition = "2021"
publish = false

[dependencies]
serde = { version = "1", features = ["derive"] }
ron = "0.8"
egui = "0.29"
js-sys = "0.3"
wasm-bindgen = "0.2"
wasm-bindgen-futures = "0.4"
qrcode = { version = "0.14", default-features = false }
web-sys = { version = "0.3", features = ["AudioContext", "BaseAudioContext", "AudioNode", "AudioParam", "GainNode", "OscillatorNode", "OscillatorType", "AudioScheduledSourceNode", "AudioDestinationNode", "Window", "Location", "Crypto", "Document", "HtmlCanvasElement", "Element"] }
