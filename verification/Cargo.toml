[package]
name = "audio_to_midi"
version = "0.1.0"
edition = "2021"
publish = false

[dependencies]
midly = "=0.5.3"
ndarray = "=0.15.6"
hound = "=3.5.1"
rubato = "=0.14.1"
ort = { version = "=2.0.0-rc.2", default-features = false, features = ["ndarray", "load-dynamic"] }
ort-sys = { version = "=2.0.0-rc.2", default-features = false, features = ["load-dynamic"] }
