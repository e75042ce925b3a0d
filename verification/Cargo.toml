[package]
name = "dictata-engine"
version = "0.1.0"
edition = "2021"
publish = false

[dependencies]
kaldi-native-fbank = "=0.1.0"
ort = { version = "=2.0.0-rc.12", default-features = false, features = ["std", "load-dynamic"] }
parakeet-rs = { version = "=0.3.4", default-features = false, features = ["load-dynamic", "sortformer"] }
realfft = "=3.5.1"
thiserror = "=2.0.21"
whisper-rs = "=0.16.0"
