[package]
name = "archr_flasher"
version = "0.1.0"
edition = "2021"
publish = false

[dependencies]
fdt = "0.1"
md-5 = "0.10"
sha2 = "0.10"
flate2 = "1"
xz2 = "0.1"
fs2 = "0.4"
fscommon = "0.1"
fatfs = "0.3"
libc = "0.2"
serde = { version = "1", features = ["derive"] }
serde_json = "1"
sys-locale = "0.3"
tokio = { version = "1", features = ["rt"] }
reqwest = { version = "0.12", default-features = false, features = ["json", "rustls-tls"] }
