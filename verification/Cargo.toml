[package]
name = "acd2lr-core"
version = "0.1.0"
edition = "2021"
publish = false

[dependencies]
xml-rs = "0.8"
memchr = "2"
chrono = "0.4"
async-std = "1"
futures = "0.3"
thiserror = "1"
serde = { version = "1", features = ["derive"] }
tracing = "0.1"
tracing-error = "0.1"
tracing-subscriber = "0.2"
color-eyre = "0.5"
structopt = { version = "0.3", features = ["paw"] }
paw = "1"
strum_macros = "0.20"
gtk = "0.9"
gio = "0.9"
glib = "0.10"
gdk-pixbuf = "0.9"
