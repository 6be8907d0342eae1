[package]
name = "czkawka"
version = "0.1.0"
edition = "2021"
publish = false

[dependencies]
anyhow = "=1.0.104"
crossbeam-channel = "=0.5.17"
deunicode = "=1.6.2"
fun_time = { version = "=0.3.4", features = ["log"] }
gtk4 = { version = "=0.9.7", default-features = false }
humansize = "=2.1.3"
lofty = "=0.22.4"
log = "=0.4.35"
open = "=5.4.5"
rayon = "=1.12.0"
rusty-chromaprint = "=0.3.0"
serde = { version = "=1.0.229", features = ["derive"] }
symphonia = { version = "=0.5.5", features = ["all"] }
