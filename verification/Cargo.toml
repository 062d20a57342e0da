[package]
name = "ylog"
version = "0.1.0"
edition = "2021"
publish = false

[dependencies]
chrono = { version = "=0.4.45", default-features = false, features = ["std", "clock"] }
tungstenite = "=0.21.0"
leptos = { version = "=0.6.15", features = ["csr"] }
leptos-use = "=0.13.13"
codee = "=0.2.0"
thaw = "=0.2.6"
icondata = "=0.3.1"
