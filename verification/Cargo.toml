[package]
name = "retumi"
version = "0.1.0"
edition = "2021"
publish = false

[dependencies]
boa_engine = "*"
crossbeam = "*"
html2text = "*"
html5ever = "*"
reqwest = { version = "*", default-features = false }
serde_json = "*"
thiserror = "*"
tokio = { version = "*", features = ["rt-multi-thread", "sync"] }
tui-realm-stdlib = "*"
tuirealm = "*"
