[package]
name = "marlowe_lsp"
version = "0.1.0"
edition = "2021"
publish = false

[dependencies]
marlowe_lang = "=0.1.25"
pest = "=2.9.2"
tower-lsp = "=0.20.0"
serde_json = "=1.0.151"
tokio = { version = "=1.53.2", features = ["macros", "io-std", "rt-multi-thread"] }
