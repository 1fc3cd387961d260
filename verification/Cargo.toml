[package]
name = "ao_analysis"
version = "0.1.0"
edition = "2021"
publish = false

[dependencies]
chrono = "0.4"
serde = { version = "1", features = ["derive"] }
serde_json = "1"
toml = "0.8"
tracing = "0.1"
tracing-subscriber = { version = "0.3", features = ["env-filter"] }
leptos = { version = "0.8", features = ["ssr"] }
leptos_meta = "0.8"
leptos_router = "0.8"
leptos_axum = "0.8"
axum = "0.8"
tokio = { version = "1", features = ["rt-multi-thread", "macros"] }
