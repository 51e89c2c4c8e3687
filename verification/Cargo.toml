[package]
name = "nova_forms_demo"
version = "0.1.0"
edition = "2021"
publish = false

[dependencies]
nova-forms = "=0.1.11"
uuid = "=1.29.0"
leptos = "=0.6.15"
leptos_meta = "=0.6.15"
serde = { version = "=1.0.229", features = ["derive"] }
strum = { version = "=0.27.2", features = ["derive"] }
console_error_panic_hook = "0.1"
wasm-bindgen = "=0.2.129"
