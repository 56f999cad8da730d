[package]
name = "r0"
version = "0.1.0"
edition = "2021"
publish = false

[dependencies]
console_error_panic_hook = "=0.1.7"
cubecl = { version = "=0.9.0", default-features = false, features = ["std", "wgpu"] }
cubecl-wgpu = { version = "=0.9.0", default-features = false, features = ["std"] }
fs2 = "=0.4.3"
wasm-bindgen = "=0.2.130"
wasm-bindgen-futures = "=0.4.80"
web-time = "=1.1.0"

[dev-dependencies]
p3-baby-bear = "=0.4.3"
p3-dft = "=0.4.3"
p3-field = "=0.4.3"
p3-koala-bear = "=0.4.3"
