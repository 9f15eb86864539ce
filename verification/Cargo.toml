[package]
name = "tuan"
version = "0.1.0"
edition = "2021"
publish = false

[dependencies]
base64 = "=0.23.1"
convert_case = "=0.12.0"
ordered-float = "=5.5.0"
oxc_allocator = "=0.139.0"
oxc_ast = "=0.139.0"
oxc_ast_visit = "=0.139.0"
oxc_parser = { version = "=0.139.0", features = ["benchmarking"] }
oxc_resolver = "=11.24.3"
oxc_span = "=0.139.0"
path-clean = "=1.0.1"
rayon = "=1.12.0"
serde_json = "=1.0.151"
sourcemap = "=9.3.2"
walkdir = "=2.5.0"
