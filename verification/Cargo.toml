[package]
name = "edon"
version = "0.1.0"
edition = "2021"
publish = false

[dependencies]
url = "=2.5.8"
queues = "=1.1.0"
anyhow = "=1.0.104"
reqwest = { version = "=0.13.5", default-features = false, features = ["blocking"] }
oxc_allocator = "=0.138.0"
oxc_ast = "=0.138.0"
oxc_codegen = "=0.138.0"
oxc_parser = "=0.138.0"
oxc_semantic = "=0.138.0"
oxc_span = "=0.138.0"
oxc_syntax = "=0.138.0"
oxc_transformer = "=0.138.0"
