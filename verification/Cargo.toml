[package]
name = "js_semantic"
version = "0.1.0"
edition = "2021"
publish = false

[dependencies]
biome_js_syntax = "=0.5.7"
biome_rowan = "=0.5.7"
biome_diagnostics = "=0.5.7"
biome_parser = "=0.5.7"
biome_js_parser = "=0.5.7"
bpaf = "=0.9.28"
