[package]
name = "dom_query"
version = "0.1.0"
edition = "2021"
publish = false

[dependencies]
html5ever = "=0.29.1"
tendril = "=0.4.3"
selectors = "=0.26.0"
cssparser = "=0.34.0"
precomputed-hash = "=0.1.1"
