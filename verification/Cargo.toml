[package]
name = "solver"
version = "0.1.0"
edition = "2021"
publish = false

[dependencies]
indexmap = "=2.14.2"
stdweb = "=0.4.20"
web-sys = { version = "=0.3.106", features = ["HtmlInputElement", "HtmlTextAreaElement"] }
yew = { version = "=0.23.0", features = ["csr"] }
