[package]
name = "show_changed_tests"
version = "0.1.0"
edition = "2021"
publish = false

[dependencies]
clap = { version = "4", features = ["derive"] }
gherkin = "*"
git2 = { version = "*", default-features = false }
