[package]
name = "gtk_ui_builder"
version = "0.1.0"
edition = "2021"
publish = false

[dependencies]
gtk4 = "0.4"
rhai = "1"
