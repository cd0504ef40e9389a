[package]
name = "pushbox"
version = "0.1.0"
edition = "2021"
publish = false

[dependencies]
rand = "0.8"
gtk4 = "0.4"
gdk4 = "0.4"
glib = "0.15"
