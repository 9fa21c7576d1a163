[package]
name = "oddments"
version = "0.1.0"
edition = "2021"
publish = false

[dependencies]
itertools = "0.15.0"
clap = "4.6.7"
colored = "3.1.1"
termion = "4.0.6"
text_io = "0.1.13"
prettytable-rs = "0.10.0"
cursive = "0.21.1"
log = "0.4.34"
simple-logging = "2"
