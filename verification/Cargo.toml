[package]
name = "pls"
version = "0.1.0"
edition = "2021"
publish = false

[dependencies]
casual = "*"
clap = "4"
ctrlc = "3"
directories-next = "2"
native-tls = "0.2"
spinach = "2"
tegen = "*"
term-table = "1"
time = { version = "0.3", features = ["local-offset", "formatting", "macros"] }
ureq = { version = "2", features = ["native-tls"] }
yansi = "0.5"
