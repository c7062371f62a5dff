[package]
name = "umber"
version = "0.1.0"
edition = "2021"
publish = false

[dependencies]
clap = { version = "4", features = ["derive"] }
clap_complete = "4"
clap_mangen = "0.2"
crossterm = "*"
dark-light = "*"
eyre = "0.6"
palate = "*"
shlex = "1"
syntastica = "*"
syntastica-highlight = "*"
syntastica-parsers-git = "*"
syntastica-themes = "*"
