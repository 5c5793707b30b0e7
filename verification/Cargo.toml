[package]
name = "hpo_insight"
version = "0.1.0"
edition = "2021"
publish = false

[dependencies]
anyhow = "1"
csv = "1"
fanova = "*"
hporecord = "*"
itertools = "*"
ordered-float = "*"
rlua = "*"
serde = { version = "1", features = ["derive"] }
serde_json = "1"
structopt = "0.3"
