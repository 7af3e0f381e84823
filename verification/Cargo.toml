[package]
name = "riz_package_tools"
version = "0.1.0"
edition = "2021"
publish = false

[dependencies]
serde = { version = "1", features = ["derive"] }
serde_json = "1"
zip = "*"
log = "0.4"
log4rs = "1"
tokio = { version = "1", features = ["rt-multi-thread", "macros", "time"] }
msgbox = "*"
native-dialog = "*"
