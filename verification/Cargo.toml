[package]
name = "ipa_personalizer"
version = "0.1.0"
edition = "2021"
publish = false

[dependencies]
zip = { version = "0.6", default-features = false, features = ["deflate"] }
walkdir = "2"
dialoguer = "0.10"
ureq = { version = "2", default-features = false, features = ["native-tls"] }
native-tls = "0.2"
plist_plus = "*"
rusty_libimobiledevice = "*"
