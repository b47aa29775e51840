[package]
name = "esp_idf_smtp"
version = "0.4.1"
edition = "2021"
publish = false

[dependencies]
base64 = "0.22"
thiserror = "2"
log = "0.4"
esp-idf-svc = { version = "*", default-features = false }
