[package]
name = "thermocouple_logger"
version = "0.1.0"
edition = "2021"
publish = false

[dependencies]
chrono = "0.4"
serialport = { version = "4", default-features = false }
egui = { version = "0.27", default-features = false }
egui_plot = { version = "0.27", default-features = false }
