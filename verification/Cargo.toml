[package]
name = "tmtinker"
version = "0.1.0"
edition = "2021"
publish = false

[dependencies]
slotmap = "1"
serde = { version = "1", features = ["derive"] }
serde_json = "1"
thiserror = "2"
paste = "1"
egui = { version = "*", default-features = false, features = ["default_fonts"] }
eframe = { version = "*", default-features = false, features = ["glow", "default_fonts"] }
