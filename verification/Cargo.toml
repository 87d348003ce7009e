[package]
name = "humako"
version = "0.1.0"
edition = "2021"
publish = false

[dependencies]
chrono = { version = "=0.4.45", features = ["serde"] }
csv = "1"
diesel = { version = "2", features = ["postgres", "uuid", "chrono"] }
dotenv = "0.15"
iron = "0.6"
iron-cors = "0.8"
multipart = { version = "0.18", features = ["iron"] }
router = "0.6"
serde = { version = "1", features = ["derive"] }
serde_derive = "1"
serde_json = "1"
stringreader = "0.1"
uuid = { version = "1", features = ["v4", "serde"] }
