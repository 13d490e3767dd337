[package]
name = "qai"
version = "0.1.0"
edition = "2021"
publish = false

[dependencies]
anyhow = "1"
async-openai = "0.10"
byteorder = "1"
docx-rust = "0.1"
dotenv = "0.15"
env_logger = "0.10"
futures = "0.3"
futures-util = "0.3"
lazy_static = "1"
log = "0.4"
opendal = { version = "0.39", features = ["services-sled"] }
pdfium-render = "0.8"
serde = { version = "1", features = ["derive"] }
tiktoken-rs = "0.4"
tokio = { version = "1", features = ["full"] }
warp = "0.3"
