[package]
name = "chore_board"
version = "0.1.0"
edition = "2021"
publish = false

[dependencies]
chrono = "=0.4.45"
dotenv = "=0.15.0"
log = "=0.4.35"
once_cell = "=1.21.4"
pretty_env_logger = "=0.4.0"
serde = { version = "=1.0.229", features = ["derive"] }
serde_any = { version = "=0.5.0", default-features = false, features = ["json"] }
takecell = "=0.1.1"
teloxide = { version = "=0.10.1", default-features = false, features = ["macros", "auto-send", "rustls", "ctrlc_handler"] }
tokio = { version = "=1.54.1", features = ["rt-multi-thread", "macros"] }
tokio-cron-scheduler = "=0.5.0"
