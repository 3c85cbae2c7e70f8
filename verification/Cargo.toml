[package]
name = "buprestidae"
version = "0.1.0"
edition = "2021"
publish = false

[dependencies]
lru_time_cache = "0.11"
textnonce = "1"
libreauth = "0.16"
time = "0.1"
chrono = "0.4"
pulldown-cmark = { version = "0.13", default-features = false, features = ["html"] }
slug = "0.1"
rocket = "0.5"
rocket_dyn_templates = { version = "0.2", features = ["handlebars"] }
diesel = { version = "2", features = ["postgres", "r2d2", "chrono"] }
dotenv = "0.15"
serde = { version = "1", features = ["derive"] }
log = "0.4"
env_logger = "0.11"
lazy_static = "1"
