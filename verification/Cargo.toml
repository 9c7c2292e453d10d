[package]
name = "food_cache"
version = "0.1.0"
edition = "2021"
publish = false

[dependencies]
actix-web = "4"
diesel = { version = "*", features = ["mysql", "r2d2"] }
dotenv = "*"
env_logger = "*"
log = "*"
r2d2_redis = "*"
serde = { version = "1", features = ["derive"] }
