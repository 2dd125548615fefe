[package]
name = "libredu_timetable"
version = "0.1.0"
edition = "2021"
publish = false

[dependencies]
rand = "=0.8.8"
bcrypt = "=0.19.3"
sqlx = { version = "*", default-features = false, features = ["postgres", "runtime-tokio"] }
redis = "*"
genpdf = "*"
