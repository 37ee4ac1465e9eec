[package]
name = "motion_matching"
version = "0.1.0"
edition = "2021"
publish = false

[dependencies]
bvh_anim = "=0.4.0"
serde = { version = "=1.0.229", features = ["derive"] }
serde_json = "=1.0.154"
glam = { version = "=0.29.3", features = ["serde"] }
kdtree = "=0.7.0"
clustering = "=0.2.2"
csv = "=1.4.0"
thiserror = "=1.0.69"
