[package]
name = "car_mirror"
version = "0.1.0"
edition = "2021"
publish = false

[dependencies]
deterministic-bloom = "=0.1.0"
sha2 = "=0.11.0"
ipld-core = "=0.4.3"
serde_ipld_dagcbor = "=0.7.0"
ipld-dagpb = "=0.2.2"
serde = { version = "1", features = ["derive"] }
serde_json = "1"
data-encoding = "*"

[dev-dependencies]
iroh-car = "=0.5.1"
futures = "=0.3.34"
