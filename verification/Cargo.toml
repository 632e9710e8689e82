[package]
name = "service_bridge"
version = "0.1.0"
edition = "2021"
publish = false

[dependencies]
make87 = { version = "*", features = ["make87_messages", "protobuf"] }
make87_messages = "*"
ros2-client = "*"
ros2-interfaces-rolling = "*"
serde = { version = "*", features = ["derive"] }
tokio = { version = "*", features = ["macros", "rt-multi-thread"] }
uuid = { version = "*", features = ["v4"] }
