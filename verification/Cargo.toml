[package]
name = "ecs_hierarchy"
version = "0.1.0"
edition = "2021"
publish = false

[dependencies]
disqualified = "1.0"
log = "0.4"
