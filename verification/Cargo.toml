[package]
name = "obj2brs"
version = "0.1.0"
edition = "2021"
publish = false

[dependencies]
brickadia = "*"
cgmath = "*"
clap = { version = "*", features = ["derive", "env"] }
dirs = "*"
enumflags2 = "*"
image = "*"
lazy_static = "*"
nalgebra = "*"
num_cpus = "*"
parry3d = "*"
rayon = "*"
thiserror = "*"
time = { version = "*", features = ["macros", "local-offset", "formatting"] }
tobj = "*"
tracing = "*"
tracing-subscriber = { version = "*", features = ["env-filter", "fmt", "ansi", "time", "local-time", "json"] }
uuid = "*"
