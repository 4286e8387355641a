[package]
name = "sleepyhead-kdl"
version = "0.1.0"
edition = "2021"
publish = false

[dependencies]
heapless = "0.7"
lexical = { version = "6", default-features = false, features = ["std", "parse-integers", "parse-floats", "format", "power-of-two"] }
memchr = "2"
logos = "0.12"
easybench = "1"
kdl = "4"
