[package]
name = "roqoqo_core"
version = "0.1.0"
edition = "2021"
publish = false

[dependencies]
roqoqo = "=1.22.2"
roqoqo-quest = "=0.19.0"
qoqo_calculator = "=1.9.0"
cobyla = "=1.0.4"
nalgebra = "=0.35.0"
num-complex = "=0.4.6"
ndarray = "=0.17.2"
