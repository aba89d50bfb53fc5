[package]
name = "lcdump"
version = "0.1.0"
edition = "2021"
publish = false

[dependencies]
md5 = "=0.8.1"
base64 = "=0.23.1"
clap = "=2.34.0"
crossbeam = "=0.8.5"
num_cpus = "=1.17.0"
serde_json = "=1.0.151"
async-std = "=1.13.2"
futures-util = "=0.3.34"
futures = "=0.1.31"
clickhouse-rs = "=0.1.21"
light-curve-feature = "=0.8.1"
light-curve-interpol = "=0.1.1"
light-curve-common = "=0.1.1"
