[package]
name = "prism_lib"
version = "0.1.0"
edition = "2021"
publish = false

[dependencies]
anyhow = "1"
boa_engine = "*"
clap = { version = "4", features = ["derive"] }
csscolorparser = { version = "0.7", features = ["serde"] }
resvg = { version = "*", default-features = false }
serde = { version = "1", features = ["derive"] }
serde_yaml_ng = "*"
swc = "*"
swc_common = "*"
swc_ecma_ast = "*"
swc_ecma_parser = "*"
swc_ecma_transforms_typescript = "*"
thiserror = "*"
tiny-skia = "*"
usvg = { version = "*", default-features = false }
