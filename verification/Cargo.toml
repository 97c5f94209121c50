[package]
name = "edr_eip712"
version = "0.1.0"
edition = "2021"
publish = false

[dependencies]
alloy-dyn-abi = { version = "=1.5.7", features = ["eip712"] }
napi = { version = "=3.16.1", features = ["napi6"] }
napi-derive = "=3.7.0"
rayon = "1"
revm = { version = "=34.0.0", default-features = false, features = ["std"] }
revm-inspectors = { version = "=0.34.4", default-features = false }
semver = "=1.0.28"
thiserror = "2"

# The release line that alloy-dyn-abi 1.5.7 belongs to: its members are built
# against each other, and a later one does not fit.
alloy-json-abi = { version = "=1.5.7", default-features = false }
alloy-primitives = { version = "=1.5.7", default-features = false }
alloy-sol-macro = { version = "=1.5.7", default-features = false }
alloy-sol-macro-expander = { version = "=1.5.7", default-features = false }
alloy-sol-macro-input = { version = "=1.5.7", default-features = false }
alloy-sol-type-parser = { version = "=1.5.7", default-features = false }
alloy-sol-types = { version = "=1.5.7", default-features = false }
