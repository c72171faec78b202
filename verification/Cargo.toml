[package]
name = "solana_falcon512"
version = "0.1.0"
edition = "2021"
publish = false

[dependencies]
solana-account-info = "*"
solana-program-entrypoint = "*"
solana-program-error = "*"
solana-pubkey = "*"

[dev-dependencies]
pqcrypto-falcon = "*"
pqcrypto-traits = "*"
