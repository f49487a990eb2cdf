[package]
name = "svmdev"
version = "0.1.0"
edition = "2021"
publish = false

[dependencies]
sha3 = "*"
secp256k1 = { version = "*", features = ["recovery"] }
rand = "*"
serde = { version = "*", features = ["derive"] }
serde_json = "*"
etcommon-bigint = "*"
etcommon-rlp = "*"
etcommon-bloom = "*"
etcommon-hexutil = "*"
etcommon-trie = "*"
etcommon-block = "*"
sputnikvm = "*"
sputnikvm-stateful = "*"
sputnikvm-network-classic = "*"
sputnikvm-network-foundation = "*"
sputnikvm-network-ellaism = "*"
sputnikvm-network-expanse = "*"
sputnikvm-network-musicoin = "*"
sputnikvm-network-ubiq = "*"
