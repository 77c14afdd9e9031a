[package]
name = "trie_storage"
version = "0.1.0"
edition = "2021"
publish = false

[dependencies]
hashbrown = "0.6"
libc = "0.2"
regex = "1"
