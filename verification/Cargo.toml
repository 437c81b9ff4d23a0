[package]
name = "genbench"
version = "0.1.0"
edition = "2021"
publish = false

[dependencies]
smallbitvec = "2"
criterion = { version = "0.5", default-features = false }
oorandom = "11"
beach_map = "*"
slab = "0.4"
slotmap = "1"
stable-vec = "*"
stash = "*"
id-vec = "*"
generational-arena = "*"
generational-indextree = "*"
