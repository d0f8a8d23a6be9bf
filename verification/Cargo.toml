[package]
name = "biommap"
version = "0.1.0"
edition = "2021"
publish = false

[dependencies]
bstr = "=1.13.1"
memmap2 = "=0.9.12"

[dev-dependencies]
biotest = { version = "=0.2.0", features = ["fasta", "fastq"] }
