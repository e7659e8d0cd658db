[package]
name = "vcf_to_bed"
version = "0.1.0"
edition = "2021"
publish = false

[dependencies]
flate2 = "*"
serde_json = "*"
vcf = "*"
