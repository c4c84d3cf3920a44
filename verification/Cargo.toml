[package]
name = "riscv_page_tables"
version = "0.1.0"
edition = "2021"
publish = false
