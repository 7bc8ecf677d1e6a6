[package]
name = "azul_xml"
version = "0.1.0"
edition = "2021"
publish = false

[dependencies]
xmlparser = "=0.8.1"
