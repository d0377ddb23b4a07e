[package]
name = "fixture_assert"
version = "0.1.0"
edition = "2021"
publish = false

[dependencies]
globwalk = "*"
predicates = "*"
predicates-core = "*"
predicates-tree = "*"
