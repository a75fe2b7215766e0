[package]
name = "code2graph"
version = "0.1.0"
edition = "2021"
publish = false

[dependencies]
tree-sitter = "=0.27.1"
tree-sitter-language = "=0.1.9"
tree-sitter-bash = "=0.25.1"
tree-sitter-c = "=0.24.2"
tree-sitter-cpp = "=0.23.4"
tree-sitter-go = "=0.25.0"
tree-sitter-hcl = "=1.1.0"
tree-sitter-java = "=0.23.5"
tree-sitter-kotlin-ng = "=1.1.0"
tree-sitter-php = "=0.25.1"
tree-sitter-python = "=0.25.0"
tree-sitter-ruby = "=0.23.1"
tree-sitter-rust = "=0.24.2"
tree-sitter-solidity = "=1.2.13"
thiserror = "=2.0.21"
scip = "*"
protobuf = "*"
