[package]
name = "sudoku_sat"
version = "0.1.0"
edition = "2021"
publish = false

[dependencies]
rustsat = "=0.7.5"
rustsat-batsat = "=0.7.5"
batsat = "=0.6.0"
crossterm = "=0.29.0"
ratatui = "=0.30.2"
