[package]
name = "gameaboutsquares_solver"
version = "0.1.0"
edition = "2021"

[dependencies]
colored = "2"
pest = "2"
pest_derive = "2"
