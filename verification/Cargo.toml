[package]
name = "conways_game_of_life"
version = "0.1.0"
edition = "2021"

[dependencies]
num = "0.4"
macroquad = "0.4"
