[package]
name = "gdb_funend"
version = "0.1.0"
edition = "2021"
publish = false

[dependencies]
gl = "0.14"
imgui = "0.7"
imgui-opengl-renderer = "0.11"
imgui-sdl2 = "0.14"
sdl2 = { version = "0.34", features = ["ttf"] }
