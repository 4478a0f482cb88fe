[package]
name = "estimator"
version = "0.1.0"
edition = "2021"
publish = false

[dependencies]
conrod_core = "=0.76.1"
conrod_piston = "=0.76.1"
find_folder = "=0.3.0"
pistoncore-glutin_window = "=0.73.2"
piston2d-opengl_graphics = "0.78"
piston2d-graphics = "=0.40.0"
piston = "=1.0.0"
pistoncore-input = "=1.0.1"
