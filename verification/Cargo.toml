[package]
name = "interactive_voronoi"
version = "0.1.0"
edition = "2021"
publish = false

[dependencies]
rand = "*"
delaunay2d = "*"
getopts = "*"
piston_window = "*"
piston2d-graphics = "*"
piston2d-opengl_graphics = "*"
piston2d-touch_visualizer = "*"
