[package]
name = "broccoli"
version = "0.1.0"
edition = "2021"
publish = false

[dependencies]
axgeom = "=1.13.2"
compt = "=2.1.0"
itertools = "=0.15.0"
rayon = "=1.12.0"
twounordered = "=0.7.1"
duckduckgeo = "=0.3.1"
gnuplot = "=0.0.46"
