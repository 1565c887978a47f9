//! Labeled webcam photos: a gallery of labeled reference photos, a
//! nearest-neighbour classifier over raw pixels, an ASCII-art renderer and a
//! cyclic label menu.

pub mod raster;

pub mod distance;

pub mod vote;

pub mod order;

pub mod gallery;

pub mod menu;

pub mod codec;

pub mod render;
