use vstd::prelude::*;

pub mod color;
pub mod sorting;
pub mod screen_points;
pub mod layering;
pub mod shading;
pub mod rows;
pub mod matrix;
pub mod triangles;
pub mod server;
pub mod order;
pub mod illumination;
pub mod painting;
pub mod obj;
pub mod polygon;
