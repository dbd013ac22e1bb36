//! The two file formats that the gallery shows.

pub mod binary_stl;
pub mod mesh;
pub mod stl;
pub mod threemf;
