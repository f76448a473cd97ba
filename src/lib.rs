//! Halfedge polygon mesh engine: connectivity, triangulation, procedural
//! shape topology and render-buffer layout, with every operation stated as a
//! contract over a mathematical model of the mesh.

pub mod export;
pub mod icosphere;
pub mod identity;
pub mod merge;
pub mod mesh;
pub mod pipe;
pub mod shapes;
pub mod triangulation;
