//! Loading of Wavefront OBJ models, their MTL material libraries and the
//! binary PPM (P6) textures that go with them, with the bookkeeping that a
//! renderer needs to draw such a model: triangulated faces, draw batches and
//! texture tables.

pub mod text;
pub mod error;
pub mod ppm;
pub mod mesh;
pub mod renderer;
pub mod mtl;
pub mod obj;
