//! Mesh loading for a four-dimensional wireframe viewer: the text format of
//! its mesh files, the index buffers built from them, and the decisions that
//! the viewer's window makes on each event.

pub mod decimal;
pub mod text;
pub mod wavefront;
pub mod mesh;
pub mod viewer;
