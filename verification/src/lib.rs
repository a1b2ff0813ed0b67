//! The bookkeeping of an off-screen glTF renderer: turning a document into a
//! model, describing the GPU objects that draw it, recording the render pass
//! and reading the frame back.
//!
//! Coordinates are held as bit patterns of single-precision numbers. The
//! library orders them and moves them about; it does not calculate with them.

pub mod align;
pub mod bounds;
pub mod bytes;
pub mod draw;
pub mod formats;
pub mod frustum;
pub mod gpu;
pub mod images;
pub mod materials;
pub mod mesh;
pub mod model;
pub mod readback;
pub mod scene;
pub mod single;
pub mod uniform;
pub mod vertex;
