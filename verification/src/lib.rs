//! A verified codec for the QOI ("Quite OK Image") lossless image format.
//!
//! [`qoi_encode`] turns a raster of 8-bit RGB or RGBA pixels into a stream,
//! [`qoi_decode`] turns a stream back into a raster. What either returns is
//! stated by the functions `encoding` and `decoding`, and the module `laws`
//! proves what holds of the two together.

pub mod chunk;
pub mod context;
pub mod decode;
pub mod encode;
pub mod header;
pub mod laws;
pub mod pixel;
pub mod raster;

pub use chunk::Chunk;
pub use context::Context;
pub use decode::qoi_decode;
pub use encode::qoi_encode;
pub use header::{qoi_read_32, qoi_write_32, QOIHeader, QOI_LINEAR, QOI_SRGB};
pub use pixel::{qoi_color_hash, QOIRGBA};
