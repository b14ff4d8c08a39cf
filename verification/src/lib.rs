//! Decoders for the Spring map container and its tile archive, and the
//! engine that rebuilds the full map texture from both.
//!
//! The decoders are verified against a mathematical description of the two
//! wire formats, the texture engine against the placement of each
//! decompressed tile in the output raster. Decompression itself is the work
//! of the `texpresso` crate; what is taken on trust of it stands in `bc1`.

pub mod error;
pub mod wire;
pub mod smt;
pub mod smf;
pub mod bc1;
pub mod texture;
pub mod truncation;

pub use texture::extract_texture_32;
