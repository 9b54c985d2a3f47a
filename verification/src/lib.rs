//! Lossless conversion between the run-length encoded DATA image format and
//! PNG.
//!
//! A PNG image comes as packed samples of one to sixteen bits in one of five
//! color types. `unpack` spreads them to a byte a sample, `png` holds them
//! and cuts them into chunks on boundaries that the packing allows, and
//! `png_chunk` turns a chunk into RGB or RGBA samples of eight bits. `rle`
//! and `convert` read and write the records of the DATA format, `codec`
//! reaches the PNG container through the `png` crate. `round_trip` and
//! `chunking` state what holds of these together: what was written is read
//! back, and how an image is cut into chunks changes nothing about its
//! pixels.

pub mod chunking;
pub mod codec;
pub mod convert;
pub mod error;
pub mod format;
pub mod math;
pub mod png;
pub mod png_chunk;
pub mod rle;
pub mod round_trip;
pub mod unpack;
