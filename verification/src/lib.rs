//! Chunked datagram transport and a pixel-domain steganographic codec.
//!
//! The transport half splits a byte buffer into sequence-numbered frames,
//! collects frames in any arrival order and rebuilds the buffer. The codec
//! half dithers an image to two levels per channel, hides it in the low
//! nibbles of a cover image and lifts it back out.

pub mod frame;
pub mod reassembly;
pub mod transport;
pub mod raster;
pub mod dither;
pub mod codec;
