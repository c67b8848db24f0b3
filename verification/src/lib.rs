//! Frame encoder for a small LED-matrix display driven over a serial link.
//!
//! A raster of RGB pixels is reduced to a bounded palette plus a stream of
//! palette indices, the indices are bit-packed at the minimum width the
//! palette needs, and the result is wrapped in the checksummed, delimited
//! envelope of the device's serial protocol. Every step is a pure function
//! over its inputs and carries a contract; the serial port itself is the
//! caller's business.

pub mod bits;
pub mod color;
pub mod encoder;
pub mod framing;
pub mod palette;
