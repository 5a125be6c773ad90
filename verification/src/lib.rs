//! Codec for the graphics container format of the classic game Lemmings:
//! bit-packed, reverse-order LZ "DAT" sections, planar (bit-plane) bitmap
//! images, BMP file framing, fixed-layout metadata headers, palettes, and the
//! declarative theme-script language that drives round-tripping.
//!
//! The crate holds the pure logic: everything operates on in-memory byte
//! buffers and values.  File and console input/output live with the caller.
#![allow(unused_imports)]
use vstd::prelude::*;

pub mod binary_io;
pub mod dat_section;
pub mod bitmath;
pub mod graphics_set;
pub mod main_dat;
pub mod parser;
pub mod planar_bmp;

verus! {

/// The failure conditions of the readers, codecs and parsers of this crate.
#[derive(Clone, Copy, PartialEq, Eq, Structural, Debug)]
pub enum LemError {
    /// A read ran past the end of the available bytes.
    UnexpectedEof,
    /// A DAT section's stored checksum does not match its payload.
    ChecksumMismatch,
    /// A DAT section header carries sizes or a bit count that no section
    /// can have.
    BadSectionHeader,
    /// A script token was not the one the grammar expects.
    UnexpectedToken,
    /// A script ended in the middle of a directive.
    UnexpectedEnd,
    /// A bitmap file is not an uncompressed bottom-up BMP at a supported
    /// bit depth.
    BadBitmap,
    /// An object or palette block names a property the grammar does not know.
    UnknownProperty,
}

} // verus!
