//! Core image container and pixel-level operations of Leptonica, with
//! machine-checked contracts.
//!
//! The central type is [`Pix`], an image made of 32-bit words in which the
//! pixels of each row are packed from the most significant bit down.

pub mod error;
pub mod color;
pub mod colormap;
pub mod box_;
pub mod numa;
pub mod pta;
pub mod pix;

pub use error::{Error, Result};
pub use colormap::PixColormap;
pub use box_::{Box, Boxa};
pub use numa::{Numa, Numaa};
pub use pta::{Pta, Ptaa};
pub use pix::{Pix, PixMut, PixelDepth, ImageFormat, InitColor, PixModel, RopOp, InColor, Color, ContourOutput, PixelOp, SpixHeader};
