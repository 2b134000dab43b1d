//! Image creation from templates and copying of metadata between images.

use vstd::prelude::*;
use vstd::string::StringExecFns;
use super::{Pix, PixMut, PixelDepth, InitColor};
use super::model::{PixModel, new_ok};
use crate::colormap::{PixColormap, CmapModel};
use crate::error::{Error, Result};

verus! {

/// The single colormap entry of an image made by `new_with_colormap`.
pub open spec fn init_entry(c: InitColor) -> (u8, u8, u8, u8) {
    if c == InitColor::White {
        (255, 255, 255, 255)
    } else {
        (0, 0, 0, 255)
    }
}

impl Pix {
    /// Create a new PIX with the same dimensions and metadata as the source.
    ///
    /// The image data is initialized to zero. Copies resolution, colormap,
    /// text, input format, and spp from the source.
    pub fn create_template(&self) -> (r: Pix)
        requires
            self@.wf(),
        ensures
            r@.wf(),
            r@.all_zero(),
            r@ == (PixModel { special: 0, data: r@.data, ..self@ }),
    {
        proof {
            self@.lemma_new_ok();
        }
        let mut m = match PixMut::new(self.width(), self.height(), self.depth()) {
            Ok(m) => m,
            Err(_) => {
                proof {
                    assert(false);
                }
                return self.deep_clone();
            },
        };
        let ghost m0 = m@;
        m.set_resolution(self.xres(), self.yres());
        m.set_spp(self.spp());
        m.set_informat(self.informat());
        let text = match self.text() {
            Some(t) => Some(t.to_owned()),
            None => None,
        };
        m.set_text(text);
        let cmap = match self.colormap() {
            Some(c) => Some(c.duplicate()),
            None => None,
        };
        let _ = m.set_colormap(cmap);
        proof {
            assert forall|x: int, y: int| m@.contains(x, y) implies #[trigger] m@.pixel(x, y) == 0 by {
                assert(m@.pixel(x, y) == m0.pixel(x, y));
            }
        }
        m.into_pix()
    }

    /// Create a new PIX with a colormap initialized to the given color.
    ///
    /// All pixels are initialized to 0 (the first colormap entry).
    /// The colormap's only entry is `init_color`.
    ///
    /// # Errors
    ///
    /// [`Error::UnsupportedDepth`] unless the depth is 2, 4 or 8;
    /// [`Error::InvalidDimension`] if the image cannot be made.
    pub fn new_with_colormap(width: u32, height: u32, depth: PixelDepth, init_color: InitColor) -> (r: Result<Pix>)
        ensures
            r is Ok <==> (depth == PixelDepth::Bit2 || depth == PixelDepth::Bit4 || depth == PixelDepth::Bit8)
                && new_ok(width, height, depth),
            r matches Err(e) ==> if !(depth == PixelDepth::Bit2 || depth == PixelDepth::Bit4 || depth
                == PixelDepth::Bit8) {
                e == Error::UnsupportedDepth(depth.nbits())
            } else {
                e == (Error::InvalidDimension { width, height })
            },
            r matches Ok(p) ==> p@.all_zero() && p@.cmap == Some(CmapModel { depth: depth.nbits(), colors: seq![init_entry(init_color)] })
                && (PixModel { cmap: None, ..p@ }).is_fresh(width, height, depth),
    {
        if !(depth == PixelDepth::Bit2 || depth == PixelDepth::Bit4 || depth == PixelDepth::Bit8) {
            return Err(Error::UnsupportedDepth(depth.bits()));
        }
        let mut m = PixMut::new(width, height, depth)?;
        let ghost m0 = m@;
        let mut cmap = PixColormap::empty(depth.bits());
        let v: u8 = if init_color == InitColor::White {
            255
        } else {
            0
        };
        let _ = cmap.add_rgb(v, v, v);
        proof {
            assert(cmap@.colors =~= seq![init_entry(init_color)]);
        }
        let _ = m.set_colormap(Some(cmap));
        proof {
            assert forall|x: int, y: int| m@.contains(x, y) implies #[trigger] m@.pixel(x, y) == 0 by {
                assert(m@.pixel(x, y) == m0.pixel(x, y));
            }
            assert(PixModel { cmap: None, ..m@ } == m0);
        }
        Ok(m.into_pix())
    }

    /// Check if two PIX have the same width, height, and depth.
    pub fn sizes_equal(&self, other: &Pix) -> (r: bool)
        ensures
            r == self@.same_geometry(other@),
    {
        self.width() == other.width() && self.height() == other.height() && self.depth() == other.depth()
    }
}

impl PixMut {
    /// Copy colormap from another PIX.
    ///
    /// If the source has no colormap, the destination's colormap is removed.
    pub fn copy_colormap_from(&mut self, src: &Pix)
        requires
            old(self)@.wf(),
            src@.wf(),
            src@.cmap matches Some(c) ==> c.depth == old(self)@.depth.nbits(),
        ensures
            final(self)@ == (PixModel { cmap: src@.cmap, ..old(self)@ }),
    {
        let cmap = match src.colormap() {
            Some(c) => Some(c.duplicate()),
            None => None,
        };
        let _ = self.set_colormap(cmap);
    }

    /// Copy resolution (xres, yres) from another PIX.
    pub fn copy_resolution_from(&mut self, src: &Pix)
        ensures
            final(self)@ == (PixModel { xres: src@.xres, yres: src@.yres, ..old(self)@ }),
    {
        self.set_resolution(src.xres(), src.yres());
    }

    /// Copy the input format from another PIX.
    pub fn copy_input_format_from(&mut self, src: &Pix)
        ensures
            final(self)@ == (PixModel { informat: src@.informat, ..old(self)@ }),
    {
        self.set_informat(src.informat());
    }

    /// Append text to existing text.
    ///
    /// If no existing text, just sets the text.
    /// If `text` is None, this is a no-op.
    pub fn add_text(&mut self, text: Option<&str>)
        ensures
            final(self)@ == (PixModel {
                text: match text {
                    None => old(self)@.text,
                    Some(t) => match old(self)@.text {
                        Some(s) => Some(s + t@),
                        None => Some(t@),
                    },
                },
                ..old(self)@
            }),
    {
        match text {
            None => {},
            Some(t) => {
                let combined = match self.text() {
                    Some(s) => {
                        let mut c = s.to_owned();
                        c.append(t);
                        c
                    },
                    None => t.to_owned(),
                };
                self.set_text(Some(combined));
            },
        }
    }

    /// Copy text from another PIX.
    pub fn copy_text_from(&mut self, src: &Pix)
        ensures
            final(self)@ == (PixModel { text: src@.text, ..old(self)@ }),
    {
        let text = match src.text() {
            Some(t) => Some(t.to_owned()),
            None => None,
        };
        self.set_text(text);
    }
}

} // verus!
