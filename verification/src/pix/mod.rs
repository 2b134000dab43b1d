//! PIX - the main image container.
//!
//! Image data is stored in 32-bit words; every row starts on a word
//! boundary and pixels are packed from the most significant bit down. For
//! 32-bit images the channel order is RGBA with red in the top byte.
//!
//! [`Pix`] shares its data through reference counting; to modify pixels,
//! turn it into a [`PixMut`] with [`Pix::try_into_mut`] or [`Pix::to_mut`],
//! and back with `Into<Pix>`.

pub mod model;
pub mod access;
pub(crate) mod raster;
pub mod rop;
pub mod arith;
pub mod compare;
pub mod clip;
pub mod mask;
pub mod rgb;
pub mod convert;
pub mod meta;
pub mod serial;
pub mod graphics;
pub mod histogram;
pub mod extract;
pub mod blend;
mod border;

pub use model::PixModel;
pub use rop::{RopOp, InColor};
pub use graphics::{Color, ContourOutput, PixelOp};
pub use serial::SpixHeader;
pub use histogram::ColorHistogram;
pub use extract::ProfileDirection;
pub use blend::{BlendMode, GrayBlendType, MaskBlendType, blend_with_gray_mask};

use vstd::prelude::*;
use std::sync::Arc;
use crate::error::{Error, Result, invalid_param};
use crate::colormap::{PixColormap, CmapModel};
use model::{new_ok, lemma_wpl_bounds, wpl_for, pmask, pshift, word_pixel, ppw, lemma_index_in_data};

verus! {

/// Initial color for [`Pix::new_with_colormap`] and border filling.
#[derive(Debug, Clone, Copy, PartialEq, Eq, Structural)]
pub enum InitColor {
    /// Black (R=G=B=0)
    Black,
    /// White (R=G=B=255)
    White,
}

/// Pixel depth (bits per pixel).
#[derive(Debug, Clone, Copy, PartialEq, Eq, Hash, Structural)]
pub enum PixelDepth {
    /// 1-bit binary image
    Bit1,
    /// 2-bit image (4 levels)
    Bit2,
    /// 4-bit image (16 levels)
    Bit4,
    /// 8-bit grayscale or indexed color
    Bit8,
    /// 16-bit grayscale
    Bit16,
    /// 32-bit RGB or RGBA
    Bit32,
}

impl PixelDepth {
    /// Number of bits per pixel.
    pub open spec fn nbits(self) -> u32 {
        match self {
            PixelDepth::Bit1 => 1,
            PixelDepth::Bit2 => 2,
            PixelDepth::Bit4 => 4,
            PixelDepth::Bit8 => 8,
            PixelDepth::Bit16 => 16,
            PixelDepth::Bit32 => 32,
        }
    }

    /// Whether a colormap may be attached at this depth.
    pub open spec fn cmap_ok(self) -> bool {
        self == PixelDepth::Bit1 || self == PixelDepth::Bit2 || self == PixelDepth::Bit4
            || self == PixelDepth::Bit8
    }

    /// Create a `PixelDepth` from a raw bit count.
    ///
    /// # Errors
    ///
    /// [`Error::InvalidDepth`] unless `bits` is 1, 2, 4, 8, 16 or 32.
    pub fn from_bits(bits: u32) -> (r: Result<Self>)
        ensures
            r is Ok <==> (bits == 1 || bits == 2 || bits == 4 || bits == 8 || bits == 16 || bits
                == 32),
            r matches Ok(d) ==> d.nbits() == bits,
            r matches Err(e) ==> e == Error::InvalidDepth(bits),
    {
        match bits {
            1 => Ok(PixelDepth::Bit1),
            2 => Ok(PixelDepth::Bit2),
            4 => Ok(PixelDepth::Bit4),
            8 => Ok(PixelDepth::Bit8),
            16 => Ok(PixelDepth::Bit16),
            32 => Ok(PixelDepth::Bit32),
            _ => Err(Error::InvalidDepth(bits)),
        }
    }

    /// Get the number of bits per pixel.
    #[verifier::when_used_as_spec(nbits)]
    pub fn bits(self) -> (b: u32)
        ensures
            b == self.nbits(),
    {
        match self {
            PixelDepth::Bit1 => 1,
            PixelDepth::Bit2 => 2,
            PixelDepth::Bit4 => 4,
            PixelDepth::Bit8 => 8,
            PixelDepth::Bit16 => 16,
            PixelDepth::Bit32 => 32,
        }
    }

    /// Check if a colormap is allowed for this depth (1, 2, 4 and 8 bpp).
    #[verifier::when_used_as_spec(cmap_ok)]
    pub fn colormap_allowed(self) -> (b: bool)
        ensures
            b == self.cmap_ok(),
    {
        match self {
            PixelDepth::Bit1 | PixelDepth::Bit2 | PixelDepth::Bit4 | PixelDepth::Bit8 => true,
            _ => false,
        }
    }

    /// Get the maximum pixel value representable at this depth.
    pub fn max_value(self) -> (v: u32)
        ensures
            v == pmask(self),
    {
        match self {
            PixelDepth::Bit1 => 1,
            PixelDepth::Bit2 => 3,
            PixelDepth::Bit4 => 15,
            PixelDepth::Bit8 => 255,
            PixelDepth::Bit16 => 0xffff,
            PixelDepth::Bit32 => 0xffff_ffff,
        }
    }
}

/// Image file format.
#[derive(Debug, Clone, Copy, PartialEq, Eq, Hash, Structural)]
pub enum ImageFormat {
    /// Unknown format
    Unknown,
    /// BMP format
    Bmp,
    /// JFIF JPEG format
    Jpeg,
    /// PNG format
    Png,
    /// TIFF format
    Tiff,
    /// TIFF with packbits compression
    TiffPackbits,
    /// TIFF with RLE compression
    TiffRle,
    /// TIFF with G3 fax compression
    TiffG3,
    /// TIFF with G4 fax compression
    TiffG4,
    /// TIFF with LZW compression
    TiffLzw,
    /// TIFF with ZIP compression
    TiffZip,
    /// PNM format
    Pnm,
    /// Postscript
    Ps,
    /// GIF format
    Gif,
    /// JPEG 2000
    Jp2,
    /// WebP format
    WebP,
    /// LPDF format
    Lpdf,
    /// TIFF with JPEG compression
    TiffJpeg,
    /// Default format
    Default,
    /// Serialized PIX format
    Spix,
}

impl Default for ImageFormat {
    fn default() -> (f: Self)
        ensures
            f == ImageFormat::Unknown,
    {
        ImageFormat::Unknown
    }
}

impl ImageFormat {
    /// Get the file extension for this format.
    pub fn extension(self) -> (e: &'static str)
        ensures
            e@ == format_extension(self),
    {
        match self {
            ImageFormat::Unknown => "dat",
            ImageFormat::Bmp => "bmp",
            ImageFormat::Jpeg => "jpg",
            ImageFormat::Png => "png",
            ImageFormat::Tiff | ImageFormat::TiffPackbits | ImageFormat::TiffRle
            | ImageFormat::TiffG3 | ImageFormat::TiffG4 | ImageFormat::TiffLzw
            | ImageFormat::TiffZip | ImageFormat::TiffJpeg => "tif",
            ImageFormat::Pnm => "pnm",
            ImageFormat::Ps => "ps",
            ImageFormat::Gif => "gif",
            ImageFormat::Jp2 => "jp2",
            ImageFormat::WebP => "webp",
            ImageFormat::Lpdf => "pdf",
            ImageFormat::Default => "png",
            ImageFormat::Spix => "spix",
        }
    }
}

/// The file extension of each format.
pub open spec fn format_extension(f: ImageFormat) -> Seq<char> {
    match f {
        ImageFormat::Unknown => "dat"@,
        ImageFormat::Bmp => "bmp"@,
        ImageFormat::Jpeg => "jpg"@,
        ImageFormat::Png => "png"@,
        ImageFormat::Tiff | ImageFormat::TiffPackbits | ImageFormat::TiffRle
        | ImageFormat::TiffG3 | ImageFormat::TiffG4 | ImageFormat::TiffLzw
        | ImageFormat::TiffZip | ImageFormat::TiffJpeg => "tif"@,
        ImageFormat::Pnm => "pnm"@,
        ImageFormat::Ps => "ps"@,
        ImageFormat::Gif => "gif"@,
        ImageFormat::Jp2 => "jp2"@,
        ImageFormat::WebP => "webp"@,
        ImageFormat::Lpdf => "pdf"@,
        ImageFormat::Default => "png"@,
        ImageFormat::Spix => "spix"@,
    }
}

/// Internal PIX data.
#[derive(Debug)]
struct PixData {
    width: u32,
    height: u32,
    depth: PixelDepth,
    spp: u32,
    wpl: u32,
    xres: i32,
    yres: i32,
    informat: ImageFormat,
    special: i32,
    text: Option<String>,
    colormap: Option<PixColormap>,
    data: Vec<u32>,
}

impl PixData {
    closed spec fn model(self) -> PixModel {
        PixModel {
            width: self.width,
            height: self.height,
            depth: self.depth,
            spp: self.spp,
            wpl: self.wpl,
            xres: self.xres,
            yres: self.yres,
            informat: self.informat,
            special: self.special,
            text: match self.text {
                Some(s) => Some(s@),
                None => None,
            },
            cmap: match self.colormap {
                Some(c) => Some(c@),
                None => None,
            },
            data: self.data@,
        }
    }

    /// A copy with the same content.
    fn duplicate(&self) -> (r: PixData)
        ensures
            r.model() == self.model(),
    {
        let text = match &self.text {
            Some(s) => Some(s.clone()),
            None => None,
        };
        let colormap = match &self.colormap {
            Some(c) => Some(c.duplicate()),
            None => None,
        };
        PixData {
            width: self.width,
            height: self.height,
            depth: self.depth,
            spp: self.spp,
            wpl: self.wpl,
            xres: self.xres,
            yres: self.yres,
            informat: self.informat,
            special: self.special,
            text,
            colormap,
            data: self.data.clone(),
        }
    }
}

/// Words per line for an image of the given width and depth.
fn compute_wpl(width: u32, depth: PixelDepth) -> (wpl: u32)
    ensures
        wpl == wpl_for(width as int, depth),
{
    let b = depth.bits();
    assert((width as u64) * (b as u64) <= 0xffff_ffff * 32) by (nonlinear_arith)
        requires
            b <= 32,
    ;
    let bits_per_line: u64 = (width as u64) * (b as u64);
    ((bits_per_line + 31) / 32) as u32
}

/// PIX - main image container.
///
/// `Pix` shares its data through reference counting: `clone()` is cheap,
/// and the data is copied only when mutable access is taken.
#[derive(Debug)]
pub struct Pix {
    inner: Arc<PixData>,
}

impl View for Pix {
    type V = PixModel;

    closed spec fn view(&self) -> PixModel {
        self.inner.model()
    }
}

/// Mutable PIX: exclusive access to image data.
#[derive(Debug)]
pub struct PixMut {
    inner: PixData,
}

impl View for PixMut {
    type V = PixModel;

    closed spec fn view(&self) -> PixModel {
        self.inner.model()
    }
}

/// Shares the data of an image: a new handle on the same content.
#[verifier::external_body]
fn arc_share(a: &Arc<PixData>) -> (r: Arc<PixData>)
    ensures
        r == *a,
{
    Arc::clone(a)
}

/// Takes the data out of its shared cell when no other handle exists.
#[verifier::external_body]
fn arc_take(a: Arc<PixData>) -> (r: std::result::Result<PixData, Arc<PixData>>)
    ensures
        r matches Ok(d) ==> d == a,
        r matches Err(b) ==> b == a,
{
    Arc::try_unwrap(a)
}

/// The number of handles that share the data: std's `Arc::strong_count`,
/// which counts `a` itself, so it is at least 1. How many other handles
/// exist depends on the program's run and is not stated.
#[verifier::external_body]
fn arc_count(a: &Arc<PixData>) -> (n: usize)
    ensures
        n >= 1,
{
    Arc::strong_count(a)
}

impl Clone for Pix {
    /// A new handle on the same image data (no copy is made).
    fn clone(&self) -> (r: Self)
        ensures
            r@ == self@,
    {
        Pix { inner: arc_share(&self.inner) }
    }
}

impl Pix {
    /// Create a new PIX with the specified dimensions and depth, all data 0.
    ///
    /// # Errors
    ///
    /// [`Error::InvalidDimension`] if width or height is 0 (or the image is
    /// too large to address).
    pub fn new(width: u32, height: u32, depth: PixelDepth) -> (r: Result<Self>)
        ensures
            r is Ok <==> new_ok(width, height, depth),
            r matches Ok(p) ==> p@.is_fresh(width, height, depth) && p@.all_zero(),
            r matches Err(e) ==> e == (Error::InvalidDimension { width, height }),
    {
        match PixMut::new(width, height, depth) {
            Ok(m) => Ok(m.into_pix()),
            Err(e) => Err(e),
        }
    }

    /// Get the image width in pixels.
    pub fn width(&self) -> (r: u32)
        ensures
            r == self@.width,
    {
        self.inner.width
    }

    /// Get the image height in pixels.
    pub fn height(&self) -> (r: u32)
        ensures
            r == self@.height,
    {
        self.inner.height
    }

    /// Get the pixel depth.
    pub fn depth(&self) -> (r: PixelDepth)
        ensures
            r == self@.depth,
    {
        self.inner.depth
    }

    /// Get the samples per pixel.
    pub fn spp(&self) -> (r: u32)
        ensures
            r == self@.spp,
    {
        self.inner.spp
    }

    /// Get the words per line.
    pub fn wpl(&self) -> (r: u32)
        ensures
            r == self@.wpl,
    {
        self.inner.wpl
    }

    /// Get the X resolution (ppi).
    pub fn xres(&self) -> (r: i32)
        ensures
            r == self@.xres,
    {
        self.inner.xres
    }

    /// Get the Y resolution (ppi).
    pub fn yres(&self) -> (r: i32)
        ensures
            r == self@.yres,
    {
        self.inner.yres
    }

    /// Get the input file format.
    pub fn informat(&self) -> (r: ImageFormat)
        ensures
            r == self@.informat,
    {
        self.inner.informat
    }

    /// Get the special field.
    pub fn special(&self) -> (r: i32)
        ensures
            r == self@.special,
    {
        self.inner.special
    }

    /// Get the associated text.
    pub fn text(&self) -> (r: Option<&str>)
        ensures
            r is Some <==> self@.text is Some,
            r matches Some(s) ==> self@.text == Some(s@),
    {
        match &self.inner.text {
            Some(s) => Some(s.as_str()),
            None => None,
        }
    }

    /// Check whether this image has a colormap attached.
    pub fn has_colormap(&self) -> (r: bool)
        ensures
            r == self@.cmap is Some,
    {
        self.inner.colormap.is_some()
    }

    /// Get a reference to the image's colormap, if present.
    pub fn colormap(&self) -> (r: Option<&PixColormap>)
        ensures
            r is Some <==> self@.cmap is Some,
            r matches Some(c) ==> self@.cmap == Some(c@),
    {
        match &self.inner.colormap {
            Some(c) => Some(c),
            None => None,
        }
    }

    /// Get raw access to the image data.
    pub fn data(&self) -> (r: &[u32])
        ensures
            r@ == self@.data,
    {
        self.inner.data.as_slice()
    }

    /// Get the number of handles sharing this image's data (this one
    /// included).
    pub fn ref_count(&self) -> (r: usize)
        ensures
            r >= 1,
    {
        arc_count(&self.inner)
    }

    /// Get the words of row `y`.
    pub fn row_data(&self, y: u32) -> (r: &[u32])
        requires
            self@.wf(),
            y < self@.height,
        ensures
            r@ == self@.data.subrange(y * self@.wpl, y * self@.wpl + self@.wpl),
    {
        proof {
            lemma_wpl_bounds(self@.width as int, self@.depth);
            lemma_index_in_data(self@.wpl as int, self@.height as int, y as int, 0);
        }
        let n = self.inner.data.len();
        let wpl = self.inner.wpl as usize;
        let start = (y as usize) * wpl;
        vstd::slice::slice_subrange(self.inner.data.as_slice(), start, start + wpl)
    }

    /// Create a deep copy of this PIX, with its own data.
    pub fn deep_clone(&self) -> (r: Self)
        ensures
            r@ == self@,
    {
        Pix { inner: Arc::new(self.inner.duplicate()) }
    }

    /// Try to get mutable access to the image data.
    ///
    /// Succeeds when no other handle shares the data; otherwise gives the
    /// image back unchanged.
    pub fn try_into_mut(self) -> (r: std::result::Result<PixMut, Self>)
        ensures
            r matches Ok(m) ==> m@ == self@,
            r matches Err(p) ==> p@ == self@,
    {
        match arc_take(self.inner) {
            Ok(data) => Ok(PixMut { inner: data }),
            Err(arc) => Err(Pix { inner: arc }),
        }
    }

    /// Create a mutable copy of this PIX.
    pub fn to_mut(&self) -> (r: PixMut)
        ensures
            r@ == self@,
    {
        PixMut { inner: self.inner.duplicate() }
    }
}

impl PixMut {
    /// Create a new mutable image with all data 0.
    ///
    /// # Errors
    ///
    /// [`Error::InvalidDimension`] if width or height is 0 (or the image is
    /// too large to address).
    pub fn new(width: u32, height: u32, depth: PixelDepth) -> (r: Result<Self>)
        ensures
            r is Ok <==> new_ok(width, height, depth),
            r matches Ok(p) ==> p@.is_fresh(width, height, depth) && p@.all_zero(),
            r matches Err(e) ==> e == (Error::InvalidDimension { width, height }),
    {
        if width == 0 || height == 0 {
            return Err(Error::InvalidDimension { width, height });
        }
        let wpl = compute_wpl(width, depth);
        let size = (wpl as usize).checked_mul(height as usize);
        let data_size = match size {
            Some(s) => s,
            None => {
                return Err(Error::InvalidDimension { width, height });
            },
        };
        let data = vec![0u32; data_size];
        let spp = match depth {
            PixelDepth::Bit32 => 3,
            _ => 1,
        };
        let p = PixMut {
            inner: PixData {
                width,
                height,
                depth,
                spp,
                wpl,
                xres: 0,
                yres: 0,
                informat: ImageFormat::Unknown,
                special: 0,
                text: None,
                colormap: None,
                data,
            },
        };
        proof {
            assert forall|x: int, y: int| p@.contains(x, y) implies #[trigger] p@.pixel(x, y)
                == 0 by {
                p@.lemma_pixel_index(x, y);
                let w = p@.data[p@.word_index(x, y)];
                assert(w == 0);
                model::lemma_pixel_field(depth, x);
                model::lemma_mask_facts(0, 0, pmask(depth), depth.nbits(), pshift(depth, x));
            }
        }
        Ok(p)
    }

    /// Turns the mutable image back into a shareable one.
    pub fn into_pix(self) -> (r: Pix)
        requires
            self@.wf(),
        ensures
            r@ == self@,
    {
        Pix { inner: Arc::new(self.inner) }
    }

    /// Get the image width.
    pub fn width(&self) -> (r: u32)
        ensures
            r == self@.width,
    {
        self.inner.width
    }

    /// Get the image height.
    pub fn height(&self) -> (r: u32)
        ensures
            r == self@.height,
    {
        self.inner.height
    }

    /// Get the pixel depth.
    pub fn depth(&self) -> (r: PixelDepth)
        ensures
            r == self@.depth,
    {
        self.inner.depth
    }

    /// Get samples per pixel.
    pub fn spp(&self) -> (r: u32)
        ensures
            r == self@.spp,
    {
        self.inner.spp
    }

    /// Get words per line.
    pub fn wpl(&self) -> (r: u32)
        ensures
            r == self@.wpl,
    {
        self.inner.wpl
    }

    /// Get the X resolution (ppi).
    pub fn xres(&self) -> (r: i32)
        ensures
            r == self@.xres,
    {
        self.inner.xres
    }

    /// Get the Y resolution (ppi).
    pub fn yres(&self) -> (r: i32)
        ensures
            r == self@.yres,
    {
        self.inner.yres
    }

    /// Get the input file format.
    pub fn informat(&self) -> (r: ImageFormat)
        ensures
            r == self@.informat,
    {
        self.inner.informat
    }

    /// Get the associated text.
    pub fn text(&self) -> (r: Option<&str>)
        ensures
            r is Some <==> self@.text is Some,
            r matches Some(s) ==> self@.text == Some(s@),
    {
        match &self.inner.text {
            Some(s) => Some(s.as_str()),
            None => None,
        }
    }

    /// Set the X resolution.
    pub fn set_xres(&mut self, xres: i32)
        ensures
            final(self)@ == (PixModel { xres, ..old(self)@ }),
    {
        self.inner.xres = xres;
    }

    /// Set the Y resolution.
    pub fn set_yres(&mut self, yres: i32)
        ensures
            final(self)@ == (PixModel { yres, ..old(self)@ }),
    {
        self.inner.yres = yres;
    }

    /// Set both resolutions.
    pub fn set_resolution(&mut self, xres: i32, yres: i32)
        ensures
            final(self)@ == (PixModel { xres, yres, ..old(self)@ }),
    {
        self.inner.xres = xres;
        self.inner.yres = yres;
    }

    /// Set the input format.
    pub fn set_informat(&mut self, format: ImageFormat)
        ensures
            final(self)@ == (PixModel { informat: format, ..old(self)@ }),
    {
        self.inner.informat = format;
    }

    /// Set the special field.
    pub fn set_special(&mut self, special: i32)
        ensures
            final(self)@ == (PixModel { special, ..old(self)@ }),
    {
        self.inner.special = special;
    }

    /// Set the text.
    pub fn set_text(&mut self, text: Option<String>)
        ensures
            final(self)@ == (PixModel {
                text: match text {
                    Some(s) => Some(s@),
                    None => None,
                },
                ..old(self)@
            }),
    {
        self.inner.text = text;
    }

    /// Set samples per pixel.
    pub fn set_spp(&mut self, spp: u32)
        ensures
            final(self)@ == (PixModel { spp, ..old(self)@ }),
    {
        self.inner.spp = spp;
    }

    /// Get raw access to the image data.
    pub fn data(&self) -> (r: &[u32])
        ensures
            r@ == self@.data,
    {
        self.inner.data.as_slice()
    }

    /// Get mutable access to the image data.
    pub fn data_mut(&mut self) -> (r: &mut [u32])
        ensures
            r@ == old(self)@.data,
            final(self)@ == (PixModel { data: final(r)@, ..old(self)@ }),
    {
        self.inner.data.as_mut_slice()
    }

    /// A copy with the same content.
    pub(crate) fn duplicate(&self) -> (r: PixMut)
        ensures
            r@ == self@,
    {
        PixMut { inner: self.inner.duplicate() }
    }

    /// Replaces the data words by `data`, of the same length.
    pub(crate) fn replace_data(&mut self, data: Vec<u32>)
        requires
            data@.len() == old(self)@.data.len(),
        ensures
            final(self)@ == (PixModel { data: data@, ..old(self)@ }),
    {
        self.inner.data = data;
    }

    /// Check whether this image has a colormap attached.
    pub fn has_colormap(&self) -> (r: bool)
        ensures
            r == self@.cmap is Some,
    {
        self.inner.colormap.is_some()
    }

    /// Get a reference to the image's colormap, if present.
    pub fn colormap(&self) -> (r: Option<&PixColormap>)
        ensures
            r is Some <==> self@.cmap is Some,
            r matches Some(c) ==> self@.cmap == Some(c@),
    {
        match &self.inner.colormap {
            Some(c) => Some(c),
            None => None,
        }
    }

    /// Set or remove the colormap.
    ///
    /// # Errors
    ///
    /// [`Error::ColormapNotAllowed`] at 16 and 32 bpp;
    /// [`Error::InvalidParameter`] if the colormap depth differs from the
    /// image depth.
    pub fn set_colormap(&mut self, cmap: Option<PixColormap>) -> (r: Result<()>)
        ensures
            r is Ok <==> (cmap matches Some(c) ==> old(self)@.depth.cmap_ok() && c@.depth
                == old(self)@.depth.nbits()),
            r is Ok ==> final(self)@ == (PixModel {
                cmap: match cmap {
                    Some(c) => Some(c@),
                    None => None,
                },
                ..old(self)@
            }),
            r is Err ==> final(self)@ == old(self)@,
            r matches Err(e) ==> (e is ColormapNotAllowed || e is InvalidParameter),
    {
        match &cmap {
            Some(cm) => {
                if !self.inner.depth.colormap_allowed() {
                    return Err(Error::ColormapNotAllowed(self.inner.depth.bits()));
                }
                if cm.depth() != self.inner.depth.bits() {
                    return Err(invalid_param("colormap depth does not match image depth"));
                }
            },
            None => {},
        }
        self.inner.colormap = cmap;
        Ok(())
    }

    /// Clear all pixels to zero.
    pub fn clear(&mut self)
        requires
            old(self)@.wf(),
        ensures
            final(self)@.wf(),
            final(self)@.same_meta(old(self)@),
            final(self)@.all_zero(),
            forall|i: int| 0 <= i < final(self)@.data.len() ==> #[trigger] final(self)@.data[i] == 0,
    {
        let ghost m0 = self@;
        fill_words(&mut self.inner.data, 0);
        proof {
            m0.lemma_fill_words(self@.data, 0);
        }
    }

    /// Set all pixels to one (every bit set).
    pub fn set_all(&mut self)
        requires
            old(self)@.wf(),
        ensures
            final(self)@.wf(),
            final(self)@.same_meta(old(self)@),
            forall|x: int, y: int|
                final(self)@.contains(x, y) ==> #[trigger] final(self)@.pixel(x, y) == pmask(
                    final(self)@.depth,
                ),
            forall|i: int| 0 <= i < final(self)@.data.len() ==> #[trigger] final(self)@.data[i] == 0xffff_ffffu32,
    {
        let ghost m0 = self@;
        fill_words(&mut self.inner.data, 0xffff_ffff);
        proof {
            m0.lemma_fill_words(self@.data, 0xffff_ffff);
        }
    }
}

/// Sets every word of `v` to `w`.
fn fill_words(v: &mut Vec<u32>, w: u32)
    ensures
        final(v)@.len() == old(v)@.len(),
        forall|i: int| 0 <= i < final(v)@.len() ==> #[trigger] final(v)@[i] == w,
{
    let n = v.len();
    let mut i: usize = 0;
    while i < n
        invariant
            n == v@.len(),
            i <= n,
            forall|j: int| 0 <= j < i ==> #[trigger] v@[j] == w,
        decreases n - i,
    {
        v.set(i, w);
        i = i + 1;
    }
}

impl PixModel {
    /// Data made of copies of one word `w` gives each pixel the field of `w`.
    pub proof fn lemma_fill_words(self, d: Seq<u32>, w: u32)
        requires
            self.wf(),
            d.len() == self.data.len(),
            forall|i: int| 0 <= i < d.len() ==> #[trigger] d[i] == w,
        ensures
            (PixModel { data: d, ..self }).wf(),
            (PixModel { data: d, ..self }).same_meta(self),
            forall|x: int, y: int|
                (PixModel { data: d, ..self }).contains(x, y) ==> #[trigger] (PixModel {
                    data: d,
                    ..self
                }).pixel(x, y) == word_pixel(w, self.depth, x),
            w == 0 ==> forall|x: int| 0 <= x ==> #[trigger] word_pixel(w, self.depth, x) == 0,
            w == 0xffff_ffff ==> forall|x: int|
                0 <= x ==> #[trigger] word_pixel(w, self.depth, x) == pmask(self.depth),
    {
        let m = PixModel { data: d, ..self };
        assert forall|x: int, y: int| m.contains(x, y) implies #[trigger] m.pixel(x, y)
            == word_pixel(w, self.depth, x) by {
            m.lemma_pixel_index(x, y);
        }
        assert forall|x: int| 0 <= x implies (w == 0 ==> #[trigger] word_pixel(w, self.depth, x)
            == 0) && (w == 0xffff_ffff ==> word_pixel(w, self.depth, x) == pmask(self.depth)) by {
            model::lemma_pixel_field(self.depth, x);
            model::lemma_mask_facts(w, 0, pmask(self.depth), self.depth.nbits(), pshift(self.depth, x));
        }
    }
}

impl From<PixMut> for Pix {
    fn from(pix_mut: PixMut) -> (r: Pix) {
        let a = Arc::new(pix_mut.inner);
        assert(same_data(a, pix_mut.inner));
        Pix { inner: a }
    }
}

impl vstd::std_specs::convert::FromSpecImpl<PixMut> for Pix {
    open spec fn obeys_from_spec() -> bool {
        true
    }

    open spec fn from_spec(v: PixMut) -> Pix {
        pix_of(v)
    }
}

/// A shared cell holding exactly `d`.
closed spec fn same_data(a: Arc<PixData>, d: PixData) -> bool {
    a == d
}

/// The image made from a mutable image by [`From`].
pub closed spec fn pix_of(v: PixMut) -> Pix {
    Pix { inner: choose|a: Arc<PixData>| #[trigger] same_data(a, v.inner) }
}

} // verus!
