use leptonica_core::{Pix, PixelDepth, PixColormap};
use leptonica_core::color;
use leptonica_core::pix::convert::{MinMaxType, GrayConversionType, Convert16To8Type, Convert32To16Type, RemoveColormapTarget};

#[test]
fn test_convert_8bit_identity() {
    let pix = Pix::new(10, 10, PixelDepth::Bit8).unwrap();
    let result = pix.convert_to_8().unwrap();
    assert_eq!(result.depth(), PixelDepth::Bit8);
    assert_eq!(result.width(), 10);
    assert_eq!(result.height(), 10);
}

#[test]
fn test_convert_1bit_to_8() {
    let pix = Pix::new(10, 10, PixelDepth::Bit1).unwrap();
    let result = pix.convert_to_8().unwrap();
    assert_eq!(result.depth(), PixelDepth::Bit8);
    // All-zero 1-bit image -> all 255
    assert_eq!(result.get_pixel(0, 0), Some(255));
}

#[test]
fn test_convert_32bit_to_8() {
    let pix = Pix::new(5, 5, PixelDepth::Bit32).unwrap();
    let mut pix_mut = pix.try_into_mut().unwrap();
    // Set a known RGB value
    pix_mut.set_rgb(0, 0, 100, 100, 100).unwrap();
    let pix: Pix = pix_mut.into();

    let result = pix.convert_to_8().unwrap();
    assert_eq!(result.depth(), PixelDepth::Bit8);
    // 0.3*100 + 0.5*100 + 0.2*100 + 0.5 = 100.5 -> 100
    assert_eq!(result.get_pixel(0, 0), Some(100));
}

#[test]
fn test_convert_16bit_to_8() {
    let pix = Pix::new(5, 5, PixelDepth::Bit16).unwrap();
    let mut pix_mut = pix.try_into_mut().unwrap();
    pix_mut.set_pixel_unchecked(0, 0, 0xAB00);
    let pix: Pix = pix_mut.into();

    let result = pix.convert_to_8().unwrap();
    assert_eq!(result.get_pixel(0, 0), Some(0xAB));
}

#[test]
fn test_convert_32bit_identity() {
    let pix = Pix::new(10, 10, PixelDepth::Bit32).unwrap();
    let mut pix_mut = pix.try_into_mut().unwrap();
    pix_mut.set_rgb(0, 0, 100, 150, 200).unwrap();
    let pix: Pix = pix_mut.into();

    let result = pix.convert_to_32().unwrap();
    assert_eq!(result.depth(), PixelDepth::Bit32);
    let (r, g, b) = color::extract_rgb(result.get_pixel_unchecked(0, 0));
    assert_eq!((r, g, b), (100, 150, 200));
}

#[test]
fn test_convert_1bit_to_32() {
    let pix = Pix::new(10, 10, PixelDepth::Bit1).unwrap();
    let result = pix.convert_to_32().unwrap();
    assert_eq!(result.depth(), PixelDepth::Bit32);
    let (r, g, b) = color::extract_rgb(result.get_pixel_unchecked(0, 0));
    assert_eq!((r, g, b), (255, 255, 255));
}

#[test]
fn test_convert_8bit_to_32() {
    let pix = Pix::new(3, 1, PixelDepth::Bit8).unwrap();
    let mut pix_mut = pix.try_into_mut().unwrap();
    pix_mut.set_pixel_unchecked(0, 0, 0);
    pix_mut.set_pixel_unchecked(1, 0, 128);
    pix_mut.set_pixel_unchecked(2, 0, 255);
    let pix: Pix = pix_mut.into();

    let result = pix.convert_to_32().unwrap();
    assert_eq!(result.depth(), PixelDepth::Bit32);

    let (r, g, b) = color::extract_rgb(result.get_pixel_unchecked(0, 0));
    assert_eq!((r, g, b), (0, 0, 0));
    let (r, g, b) = color::extract_rgb(result.get_pixel_unchecked(1, 0));
    assert_eq!((r, g, b), (128, 128, 128));
    let (r, g, b) = color::extract_rgb(result.get_pixel_unchecked(2, 0));
    assert_eq!((r, g, b), (255, 255, 255));
}

#[test]
fn test_convert_to_32_preserves_dimensions() {
    for &depth in &[
        PixelDepth::Bit1,
        PixelDepth::Bit2,
        PixelDepth::Bit4,
        PixelDepth::Bit8,
        PixelDepth::Bit16,
        PixelDepth::Bit32,
    ] {
        let pix = Pix::new(17, 13, depth).unwrap();
        let result = pix.convert_to_32().unwrap();
        assert_eq!(result.depth(), PixelDepth::Bit32);
        assert_eq!(result.width(), 17, "width mismatch for {:?}", depth);
        assert_eq!(result.height(), 13, "height mismatch for {:?}", depth);
    }
}

#[test]
fn test_convert_rgb_to_luminance() {
    let pix = Pix::new(3, 1, PixelDepth::Bit32).unwrap();
    let mut pm = pix.try_into_mut().unwrap();
    pm.set_rgb(0, 0, 100, 100, 100).unwrap();
    pm.set_rgb(1, 0, 255, 0, 0).unwrap();
    pm.set_rgb(2, 0, 0, 255, 0).unwrap();
    let pix: Pix = pm.into();

    let gray = pix.convert_rgb_to_luminance().unwrap();
    assert_eq!(gray.depth(), PixelDepth::Bit8);
    assert_eq!(gray.width(), 3);
    // (0.3*100 + 0.5*100 + 0.2*100 + 0.5) = 100
    assert_eq!(gray.get_pixel(0, 0), Some(100));
    // (0.3*255 + 0.5*0 + 0.2*0 + 0.5) = 77
    assert_eq!(gray.get_pixel(1, 0), Some(77));
    // (0.3*0 + 0.5*255 + 0.2*0 + 0.5) = 128
    assert_eq!(gray.get_pixel(2, 0), Some(128));
}

#[test]
fn test_convert_rgb_to_gray_fast() {
    let pix = Pix::new(2, 1, PixelDepth::Bit32).unwrap();
    let mut pm = pix.try_into_mut().unwrap();
    pm.set_rgb(0, 0, 100, 150, 200).unwrap();
    pm.set_rgb(1, 0, 0, 255, 0).unwrap();
    let pix: Pix = pm.into();

    let gray = pix.convert_rgb_to_gray_fast().unwrap();
    assert_eq!(gray.depth(), PixelDepth::Bit8);
    // Fast uses green channel only
    assert_eq!(gray.get_pixel(0, 0), Some(150));
    assert_eq!(gray.get_pixel(1, 0), Some(255));
}

#[test]
fn test_convert_rgb_to_gray_min_max() {
    let pix = Pix::new(1, 1, PixelDepth::Bit32).unwrap();
    let mut pm = pix.try_into_mut().unwrap();
    pm.set_rgb(0, 0, 50, 100, 200).unwrap();
    let pix: Pix = pm.into();

    let min_gray = pix.convert_rgb_to_gray_min_max(MinMaxType::Min).unwrap();
    assert_eq!(min_gray.get_pixel(0, 0), Some(50));

    let max_gray = pix.convert_rgb_to_gray_min_max(MinMaxType::Max).unwrap();
    assert_eq!(max_gray.get_pixel(0, 0), Some(200));

    let diff_gray = pix
        .convert_rgb_to_gray_min_max(MinMaxType::MaxDiff)
        .unwrap();
    assert_eq!(diff_gray.get_pixel(0, 0), Some(150)); // 200 - 50

    // MinBoost: min(255, (50*50)/180) = min(255, 13) = 13
    let min_boost = pix
        .convert_rgb_to_gray_min_max(MinMaxType::MinBoost)
        .unwrap();
    assert_eq!(min_boost.get_pixel(0, 0), Some(13));

    // MaxBoost: min(255, (200*200)/180) = min(255, 222) = 222
    let max_boost = pix
        .convert_rgb_to_gray_min_max(MinMaxType::MaxBoost)
        .unwrap();
    assert_eq!(max_boost.get_pixel(0, 0), Some(222));
}

#[test]
fn test_convert_rgb_to_gray_sat_boost() {
    // Gray pixel: saturation=0, returns intensity
    let pix = Pix::new(1, 1, PixelDepth::Bit32).unwrap();
    let mut pm = pix.try_into_mut().unwrap();
    pm.set_rgb(0, 0, 128, 128, 128).unwrap();
    let pix: Pix = pm.into();

    let gray = pix.convert_rgb_to_gray_sat_boost(100).unwrap();
    assert_eq!(gray.get_pixel(0, 0), Some(128));
}

#[test]
fn test_convert_rgb_to_gray_sat_boost_invalid_refval() {
    let pix = Pix::new(1, 1, PixelDepth::Bit32).unwrap();
    assert!(pix.convert_rgb_to_gray_sat_boost(0).is_err());
    assert!(pix.convert_rgb_to_gray_sat_boost(256).is_err());
}

#[test]
fn test_convert_rgb_to_gray_preserves_resolution() {
    let pix = Pix::new(10, 10, PixelDepth::Bit32).unwrap();
    let mut pm = pix.try_into_mut().unwrap();
    pm.set_resolution(300, 300);
    let pix: Pix = pm.into();

    let gray = pix.convert_rgb_to_luminance().unwrap();
    assert_eq!(gray.xres(), 300);
    assert_eq!(gray.yres(), 300);
}

#[test]
fn test_remove_colormap_no_colormap() {
    // Image without colormap should return deep clone
    let pix = Pix::new(10, 10, PixelDepth::Bit8).unwrap();
    let result = pix
        .remove_colormap(RemoveColormapTarget::BasedOnSrc)
        .unwrap();
    assert_eq!(result.depth(), PixelDepth::Bit8);
    assert_eq!(result.width(), 10);
    assert_eq!(result.height(), 10);
    assert!(!result.has_colormap());
}

#[test]
fn test_remove_colormap_to_binary() {
    // 1 bpp with black/white colormap
    let pix = Pix::new(10, 10, PixelDepth::Bit1).unwrap();
    let mut pm = pix.try_into_mut().unwrap();
    let mut cmap = PixColormap::new(1).unwrap();
    cmap.add_rgb(0, 0, 0).unwrap(); // 0 -> black
    cmap.add_rgb(255, 255, 255).unwrap(); // 1 -> white
    pm.set_colormap(Some(cmap)).unwrap();
    let pix: Pix = pm.into();

    let result = pix.remove_colormap(RemoveColormapTarget::ToBinary).unwrap();
    assert_eq!(result.depth(), PixelDepth::Bit1);
    assert!(!result.has_colormap());
}

#[test]
fn test_remove_colormap_to_binary_inverted() {
    // 1 bpp with inverted colormap (0 -> white, 1 -> black)
    let pix = Pix::new(10, 10, PixelDepth::Bit1).unwrap();
    let mut pm = pix.try_into_mut().unwrap();
    let mut cmap = PixColormap::new(1).unwrap();
    cmap.add_rgb(255, 255, 255).unwrap(); // 0 -> white
    cmap.add_rgb(0, 0, 0).unwrap(); // 1 -> black
    pm.set_colormap(Some(cmap)).unwrap();
    let pix: Pix = pm.into();

    let result = pix.remove_colormap(RemoveColormapTarget::ToBinary).unwrap();
    assert_eq!(result.depth(), PixelDepth::Bit1);
    assert!(!result.has_colormap());
}

#[test]
fn test_remove_colormap_to_grayscale() {
    // 4 bpp with grayscale colormap
    let pix = Pix::new(10, 10, PixelDepth::Bit4).unwrap();
    let mut pm = pix.try_into_mut().unwrap();
    let cmap = PixColormap::create_linear(4, true).unwrap();
    pm.set_colormap(Some(cmap)).unwrap();
    let pix: Pix = pm.into();

    let result = pix
        .remove_colormap(RemoveColormapTarget::ToGrayscale)
        .unwrap();
    assert_eq!(result.depth(), PixelDepth::Bit8);
    assert!(!result.has_colormap());
}

#[test]
fn test_remove_colormap_to_full_color() {
    // 8 bpp with color colormap
    let pix = Pix::new(10, 10, PixelDepth::Bit8).unwrap();
    let mut pm = pix.try_into_mut().unwrap();
    let mut cmap = PixColormap::new(8).unwrap();
    cmap.add_rgb(255, 0, 0).unwrap(); // Red
    cmap.add_rgb(0, 255, 0).unwrap(); // Green
    cmap.add_rgb(0, 0, 255).unwrap(); // Blue
    pm.set_colormap(Some(cmap)).unwrap();
    let pix: Pix = pm.into();

    let result = pix
        .remove_colormap(RemoveColormapTarget::ToFullColor)
        .unwrap();
    assert_eq!(result.depth(), PixelDepth::Bit32);
    assert_eq!(result.spp(), 3); // RGB, no alpha
    assert!(!result.has_colormap());
}

#[test]
fn test_remove_colormap_with_alpha() {
    // 8 bpp with colormap that has alpha
    let pix = Pix::new(10, 10, PixelDepth::Bit8).unwrap();
    let mut pm = pix.try_into_mut().unwrap();
    let mut cmap = PixColormap::new(8).unwrap();
    cmap.add_rgba(255, 0, 0, 128).unwrap(); // Semi-transparent red
    cmap.add_rgba(0, 255, 0, 255).unwrap(); // Opaque green
    pm.set_colormap(Some(cmap)).unwrap();
    let pix: Pix = pm.into();

    let result = pix
        .remove_colormap(RemoveColormapTarget::WithAlpha)
        .unwrap();
    assert_eq!(result.depth(), PixelDepth::Bit32);
    assert_eq!(result.spp(), 4); // RGBA
    assert!(!result.has_colormap());
}

#[test]
fn test_remove_colormap_based_on_src_grayscale() {
    // 8 bpp with grayscale colormap -> should convert to 8 bpp gray
    let pix = Pix::new(10, 10, PixelDepth::Bit8).unwrap();
    let mut pm = pix.try_into_mut().unwrap();
    let cmap = PixColormap::create_linear(8, true).unwrap();
    pm.set_colormap(Some(cmap)).unwrap();
    let pix: Pix = pm.into();

    let result = pix
        .remove_colormap(RemoveColormapTarget::BasedOnSrc)
        .unwrap();
    assert_eq!(result.depth(), PixelDepth::Bit8);
    assert!(!result.has_colormap());
}

#[test]
fn test_remove_colormap_based_on_src_color() {
    // 8 bpp with color colormap -> should convert to 32 bpp
    let pix = Pix::new(10, 10, PixelDepth::Bit8).unwrap();
    let mut pm = pix.try_into_mut().unwrap();
    let mut cmap = PixColormap::new(8).unwrap();
    cmap.add_rgb(255, 0, 0).unwrap();
    cmap.add_rgb(0, 255, 0).unwrap();
    pm.set_colormap(Some(cmap)).unwrap();
    let pix: Pix = pm.into();

    let result = pix
        .remove_colormap(RemoveColormapTarget::BasedOnSrc)
        .unwrap();
    assert_eq!(result.depth(), PixelDepth::Bit32);
    assert!(!result.has_colormap());
}

#[test]
fn test_add_gray_colormap_8() {
    // Add linear grayscale colormap to 8 bpp image
    let pix = Pix::new(10, 10, PixelDepth::Bit8).unwrap();
    let result = pix.add_gray_colormap_8().unwrap();
    assert_eq!(result.depth(), PixelDepth::Bit8);
    assert!(result.has_colormap());
    let cmap = result.colormap().unwrap();
    assert_eq!(cmap.len(), 256);
    assert_eq!(cmap.get_rgb(0), Some((0, 0, 0)));
    assert_eq!(cmap.get_rgb(255), Some((255, 255, 255)));
}

#[test]
fn test_add_gray_colormap_8_already_has_colormap() {
    // If already has colormap, return deep clone
    let pix = Pix::new(10, 10, PixelDepth::Bit8).unwrap();
    let mut pm = pix.try_into_mut().unwrap();
    let cmap = PixColormap::create_linear(8, true).unwrap();
    pm.set_colormap(Some(cmap)).unwrap();
    let pix: Pix = pm.into();

    let result = pix.add_gray_colormap_8().unwrap();
    assert_eq!(result.depth(), PixelDepth::Bit8);
    assert!(result.has_colormap());
}

#[test]
fn test_add_gray_colormap_8_invalid_depth() {
    // Only works for 8 bpp
    let pix = Pix::new(10, 10, PixelDepth::Bit1).unwrap();
    assert!(pix.add_gray_colormap_8().is_err());
}

#[test]
fn test_add_minimal_gray_colormap_8() {
    // Create 8 bpp image with only a few gray levels
    let pix = Pix::new(10, 10, PixelDepth::Bit8).unwrap();
    let mut pm = pix.try_into_mut().unwrap();
    // Set some pixels to specific gray values
    pm.set_pixel_unchecked(0, 0, 50);
    pm.set_pixel_unchecked(1, 0, 100);
    pm.set_pixel_unchecked(2, 0, 150);
    pm.set_pixel_unchecked(3, 0, 50); // Duplicate
    let pix: Pix = pm.into();

    let result = pix.add_minimal_gray_colormap_8().unwrap();
    assert_eq!(result.depth(), PixelDepth::Bit8);
    assert!(result.has_colormap());
    let cmap = result.colormap().unwrap();
    // Should have 4 entries: 0 (background), 50, 100, 150
    assert_eq!(cmap.len(), 4);
}

#[test]
fn test_convert_to_16_from_1bpp() {
    let pix = Pix::new(10, 10, PixelDepth::Bit1).unwrap();
    let result = pix.convert_to_16().unwrap();
    assert_eq!(result.depth(), PixelDepth::Bit16);
    // 1bpp 0 (white) -> 0xffff
    assert_eq!(result.get_pixel(0, 0), Some(0xffff));
}

#[test]
fn test_convert_to_16_from_8bpp() {
    let pix = Pix::new(3, 1, PixelDepth::Bit8).unwrap();
    let mut pm = pix.try_into_mut().unwrap();
    pm.set_pixel_unchecked(0, 0, 0);
    pm.set_pixel_unchecked(1, 0, 128);
    pm.set_pixel_unchecked(2, 0, 255);
    let pix: Pix = pm.into();

    let result = pix.convert_to_16().unwrap();
    assert_eq!(result.depth(), PixelDepth::Bit16);
    // 8bpp value replicated: val | (val << 8)
    assert_eq!(result.get_pixel(0, 0), Some(0x0000));
    assert_eq!(result.get_pixel(1, 0), Some(0x8080));
    assert_eq!(result.get_pixel(2, 0), Some(0xffff));
}

#[test]
fn test_convert_to_16_invalid_depth() {
    let pix = Pix::new(10, 10, PixelDepth::Bit32).unwrap();
    assert!(pix.convert_to_16().is_err());
}

#[test]
fn test_convert_8_to_32() {
    let pix = Pix::new(3, 1, PixelDepth::Bit8).unwrap();
    let mut pm = pix.try_into_mut().unwrap();
    pm.set_pixel_unchecked(0, 0, 0);
    pm.set_pixel_unchecked(1, 0, 128);
    pm.set_pixel_unchecked(2, 0, 255);
    let pix: Pix = pm.into();

    let result = pix.convert_8_to_32().unwrap();
    assert_eq!(result.depth(), PixelDepth::Bit32);
    let (r, g, b) = color::extract_rgb(result.get_pixel_unchecked(0, 0));
    assert_eq!((r, g, b), (0, 0, 0));
    assert_eq!(color::alpha(result.get_pixel_unchecked(0, 0)), 255);
    let (r, g, b) = color::extract_rgb(result.get_pixel_unchecked(1, 0));
    assert_eq!((r, g, b), (128, 128, 128));
    assert_eq!(color::alpha(result.get_pixel_unchecked(1, 0)), 255);
    let (r, g, b) = color::extract_rgb(result.get_pixel_unchecked(2, 0));
    assert_eq!((r, g, b), (255, 255, 255));
    assert_eq!(color::alpha(result.get_pixel_unchecked(2, 0)), 255);
}

#[test]
fn test_convert_8_to_32_invalid_depth() {
    let pix = Pix::new(10, 10, PixelDepth::Bit32).unwrap();
    assert!(pix.convert_8_to_32().is_err());
}

#[test]
fn test_convert_8_to_16_shift_8() {
    let pix = Pix::new(2, 1, PixelDepth::Bit8).unwrap();
    let mut pm = pix.try_into_mut().unwrap();
    pm.set_pixel_unchecked(0, 0, 0x80);
    pm.set_pixel_unchecked(1, 0, 0xff);
    let pix: Pix = pm.into();

    let result = pix.convert_8_to_16(8).unwrap();
    assert_eq!(result.depth(), PixelDepth::Bit16);
    assert_eq!(result.get_pixel(0, 0), Some(0x8080));
    assert_eq!(result.get_pixel(1, 0), Some(0xffff));
}

#[test]
fn test_convert_8_to_16_shift_0() {
    let pix = Pix::new(1, 1, PixelDepth::Bit8).unwrap();
    let mut pm = pix.try_into_mut().unwrap();
    pm.set_pixel_unchecked(0, 0, 0x80);
    let pix: Pix = pm.into();

    let result = pix.convert_8_to_16(0).unwrap();
    assert_eq!(result.depth(), PixelDepth::Bit16);
    assert_eq!(result.get_pixel(0, 0), Some(0x80));
}

#[test]
fn test_convert_8_to_16_invalid_shift() {
    let pix = Pix::new(10, 10, PixelDepth::Bit8).unwrap();
    assert!(pix.convert_8_to_16(9).is_err());
}

#[test]
fn test_convert_16_to_8_ls_byte() {
    let pix = Pix::new(2, 1, PixelDepth::Bit16).unwrap();
    let mut pm = pix.try_into_mut().unwrap();
    pm.set_pixel_unchecked(0, 0, 0xABCD);
    pm.set_pixel_unchecked(1, 0, 0x00FF);
    let pix: Pix = pm.into();

    let result = pix.convert_16_to_8(Convert16To8Type::LsByte).unwrap();
    assert_eq!(result.depth(), PixelDepth::Bit8);
    assert_eq!(result.get_pixel(0, 0), Some(0xCD));
    assert_eq!(result.get_pixel(1, 0), Some(0xFF));
}

#[test]
fn test_convert_16_to_8_ms_byte() {
    let pix = Pix::new(2, 1, PixelDepth::Bit16).unwrap();
    let mut pm = pix.try_into_mut().unwrap();
    pm.set_pixel_unchecked(0, 0, 0xABCD);
    pm.set_pixel_unchecked(1, 0, 0x00FF);
    let pix: Pix = pm.into();

    let result = pix.convert_16_to_8(Convert16To8Type::MsByte).unwrap();
    assert_eq!(result.depth(), PixelDepth::Bit8);
    assert_eq!(result.get_pixel(0, 0), Some(0xAB));
    assert_eq!(result.get_pixel(1, 0), Some(0x00));
}

#[test]
fn test_convert_16_to_8_auto_byte_low_values() {
    // All values <= 255: use LSB
    let pix = Pix::new(2, 1, PixelDepth::Bit16).unwrap();
    let mut pm = pix.try_into_mut().unwrap();
    pm.set_pixel_unchecked(0, 0, 100);
    pm.set_pixel_unchecked(1, 0, 200);
    let pix: Pix = pm.into();

    let result = pix.convert_16_to_8(Convert16To8Type::AutoByte).unwrap();
    assert_eq!(result.get_pixel(0, 0), Some(100));
    assert_eq!(result.get_pixel(1, 0), Some(200));
}

#[test]
fn test_convert_16_to_8_auto_byte_high_values() {
    // Some values > 255: use MSB
    let pix = Pix::new(2, 1, PixelDepth::Bit16).unwrap();
    let mut pm = pix.try_into_mut().unwrap();
    pm.set_pixel_unchecked(0, 0, 0x8000);
    pm.set_pixel_unchecked(1, 0, 0xFF00);
    let pix: Pix = pm.into();

    let result = pix.convert_16_to_8(Convert16To8Type::AutoByte).unwrap();
    assert_eq!(result.get_pixel(0, 0), Some(0x80));
    assert_eq!(result.get_pixel(1, 0), Some(0xFF));
}

#[test]
fn test_convert_16_to_8_clip_to_ff() {
    let pix = Pix::new(2, 1, PixelDepth::Bit16).unwrap();
    let mut pm = pix.try_into_mut().unwrap();
    pm.set_pixel_unchecked(0, 0, 100);
    pm.set_pixel_unchecked(1, 0, 0x0300); // > 255
    let pix: Pix = pm.into();

    let result = pix.convert_16_to_8(Convert16To8Type::ClipToFf).unwrap();
    assert_eq!(result.get_pixel(0, 0), Some(100));
    assert_eq!(result.get_pixel(1, 0), Some(255)); // Clipped
}

#[test]
fn test_convert_16_to_8_invalid_depth() {
    let pix = Pix::new(10, 10, PixelDepth::Bit8).unwrap();
    assert!(pix.convert_16_to_8(Convert16To8Type::MsByte).is_err());
}

#[test]
fn test_convert_to_8_or_32_from_1bpp() {
    let pix = Pix::new(10, 10, PixelDepth::Bit1).unwrap();
    let result = pix.convert_to_8_or_32().unwrap();
    assert_eq!(result.depth(), PixelDepth::Bit8);
}

#[test]
fn test_convert_to_8_or_32_from_8bpp() {
    let pix = Pix::new(10, 10, PixelDepth::Bit8).unwrap();
    let result = pix.convert_to_8_or_32().unwrap();
    assert_eq!(result.depth(), PixelDepth::Bit8);
}

#[test]
fn test_convert_to_8_or_32_from_32bpp() {
    let pix = Pix::new(10, 10, PixelDepth::Bit32).unwrap();
    let result = pix.convert_to_8_or_32().unwrap();
    assert_eq!(result.depth(), PixelDepth::Bit32);
}

#[test]
fn test_convert_lossless_1_to_8() {
    let pix = Pix::new(8, 1, PixelDepth::Bit1).unwrap();
    let mut pm = pix.try_into_mut().unwrap();
    pm.set_pixel_unchecked(0, 0, 1);
    pm.set_pixel_unchecked(1, 0, 0);
    let pix: Pix = pm.into();

    let result = pix.convert_lossless(8).unwrap();
    assert_eq!(result.depth(), PixelDepth::Bit8);
    assert_eq!(result.get_pixel(0, 0), Some(1));
    assert_eq!(result.get_pixel(1, 0), Some(0));
}

#[test]
fn test_convert_lossless_2_to_4() {
    let pix = Pix::new(4, 1, PixelDepth::Bit2).unwrap();
    let mut pm = pix.try_into_mut().unwrap();
    pm.set_pixel_unchecked(0, 0, 3);
    pm.set_pixel_unchecked(1, 0, 1);
    let pix: Pix = pm.into();

    let result = pix.convert_lossless(4).unwrap();
    assert_eq!(result.depth(), PixelDepth::Bit4);
    assert_eq!(result.get_pixel(0, 0), Some(3));
    assert_eq!(result.get_pixel(1, 0), Some(1));
}

#[test]
fn test_convert_lossless_same_depth() {
    let pix = Pix::new(10, 10, PixelDepth::Bit4).unwrap();
    let result = pix.convert_lossless(4).unwrap();
    assert_eq!(result.depth(), PixelDepth::Bit4);
}

#[test]
fn test_convert_lossless_invalid_reduction() {
    let pix = Pix::new(10, 10, PixelDepth::Bit8).unwrap();
    assert!(pix.convert_lossless(4).is_err());
}

#[test]
fn test_convert_lossless_rejects_colormap() {
    let pix = Pix::new(10, 10, PixelDepth::Bit4).unwrap();
    let mut pm = pix.try_into_mut().unwrap();
    let cmap = PixColormap::create_linear(4, true).unwrap();
    pm.set_colormap(Some(cmap)).unwrap();
    let pix: Pix = pm.into();
    assert!(pix.convert_lossless(8).is_err());
}

#[test]
fn test_remove_alpha_rgba() {
    let pix = Pix::new(2, 1, PixelDepth::Bit32).unwrap();
    let mut pm = pix.try_into_mut().unwrap();
    pm.set_spp(4);
    // Semi-transparent red pixel (R=255, G=0, B=0, A=128)
    pm.set_pixel_unchecked(0, 0, color::compose_rgba(255, 0, 0, 128));
    // Fully opaque blue pixel
    pm.set_pixel_unchecked(1, 0, color::compose_rgba(0, 0, 255, 255));
    let pix: Pix = pm.into();

    let result = pix.remove_alpha().unwrap();
    assert_eq!(result.spp(), 3);
    // Semi-transparent red over white: r = (128*255 + 127*255)/255 = 255
    // g = (128*0 + 127*255)/255 = 127, b = (128*0 + 127*255)/255 = 127
    let (r, g, b) = color::extract_rgb(result.get_pixel_unchecked(0, 0));
    assert_eq!(r, 255);
    assert!((g as i32 - 127).abs() <= 1);
    assert!((b as i32 - 127).abs() <= 1);

    // Fully opaque blue stays blue
    let (r, g, b) = color::extract_rgb(result.get_pixel_unchecked(1, 0));
    assert_eq!((r, g, b), (0, 0, 255));
}

#[test]
fn test_remove_alpha_no_alpha() {
    // Non-RGBA image: returns deep clone
    let pix = Pix::new(10, 10, PixelDepth::Bit8).unwrap();
    let result = pix.remove_alpha().unwrap();
    assert_eq!(result.depth(), PixelDepth::Bit8);
}

#[test]
fn test_convert_to_16_preserves_resolution() {
    let pix = Pix::new(10, 10, PixelDepth::Bit8).unwrap();
    let mut pm = pix.try_into_mut().unwrap();
    pm.set_resolution(300, 300);
    let pix: Pix = pm.into();

    let result = pix.convert_to_16().unwrap();
    assert_eq!(result.xres(), 300);
    assert_eq!(result.yres(), 300);
}

#[test]
fn test_unpack_binary_to_2() {
    let pix = Pix::new(4, 1, PixelDepth::Bit1).unwrap();
    let mut pm = pix.try_into_mut().unwrap();
    pm.set_pixel_unchecked(0, 0, 1); // black
    pm.set_pixel_unchecked(1, 0, 0); // white
    let pix: Pix = pm.into();

    let result = pix.unpack_binary(2, false).unwrap();
    assert_eq!(result.depth(), PixelDepth::Bit2);
    assert_eq!(result.get_pixel(0, 0), Some(3)); // max value for 2bpp
    assert_eq!(result.get_pixel(1, 0), Some(0));
}

#[test]
fn test_unpack_binary_to_8_inverted() {
    let pix = Pix::new(2, 1, PixelDepth::Bit1).unwrap();
    let mut pm = pix.try_into_mut().unwrap();
    pm.set_pixel_unchecked(0, 0, 1); // black
    pm.set_pixel_unchecked(1, 0, 0); // white
    let pix: Pix = pm.into();

    let result = pix.unpack_binary(8, true).unwrap();
    assert_eq!(result.depth(), PixelDepth::Bit8);
    // Inverted: 1-bit -> 0, 0-bit -> 255
    assert_eq!(result.get_pixel(0, 0), Some(0));
    assert_eq!(result.get_pixel(1, 0), Some(255));
}

#[test]
fn test_unpack_binary_invalid_depth() {
    let pix = Pix::new(10, 10, PixelDepth::Bit1).unwrap();
    assert!(pix.unpack_binary(1, false).is_err());
}

#[test]
fn test_unpack_binary_not_1bpp() {
    let pix = Pix::new(10, 10, PixelDepth::Bit8).unwrap();
    assert!(pix.unpack_binary(32, false).is_err());
}

#[test]
fn test_convert_1_to_2() {
    let pix = Pix::new(4, 1, PixelDepth::Bit1).unwrap();
    let mut pm = pix.try_into_mut().unwrap();
    pm.set_pixel_unchecked(0, 0, 0);
    pm.set_pixel_unchecked(1, 0, 1);
    pm.set_pixel_unchecked(2, 0, 0);
    pm.set_pixel_unchecked(3, 0, 1);
    let pix: Pix = pm.into();

    let result = pix.convert_1_to_2(0, 3).unwrap();
    assert_eq!(result.depth(), PixelDepth::Bit2);
    assert_eq!(result.get_pixel(0, 0), Some(0));
    assert_eq!(result.get_pixel(1, 0), Some(3));
    assert_eq!(result.get_pixel(2, 0), Some(0));
    assert_eq!(result.get_pixel(3, 0), Some(3));
}

#[test]
fn test_convert_1_to_4() {
    let pix = Pix::new(4, 1, PixelDepth::Bit1).unwrap();
    let mut pm = pix.try_into_mut().unwrap();
    pm.set_pixel_unchecked(0, 0, 0);
    pm.set_pixel_unchecked(1, 0, 1);
    let pix: Pix = pm.into();

    let result = pix.convert_1_to_4(0, 15).unwrap();
    assert_eq!(result.depth(), PixelDepth::Bit4);
    assert_eq!(result.get_pixel(0, 0), Some(0));
    assert_eq!(result.get_pixel(1, 0), Some(15));
}

#[test]
fn test_convert_1_to_8() {
    let pix = Pix::new(4, 1, PixelDepth::Bit1).unwrap();
    let mut pm = pix.try_into_mut().unwrap();
    pm.set_pixel_unchecked(0, 0, 0);
    pm.set_pixel_unchecked(1, 0, 1);
    pm.set_pixel_unchecked(2, 0, 1);
    pm.set_pixel_unchecked(3, 0, 0);
    let pix: Pix = pm.into();

    let result = pix.convert_1_to_8(0, 255).unwrap();
    assert_eq!(result.depth(), PixelDepth::Bit8);
    assert_eq!(result.get_pixel(0, 0), Some(0));
    assert_eq!(result.get_pixel(1, 0), Some(255));
    assert_eq!(result.get_pixel(2, 0), Some(255));
    assert_eq!(result.get_pixel(3, 0), Some(0));
}

#[test]
fn test_convert_1_to_8_custom_values() {
    let pix = Pix::new(2, 1, PixelDepth::Bit1).unwrap();
    let mut pm = pix.try_into_mut().unwrap();
    pm.set_pixel_unchecked(0, 0, 0);
    pm.set_pixel_unchecked(1, 0, 1);
    let pix: Pix = pm.into();

    let result = pix.convert_1_to_8(100, 200).unwrap();
    assert_eq!(result.get_pixel(0, 0), Some(100));
    assert_eq!(result.get_pixel(1, 0), Some(200));
}

#[test]
fn test_convert_1_to_16() {
    let pix = Pix::new(2, 1, PixelDepth::Bit1).unwrap();
    let mut pm = pix.try_into_mut().unwrap();
    pm.set_pixel_unchecked(0, 0, 0);
    pm.set_pixel_unchecked(1, 0, 1);
    let pix: Pix = pm.into();

    let result = pix.convert_1_to_16(0, 0xffff).unwrap();
    assert_eq!(result.depth(), PixelDepth::Bit16);
    assert_eq!(result.get_pixel(0, 0), Some(0));
    assert_eq!(result.get_pixel(1, 0), Some(0xffff));
}

#[test]
fn test_convert_1_to_32() {
    let pix = Pix::new(2, 1, PixelDepth::Bit1).unwrap();
    let mut pm = pix.try_into_mut().unwrap();
    pm.set_pixel_unchecked(0, 0, 0);
    pm.set_pixel_unchecked(1, 0, 1);
    let pix: Pix = pm.into();

    let result = pix.convert_1_to_32(0, 0xffffffff).unwrap();
    assert_eq!(result.depth(), PixelDepth::Bit32);
    assert_eq!(result.get_pixel_unchecked(0, 0), 0);
    assert_eq!(result.get_pixel_unchecked(1, 0), 0xffffffff);
}

#[test]
fn test_convert_1_to_2_not_1bpp() {
    let pix = Pix::new(10, 10, PixelDepth::Bit8).unwrap();
    assert!(pix.convert_1_to_2(0, 3).is_err());
}

#[test]
fn test_unpack_binary_to_16() {
    let pix = Pix::new(2, 1, PixelDepth::Bit1).unwrap();
    let mut pm = pix.try_into_mut().unwrap();
    pm.set_pixel_unchecked(0, 0, 0);
    pm.set_pixel_unchecked(1, 0, 1);
    let pix: Pix = pm.into();

    let result = pix.unpack_binary(16, false).unwrap();
    assert_eq!(result.depth(), PixelDepth::Bit16);
    assert_eq!(result.get_pixel(0, 0), Some(0));
    assert_eq!(result.get_pixel(1, 0), Some(0xffff));
}

#[test]
fn test_unpack_binary_to_32() {
    let pix = Pix::new(2, 1, PixelDepth::Bit1).unwrap();
    let mut pm = pix.try_into_mut().unwrap();
    pm.set_pixel_unchecked(0, 0, 0);
    pm.set_pixel_unchecked(1, 0, 1);
    let pix: Pix = pm.into();

    let result = pix.unpack_binary(32, false).unwrap();
    assert_eq!(result.depth(), PixelDepth::Bit32);
    assert_eq!(result.get_pixel_unchecked(0, 0), 0);
    assert_eq!(result.get_pixel_unchecked(1, 0), 0xffffffff);
}

#[test]
fn test_convert_1_to_preserves_resolution() {
    let pix = Pix::new(10, 10, PixelDepth::Bit1).unwrap();
    let mut pm = pix.try_into_mut().unwrap();
    pm.set_resolution(600, 600);
    let pix: Pix = pm.into();

    let result = pix.convert_1_to_8(0, 255).unwrap();
    assert_eq!(result.xres(), 600);
    assert_eq!(result.yres(), 600);
}

#[test]
fn test_convert_2_to_8_direct() {
    // 2bpp → 8bpp with custom values, no colormap
    let pix = Pix::new(4, 1, PixelDepth::Bit2).unwrap();
    let mut pm = pix.try_into_mut().unwrap();
    pm.set_pixel_unchecked(0, 0, 0);
    pm.set_pixel_unchecked(1, 0, 1);
    pm.set_pixel_unchecked(2, 0, 2);
    pm.set_pixel_unchecked(3, 0, 3);
    let pix: Pix = pm.into();

    let result = pix.convert_2_to_8(10, 20, 30, 40, false).unwrap();
    assert_eq!(result.depth(), PixelDepth::Bit8);
    assert!(!result.has_colormap());
    assert_eq!(result.get_pixel(0, 0), Some(10));
    assert_eq!(result.get_pixel(1, 0), Some(20));
    assert_eq!(result.get_pixel(2, 0), Some(30));
    assert_eq!(result.get_pixel(3, 0), Some(40));
}

#[test]
fn test_convert_2_to_8_with_colormap() {
    // 2bpp → 8bpp with colormap
    let pix = Pix::new(4, 1, PixelDepth::Bit2).unwrap();
    let mut pm = pix.try_into_mut().unwrap();
    pm.set_pixel_unchecked(0, 0, 0);
    pm.set_pixel_unchecked(1, 0, 1);
    pm.set_pixel_unchecked(2, 0, 2);
    pm.set_pixel_unchecked(3, 0, 3);
    let pix: Pix = pm.into();

    let result = pix.convert_2_to_8(0, 85, 170, 255, true).unwrap();
    assert_eq!(result.depth(), PixelDepth::Bit8);
    assert!(result.has_colormap());
    let cmap = result.colormap().unwrap();
    assert_eq!(cmap.len(), 4);
    // Colormap entries should be the specified gray values
    assert_eq!(cmap.get_rgb(0), Some((0, 0, 0)));
    assert_eq!(cmap.get_rgb(1), Some((85, 85, 85)));
    assert_eq!(cmap.get_rgb(2), Some((170, 170, 170)));
    assert_eq!(cmap.get_rgb(3), Some((255, 255, 255)));
    // Pixel values are colormap indices
    assert_eq!(result.get_pixel(0, 0), Some(0));
    assert_eq!(result.get_pixel(1, 0), Some(1));
    assert_eq!(result.get_pixel(2, 0), Some(2));
    assert_eq!(result.get_pixel(3, 0), Some(3));
}

#[test]
fn test_convert_2_to_8_invalid_depth() {
    let pix = Pix::new(10, 10, PixelDepth::Bit4).unwrap();
    assert!(pix.convert_2_to_8(0, 85, 170, 255, false).is_err());
}

#[test]
fn test_convert_2_to_8_preserves_resolution() {
    let pix = Pix::new(4, 1, PixelDepth::Bit2).unwrap();
    let mut pm = pix.try_into_mut().unwrap();
    pm.set_resolution(300, 300);
    let pix: Pix = pm.into();

    let result = pix.convert_2_to_8(0, 85, 170, 255, false).unwrap();
    assert_eq!(result.xres(), 300);
    assert_eq!(result.yres(), 300);
}

#[test]
fn test_convert_4_to_8_direct() {
    // 4bpp → 8bpp without colormap: (val << 4) | val
    let pix = Pix::new(4, 1, PixelDepth::Bit4).unwrap();
    let mut pm = pix.try_into_mut().unwrap();
    pm.set_pixel_unchecked(0, 0, 0);
    pm.set_pixel_unchecked(1, 0, 5);
    pm.set_pixel_unchecked(2, 0, 10);
    pm.set_pixel_unchecked(3, 0, 15);
    let pix: Pix = pm.into();

    let result = pix.convert_4_to_8(false).unwrap();
    assert_eq!(result.depth(), PixelDepth::Bit8);
    assert!(!result.has_colormap());
    // (0<<4)|0=0, (5<<4)|5=0x55=85, (10<<4)|10=0xaa=170, (15<<4)|15=0xff=255
    assert_eq!(result.get_pixel(0, 0), Some(0));
    assert_eq!(result.get_pixel(1, 0), Some(0x55));
    assert_eq!(result.get_pixel(2, 0), Some(0xaa));
    assert_eq!(result.get_pixel(3, 0), Some(0xff));
}

#[test]
fn test_convert_4_to_8_with_colormap() {
    // 4bpp → 8bpp with linear colormap
    let pix = Pix::new(2, 1, PixelDepth::Bit4).unwrap();
    let mut pm = pix.try_into_mut().unwrap();
    pm.set_pixel_unchecked(0, 0, 0);
    pm.set_pixel_unchecked(1, 0, 15);
    let pix: Pix = pm.into();

    let result = pix.convert_4_to_8(true).unwrap();
    assert_eq!(result.depth(), PixelDepth::Bit8);
    assert!(result.has_colormap());
    let cmap = result.colormap().unwrap();
    assert_eq!(cmap.len(), 16);
    // Linear colormap: i*255/15
    assert_eq!(cmap.get_rgb(0), Some((0, 0, 0)));
    assert_eq!(cmap.get_rgb(15), Some((255, 255, 255)));
    // Pixel values are colormap indices
    assert_eq!(result.get_pixel(0, 0), Some(0));
    assert_eq!(result.get_pixel(1, 0), Some(15));
}

#[test]
fn test_convert_4_to_8_invalid_depth() {
    let pix = Pix::new(10, 10, PixelDepth::Bit8).unwrap();
    assert!(pix.convert_4_to_8(false).is_err());
}

#[test]
fn test_convert_8_to_2_basic() {
    // 8bpp → 2bpp: take top 2 bits
    let pix = Pix::new(4, 1, PixelDepth::Bit8).unwrap();
    let mut pm = pix.try_into_mut().unwrap();
    pm.set_pixel_unchecked(0, 0, 0); // top 2 bits = 0b00 = 0
    pm.set_pixel_unchecked(1, 0, 64); // top 2 bits = 0b01 = 1
    pm.set_pixel_unchecked(2, 0, 128); // top 2 bits = 0b10 = 2
    pm.set_pixel_unchecked(3, 0, 255); // top 2 bits = 0b11 = 3
    let pix: Pix = pm.into();

    let result = pix.convert_8_to_2().unwrap();
    assert_eq!(result.depth(), PixelDepth::Bit2);
    assert_eq!(result.get_pixel(0, 0), Some(0));
    assert_eq!(result.get_pixel(1, 0), Some(1));
    assert_eq!(result.get_pixel(2, 0), Some(2));
    assert_eq!(result.get_pixel(3, 0), Some(3));
}

#[test]
fn test_convert_8_to_2_boundary_values() {
    // Test values near boundaries: 63→0, 64→1, 127→1, 128→2, 191→2, 192→3
    let pix = Pix::new(6, 1, PixelDepth::Bit8).unwrap();
    let mut pm = pix.try_into_mut().unwrap();
    pm.set_pixel_unchecked(0, 0, 63);
    pm.set_pixel_unchecked(1, 0, 64);
    pm.set_pixel_unchecked(2, 0, 127);
    pm.set_pixel_unchecked(3, 0, 128);
    pm.set_pixel_unchecked(4, 0, 191);
    pm.set_pixel_unchecked(5, 0, 192);
    let pix: Pix = pm.into();

    let result = pix.convert_8_to_2().unwrap();
    assert_eq!(result.get_pixel(0, 0), Some(0));
    assert_eq!(result.get_pixel(1, 0), Some(1));
    assert_eq!(result.get_pixel(2, 0), Some(1));
    assert_eq!(result.get_pixel(3, 0), Some(2));
    assert_eq!(result.get_pixel(4, 0), Some(2));
    assert_eq!(result.get_pixel(5, 0), Some(3));
}

#[test]
fn test_convert_8_to_2_invalid_depth() {
    let pix = Pix::new(10, 10, PixelDepth::Bit4).unwrap();
    assert!(pix.convert_8_to_2().is_err());
}

#[test]
fn test_convert_8_to_2_preserves_resolution() {
    let pix = Pix::new(4, 1, PixelDepth::Bit8).unwrap();
    let mut pm = pix.try_into_mut().unwrap();
    pm.set_resolution(600, 600);
    let pix: Pix = pm.into();

    let result = pix.convert_8_to_2().unwrap();
    assert_eq!(result.xres(), 600);
    assert_eq!(result.yres(), 600);
}

#[test]
fn test_convert_8_to_4_basic() {
    // 8bpp → 4bpp: take top 4 bits (val >> 4)
    let pix = Pix::new(4, 1, PixelDepth::Bit8).unwrap();
    let mut pm = pix.try_into_mut().unwrap();
    pm.set_pixel_unchecked(0, 0, 0);
    pm.set_pixel_unchecked(1, 0, 0x50); // >> 4 = 5
    pm.set_pixel_unchecked(2, 0, 0xa0); // >> 4 = 10
    pm.set_pixel_unchecked(3, 0, 0xff); // >> 4 = 15
    let pix: Pix = pm.into();

    let result = pix.convert_8_to_4().unwrap();
    assert_eq!(result.depth(), PixelDepth::Bit4);
    assert_eq!(result.get_pixel(0, 0), Some(0));
    assert_eq!(result.get_pixel(1, 0), Some(5));
    assert_eq!(result.get_pixel(2, 0), Some(10));
    assert_eq!(result.get_pixel(3, 0), Some(15));
}

#[test]
fn test_convert_8_to_4_invalid_depth() {
    let pix = Pix::new(10, 10, PixelDepth::Bit2).unwrap();
    assert!(pix.convert_8_to_4().is_err());
}

#[test]
fn test_convert_to_2_from_1bpp() {
    let pix = Pix::new(4, 1, PixelDepth::Bit1).unwrap();
    let mut pm = pix.try_into_mut().unwrap();
    pm.set_pixel_unchecked(0, 0, 0);
    pm.set_pixel_unchecked(1, 0, 1);
    let pix: Pix = pm.into();

    let result = pix.convert_to_2().unwrap();
    assert_eq!(result.depth(), PixelDepth::Bit2);
    assert_eq!(result.get_pixel(0, 0), Some(0));
    assert_eq!(result.get_pixel(1, 0), Some(3));
}

#[test]
fn test_convert_to_2_from_2bpp() {
    // Identity case
    let pix = Pix::new(4, 1, PixelDepth::Bit2).unwrap();
    let mut pm = pix.try_into_mut().unwrap();
    pm.set_pixel_unchecked(0, 0, 0);
    pm.set_pixel_unchecked(1, 0, 1);
    pm.set_pixel_unchecked(2, 0, 2);
    pm.set_pixel_unchecked(3, 0, 3);
    let pix: Pix = pm.into();

    let result = pix.convert_to_2().unwrap();
    assert_eq!(result.depth(), PixelDepth::Bit2);
    assert!(!result.has_colormap());
    assert_eq!(result.get_pixel(0, 0), Some(0));
    assert_eq!(result.get_pixel(1, 0), Some(1));
    assert_eq!(result.get_pixel(2, 0), Some(2));
    assert_eq!(result.get_pixel(3, 0), Some(3));
}

#[test]
fn test_convert_to_2_from_4bpp() {
    // 4bpp → 8bpp → 2bpp
    let pix = Pix::new(4, 1, PixelDepth::Bit4).unwrap();
    let mut pm = pix.try_into_mut().unwrap();
    pm.set_pixel_unchecked(0, 0, 0);
    pm.set_pixel_unchecked(1, 0, 5);
    pm.set_pixel_unchecked(2, 0, 10);
    pm.set_pixel_unchecked(3, 0, 15);
    let pix: Pix = pm.into();

    let result = pix.convert_to_2().unwrap();
    assert_eq!(result.depth(), PixelDepth::Bit2);
    // 4bpp val*255/15 → 8bpp → top 2 bits
    // 0*17=0→0, 5*17=85→1, 10*17=170→2, 15*17=255→3
    assert_eq!(result.get_pixel(0, 0), Some(0));
    assert_eq!(result.get_pixel(1, 0), Some(1));
    assert_eq!(result.get_pixel(2, 0), Some(2));
    assert_eq!(result.get_pixel(3, 0), Some(3));
}

#[test]
fn test_convert_to_2_from_8bpp() {
    let pix = Pix::new(4, 1, PixelDepth::Bit8).unwrap();
    let mut pm = pix.try_into_mut().unwrap();
    pm.set_pixel_unchecked(0, 0, 0);
    pm.set_pixel_unchecked(1, 0, 100);
    pm.set_pixel_unchecked(2, 0, 200);
    pm.set_pixel_unchecked(3, 0, 255);
    let pix: Pix = pm.into();

    let result = pix.convert_to_2().unwrap();
    assert_eq!(result.depth(), PixelDepth::Bit2);
    assert_eq!(result.get_pixel(0, 0), Some(0)); // 0 >> 6 = 0
    assert_eq!(result.get_pixel(1, 0), Some(1)); // 100 >> 6 = 1
    assert_eq!(result.get_pixel(2, 0), Some(3)); // 200 >> 6 = 3
    assert_eq!(result.get_pixel(3, 0), Some(3)); // 255 >> 6 = 3
}

#[test]
fn test_convert_to_2_from_32bpp() {
    let pix = Pix::new(1, 1, PixelDepth::Bit32).unwrap();
    let mut pm = pix.try_into_mut().unwrap();
    pm.set_rgb(0, 0, 200, 200, 200).unwrap();
    let pix: Pix = pm.into();

    let result = pix.convert_to_2().unwrap();
    assert_eq!(result.depth(), PixelDepth::Bit2);
    // 200 luminance → top 2 bits = 3
    assert_eq!(result.get_pixel(0, 0), Some(3));
}

#[test]
fn test_convert_to_2_from_16bpp() {
    let pix = Pix::new(1, 1, PixelDepth::Bit16).unwrap();
    let mut pm = pix.try_into_mut().unwrap();
    pm.set_pixel_unchecked(0, 0, 0x8000);
    let pix: Pix = pm.into();

    let result = pix.convert_to_2().unwrap();
    assert_eq!(result.depth(), PixelDepth::Bit2);
    // 0x8000 MSB = 0x80 = 128, top 2 bits = 2
    assert_eq!(result.get_pixel(0, 0), Some(2));
}

#[test]
fn test_convert_to_2_with_colormap() {
    // 2bpp with colormap → strip colormap, convert to grayscale then 2bpp
    let pix = Pix::new(2, 1, PixelDepth::Bit2).unwrap();
    let mut pm = pix.try_into_mut().unwrap();
    let mut cmap = PixColormap::new(2).unwrap();
    cmap.add_rgb(255, 0, 0).unwrap(); // color → remove cmap first
    cmap.add_rgb(0, 255, 0).unwrap();
    cmap.add_rgb(0, 0, 255).unwrap();
    cmap.add_rgb(255, 255, 255).unwrap();
    pm.set_colormap(Some(cmap)).unwrap();
    pm.set_pixel_unchecked(0, 0, 3); // white
    let pix: Pix = pm.into();

    let result = pix.convert_to_2().unwrap();
    assert_eq!(result.depth(), PixelDepth::Bit2);
    assert!(!result.has_colormap());
}

#[test]
fn test_convert_to_4_from_1bpp() {
    let pix = Pix::new(4, 1, PixelDepth::Bit1).unwrap();
    let mut pm = pix.try_into_mut().unwrap();
    pm.set_pixel_unchecked(0, 0, 0);
    pm.set_pixel_unchecked(1, 0, 1);
    let pix: Pix = pm.into();

    let result = pix.convert_to_4().unwrap();
    assert_eq!(result.depth(), PixelDepth::Bit4);
    assert_eq!(result.get_pixel(0, 0), Some(0));
    assert_eq!(result.get_pixel(1, 0), Some(15));
}

#[test]
fn test_convert_to_4_from_2bpp() {
    // 2bpp → 8bpp (0→0, 1→0x55, 2→0xaa, 3→0xff) → 4bpp
    let pix = Pix::new(4, 1, PixelDepth::Bit2).unwrap();
    let mut pm = pix.try_into_mut().unwrap();
    pm.set_pixel_unchecked(0, 0, 0);
    pm.set_pixel_unchecked(1, 0, 1);
    pm.set_pixel_unchecked(2, 0, 2);
    pm.set_pixel_unchecked(3, 0, 3);
    let pix: Pix = pm.into();

    let result = pix.convert_to_4().unwrap();
    assert_eq!(result.depth(), PixelDepth::Bit4);
    // 0→0>>4=0, 0x55=85>>4=5, 0xaa=170>>4=10, 0xff=255>>4=15
    assert_eq!(result.get_pixel(0, 0), Some(0));
    assert_eq!(result.get_pixel(1, 0), Some(5));
    assert_eq!(result.get_pixel(2, 0), Some(10));
    assert_eq!(result.get_pixel(3, 0), Some(15));
}

#[test]
fn test_convert_to_4_from_4bpp() {
    // Identity case
    let pix = Pix::new(4, 1, PixelDepth::Bit4).unwrap();
    let mut pm = pix.try_into_mut().unwrap();
    pm.set_pixel_unchecked(0, 0, 0);
    pm.set_pixel_unchecked(1, 0, 7);
    pm.set_pixel_unchecked(2, 0, 15);
    let pix: Pix = pm.into();

    let result = pix.convert_to_4().unwrap();
    assert_eq!(result.depth(), PixelDepth::Bit4);
    assert!(!result.has_colormap());
    assert_eq!(result.get_pixel(0, 0), Some(0));
    assert_eq!(result.get_pixel(1, 0), Some(7));
    assert_eq!(result.get_pixel(2, 0), Some(15));
}

#[test]
fn test_convert_to_4_from_8bpp() {
    let pix = Pix::new(3, 1, PixelDepth::Bit8).unwrap();
    let mut pm = pix.try_into_mut().unwrap();
    pm.set_pixel_unchecked(0, 0, 0);
    pm.set_pixel_unchecked(1, 0, 0x80);
    pm.set_pixel_unchecked(2, 0, 0xff);
    let pix: Pix = pm.into();

    let result = pix.convert_to_4().unwrap();
    assert_eq!(result.depth(), PixelDepth::Bit4);
    assert_eq!(result.get_pixel(0, 0), Some(0));
    assert_eq!(result.get_pixel(1, 0), Some(8)); // 0x80 >> 4 = 8
    assert_eq!(result.get_pixel(2, 0), Some(15)); // 0xff >> 4 = 15
}

#[test]
fn test_convert_to_4_from_32bpp() {
    let pix = Pix::new(1, 1, PixelDepth::Bit32).unwrap();
    let mut pm = pix.try_into_mut().unwrap();
    pm.set_rgb(0, 0, 128, 128, 128).unwrap();
    let pix: Pix = pm.into();

    let result = pix.convert_to_4().unwrap();
    assert_eq!(result.depth(), PixelDepth::Bit4);
    // 128 luminance → top 4 bits = 8
    assert_eq!(result.get_pixel(0, 0), Some(8));
}

#[test]
fn test_convert_gray_to_colormap_2bpp() {
    let pix = Pix::new(4, 1, PixelDepth::Bit2).unwrap();
    let mut pm = pix.try_into_mut().unwrap();
    pm.set_pixel_unchecked(0, 0, 0);
    pm.set_pixel_unchecked(1, 0, 1);
    pm.set_pixel_unchecked(2, 0, 2);
    pm.set_pixel_unchecked(3, 0, 3);
    let pix: Pix = pm.into();

    let result = pix.convert_gray_to_colormap().unwrap();
    assert!(result.has_colormap());
    let cmap = result.colormap().unwrap();
    // 2bpp linear colormap: 4 entries spanning 0-255
    assert_eq!(cmap.len(), 4);
    assert_eq!(cmap.get_rgb(0), Some((0, 0, 0)));
    assert_eq!(cmap.get_rgb(3), Some((255, 255, 255)));
}

#[test]
fn test_convert_gray_to_colormap_4bpp() {
    let pix = Pix::new(2, 1, PixelDepth::Bit4).unwrap();
    let mut pm = pix.try_into_mut().unwrap();
    pm.set_pixel_unchecked(0, 0, 0);
    pm.set_pixel_unchecked(1, 0, 15);
    let pix: Pix = pm.into();

    let result = pix.convert_gray_to_colormap().unwrap();
    assert!(result.has_colormap());
    let cmap = result.colormap().unwrap();
    assert_eq!(cmap.len(), 16);
    assert_eq!(cmap.get_rgb(0), Some((0, 0, 0)));
    assert_eq!(cmap.get_rgb(15), Some((255, 255, 255)));
}

#[test]
fn test_convert_gray_to_colormap_8bpp() {
    // For 8bpp, delegates to convert_gray_to_colormap_8 with min_depth=2
    let pix = Pix::new(2, 1, PixelDepth::Bit8).unwrap();
    let mut pm = pix.try_into_mut().unwrap();
    pm.set_pixel_unchecked(0, 0, 0);
    pm.set_pixel_unchecked(1, 0, 255);
    let pix: Pix = pm.into();

    let result = pix.convert_gray_to_colormap().unwrap();
    assert!(result.has_colormap());
}

#[test]
fn test_convert_gray_to_colormap_invalid_depth() {
    let pix = Pix::new(10, 10, PixelDepth::Bit1).unwrap();
    assert!(pix.convert_gray_to_colormap().is_err());
    let pix = Pix::new(10, 10, PixelDepth::Bit32).unwrap();
    assert!(pix.convert_gray_to_colormap().is_err());
}

#[test]
fn test_convert_gray_to_colormap_already_has_colormap() {
    let pix = Pix::new(10, 10, PixelDepth::Bit4).unwrap();
    let mut pm = pix.try_into_mut().unwrap();
    let cmap = PixColormap::create_linear(4, true).unwrap();
    pm.set_colormap(Some(cmap)).unwrap();
    let pix: Pix = pm.into();

    // Should return a deep clone since it already has a colormap
    let result = pix.convert_gray_to_colormap().unwrap();
    assert!(result.has_colormap());
}

#[test]
fn test_convert_gray_to_colormap_8_few_colors() {
    // Only 3 unique values → should get 2bpp output
    let pix = Pix::new(3, 1, PixelDepth::Bit8).unwrap();
    let mut pm = pix.try_into_mut().unwrap();
    pm.set_pixel_unchecked(0, 0, 50);
    pm.set_pixel_unchecked(1, 0, 100);
    pm.set_pixel_unchecked(2, 0, 200);
    let pix: Pix = pm.into();

    let result = pix.convert_gray_to_colormap_8(2).unwrap();
    assert_eq!(result.depth(), PixelDepth::Bit2);
    assert!(result.has_colormap());
    let cmap = result.colormap().unwrap();
    assert_eq!(cmap.len(), 3);
    // Verify roundtrip: pixel values should map to correct gray values
    let idx0 = result.get_pixel(0, 0).unwrap() as usize;
    let idx1 = result.get_pixel(1, 0).unwrap() as usize;
    let idx2 = result.get_pixel(2, 0).unwrap() as usize;
    assert_eq!(cmap.get_rgb(idx0), Some((50, 50, 50)));
    assert_eq!(cmap.get_rgb(idx1), Some((100, 100, 100)));
    assert_eq!(cmap.get_rgb(idx2), Some((200, 200, 200)));
}

#[test]
fn test_convert_gray_to_colormap_8_many_colors() {
    // More than 16 unique values → 8bpp output
    let pix = Pix::new(20, 1, PixelDepth::Bit8).unwrap();
    let mut pm = pix.try_into_mut().unwrap();
    for i in 0..20 {
        pm.set_pixel_unchecked(i, 0, (i * 13) as u32);
    }
    let pix: Pix = pm.into();

    let result = pix.convert_gray_to_colormap_8(2).unwrap();
    assert_eq!(result.depth(), PixelDepth::Bit8);
    assert!(result.has_colormap());
}

#[test]
fn test_convert_gray_to_colormap_8_min_depth_4() {
    // Only 3 unique values, but min_depth=4 → should get 4bpp
    let pix = Pix::new(3, 1, PixelDepth::Bit8).unwrap();
    let mut pm = pix.try_into_mut().unwrap();
    pm.set_pixel_unchecked(0, 0, 10);
    pm.set_pixel_unchecked(1, 0, 100);
    pm.set_pixel_unchecked(2, 0, 200);
    let pix: Pix = pm.into();

    let result = pix.convert_gray_to_colormap_8(4).unwrap();
    assert_eq!(result.depth(), PixelDepth::Bit4);
    assert!(result.has_colormap());
}

#[test]
fn test_convert_gray_to_colormap_8_invalid_depth() {
    let pix = Pix::new(10, 10, PixelDepth::Bit4).unwrap();
    assert!(pix.convert_gray_to_colormap_8(2).is_err());
}

#[test]
fn test_convert_gray_to_colormap_8_roundtrip() {
    // Create image, convert to colormap, remove colormap, verify values match
    let pix = Pix::new(5, 5, PixelDepth::Bit8).unwrap();
    let mut pm = pix.try_into_mut().unwrap();
    for y in 0..5u32 {
        for x in 0..5u32 {
            pm.set_pixel_unchecked(x, y, (x * 50 + y * 10) as u32);
        }
    }
    let pix: Pix = pm.into();

    let cmapped = pix.convert_gray_to_colormap_8(2).unwrap();
    let restored = cmapped
        .remove_colormap(RemoveColormapTarget::ToGrayscale)
        .unwrap();

    // Verify all pixels match
    for y in 0..5u32 {
        for x in 0..5u32 {
            assert_eq!(
                pix.get_pixel(x, y),
                restored.get_pixel(x, y),
                "mismatch at ({x}, {y})"
            );
        }
    }
}

#[test]
fn test_convert_32_to_16_ls_two_bytes() {
    // 32bpp label image → 16bpp: lower 16 bits extracted
    let pix = Pix::new(4, 1, PixelDepth::Bit32).unwrap();
    let mut pm = pix.try_into_mut().unwrap();
    pm.set_pixel_unchecked(0, 0, 0x0001_0002); // lower=0x0002
    pm.set_pixel_unchecked(1, 0, 0x0000_FFFF); // lower=0xFFFF
    pm.set_pixel_unchecked(2, 0, 0xFFFF_0000); // lower=0x0000
    pm.set_pixel_unchecked(3, 0, 0x0001_ABCD); // lower=0xABCD
    let pix: Pix = pm.into();

    let result = pix.convert_32_to_16(Convert32To16Type::LsTwoBytes).unwrap();
    assert_eq!(result.depth(), PixelDepth::Bit16);
    assert_eq!(result.width(), 4);
    assert_eq!(result.height(), 1);
    assert_eq!(result.get_pixel(0, 0), Some(0x0002));
    assert_eq!(result.get_pixel(1, 0), Some(0xFFFF));
    assert_eq!(result.get_pixel(2, 0), Some(0x0000));
    assert_eq!(result.get_pixel(3, 0), Some(0xABCD));
}

#[test]
fn test_convert_32_to_16_ms_two_bytes() {
    // 32bpp → 16bpp: upper 16 bits extracted
    let pix = Pix::new(3, 1, PixelDepth::Bit32).unwrap();
    let mut pm = pix.try_into_mut().unwrap();
    pm.set_pixel_unchecked(0, 0, 0x1234_5678);
    pm.set_pixel_unchecked(1, 0, 0x0000_ABCD);
    pm.set_pixel_unchecked(2, 0, 0xFFFF_0000);
    let pix: Pix = pm.into();

    let result = pix.convert_32_to_16(Convert32To16Type::MsTwoBytes).unwrap();
    assert_eq!(result.depth(), PixelDepth::Bit16);
    assert_eq!(result.get_pixel(0, 0), Some(0x1234));
    assert_eq!(result.get_pixel(1, 0), Some(0x0000));
    assert_eq!(result.get_pixel(2, 0), Some(0xFFFF));
}

#[test]
fn test_convert_32_to_16_clip_to_ffff() {
    // 32bpp → 16bpp: clip: if upper 16 bits nonzero → 0xFFFF, else keep lower
    let pix = Pix::new(3, 1, PixelDepth::Bit32).unwrap();
    let mut pm = pix.try_into_mut().unwrap();
    pm.set_pixel_unchecked(0, 0, 0x0001_ABCD); // upper nonzero → 0xFFFF
    pm.set_pixel_unchecked(1, 0, 0x0000_1234); // upper zero → 0x1234
    pm.set_pixel_unchecked(2, 0, 0x0000_0000); // → 0x0000
    let pix: Pix = pm.into();

    let result = pix.convert_32_to_16(Convert32To16Type::ClipToFfff).unwrap();
    assert_eq!(result.get_pixel(0, 0), Some(0xFFFF));
    assert_eq!(result.get_pixel(1, 0), Some(0x1234));
    assert_eq!(result.get_pixel(2, 0), Some(0x0000));
}

#[test]
fn test_convert_32_to_16_invalid_depth() {
    let pix = Pix::new(4, 4, PixelDepth::Bit8).unwrap();
    assert!(pix.convert_32_to_16(Convert32To16Type::LsTwoBytes).is_err());
}

#[test]
fn test_add_alpha_to_1bpp() {
    // 1bpp image gets colormap: 0→transparent white, 1→opaque black
    let pix = Pix::new(4, 1, PixelDepth::Bit1).unwrap();
    let mut pm = pix.try_into_mut().unwrap();
    pm.set_pixel_unchecked(0, 0, 0); // BG
    pm.set_pixel_unchecked(1, 0, 1); // FG
    pm.set_pixel_unchecked(2, 0, 1); // FG
    pm.set_pixel_unchecked(3, 0, 0); // BG
    let pix: Pix = pm.into();

    let result = pix.add_alpha_to_1bpp().unwrap();
    assert_eq!(result.depth(), PixelDepth::Bit1);
    assert!(result.has_colormap());
    let cmap = result.colormap().unwrap();
    assert_eq!(cmap.len(), 2);
    // index 0: white + transparent (alpha=0)
    assert_eq!(cmap.get_rgba(0), Some((255, 255, 255, 0)));
    // index 1: black + opaque (alpha=255)
    assert_eq!(cmap.get_rgba(1), Some((0, 0, 0, 255)));
    // Pixel values are preserved
    assert_eq!(result.get_pixel(0, 0), Some(0));
    assert_eq!(result.get_pixel(1, 0), Some(1));
}

#[test]
fn test_add_alpha_to_1bpp_invalid_depth() {
    let pix = Pix::new(4, 4, PixelDepth::Bit8).unwrap();
    assert!(pix.add_alpha_to_1bpp().is_err());
}

#[test]
fn test_colorize_gray_to_rgb() {
    // 8bpp gray image colorized to 32bpp RGB
    let pix = Pix::new(3, 1, PixelDepth::Bit8).unwrap();
    let mut pm = pix.try_into_mut().unwrap();
    pm.set_pixel_unchecked(0, 0, 0); // darkest
    pm.set_pixel_unchecked(1, 0, 128); // mid
    pm.set_pixel_unchecked(2, 0, 255); // brightest
    let pix: Pix = pm.into();

    // Use red tint: color = 0xFF000000 (red pixel in RGBA format)
    let result = pix
        .colorize_gray(color::compose_rgb(255, 0, 0), false)
        .unwrap();
    assert_eq!(result.depth(), PixelDepth::Bit32);
    // pixel 0 (gray=0): darkest red → (0,0,0)
    let p0 = result.get_pixel(0, 0).unwrap();
    let (r0, g0, b0) = color::extract_rgb(p0);
    assert_eq!((r0, g0, b0), (0, 0, 0));
    // pixel 2 (gray=255): brightest red → (255,0,0)
    let p2 = result.get_pixel(2, 0).unwrap();
    let (r2, g2, b2) = color::extract_rgb(p2);
    assert_eq!((r2, g2, b2), (255, 0, 0));
}

#[test]
fn test_colorize_gray_to_colormap() {
    // 8bpp gray colorized with cmapflag=true → 8bpp cmapped output
    let pix = Pix::new(3, 1, PixelDepth::Bit8).unwrap();
    let mut pm = pix.try_into_mut().unwrap();
    pm.set_pixel_unchecked(0, 0, 0);
    pm.set_pixel_unchecked(1, 0, 128);
    pm.set_pixel_unchecked(2, 0, 255);
    let pix: Pix = pm.into();

    let result = pix
        .colorize_gray(color::compose_rgb(0, 0, 255), true)
        .unwrap();
    assert_eq!(result.depth(), PixelDepth::Bit8);
    assert!(result.has_colormap());
    // Colormap should have 256 entries
    let cmap = result.colormap().unwrap();
    assert_eq!(cmap.len(), 256);
}

#[test]
fn test_colorize_gray_from_cmapped() {
    // Colormapped input is first converted to gray, then colorized
    let pix = Pix::new(2, 1, PixelDepth::Bit8).unwrap();
    let mut cmap = PixColormap::new(8).unwrap();
    cmap.add_rgba(100, 100, 100, 255).unwrap();
    cmap.add_rgba(200, 200, 200, 255).unwrap();
    let mut pm = pix.try_into_mut().unwrap();
    pm.set_colormap(Some(cmap)).unwrap();
    pm.set_pixel_unchecked(0, 0, 0);
    pm.set_pixel_unchecked(1, 0, 1);
    let pix: Pix = pm.into();

    let result = pix
        .colorize_gray(color::compose_rgb(255, 128, 0), false)
        .unwrap();
    assert_eq!(result.depth(), PixelDepth::Bit32);
}

#[test]
fn test_colorize_gray_invalid_depth() {
    // 32bpp without colormap → error
    let pix = Pix::new(4, 4, PixelDepth::Bit32).unwrap();
    assert!(
        pix.colorize_gray(color::compose_rgb(255, 0, 0), false)
            .is_err()
    );
}

#[test]
fn test_convert_cmap_to_1_basic() {
    // Create a colormapped image with clear dark (FG) and light (BG) colors
    // 1bpp colormapped: dark color at index 0, light at index 1
    let mut cmap = PixColormap::new(8).unwrap();
    cmap.add_rgba(10, 10, 10, 255).unwrap(); // index 0: very dark
    cmap.add_rgba(240, 240, 240, 255).unwrap(); // index 1: very light

    let pix = Pix::new(4, 1, PixelDepth::Bit8).unwrap();
    let mut pm = pix.try_into_mut().unwrap();
    pm.set_colormap(Some(cmap)).unwrap();
    pm.set_pixel_unchecked(0, 0, 0); // dark
    pm.set_pixel_unchecked(1, 0, 1); // light
    pm.set_pixel_unchecked(2, 0, 0); // dark
    pm.set_pixel_unchecked(3, 0, 1); // light
    let pix: Pix = pm.into();

    let result = pix.convert_cmap_to_1().unwrap();
    assert_eq!(result.depth(), PixelDepth::Bit1);
    assert!(!result.has_colormap());
    // Dark colors (index 0) should be FG (1-bit set), light should be BG (0)
    assert_eq!(result.get_pixel(0, 0), Some(1)); // dark → FG
    assert_eq!(result.get_pixel(1, 0), Some(0)); // light → BG
    assert_eq!(result.get_pixel(2, 0), Some(1)); // dark → FG
    assert_eq!(result.get_pixel(3, 0), Some(0)); // light → BG
}

#[test]
fn test_convert_cmap_to_1_requires_colormap() {
    let pix = Pix::new(4, 4, PixelDepth::Bit8).unwrap();
    assert!(pix.convert_cmap_to_1().is_err());
}

#[test]
fn test_convert_for_ps_wrap_1bpp_passthrough() {
    // 1bpp → clone (no change)
    let pix = Pix::new(8, 4, PixelDepth::Bit1).unwrap();
    let result = pix.convert_for_ps_wrap().unwrap();
    assert_eq!(result.depth(), PixelDepth::Bit1);
}

#[test]
fn test_convert_for_ps_wrap_32bpp_passthrough() {
    // 32bpp → clone (no change)
    let pix = Pix::new(4, 4, PixelDepth::Bit32).unwrap();
    let result = pix.convert_for_ps_wrap().unwrap();
    assert_eq!(result.depth(), PixelDepth::Bit32);
}

#[test]
fn test_convert_for_ps_wrap_2bpp_no_cmap() {
    // 2bpp without cmap → convert to 8bpp gray
    let pix = Pix::new(4, 1, PixelDepth::Bit2).unwrap();
    let mut pm = pix.try_into_mut().unwrap();
    pm.set_pixel_unchecked(0, 0, 0);
    pm.set_pixel_unchecked(1, 0, 1);
    pm.set_pixel_unchecked(2, 0, 2);
    pm.set_pixel_unchecked(3, 0, 3);
    let pix: Pix = pm.into();

    let result = pix.convert_for_ps_wrap().unwrap();
    assert_eq!(result.depth(), PixelDepth::Bit8);
    assert!(!result.has_colormap());
}

#[test]
fn test_convert_for_ps_wrap_8bpp_no_cmap() {
    // 8bpp without cmap → stays 8bpp gray (remove_colormap on BasedOnSrc with no cmap = identity)
    let pix = Pix::new(4, 4, PixelDepth::Bit8).unwrap();
    let mut pm = pix.try_into_mut().unwrap();
    pm.set_pixel_unchecked(0, 0, 128);
    let pix: Pix = pm.into();

    let result = pix.convert_for_ps_wrap().unwrap();
    assert_eq!(result.depth(), PixelDepth::Bit8);
}

#[test]
fn test_convert_for_ps_wrap_16bpp() {
    // 16bpp → 8bpp using MS byte
    let pix = Pix::new(4, 1, PixelDepth::Bit16).unwrap();
    let mut pm = pix.try_into_mut().unwrap();
    pm.set_pixel_unchecked(0, 0, 0xAB00);
    pm.set_pixel_unchecked(1, 0, 0x0000);
    let pix: Pix = pm.into();

    let result = pix.convert_for_ps_wrap().unwrap();
    assert_eq!(result.depth(), PixelDepth::Bit8);
    assert_eq!(result.get_pixel(0, 0), Some(0xAB));
    assert_eq!(result.get_pixel(1, 0), Some(0x00));
}

#[test]
fn gray_to_32_and_back_keeps_pixels() {
    let pix = Pix::new(4, 2, PixelDepth::Bit8).unwrap();
    let mut pm = pix.try_into_mut().unwrap();
    for (i, v) in [0u32, 1, 2, 127, 128, 200, 254, 255].iter().enumerate() {
        pm.set_pixel(i as u32 % 4, i as u32 / 4, *v).unwrap();
    }
    let pix: Pix = pm.into();
    let back = pix.convert_to_32().unwrap().convert_to_8().unwrap();
    for y in 0..2 {
        for x in 0..4 {
            assert_eq!(back.get_pixel(x, y), pix.get_pixel(x, y));
        }
    }
}
