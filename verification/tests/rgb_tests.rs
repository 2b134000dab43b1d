use leptonica_core::{Pix, PixelDepth, PixColormap};
use leptonica_core::color;
use leptonica_core::pix::rgb::RgbComponent;

#[test]
fn test_get_rgb_component_red() {
    let pix = Pix::new(3, 1, PixelDepth::Bit32).unwrap();
    let mut pm = pix.try_into_mut().unwrap();
    pm.set_rgb(0, 0, 200, 100, 50).unwrap();
    pm.set_rgb(1, 0, 0, 255, 0).unwrap();
    pm.set_rgb(2, 0, 50, 50, 50).unwrap();
    let pix: Pix = pm.into();

    let red = pix.get_rgb_component(RgbComponent::Red).unwrap();
    assert_eq!(red.depth(), PixelDepth::Bit8);
    assert_eq!(red.get_pixel(0, 0), Some(200));
    assert_eq!(red.get_pixel(1, 0), Some(0));
    assert_eq!(red.get_pixel(2, 0), Some(50));
}

#[test]
fn test_get_rgb_component_green() {
    let pix = Pix::new(2, 1, PixelDepth::Bit32).unwrap();
    let mut pm = pix.try_into_mut().unwrap();
    pm.set_rgb(0, 0, 100, 200, 50).unwrap();
    pm.set_rgb(1, 0, 0, 128, 255).unwrap();
    let pix: Pix = pm.into();

    let green = pix.get_rgb_component(RgbComponent::Green).unwrap();
    assert_eq!(green.get_pixel(0, 0), Some(200));
    assert_eq!(green.get_pixel(1, 0), Some(128));
}

#[test]
fn test_get_rgb_component_blue() {
    let pix = Pix::new(1, 1, PixelDepth::Bit32).unwrap();
    let mut pm = pix.try_into_mut().unwrap();
    pm.set_rgb(0, 0, 10, 20, 30).unwrap();
    let pix: Pix = pm.into();

    let blue = pix.get_rgb_component(RgbComponent::Blue).unwrap();
    assert_eq!(blue.get_pixel(0, 0), Some(30));
}

#[test]
fn test_get_rgb_component_alpha() {
    let pix = Pix::new(1, 1, PixelDepth::Bit32).unwrap();
    let mut pm = pix.try_into_mut().unwrap();
    pm.set_spp(4);
    pm.set_pixel_unchecked(0, 0, color::compose_rgba(100, 150, 200, 128));
    let pix: Pix = pm.into();

    let alpha = pix.get_rgb_component(RgbComponent::Alpha).unwrap();
    assert_eq!(alpha.get_pixel(0, 0), Some(128));
}

#[test]
fn test_get_rgb_component_invalid_depth() {
    let pix = Pix::new(10, 10, PixelDepth::Bit8).unwrap();
    assert!(pix.get_rgb_component(RgbComponent::Red).is_err());
}

#[test]
fn test_get_rgb_component_preserves_resolution() {
    let pix = Pix::new(10, 10, PixelDepth::Bit32).unwrap();
    let mut pm = pix.try_into_mut().unwrap();
    pm.set_resolution(300, 300);
    let pix: Pix = pm.into();

    let red = pix.get_rgb_component(RgbComponent::Red).unwrap();
    assert_eq!(red.xres(), 300);
    assert_eq!(red.yres(), 300);
}

#[test]
fn test_set_rgb_component() {
    let pix = Pix::new(2, 1, PixelDepth::Bit32).unwrap();
    let mut pm = pix.try_into_mut().unwrap();
    pm.set_rgb(0, 0, 100, 100, 100).unwrap();
    pm.set_rgb(1, 0, 100, 100, 100).unwrap();

    // Create an 8bpp source with new red values
    let src = Pix::new(2, 1, PixelDepth::Bit8).unwrap();
    let mut src_m = src.try_into_mut().unwrap();
    src_m.set_pixel_unchecked(0, 0, 255);
    src_m.set_pixel_unchecked(1, 0, 0);
    let src: Pix = src_m.into();

    pm.set_rgb_component(&src, RgbComponent::Red).unwrap();
    let pix: Pix = pm.into();

    let (r, g, b) = color::extract_rgb(pix.get_pixel_unchecked(0, 0));
    assert_eq!((r, g, b), (255, 100, 100));
    let (r, g, b) = color::extract_rgb(pix.get_pixel_unchecked(1, 0));
    assert_eq!((r, g, b), (0, 100, 100));
}

#[test]
fn test_set_rgb_component_alpha() {
    let pix = Pix::new(1, 1, PixelDepth::Bit32).unwrap();
    let mut pm = pix.try_into_mut().unwrap();
    pm.set_rgb(0, 0, 100, 150, 200).unwrap();

    let src = Pix::new(1, 1, PixelDepth::Bit8).unwrap();
    let mut src_m = src.try_into_mut().unwrap();
    src_m.set_pixel_unchecked(0, 0, 128);
    let src: Pix = src_m.into();

    pm.set_rgb_component(&src, RgbComponent::Alpha).unwrap();
    assert_eq!(pm.spp(), 4);
    let pix: Pix = pm.into();

    let (_, _, _, a) = color::extract_rgba(pix.get_pixel_unchecked(0, 0));
    assert_eq!(a, 128);
}

#[test]
fn test_set_rgb_component_invalid_depth() {
    let pix = Pix::new(10, 10, PixelDepth::Bit8).unwrap();
    let mut pm = pix.try_into_mut().unwrap();
    let src = Pix::new(10, 10, PixelDepth::Bit8).unwrap();
    assert!(pm.set_rgb_component(&src, RgbComponent::Red).is_err());
}

#[test]
fn test_set_rgb_component_dimension_mismatch() {
    let pix = Pix::new(2, 2, PixelDepth::Bit32).unwrap();
    let mut pm = pix.try_into_mut().unwrap();
    for y in 0..2 {
        for x in 0..2 {
            pm.set_rgb(x, y, 10, 20, 30).unwrap();
        }
    }

    // Smaller source: only overlapping region should be modified
    let src = Pix::new(1, 1, PixelDepth::Bit8).unwrap();
    let mut src_m = src.try_into_mut().unwrap();
    src_m.set_pixel_unchecked(0, 0, 255);
    let src: Pix = src_m.into();

    pm.set_rgb_component(&src, RgbComponent::Red).unwrap();
    let pix: Pix = pm.into();

    let (r, g, b) = color::extract_rgb(pix.get_pixel_unchecked(0, 0));
    assert_eq!((r, g, b), (255, 20, 30));
    // Other pixels unchanged
    let (r, g, b) = color::extract_rgb(pix.get_pixel_unchecked(1, 0));
    assert_eq!((r, g, b), (10, 20, 30));
    let (r, g, b) = color::extract_rgb(pix.get_pixel_unchecked(0, 1));
    assert_eq!((r, g, b), (10, 20, 30));
    let (r, g, b) = color::extract_rgb(pix.get_pixel_unchecked(1, 1));
    assert_eq!((r, g, b), (10, 20, 30));
}

#[test]
fn test_create_rgb_image() {
    let r = Pix::new(2, 1, PixelDepth::Bit8).unwrap();
    let mut rm = r.try_into_mut().unwrap();
    rm.set_pixel_unchecked(0, 0, 255);
    rm.set_pixel_unchecked(1, 0, 0);
    let r: Pix = rm.into();

    let g = Pix::new(2, 1, PixelDepth::Bit8).unwrap();
    let mut gm = g.try_into_mut().unwrap();
    gm.set_pixel_unchecked(0, 0, 0);
    gm.set_pixel_unchecked(1, 0, 255);
    let g: Pix = gm.into();

    let b = Pix::new(2, 1, PixelDepth::Bit8).unwrap();
    let mut bm = b.try_into_mut().unwrap();
    bm.set_pixel_unchecked(0, 0, 128);
    bm.set_pixel_unchecked(1, 0, 64);
    let b: Pix = bm.into();

    let rgb = Pix::create_rgb_image(&r, &g, &b).unwrap();
    assert_eq!(rgb.depth(), PixelDepth::Bit32);
    let (rv, gv, bv) = color::extract_rgb(rgb.get_pixel_unchecked(0, 0));
    assert_eq!((rv, gv, bv), (255, 0, 128));
    let (rv, gv, bv) = color::extract_rgb(rgb.get_pixel_unchecked(1, 0));
    assert_eq!((rv, gv, bv), (0, 255, 64));
}

#[test]
fn test_create_rgb_image_dimension_mismatch() {
    let r = Pix::new(10, 10, PixelDepth::Bit8).unwrap();
    let g = Pix::new(10, 20, PixelDepth::Bit8).unwrap();
    let b = Pix::new(10, 10, PixelDepth::Bit8).unwrap();
    assert!(Pix::create_rgb_image(&r, &g, &b).is_err());
}

#[test]
fn test_create_rgb_image_invalid_depth() {
    let r = Pix::new(10, 10, PixelDepth::Bit8).unwrap();
    let g = Pix::new(10, 10, PixelDepth::Bit32).unwrap();
    let b = Pix::new(10, 10, PixelDepth::Bit8).unwrap();
    assert!(Pix::create_rgb_image(&r, &g, &b).is_err());
}

#[test]
fn test_roundtrip_extract_compose() {
    // Extract R/G/B, then compose back, should match original
    let pix = Pix::new(3, 2, PixelDepth::Bit32).unwrap();
    let mut pm = pix.try_into_mut().unwrap();
    pm.set_rgb(0, 0, 10, 20, 30).unwrap();
    pm.set_rgb(1, 0, 100, 150, 200).unwrap();
    pm.set_rgb(2, 0, 255, 128, 0).unwrap();
    pm.set_rgb(0, 1, 0, 0, 0).unwrap();
    pm.set_rgb(1, 1, 255, 255, 255).unwrap();
    pm.set_rgb(2, 1, 50, 100, 150).unwrap();
    let pix: Pix = pm.into();

    let r = pix.get_rgb_component(RgbComponent::Red).unwrap();
    let g = pix.get_rgb_component(RgbComponent::Green).unwrap();
    let b = pix.get_rgb_component(RgbComponent::Blue).unwrap();

    let result = Pix::create_rgb_image(&r, &g, &b).unwrap();

    for y in 0..2 {
        for x in 0..3 {
            let (or, og, ob) = color::extract_rgb(pix.get_pixel_unchecked(x, y));
            let (rr, rg, rb) = color::extract_rgb(result.get_pixel_unchecked(x, y));
            assert_eq!((or, og, ob), (rr, rg, rb), "mismatch at ({}, {})", x, y);
        }
    }
}

#[test]
fn test_get_rgb_component_cmap() {
    let mut cmap = PixColormap::new(8).unwrap();
    cmap.add_rgb(255, 0, 0).unwrap(); // index 0: red
    cmap.add_rgb(0, 128, 0).unwrap(); // index 1: green
    cmap.add_rgb(0, 0, 200).unwrap(); // index 2: blue

    let pix = Pix::new(3, 1, PixelDepth::Bit8).unwrap();
    let mut pm = pix.try_into_mut().unwrap();
    pm.set_colormap(Some(cmap)).unwrap();
    pm.set_pixel(0, 0, 0).unwrap(); // red
    pm.set_pixel(1, 0, 1).unwrap(); // green
    pm.set_pixel(2, 0, 2).unwrap(); // blue
    let pix: Pix = pm.into();

    let red_comp = pix.get_rgb_component_cmap(RgbComponent::Red).unwrap();
    assert_eq!(red_comp.depth(), PixelDepth::Bit8);
    assert_eq!(red_comp.get_pixel(0, 0), Some(255));
    assert_eq!(red_comp.get_pixel(1, 0), Some(0));
    assert_eq!(red_comp.get_pixel(2, 0), Some(0));
}

#[test]
fn test_get_rgb_line() {
    let pix = Pix::new(3, 2, PixelDepth::Bit32).unwrap();
    let mut pm = pix.try_into_mut().unwrap();
    pm.set_rgb(0, 0, 10, 20, 30).unwrap();
    pm.set_rgb(1, 0, 40, 50, 60).unwrap();
    pm.set_rgb(2, 0, 70, 80, 90).unwrap();
    let pix: Pix = pm.into();

    let (r, g, b) = pix.get_rgb_line(0).unwrap();
    assert_eq!(r, vec![10, 40, 70]);
    assert_eq!(g, vec![20, 50, 80]);
    assert_eq!(b, vec![30, 60, 90]);
}

#[test]
fn test_copy_rgb_component() {
    let pix_d = Pix::new(2, 1, PixelDepth::Bit32).unwrap();
    let mut pm_d = pix_d.try_into_mut().unwrap();
    pm_d.set_rgb(0, 0, 100, 100, 100).unwrap();
    pm_d.set_rgb(1, 0, 100, 100, 100).unwrap();

    let pix_s = Pix::new(2, 1, PixelDepth::Bit32).unwrap();
    let mut pm_s = pix_s.try_into_mut().unwrap();
    pm_s.set_rgb(0, 0, 255, 0, 0).unwrap();
    pm_s.set_rgb(1, 0, 0, 255, 0).unwrap();
    let pix_s: Pix = pm_s.into();

    pm_d.copy_rgb_component(&pix_s, RgbComponent::Red).unwrap();
    let (r, _, _) = color::extract_rgb(pm_d.get_pixel_unchecked(0, 0));
    assert_eq!(r, 255);
    let (r, _, _) = color::extract_rgb(pm_d.get_pixel_unchecked(1, 0));
    assert_eq!(r, 0);
    // Green and blue should be unchanged
    let (_, g, b) = color::extract_rgb(pm_d.get_pixel_unchecked(0, 0));
    assert_eq!((g, b), (100, 100));
}

#[test]
fn test_alpha_is_opaque_true() {
    let pix = Pix::new(3, 3, PixelDepth::Bit32).unwrap();
    let mut pm = pix.try_into_mut().unwrap();
    pm.set_spp(4);
    for y in 0..3 {
        for x in 0..3 {
            pm.set_pixel_unchecked(x, y, color::compose_rgba(100, 100, 100, 255));
        }
    }
    let pix: Pix = pm.into();
    assert!(pix.alpha_is_opaque().unwrap());
}

#[test]
fn test_alpha_is_opaque_false() {
    let pix = Pix::new(3, 3, PixelDepth::Bit32).unwrap();
    let mut pm = pix.try_into_mut().unwrap();
    pm.set_spp(4);
    for y in 0..3 {
        for x in 0..3 {
            pm.set_pixel_unchecked(x, y, color::compose_rgba(100, 100, 100, 255));
        }
    }
    // Set one pixel with alpha != 255
    pm.set_pixel_unchecked(1, 1, color::compose_rgba(100, 100, 100, 128));
    let pix: Pix = pm.into();
    assert!(!pix.alpha_is_opaque().unwrap());
}

#[test]
fn test_endian_byte_swap() {
    let pix = Pix::new(1, 1, PixelDepth::Bit32).unwrap();
    let mut pm = pix.try_into_mut().unwrap();
    pm.set_pixel_unchecked(0, 0, 0xAABBCCDD);
    pm.endian_byte_swap();
    // ABCD -> DCBA: 0xAABBCCDD -> 0xDDCCBBAA
    assert_eq!(pm.get_pixel_unchecked(0, 0), 0xDDCCBBAA);
}

#[test]
fn test_endian_byte_swap_new() {
    let pix = Pix::new(1, 1, PixelDepth::Bit32).unwrap();
    let mut pm = pix.try_into_mut().unwrap();
    pm.set_pixel_unchecked(0, 0, 0x12345678);
    let pix: Pix = pm.into();

    let swapped = pix.endian_byte_swap_new();
    assert_eq!(swapped.get_pixel_unchecked(0, 0), 0x78563412);
    // Original should be unchanged
    assert_eq!(pix.get_pixel_unchecked(0, 0), 0x12345678);
}

#[test]
fn test_endian_two_byte_swap() {
    let pix = Pix::new(1, 1, PixelDepth::Bit32).unwrap();
    let mut pm = pix.try_into_mut().unwrap();
    pm.set_pixel_unchecked(0, 0, 0xAABBCCDD);
    pm.endian_two_byte_swap();
    // AABB|CCDD -> CCDD|AABB: 0xCCDDAABB
    assert_eq!(pm.get_pixel_unchecked(0, 0), 0xCCDDAABB);
}

#[test]
fn test_get_raster_data_8bpp() {
    let pix = Pix::new(3, 2, PixelDepth::Bit8).unwrap();
    let mut pm = pix.try_into_mut().unwrap();
    for y in 0..2u32 {
        for x in 0..3u32 {
            pm.set_pixel(x, y, (y * 3 + x) as u32).unwrap();
        }
    }
    let pix: Pix = pm.into();
    let data = pix.get_raster_data().unwrap();
    // Each row is 4 bytes (wpl=1, 32 bits), 3 used + 1 pad
    assert_eq!(data.len(), 2 * 4);
    assert_eq!(data[0], 0);
    assert_eq!(data[1], 1);
    assert_eq!(data[2], 2);
}

#[test]
fn test_get_raster_data_32bpp() {
    let pix = Pix::new(2, 1, PixelDepth::Bit32).unwrap();
    let mut pm = pix.try_into_mut().unwrap();
    pm.set_rgb(0, 0, 10, 20, 30).unwrap();
    pm.set_rgb(1, 0, 40, 50, 60).unwrap();
    let pix: Pix = pm.into();
    let data = pix.get_raster_data().unwrap();
    // 32 bpp: 3 bytes per pixel (RGB only)
    assert_eq!(data.len(), 6);
    assert_eq!(data[0..3], [10, 20, 30]);
    assert_eq!(data[3..6], [40, 50, 60]);
}

#[test]
fn test_set_cmap_pixel() {
    let mut cmap = PixColormap::new(8).unwrap();
    cmap.add_rgb(255, 0, 0).unwrap(); // index 0
    cmap.add_rgb(0, 255, 0).unwrap(); // index 1

    let pix = Pix::new(2, 1, PixelDepth::Bit8).unwrap();
    let mut pm = pix.try_into_mut().unwrap();
    pm.set_colormap(Some(cmap)).unwrap();

    pm.set_cmap_pixel(0, 0, 255, 0, 0).unwrap(); // should set index 0
    pm.set_cmap_pixel(1, 0, 0, 255, 0).unwrap(); // should set index 1
    assert_eq!(pm.get_pixel(0, 0), Some(0));
    assert_eq!(pm.get_pixel(1, 0), Some(1));
}

#[test]
fn raster_data_clears_pad_bits() {
    // 1 bpp, width 5: one word per row, only the top 5 bits are pixels.
    let pix = Pix::new(5, 1, PixelDepth::Bit1).unwrap();
    let mut pm = pix.try_into_mut().unwrap();
    pm.set_all();
    let pix: Pix = pm.into();
    let data = pix.get_raster_data().unwrap();
    assert_eq!(data, vec![0xf8, 0, 0, 0]);
}

#[test]
fn raster_data_keeps_full_words() {
    // 4 bpp, width 8: the row fills its word exactly, nothing is cleared.
    let pix = Pix::new(8, 1, PixelDepth::Bit4).unwrap();
    let mut pm = pix.try_into_mut().unwrap();
    pm.set_all();
    let pix: Pix = pm.into();
    assert_eq!(pix.get_raster_data().unwrap(), vec![0xff, 0xff, 0xff, 0xff]);
}

#[test]
fn set_cmap_pixel_picks_nearest_first() {
    let mut cmap = PixColormap::new(8).unwrap();
    cmap.add_rgb(0, 0, 0).unwrap();
    cmap.add_rgb(100, 100, 100).unwrap();
    cmap.add_rgb(100, 100, 100).unwrap();
    let pix = Pix::new(2, 1, PixelDepth::Bit8).unwrap();
    let mut pm = pix.try_into_mut().unwrap();
    pm.set_colormap(Some(cmap)).unwrap();
    pm.set_cmap_pixel(0, 0, 90, 90, 90).unwrap();
    assert_eq!(pm.get_pixel(0, 0), Some(1));
    pm.set_cmap_pixel(1, 0, 40, 40, 40).unwrap();
    assert_eq!(pm.get_pixel(1, 0), Some(0));
}

#[test]
fn set_cmap_pixel_errors() {
    let pix = Pix::new(2, 1, PixelDepth::Bit8).unwrap();
    let mut pm = pix.try_into_mut().unwrap();
    assert!(pm.set_cmap_pixel(0, 0, 1, 2, 3).is_err());
    pm.set_colormap(Some(PixColormap::new(8).unwrap())).unwrap();
    assert!(pm.set_cmap_pixel(0, 0, 1, 2, 3).is_err());
    let mut cmap = PixColormap::new(8).unwrap();
    cmap.add_rgb(1, 2, 3).unwrap();
    pm.set_colormap(Some(cmap)).unwrap();
    assert!(pm.set_cmap_pixel(5, 0, 1, 2, 3).is_err());
    assert!(pm.set_cmap_pixel(1, 0, 1, 2, 3).is_ok());
}
