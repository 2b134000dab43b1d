use leptonica_core::{Pix, PixelDepth, InitColor};
use leptonica_core::box_::{Box, Boxa};

#[test]
fn test_set_masked_8bpp() {
    let pix = Pix::new(4, 3, PixelDepth::Bit8).unwrap();
    let mut pm = pix.try_into_mut().unwrap();
    // Fill with 100
    for y in 0..3 {
        for x in 0..4 {
            pm.set_pixel_unchecked(x, y, 100);
        }
    }

    // Mask: ON at (0,0) and (2,1)
    let mask = Pix::new(4, 3, PixelDepth::Bit1).unwrap();
    let mut mm = mask.try_into_mut().unwrap();
    mm.set_pixel_unchecked(0, 0, 1);
    mm.set_pixel_unchecked(2, 1, 1);
    let mask: Pix = mm.into();

    pm.set_masked(&mask, 255).unwrap();
    let pix: Pix = pm.into();

    assert_eq!(pix.get_pixel(0, 0), Some(255));
    assert_eq!(pix.get_pixel(2, 1), Some(255));
    assert_eq!(pix.get_pixel(1, 0), Some(100)); // unchanged
    assert_eq!(pix.get_pixel(3, 2), Some(100)); // unchanged
}

#[test]
fn test_set_masked_32bpp() {
    let pix = Pix::new(3, 2, PixelDepth::Bit32).unwrap();
    let mut pm = pix.try_into_mut().unwrap();

    let mask = Pix::new(3, 2, PixelDepth::Bit1).unwrap();
    let mut mm = mask.try_into_mut().unwrap();
    mm.set_pixel_unchecked(1, 0, 1);
    let mask: Pix = mm.into();

    pm.set_masked(&mask, 0xff000000).unwrap();
    let pix: Pix = pm.into();

    assert_eq!(pix.get_pixel(1, 0), Some(0xff000000));
    assert_eq!(pix.get_pixel(0, 0), Some(0)); // unchanged
}

#[test]
fn test_set_masked_invalid_mask_depth() {
    let pix = Pix::new(10, 10, PixelDepth::Bit8).unwrap();
    let mut pm = pix.try_into_mut().unwrap();
    let mask = Pix::new(10, 10, PixelDepth::Bit8).unwrap();
    assert!(pm.set_masked(&mask, 0).is_err());
}

#[test]
fn test_combine_masked_8bpp() {
    let dst = Pix::new(4, 3, PixelDepth::Bit8).unwrap();
    let mut dm = dst.try_into_mut().unwrap();
    for y in 0..3 {
        for x in 0..4 {
            dm.set_pixel_unchecked(x, y, 50);
        }
    }

    let src = Pix::new(4, 3, PixelDepth::Bit8).unwrap();
    let mut sm = src.try_into_mut().unwrap();
    for y in 0..3 {
        for x in 0..4 {
            sm.set_pixel_unchecked(x, y, 200);
        }
    }
    let src: Pix = sm.into();

    let mask = Pix::new(4, 3, PixelDepth::Bit1).unwrap();
    let mut mm = mask.try_into_mut().unwrap();
    mm.set_pixel_unchecked(0, 0, 1);
    mm.set_pixel_unchecked(3, 2, 1);
    let mask: Pix = mm.into();

    dm.combine_masked(&src, &mask).unwrap();
    let dst: Pix = dm.into();

    assert_eq!(dst.get_pixel(0, 0), Some(200)); // from src
    assert_eq!(dst.get_pixel(3, 2), Some(200)); // from src
    assert_eq!(dst.get_pixel(1, 0), Some(50)); // unchanged
}

#[test]
fn test_combine_masked_depth_mismatch() {
    let dst = Pix::new(10, 10, PixelDepth::Bit8).unwrap();
    let mut dm = dst.try_into_mut().unwrap();
    let src = Pix::new(10, 10, PixelDepth::Bit32).unwrap();
    let mask = Pix::new(10, 10, PixelDepth::Bit1).unwrap();
    assert!(dm.combine_masked(&src, &mask).is_err());
}

#[test]
fn test_paint_through_mask() {
    let pix = Pix::new(10, 10, PixelDepth::Bit8).unwrap();
    let mut pm = pix.try_into_mut().unwrap();

    // Small 3x3 mask with center ON
    let mask = Pix::new(3, 3, PixelDepth::Bit1).unwrap();
    let mut mm = mask.try_into_mut().unwrap();
    mm.set_pixel_unchecked(1, 1, 1);
    let mask: Pix = mm.into();

    pm.paint_through_mask(&mask, 4, 4, 200).unwrap();
    let pix: Pix = pm.into();

    // Mask center (1,1) placed at (4,4) → pixel (5,5)
    assert_eq!(pix.get_pixel(5, 5), Some(200));
    assert_eq!(pix.get_pixel(4, 4), Some(0)); // not masked
}

#[test]
fn test_paint_through_mask_negative_offset() {
    let pix = Pix::new(10, 10, PixelDepth::Bit8).unwrap();
    let mut pm = pix.try_into_mut().unwrap();

    let mask = Pix::new(4, 4, PixelDepth::Bit1).unwrap();
    let mut mm = mask.try_into_mut().unwrap();
    mm.set_pixel_unchecked(3, 3, 1); // bottom-right of mask
    let mask: Pix = mm.into();

    pm.paint_through_mask(&mask, -2, -2, 128).unwrap();
    let pix: Pix = pm.into();

    // Mask (3,3) at offset (-2,-2) → pixel (1,1)
    assert_eq!(pix.get_pixel(1, 1), Some(128));
    assert_eq!(pix.get_pixel(0, 0), Some(0));
}

#[test]
fn test_make_mask_from_val() {
    let pix = Pix::new(4, 3, PixelDepth::Bit8).unwrap();
    let mut pm = pix.try_into_mut().unwrap();
    pm.set_pixel_unchecked(0, 0, 42);
    pm.set_pixel_unchecked(2, 1, 42);
    pm.set_pixel_unchecked(3, 2, 42);
    pm.set_pixel_unchecked(1, 0, 100);
    let pix: Pix = pm.into();

    let mask = pix.make_mask_from_val(42).unwrap();
    assert_eq!(mask.depth(), PixelDepth::Bit1);
    assert_eq!(mask.width(), 4);
    assert_eq!(mask.height(), 3);
    assert_eq!(mask.get_pixel(0, 0), Some(1)); // matches
    assert_eq!(mask.get_pixel(2, 1), Some(1)); // matches
    assert_eq!(mask.get_pixel(3, 2), Some(1)); // matches
    assert_eq!(mask.get_pixel(1, 0), Some(0)); // doesn't match
    assert_eq!(mask.get_pixel(1, 1), Some(0)); // zero pixel
}

#[test]
fn test_make_mask_from_val_invalid_depth() {
    let pix = Pix::new(10, 10, PixelDepth::Bit32).unwrap();
    assert!(pix.make_mask_from_val(0).is_err());
}

#[test]
fn test_make_mask_from_lut() {
    let pix = Pix::new(4, 2, PixelDepth::Bit8).unwrap();
    let mut pm = pix.try_into_mut().unwrap();
    pm.set_pixel_unchecked(0, 0, 10);
    pm.set_pixel_unchecked(1, 0, 20);
    pm.set_pixel_unchecked(2, 0, 30);
    pm.set_pixel_unchecked(3, 0, 10);
    pm.set_pixel_unchecked(0, 1, 20);
    let pix: Pix = pm.into();

    // LUT: mask values 10 and 30
    let mut lut = [0u8; 256];
    lut[10] = 1;
    lut[30] = 1;

    let mask = pix.make_mask_from_lut(&lut).unwrap();
    assert_eq!(mask.get_pixel(0, 0), Some(1)); // val=10 → 1
    assert_eq!(mask.get_pixel(1, 0), Some(0)); // val=20 → 0
    assert_eq!(mask.get_pixel(2, 0), Some(1)); // val=30 → 1
    assert_eq!(mask.get_pixel(3, 0), Some(1)); // val=10 → 1
    assert_eq!(mask.get_pixel(0, 1), Some(0)); // val=20 → 0
}

#[test]
fn test_make_mask_from_lut_short_lut() {
    let pix = Pix::new(10, 10, PixelDepth::Bit8).unwrap();
    let lut = [0u8; 100]; // too short
    assert!(pix.make_mask_from_lut(&lut).is_err());
}

#[test]
fn test_set_masked_general_8bpp() {
    let pix = Pix::new(20, 20, PixelDepth::Bit8).unwrap();
    let mut pm = pix.try_into_mut().unwrap();

    // Small 3x3 mask with center ON
    let mask = Pix::new(3, 3, PixelDepth::Bit1).unwrap();
    let mut mm = mask.try_into_mut().unwrap();
    mm.set_pixel_unchecked(1, 1, 1);
    let mask: Pix = mm.into();

    // Place mask at (5, 5)
    pm.set_masked_general(&mask, 200, 5, 5).unwrap();
    let pix: Pix = pm.into();

    // Mask center (1,1) at offset (5,5) → pixel (6,6) = 200
    assert_eq!(pix.get_pixel(6, 6), Some(200));
    assert_eq!(pix.get_pixel(5, 5), Some(0)); // not masked
}

#[test]
fn test_set_masked_general_negative_offset() {
    let pix = Pix::new(10, 10, PixelDepth::Bit8).unwrap();
    let mut pm = pix.try_into_mut().unwrap();

    let mask = Pix::new(5, 5, PixelDepth::Bit1).unwrap();
    let mut mm = mask.try_into_mut().unwrap();
    mm.set_pixel_unchecked(4, 4, 1); // bottom-right of mask
    let mask: Pix = mm.into();

    pm.set_masked_general(&mask, 128, -2, -2).unwrap();
    let pix: Pix = pm.into();

    // Mask (4,4) at offset (-2,-2) → pixel (2,2) = 128
    assert_eq!(pix.get_pixel(2, 2), Some(128));
}

#[test]
fn test_set_masked_general_32bpp() {
    let pix = Pix::new(10, 10, PixelDepth::Bit32).unwrap();
    let mut pm = pix.try_into_mut().unwrap();

    let mask = Pix::new(3, 3, PixelDepth::Bit1).unwrap();
    let mut mm = mask.try_into_mut().unwrap();
    mm.set_pixel_unchecked(0, 0, 1);
    let mask: Pix = mm.into();

    pm.set_masked_general(&mask, 0xFF000000, 2, 3).unwrap();
    let pix: Pix = pm.into();

    assert_eq!(pix.get_pixel(2, 3), Some(0xFF000000));
    assert_eq!(pix.get_pixel(3, 3), Some(0));
}

#[test]
fn test_combine_masked_general_8bpp() {
    // Destination: all 50
    let dst = Pix::new(20, 20, PixelDepth::Bit8).unwrap();
    let mut dm = dst.try_into_mut().unwrap();
    for y in 0..20 {
        for x in 0..20 {
            dm.set_pixel_unchecked(x, y, 50);
        }
    }

    // Source: all 200
    let src = Pix::new(5, 5, PixelDepth::Bit8).unwrap();
    let mut sm = src.try_into_mut().unwrap();
    for y in 0..5 {
        for x in 0..5 {
            sm.set_pixel_unchecked(x, y, 200);
        }
    }
    let src: Pix = sm.into();

    // Mask: ON at (2,2)
    let mask = Pix::new(5, 5, PixelDepth::Bit1).unwrap();
    let mut mm = mask.try_into_mut().unwrap();
    mm.set_pixel_unchecked(2, 2, 1);
    let mask: Pix = mm.into();

    // Place src and mask at (10, 10)
    dm.combine_masked_general(&src, &mask, 10, 10).unwrap();
    let dst: Pix = dm.into();

    // Mask (2,2) at offset (10,10) → dst(12,12) = src(2,2) = 200
    assert_eq!(dst.get_pixel(12, 12), Some(200));
    assert_eq!(dst.get_pixel(10, 10), Some(50)); // not masked
}

#[test]
fn test_combine_masked_general_depth_mismatch() {
    let dst = Pix::new(10, 10, PixelDepth::Bit8).unwrap();
    let mut dm = dst.try_into_mut().unwrap();
    let src = Pix::new(5, 5, PixelDepth::Bit32).unwrap();
    let mask = Pix::new(5, 5, PixelDepth::Bit1).unwrap();
    assert!(dm.combine_masked_general(&src, &mask, 0, 0).is_err());
}

#[test]
fn test_copy_with_boxa_white_bg() {

    let pix = Pix::new(20, 20, PixelDepth::Bit8).unwrap();
    let mut pm = pix.try_into_mut().unwrap();
    for y in 0..20 {
        for x in 0..20 {
            pm.set_pixel_unchecked(x, y, 100);
        }
    }
    let pix: Pix = pm.into();

    let mut boxa = Boxa::new();
    boxa.push(Box::new(5, 5, 3, 3).unwrap());

    let result = pix.copy_with_boxa(&boxa, InitColor::White).unwrap();
    // Inside box: copied from source (100)
    assert_eq!(result.get_pixel(6, 6), Some(100));
    // Outside box: white background (255 for 8bpp)
    assert_eq!(result.get_pixel(0, 0), Some(255));
}

#[test]
fn test_copy_with_boxa_black_bg() {

    let pix = Pix::new(10, 10, PixelDepth::Bit8).unwrap();
    let mut pm = pix.try_into_mut().unwrap();
    for y in 0..10 {
        for x in 0..10 {
            pm.set_pixel_unchecked(x, y, 100);
        }
    }
    let pix: Pix = pm.into();

    let mut boxa = Boxa::new();
    boxa.push(Box::new(2, 2, 4, 4).unwrap());

    let result = pix.copy_with_boxa(&boxa, InitColor::Black).unwrap();
    assert_eq!(result.get_pixel(3, 3), Some(100));
    assert_eq!(result.get_pixel(0, 0), Some(0));
}

#[test]
fn test_set_under_transparency() {
    let pix = Pix::new(4, 2, PixelDepth::Bit32).unwrap();
    let mut pm = pix.try_into_mut().unwrap();
    // Pixel with alpha=0 (fully transparent): R=10, G=20, B=30
    pm.set_pixel_unchecked(0, 0, leptonica_core::color::compose_rgba(10, 20, 30, 0));
    // Pixel with alpha=255 (opaque): R=100, G=150, B=200
    pm.set_pixel_unchecked(1, 0, leptonica_core::color::compose_rgba(100, 150, 200, 255));
    let pix: Pix = pm.into();

    // Set transparent pixels to white (0xFFFFFF00)
    let result = pix.set_under_transparency(0xFFFFFF00).unwrap();

    // Transparent pixel → replaced with white RGB, alpha preserved at 0
    let (r, g, b, a) = leptonica_core::color::extract_rgba(result.get_pixel(0, 0).unwrap());
    assert_eq!((r, g, b), (255, 255, 255));
    assert_eq!(a, 0);

    // Opaque pixel → unchanged
    let (r, g, b, a) = leptonica_core::color::extract_rgba(result.get_pixel(1, 0).unwrap());
    assert_eq!((r, g, b, a), (100, 150, 200, 255));
}

#[test]
fn test_set_under_transparency_not_32bpp() {
    let pix = Pix::new(10, 10, PixelDepth::Bit8).unwrap();
    assert!(pix.set_under_transparency(0xFFFFFF00).is_err());
}
