use leptonica_core::{Pix, PixelDepth, RopOp, InColor};
use leptonica_core::color::compose_rgb;

#[test]
fn test_and_binary() {
    // Create two binary images with some pixels set
    let pix1 = Pix::new(64, 64, PixelDepth::Bit1).unwrap();
    let mut pix1_mut = pix1.to_mut();
    pix1_mut.set_pixel(0, 0, 1).unwrap();
    pix1_mut.set_pixel(1, 0, 1).unwrap();
    let pix1: Pix = pix1_mut.into();

    let pix2 = Pix::new(64, 64, PixelDepth::Bit1).unwrap();
    let mut pix2_mut = pix2.to_mut();
    pix2_mut.set_pixel(1, 0, 1).unwrap();
    pix2_mut.set_pixel(2, 0, 1).unwrap();
    let pix2: Pix = pix2_mut.into();

    let result = pix1.and(&pix2).unwrap();

    // Only pixel (1,0) should be set (intersection)
    assert_eq!(result.get_pixel(0, 0), Some(0));
    assert_eq!(result.get_pixel(1, 0), Some(1));
    assert_eq!(result.get_pixel(2, 0), Some(0));
}

#[test]
fn test_or_binary() {
    let pix1 = Pix::new(64, 64, PixelDepth::Bit1).unwrap();
    let mut pix1_mut = pix1.to_mut();
    pix1_mut.set_pixel(0, 0, 1).unwrap();
    let pix1: Pix = pix1_mut.into();

    let pix2 = Pix::new(64, 64, PixelDepth::Bit1).unwrap();
    let mut pix2_mut = pix2.to_mut();
    pix2_mut.set_pixel(1, 0, 1).unwrap();
    let pix2: Pix = pix2_mut.into();

    let result = pix1.or(&pix2).unwrap();

    // Both pixels should be set (union)
    assert_eq!(result.get_pixel(0, 0), Some(1));
    assert_eq!(result.get_pixel(1, 0), Some(1));
    assert_eq!(result.get_pixel(2, 0), Some(0));
}

#[test]
fn test_xor_binary() {
    let pix1 = Pix::new(64, 64, PixelDepth::Bit1).unwrap();
    let mut pix1_mut = pix1.to_mut();
    pix1_mut.set_pixel(0, 0, 1).unwrap();
    pix1_mut.set_pixel(1, 0, 1).unwrap();
    let pix1: Pix = pix1_mut.into();

    let pix2 = Pix::new(64, 64, PixelDepth::Bit1).unwrap();
    let mut pix2_mut = pix2.to_mut();
    pix2_mut.set_pixel(1, 0, 1).unwrap();
    pix2_mut.set_pixel(2, 0, 1).unwrap();
    let pix2: Pix = pix2_mut.into();

    let result = pix1.xor(&pix2).unwrap();

    // XOR: only pixels in exactly one image
    assert_eq!(result.get_pixel(0, 0), Some(1)); // only in pix1
    assert_eq!(result.get_pixel(1, 0), Some(0)); // in both
    assert_eq!(result.get_pixel(2, 0), Some(1)); // only in pix2
}

#[test]
fn test_invert_binary() {
    let pix = Pix::new(32, 32, PixelDepth::Bit1).unwrap();
    let mut pix_mut = pix.to_mut();
    pix_mut.set_pixel(0, 0, 1).unwrap();
    let pix: Pix = pix_mut.into();

    let inverted = pix.invert();

    // Pixel (0,0) was 1, should now be 0
    assert_eq!(inverted.get_pixel(0, 0), Some(0));
    // Pixel (1,0) was 0, should now be 1
    assert_eq!(inverted.get_pixel(1, 0), Some(1));
}

#[test]
fn test_invert_gray() {
    let pix = Pix::new(10, 10, PixelDepth::Bit8).unwrap();
    let mut pix_mut = pix.to_mut();
    pix_mut.set_pixel(0, 0, 100).unwrap();
    pix_mut.set_pixel(1, 0, 0).unwrap();
    pix_mut.set_pixel(2, 0, 255).unwrap();
    let pix: Pix = pix_mut.into();

    let inverted = pix.invert();

    assert_eq!(inverted.get_pixel(0, 0), Some(155)); // 255 - 100
    assert_eq!(inverted.get_pixel(1, 0), Some(255)); // 255 - 0
    assert_eq!(inverted.get_pixel(2, 0), Some(0)); // 255 - 255
}

#[test]
fn test_and_gray() {
    let pix1 = Pix::new(10, 10, PixelDepth::Bit8).unwrap();
    let mut pix1_mut = pix1.to_mut();
    pix1_mut.set_pixel(0, 0, 0b11110000).unwrap(); // 240
    let pix1: Pix = pix1_mut.into();

    let pix2 = Pix::new(10, 10, PixelDepth::Bit8).unwrap();
    let mut pix2_mut = pix2.to_mut();
    pix2_mut.set_pixel(0, 0, 0b10101010).unwrap(); // 170
    let pix2: Pix = pix2_mut.into();

    let result = pix1.and(&pix2).unwrap();

    // 11110000 & 10101010 = 10100000 = 160
    assert_eq!(result.get_pixel(0, 0), Some(160));
}

#[test]
fn test_or_gray() {
    let pix1 = Pix::new(10, 10, PixelDepth::Bit8).unwrap();
    let mut pix1_mut = pix1.to_mut();
    pix1_mut.set_pixel(0, 0, 0b11110000).unwrap(); // 240
    let pix1: Pix = pix1_mut.into();

    let pix2 = Pix::new(10, 10, PixelDepth::Bit8).unwrap();
    let mut pix2_mut = pix2.to_mut();
    pix2_mut.set_pixel(0, 0, 0b10101010).unwrap(); // 170
    let pix2: Pix = pix2_mut.into();

    let result = pix1.or(&pix2).unwrap();

    // 11110000 | 10101010 = 11111010 = 250
    assert_eq!(result.get_pixel(0, 0), Some(250));
}

#[test]
fn test_xor_gray() {
    let pix1 = Pix::new(10, 10, PixelDepth::Bit8).unwrap();
    let mut pix1_mut = pix1.to_mut();
    pix1_mut.set_pixel(0, 0, 0b11110000).unwrap(); // 240
    let pix1: Pix = pix1_mut.into();

    let pix2 = Pix::new(10, 10, PixelDepth::Bit8).unwrap();
    let mut pix2_mut = pix2.to_mut();
    pix2_mut.set_pixel(0, 0, 0b10101010).unwrap(); // 170
    let pix2: Pix = pix2_mut.into();

    let result = pix1.xor(&pix2).unwrap();

    // 11110000 ^ 10101010 = 01011010 = 90
    assert_eq!(result.get_pixel(0, 0), Some(90));
}

#[test]
fn test_dimension_mismatch_error() {
    let pix1 = Pix::new(100, 100, PixelDepth::Bit8).unwrap();
    let pix2 = Pix::new(200, 100, PixelDepth::Bit8).unwrap();

    let result = pix1.and(&pix2);
    assert!(result.is_err());
}

#[test]
fn test_depth_mismatch_error() {
    let pix1 = Pix::new(100, 100, PixelDepth::Bit8).unwrap();
    let pix2 = Pix::new(100, 100, PixelDepth::Bit1).unwrap();

    let result = pix1.and(&pix2);
    assert!(result.is_err());
}

#[test]
fn test_inplace_and() {
    let pix1 = Pix::new(64, 64, PixelDepth::Bit1).unwrap();
    let mut pix1_mut = pix1.to_mut();
    pix1_mut.set_pixel(0, 0, 1).unwrap();
    pix1_mut.set_pixel(1, 0, 1).unwrap();

    let pix2 = Pix::new(64, 64, PixelDepth::Bit1).unwrap();
    let mut pix2_mut = pix2.to_mut();
    pix2_mut.set_pixel(1, 0, 1).unwrap();
    let pix2: Pix = pix2_mut.into();

    pix1_mut.and_inplace(&pix2).unwrap();

    assert_eq!(pix1_mut.get_pixel(0, 0), Some(0));
    assert_eq!(pix1_mut.get_pixel(1, 0), Some(1));
}

#[test]
fn test_inplace_invert() {
    let pix = Pix::new(32, 32, PixelDepth::Bit1).unwrap();
    let mut pix_mut = pix.to_mut();
    pix_mut.set_pixel(0, 0, 1).unwrap();

    pix_mut.invert_inplace();

    assert_eq!(pix_mut.get_pixel(0, 0), Some(0));
    assert_eq!(pix_mut.get_pixel(1, 0), Some(1));
}

#[test]
fn test_clear_region() {
    let pix = Pix::new(100, 100, PixelDepth::Bit8).unwrap();
    let mut pix_mut = pix.to_mut();

    // Set some pixels
    for y in 0..100 {
        for x in 0..100 {
            pix_mut.set_pixel(x, y, 200).unwrap();
        }
    }

    // Clear a region
    pix_mut.clear_region(10, 10, 20, 20);

    // Check pixels inside region are cleared
    assert_eq!(pix_mut.get_pixel(15, 15), Some(0));
    // Check pixels outside region are unchanged
    assert_eq!(pix_mut.get_pixel(5, 5), Some(200));
}

#[test]
fn test_set_region() {
    let pix = Pix::new(100, 100, PixelDepth::Bit8).unwrap();
    let mut pix_mut = pix.to_mut();

    // Set a region
    pix_mut.set_region(10, 10, 20, 20);

    // Check pixels inside region are set
    assert_eq!(pix_mut.get_pixel(15, 15), Some(255));
    // Check pixels outside region are unchanged
    assert_eq!(pix_mut.get_pixel(5, 5), Some(0));
}

#[test]
fn test_nand() {
    let pix1 = Pix::new(64, 64, PixelDepth::Bit1).unwrap();
    let mut pix1_mut = pix1.to_mut();
    pix1_mut.set_pixel(0, 0, 1).unwrap();
    pix1_mut.set_pixel(1, 0, 1).unwrap();
    let pix1: Pix = pix1_mut.into();

    let pix2 = Pix::new(64, 64, PixelDepth::Bit1).unwrap();
    let mut pix2_mut = pix2.to_mut();
    pix2_mut.set_pixel(1, 0, 1).unwrap();
    let pix2: Pix = pix2_mut.into();

    let result = pix1.rop(&pix2, RopOp::Nand).unwrap();

    // NAND: ~(s & d)
    // (0,0): ~(1 & 0) = ~0 = 1
    // (1,0): ~(1 & 1) = ~1 = 0
    // (2,0): ~(0 & 0) = ~0 = 1
    assert_eq!(result.get_pixel(0, 0), Some(1));
    assert_eq!(result.get_pixel(1, 0), Some(0));
    assert_eq!(result.get_pixel(2, 0), Some(1));
}

#[test]
fn test_nor() {
    let pix1 = Pix::new(64, 64, PixelDepth::Bit1).unwrap();
    let mut pix1_mut = pix1.to_mut();
    pix1_mut.set_pixel(0, 0, 1).unwrap();
    let pix1: Pix = pix1_mut.into();

    let pix2 = Pix::new(64, 64, PixelDepth::Bit1).unwrap();
    let mut pix2_mut = pix2.to_mut();
    pix2_mut.set_pixel(1, 0, 1).unwrap();
    let pix2: Pix = pix2_mut.into();

    let result = pix1.rop(&pix2, RopOp::Nor).unwrap();

    // NOR: ~(s | d)
    // (0,0): ~(1 | 0) = ~1 = 0
    // (1,0): ~(0 | 1) = ~1 = 0
    // (2,0): ~(0 | 0) = ~0 = 1
    assert_eq!(result.get_pixel(0, 0), Some(0));
    assert_eq!(result.get_pixel(1, 0), Some(0));
    assert_eq!(result.get_pixel(2, 0), Some(1));
}

#[test]
fn test_rgb_and() {

    let pix1 = Pix::new(1, 1, PixelDepth::Bit32).unwrap();
    let mut pix1_mut = pix1.to_mut();
    pix1_mut
        .set_pixel(0, 0, compose_rgb(0b11110000, 0b10101010, 0b11001100))
        .unwrap();
    let pix1: Pix = pix1_mut.into();

    let pix2 = Pix::new(1, 1, PixelDepth::Bit32).unwrap();
    let mut pix2_mut = pix2.to_mut();
    pix2_mut
        .set_pixel(0, 0, compose_rgb(0b10101010, 0b11110000, 0b00110011))
        .unwrap();
    let pix2: Pix = pix2_mut.into();

    let result = pix1.and(&pix2).unwrap();
    let (r, g, b) = result.get_rgb(0, 0).unwrap();

    // R: 11110000 & 10101010 = 10100000 = 160
    // G: 10101010 & 11110000 = 10100000 = 160
    // B: 11001100 & 00110011 = 00000000 = 0
    assert_eq!(r, 160);
    assert_eq!(g, 160);
    assert_eq!(b, 0);
}

#[test]
fn test_rop_op_requires_source() {
    assert!(!RopOp::Clear.requires_source());
    assert!(!RopOp::SetAll.requires_source());
    assert!(!RopOp::NotDst.requires_source());
    assert!(RopOp::And.requires_source());
    assert!(RopOp::Or.requires_source());
    assert!(RopOp::Xor.requires_source());
    assert!(RopOp::Src.requires_source());
}

#[test]
fn test_clear_rop() {
    let pix1 = Pix::new(64, 64, PixelDepth::Bit1).unwrap();
    let mut pix1_mut = pix1.to_mut();
    pix1_mut.set_all();
    let pix1: Pix = pix1_mut.into();

    let pix2 = Pix::new(64, 64, PixelDepth::Bit1).unwrap();
    let result = pix1.rop(&pix2, RopOp::Clear).unwrap();

    assert_eq!(result.get_pixel(0, 0), Some(0));
    assert_eq!(result.get_pixel(31, 31), Some(0));
}

#[test]
fn test_set_rop() {
    let pix1 = Pix::new(64, 64, PixelDepth::Bit1).unwrap();
    let pix2 = Pix::new(64, 64, PixelDepth::Bit1).unwrap();

    let result = pix1.rop(&pix2, RopOp::SetAll).unwrap();

    assert_eq!(result.get_pixel(0, 0), Some(1));
    assert_eq!(result.get_pixel(31, 31), Some(1));
}

fn ramp(w: u32, h: u32) -> Pix {
    let mut pm = Pix::new(w, h, PixelDepth::Bit8).unwrap().to_mut();
    for y in 0..h {
        for x in 0..w {
            pm.set_pixel(x, y, 10 * y + x).unwrap();
        }
    }
    pm.into()
}

#[test]
fn test_translate_shifts_and_fills() {
    let pix = ramp(3, 3);
    let t = pix.translate(1, -1, InColor::White);
    assert_eq!(t.get_pixel(0, 0), Some(255));
    assert_eq!(t.get_pixel(1, 0), Some(10));
    assert_eq!(t.get_pixel(2, 1), Some(21));
    assert_eq!(t.get_pixel(1, 2), Some(255));
    let same = pix.translate(0, 0, InColor::Black);
    assert_eq!(same.data(), pix.data());
}

#[test]
fn test_rasterop_vip_band() {
    let mut pm = ramp(3, 3).to_mut();
    pm.rasterop_vip(1, 1, 1, InColor::Black);
    assert_eq!(pm.get_pixel(1, 0), Some(0));
    assert_eq!(pm.get_pixel(1, 1), Some(1));
    assert_eq!(pm.get_pixel(1, 2), Some(11));
    assert_eq!(pm.get_pixel(0, 2), Some(20));
    assert_eq!(pm.get_pixel(2, 0), Some(2));
}

#[test]
fn test_rasterop_hip_band() {
    let mut pm = ramp(3, 3).to_mut();
    pm.rasterop_hip(2, 5, -1, InColor::White);
    assert_eq!(pm.get_pixel(0, 2), Some(21));
    assert_eq!(pm.get_pixel(1, 2), Some(22));
    assert_eq!(pm.get_pixel(2, 2), Some(255));
    assert_eq!(pm.get_pixel(0, 1), Some(10));
}

#[test]
fn invert_flips_padding_bits_too() {
    let pix = Pix::new(5, 2, PixelDepth::Bit1).unwrap();
    let inv = pix.invert();
    assert_eq!(inv.data(), &[0xffff_ffffu32, 0xffff_ffff]);
    let rgb = Pix::new(1, 1, PixelDepth::Bit32).unwrap();
    let mut pm = rgb.try_into_mut().unwrap();
    pm.data_mut()[0] = 0x1020_3040;
    let rgb: Pix = pm.into();
    // alpha byte kept, color bytes inverted
    assert_eq!(rgb.invert().data(), &[0xefdf_cf40u32]);
}
