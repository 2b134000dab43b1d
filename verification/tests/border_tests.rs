use leptonica_core::{InitColor, Pix, PixelDepth};

#[test]
fn test_add_border_uniform() {
    let pix = Pix::new(100, 80, PixelDepth::Bit8).unwrap();
    let mut pix_mut = pix.try_into_mut().unwrap();
    pix_mut.set_pixel(50, 40, 128).unwrap();
    let pix: Pix = pix_mut.into();

    let bordered = pix.add_border(10, 0).unwrap();
    assert_eq!(bordered.width(), 120);
    assert_eq!(bordered.height(), 100);
    // Original pixel at (50,40) should now be at (60,50)
    assert_eq!(bordered.get_pixel(60, 50), Some(128));
    // Border pixel should be 0
    assert_eq!(bordered.get_pixel(0, 0), Some(0));
}

#[test]
fn test_add_border_with_fill_value() {
    let pix = Pix::new(10, 10, PixelDepth::Bit8).unwrap();
    let bordered = pix.add_border(5, 255).unwrap();
    assert_eq!(bordered.width(), 20);
    assert_eq!(bordered.height(), 20);
    // Border pixel should be 255
    assert_eq!(bordered.get_pixel(0, 0), Some(255));
    // Interior pixel should be 0 (original was all zeros)
    assert_eq!(bordered.get_pixel(5, 5), Some(0));
}

#[test]
fn test_add_border_zero() {
    let pix = Pix::new(10, 10, PixelDepth::Bit8).unwrap();
    let bordered = pix.add_border(0, 0).unwrap();
    assert_eq!(bordered.width(), 10);
    assert_eq!(bordered.height(), 10);
}

#[test]
fn test_remove_border_uniform() {
    let pix = Pix::new(120, 100, PixelDepth::Bit8).unwrap();
    let mut pix_mut = pix.try_into_mut().unwrap();
    pix_mut.set_pixel(60, 50, 200).unwrap();
    let pix: Pix = pix_mut.into();

    let inner = pix.remove_border(10).unwrap();
    assert_eq!(inner.width(), 100);
    assert_eq!(inner.height(), 80);
    // Pixel at (60,50) should now be at (50,40)
    assert_eq!(inner.get_pixel(50, 40), Some(200));
}

#[test]
fn test_remove_border_zero() {
    let pix = Pix::new(10, 10, PixelDepth::Bit8).unwrap();
    let inner = pix.remove_border(0).unwrap();
    assert_eq!(inner.width(), 10);
    assert_eq!(inner.height(), 10);
}

#[test]
fn test_remove_border_too_large() {
    let pix = Pix::new(10, 10, PixelDepth::Bit8).unwrap();
    assert!(pix.remove_border(5).is_err());
    assert!(pix.remove_border(6).is_err());
}

#[test]
fn test_add_remove_roundtrip() {
    let pix = Pix::new(50, 50, PixelDepth::Bit8).unwrap();
    let mut pix_mut = pix.try_into_mut().unwrap();
    for y in 0..50u32 {
        for x in 0..50u32 {
            pix_mut.set_pixel(x, y, (x * 5 + y) % 256).unwrap();
        }
    }
    let pix: Pix = pix_mut.into();

    let bordered = pix.add_border(20, 0).unwrap();
    let recovered = bordered.remove_border(20).unwrap();

    assert_eq!(recovered.width(), pix.width());
    assert_eq!(recovered.height(), pix.height());
    for y in 0..50u32 {
        for x in 0..50u32 {
            assert_eq!(recovered.get_pixel(x, y), pix.get_pixel(x, y));
        }
    }
}

#[test]
fn test_add_border_general() {
    let pix = Pix::new(100, 80, PixelDepth::Bit8).unwrap();
    let bordered = pix.add_border_general(5, 10, 15, 20, 0).unwrap();
    assert_eq!(bordered.width(), 115);
    assert_eq!(bordered.height(), 115);
}

#[test]
fn test_remove_border_general() {
    let pix = Pix::new(115, 115, PixelDepth::Bit8).unwrap();
    let inner = pix.remove_border_general(5, 10, 15, 20).unwrap();
    assert_eq!(inner.width(), 100);
    assert_eq!(inner.height(), 80);
}

#[test]
fn test_add_border_1bpp() {
    let pix = Pix::new(32, 32, PixelDepth::Bit1).unwrap();
    let mut pix_mut = pix.try_into_mut().unwrap();
    pix_mut.set_pixel(16, 16, 1).unwrap();
    let pix: Pix = pix_mut.into();

    let bordered = pix.add_border(10, 0).unwrap();
    assert_eq!(bordered.width(), 52);
    assert_eq!(bordered.height(), 52);
    assert_eq!(bordered.get_pixel(26, 26), Some(1));
    assert_eq!(bordered.get_pixel(0, 0), Some(0));
}

#[test]
fn test_remove_border_1bpp() {
    let pix = Pix::new(52, 52, PixelDepth::Bit1).unwrap();
    let mut pix_mut = pix.try_into_mut().unwrap();
    pix_mut.set_pixel(26, 26, 1).unwrap();
    let pix: Pix = pix_mut.into();

    let inner = pix.remove_border(10).unwrap();
    assert_eq!(inner.width(), 32);
    assert_eq!(inner.height(), 32);
    assert_eq!(inner.get_pixel(16, 16), Some(1));
}

#[test]
fn test_set_border_val_8bpp() {
    let pix = Pix::new(10, 8, PixelDepth::Bit8).unwrap();
    let mut pm = pix.try_into_mut().unwrap();
    // Fill interior with 100
    for y in 0..8 {
        for x in 0..10 {
            pm.set_pixel_unchecked(x, y, 100);
        }
    }
    pm.set_border_val(2, 2, 2, 2, 255).unwrap();
    let pix: Pix = pm.into();
    // Border pixels should be 255
    assert_eq!(pix.get_pixel(0, 0), Some(255));
    assert_eq!(pix.get_pixel(9, 7), Some(255));
    assert_eq!(pix.get_pixel(1, 0), Some(255)); // top row
    assert_eq!(pix.get_pixel(0, 3), Some(255)); // left col
    // Interior should remain 100
    assert_eq!(pix.get_pixel(5, 4), Some(100));
    assert_eq!(pix.get_pixel(2, 2), Some(100));
    assert_eq!(pix.get_pixel(7, 5), Some(100));
}

#[test]
fn test_set_border_val_32bpp() {
    let pix = Pix::new(6, 4, PixelDepth::Bit32).unwrap();
    let mut pm = pix.try_into_mut().unwrap();
    pm.set_border_val(1, 1, 1, 1, 0xff000000).unwrap();
    let pix: Pix = pm.into();
    // Corner should be set
    assert_eq!(pix.get_pixel(0, 0), Some(0xff000000));
    // Interior should be 0
    assert_eq!(pix.get_pixel(2, 2), Some(0));
}

#[test]
fn test_set_border_val_invalid_depth() {
    let pix = Pix::new(10, 10, PixelDepth::Bit1).unwrap();
    let mut pm = pix.try_into_mut().unwrap();
    assert!(pm.set_border_val(1, 1, 1, 1, 1).is_err());
}

#[test]
fn test_add_mirrored_border() {
    // 4x3 image with known pixels
    let pix = Pix::new(4, 3, PixelDepth::Bit8).unwrap();
    let mut pm = pix.try_into_mut().unwrap();
    for y in 0..3u32 {
        for x in 0..4u32 {
            pm.set_pixel_unchecked(x, y, x * 10 + y);
        }
    }
    let pix: Pix = pm.into();

    let bordered = pix.add_mirrored_border(2, 2, 1, 1).unwrap();
    assert_eq!(bordered.width(), 8); // 4 + 2 + 2
    assert_eq!(bordered.height(), 5); // 3 + 1 + 1

    // Interior preserved: original (0,0) is at (2,1) in bordered
    assert_eq!(bordered.get_pixel(2, 1), Some(0)); // x=0, y=0
    assert_eq!(bordered.get_pixel(3, 1), Some(10)); // x=1, y=0

    // Left mirror: col at x=1 mirrors original x=0 (which is at bordered x=2)
    // x=1 in bordered = mirror of x=2 in bordered = original x=0
    assert_eq!(bordered.get_pixel(1, 1), bordered.get_pixel(2, 1));
    // x=0 in bordered = mirror of x=3 in bordered = original x=1
    assert_eq!(bordered.get_pixel(0, 1), bordered.get_pixel(3, 1));

    // Right mirror: x=6 mirrors x=5 (original x=3)
    assert_eq!(bordered.get_pixel(6, 1), bordered.get_pixel(5, 1));
    assert_eq!(bordered.get_pixel(7, 1), bordered.get_pixel(4, 1));

    // Top mirror: y=0 copies from y=1 (first interior row)
    for x in 0..8 {
        assert_eq!(
            bordered.get_pixel(x, 0),
            bordered.get_pixel(x, 1),
            "top mirror mismatch at x={}",
            x
        );
    }

    // Bottom mirror: y=4 copies from y=3 (last interior row)
    for x in 0..8 {
        assert_eq!(
            bordered.get_pixel(x, 4),
            bordered.get_pixel(x, 3),
            "bottom mirror mismatch at x={}",
            x
        );
    }
}

#[test]
fn test_add_mirrored_border_too_large() {
    let pix = Pix::new(10, 10, PixelDepth::Bit8).unwrap();
    assert!(pix.add_mirrored_border(11, 0, 0, 0).is_err());
    assert!(pix.add_mirrored_border(0, 0, 11, 0).is_err());
}

#[test]
fn test_add_repeated_border() {
    // 4x3 image
    let pix = Pix::new(4, 3, PixelDepth::Bit8).unwrap();
    let mut pm = pix.try_into_mut().unwrap();
    for y in 0..3u32 {
        for x in 0..4u32 {
            pm.set_pixel_unchecked(x, y, x * 10 + y + 1);
        }
    }
    let pix: Pix = pm.into();

    let bordered = pix.add_repeated_border(2, 2, 1, 1).unwrap();
    assert_eq!(bordered.width(), 8);
    assert_eq!(bordered.height(), 5);

    // Interior preserved
    assert_eq!(bordered.get_pixel(2, 1), Some(1)); // original (0,0)
    assert_eq!(bordered.get_pixel(5, 3), Some(33)); // original (3,2)

    // Left border: wraps from right edge of image
    // x=0 in bordered gets original x=(w-2)=2, x=1 gets original x=3
    assert_eq!(bordered.get_pixel(0, 1), pix.get_pixel(2, 0));
    assert_eq!(bordered.get_pixel(1, 1), pix.get_pixel(3, 0));

    // Right border: wraps from left edge of image
    // x=6 gets original x=0, x=7 gets original x=1
    assert_eq!(bordered.get_pixel(6, 1), pix.get_pixel(0, 0));
    assert_eq!(bordered.get_pixel(7, 1), pix.get_pixel(1, 0));

    // Top border: wraps from bottom edge
    // y=0 gets original y=(h-1)=2
    assert_eq!(bordered.get_pixel(2, 0), pix.get_pixel(0, 2));

    // Bottom border: wraps from top edge
    // y=4 gets original y=0
    assert_eq!(bordered.get_pixel(2, 4), pix.get_pixel(0, 0));
}

#[test]
fn test_add_repeated_border_too_large() {
    let pix = Pix::new(10, 10, PixelDepth::Bit8).unwrap();
    assert!(pix.add_repeated_border(11, 0, 0, 0).is_err());
}

#[test]
fn test_add_border_preserves_resolution() {
    let pix = Pix::new(100, 100, PixelDepth::Bit8).unwrap();
    let mut pix_mut = pix.try_into_mut().unwrap();
    pix_mut.set_resolution(300, 300);
    let pix: Pix = pix_mut.into();

    let bordered = pix.add_border(10, 0).unwrap();
    assert_eq!(bordered.xres(), 300);
    assert_eq!(bordered.yres(), 300);
}

#[test]
fn test_add_black_or_white_border_white_8bpp() {
    let pix = Pix::new(10, 10, PixelDepth::Bit8).unwrap();
    let bordered = pix
        .add_black_or_white_border(5, 5, 5, 5, InitColor::White)
        .unwrap();
    assert_eq!(bordered.width(), 20);
    assert_eq!(bordered.height(), 20);
    // Border should be white (255 for 8bpp)
    assert_eq!(bordered.get_pixel(0, 0), Some(255));
}

#[test]
fn test_add_black_or_white_border_black_8bpp() {
    let pix = Pix::new(10, 10, PixelDepth::Bit8).unwrap();
    let bordered = pix
        .add_black_or_white_border(3, 3, 3, 3, InitColor::Black)
        .unwrap();
    assert_eq!(bordered.width(), 16);
    assert_eq!(bordered.height(), 16);
    // Border should be black (0 for 8bpp)
    assert_eq!(bordered.get_pixel(0, 0), Some(0));
}

#[test]
fn test_add_black_or_white_border_1bpp() {
    let pix = Pix::new(10, 10, PixelDepth::Bit1).unwrap();

    // 1bpp: black=1, white=0
    let bordered = pix
        .add_black_or_white_border(2, 2, 2, 2, InitColor::Black)
        .unwrap();
    assert_eq!(bordered.get_pixel(0, 0), Some(1));

    let bordered = pix
        .add_black_or_white_border(2, 2, 2, 2, InitColor::White)
        .unwrap();
    assert_eq!(bordered.get_pixel(0, 0), Some(0));
}
