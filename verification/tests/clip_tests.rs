use leptonica_core::{Pix, PixelDepth};
use leptonica_core::color::compose_rgb;

#[test]
fn test_clip_rectangle_basic() {
    let pix = Pix::new(100, 80, PixelDepth::Bit8).unwrap();
    let mut pix_mut = pix.try_into_mut().unwrap();
    pix_mut.set_pixel(50, 40, 128).unwrap();
    let pix: Pix = pix_mut.into();

    let clipped = pix.clip_rectangle(40, 30, 20, 20).unwrap();
    assert_eq!(clipped.width(), 20);
    assert_eq!(clipped.height(), 20);
    // Original pixel at (50,40) should now be at (10,10) in clipped image
    assert_eq!(clipped.get_pixel(10, 10), Some(128));
}

#[test]
fn test_clip_rectangle_full_image() {
    let pix = Pix::new(50, 30, PixelDepth::Bit8).unwrap();
    let clipped = pix.clip_rectangle(0, 0, 50, 30).unwrap();
    assert_eq!(clipped.width(), 50);
    assert_eq!(clipped.height(), 30);
}

#[test]
fn test_clip_rectangle_clips_to_bounds() {
    let pix = Pix::new(100, 80, PixelDepth::Bit8).unwrap();
    // Request extends beyond the right and bottom edges
    let clipped = pix.clip_rectangle(80, 60, 50, 50).unwrap();
    assert_eq!(clipped.width(), 20); // 100 - 80
    assert_eq!(clipped.height(), 20); // 80 - 60
}

#[test]
fn test_clip_rectangle_entirely_outside() {
    let pix = Pix::new(100, 80, PixelDepth::Bit8).unwrap();
    assert!(pix.clip_rectangle(100, 0, 10, 10).is_err());
    assert!(pix.clip_rectangle(0, 80, 10, 10).is_err());
    assert!(pix.clip_rectangle(200, 200, 10, 10).is_err());
}

#[test]
fn test_clip_rectangle_zero_size() {
    let pix = Pix::new(100, 80, PixelDepth::Bit8).unwrap();
    assert!(pix.clip_rectangle(0, 0, 0, 10).is_err());
    assert!(pix.clip_rectangle(0, 0, 10, 0).is_err());
}

#[test]
fn test_clip_rectangle_1bpp() {
    let pix = Pix::new(64, 64, PixelDepth::Bit1).unwrap();
    let mut pix_mut = pix.try_into_mut().unwrap();
    pix_mut.set_pixel(32, 32, 1).unwrap();
    let pix: Pix = pix_mut.into();

    let clipped = pix.clip_rectangle(20, 20, 30, 30).unwrap();
    assert_eq!(clipped.width(), 30);
    assert_eq!(clipped.height(), 30);
    // Pixel at (32,32) in source -> (12,12) in clipped
    assert_eq!(clipped.get_pixel(12, 12), Some(1));
    assert_eq!(clipped.get_pixel(0, 0), Some(0));
}

#[test]
fn test_clip_rectangle_32bpp() {

    let pix = Pix::new(100, 80, PixelDepth::Bit32).unwrap();
    let mut pix_mut = pix.try_into_mut().unwrap();
    pix_mut
        .set_pixel(50, 40, compose_rgb(200, 100, 50))
        .unwrap();
    let pix: Pix = pix_mut.into();

    let clipped = pix.clip_rectangle(40, 30, 20, 20).unwrap();
    assert_eq!(clipped.width(), 20);
    assert_eq!(clipped.height(), 20);
    assert_eq!(clipped.depth(), PixelDepth::Bit32);
    assert_eq!(clipped.spp(), pix.spp());

    let (r, g, b) = clipped.get_rgb(10, 10).unwrap();
    assert_eq!((r, g, b), (200, 100, 50));
}

#[test]
fn test_clip_rectangle_preserves_resolution() {
    let pix = Pix::new(100, 100, PixelDepth::Bit8).unwrap();
    let mut pix_mut = pix.try_into_mut().unwrap();
    pix_mut.set_resolution(300, 300);
    let pix: Pix = pix_mut.into();

    let clipped = pix.clip_rectangle(10, 10, 50, 50).unwrap();
    assert_eq!(clipped.xres(), 300);
    assert_eq!(clipped.yres(), 300);
}

#[test]
fn test_clip_rectangle_pixel_values() {
    // Verify that all pixels are correctly copied
    let pix = Pix::new(20, 20, PixelDepth::Bit8).unwrap();
    let mut pix_mut = pix.try_into_mut().unwrap();
    for y in 0..20u32 {
        for x in 0..20u32 {
            pix_mut.set_pixel(x, y, (x + y * 20) % 256).unwrap();
        }
    }
    let pix: Pix = pix_mut.into();

    let clipped = pix.clip_rectangle(5, 5, 10, 10).unwrap();
    for y in 0..10u32 {
        for x in 0..10u32 {
            let expected = ((x + 5) + (y + 5) * 20) % 256;
            assert_eq!(clipped.get_pixel(x, y), Some(expected));
        }
    }
}

#[test]
fn test_clip_masked_paints_outside_mask() {
    let mut pm = Pix::new(4, 4, PixelDepth::Bit8).unwrap().to_mut();
    for y in 0..4u32 {
        for x in 0..4u32 {
            pm.set_pixel(x, y, 10 * y + x).unwrap();
        }
    }
    let pix: Pix = pm.into();
    let mut mm = Pix::new(3, 2, PixelDepth::Bit1).unwrap().to_mut();
    mm.set_pixel(0, 0, 1).unwrap();
    mm.set_pixel(2, 1, 1).unwrap();
    let mask: Pix = mm.into();
    let out = pix.clip_masked(&mask, 2, 1, 200).unwrap();
    assert_eq!(out.width(), 2);
    assert_eq!(out.height(), 2);
    assert_eq!(out.get_pixel(0, 0), Some(12));
    assert_eq!(out.get_pixel(1, 0), Some(200));
    assert_eq!(out.get_pixel(0, 1), Some(200));
    assert_eq!(out.get_pixel(1, 1), Some(200));
    assert!(pix.clip_masked(&mask, 10, 10, 0).is_err());
    assert!(pix.clip_masked(&pix, 0, 0, 0).is_err());
}

#[test]
fn threshold_for_fg_bg_means() {
    let pix = Pix::new(4, 1, PixelDepth::Bit8).unwrap();
    let mut pm = pix.try_into_mut().unwrap();
    pm.set_pixel(0, 0, 10).unwrap();
    pm.set_pixel(1, 0, 21).unwrap();
    pm.set_pixel(2, 0, 200).unwrap();
    pm.set_pixel(3, 0, 255).unwrap();
    let pix: Pix = pm.into();
    // fg: (10 + 21) / 2 = 15.5 -> 16; bg: (200 + 255) / 2 = 227.5 -> 228
    assert_eq!(pix.threshold_for_fg_bg(1, 128).unwrap(), (16, 228));
    // factor 2 samples x = 0 and x = 2
    assert_eq!(pix.threshold_for_fg_bg(2, 128).unwrap(), (10, 200));
}

#[test]
fn threshold_for_fg_bg_empty_class() {
    let pix = Pix::new(3, 3, PixelDepth::Bit8).unwrap();
    // every pixel is 0: all foreground, no background
    assert_eq!(pix.threshold_for_fg_bg(1, 1).unwrap(), (0, 0));
    let mut pm = pix.try_into_mut().unwrap();
    pm.set_all();
    let pix: Pix = pm.into();
    assert_eq!(pix.threshold_for_fg_bg(1, 300).unwrap(), (255, 0));
    assert_eq!(pix.threshold_for_fg_bg(1, 0).unwrap(), (0, 255));
}

#[test]
fn threshold_for_fg_bg_converts_depth() {
    // 1 bpp: 0 is white (255), 1 is black (0)
    let pix = Pix::new(2, 1, PixelDepth::Bit1).unwrap();
    let mut pm = pix.try_into_mut().unwrap();
    pm.set_pixel(0, 0, 1).unwrap();
    let pix: Pix = pm.into();
    assert_eq!(pix.threshold_for_fg_bg(1, 128).unwrap(), (0, 255));
    assert!(pix.threshold_for_fg_bg(0, 128).is_err());
}

#[test]
fn threshold_for_fg_bg_means_straddle_threshold() {
    let pix = Pix::new(16, 16, PixelDepth::Bit8).unwrap();
    let mut pm = pix.try_into_mut().unwrap();
    for y in 0..16u32 {
        for x in 0..16u32 {
            pm.set_pixel(x, y, (x * 37 + y * 11) % 256).unwrap();
        }
    }
    let pix: Pix = pm.into();
    for t in [1u32, 50, 100, 128, 200, 255] {
        let (fg, bg) = pix.threshold_for_fg_bg(1, t).unwrap();
        assert!(fg < t, "fg {} not below {}", fg, t);
        assert!(bg >= t, "bg {} below {}", bg, t);
    }
}

#[test]
fn clip_to_foreground_empty_and_box() {
    let pix = Pix::new(8, 6, PixelDepth::Bit1).unwrap();
    assert!(pix.clip_to_foreground().unwrap().is_none());
    assert!(pix.clip_box_to_foreground(None).unwrap().is_none());
    let mut pm = pix.try_into_mut().unwrap();
    pm.set_pixel(2, 1, 1).unwrap();
    pm.set_pixel(5, 4, 1).unwrap();
    let pix: Pix = pm.into();
    let (c, b) = pix.clip_to_foreground().unwrap().unwrap();
    assert_eq!((b.x, b.y, b.w, b.h), (2, 1, 4, 4));
    assert_eq!((c.width(), c.height()), (4, 4));
    assert_eq!(c.get_pixel(0, 0), Some(1));
    assert_eq!(c.get_pixel(3, 3), Some(1));
    let (c2, b2) = pix.clip_box_to_foreground(None).unwrap().unwrap();
    assert_eq!(b, b2);
    assert_eq!(c.data(), c2.data());
    assert!(Pix::new(4, 4, PixelDepth::Bit8).unwrap().clip_to_foreground().is_err());
}
