use leptonica_core::{Pix, PixMut, PixelDepth, PixColormap, ImageFormat, Error};

#[test]
fn test_spix_roundtrip_1bpp() {
    let mut pix_mut = PixMut::new(64, 48, PixelDepth::Bit1).unwrap();
    pix_mut.data_mut()[0] = 0xAAAA_AAAA;
    pix_mut.data_mut()[1] = 0x5555_5555;
    let pix: Pix = pix_mut.into();

    let bytes = pix.write_spix_to_bytes().unwrap();
    let restored = Pix::read_spix_from_bytes(&bytes).unwrap();

    assert_eq!(pix.width(), restored.width());
    assert_eq!(pix.height(), restored.height());
    assert_eq!(pix.depth(), restored.depth());
    assert_eq!(pix.wpl(), restored.wpl());
    assert_eq!(pix.data(), restored.data());
}

#[test]
fn test_spix_roundtrip_8bpp() {
    let mut pix_mut = PixMut::new(100, 50, PixelDepth::Bit8).unwrap();
    for y in 0..50u32 {
        for x in 0..100u32 {
            let val = ((x + y * 100) % 256) as u32;
            let wpl = pix_mut.wpl();
            let word_idx = (y * wpl + x / 4) as usize;
            let byte_pos = 3 - (x % 4) as usize;
            pix_mut.data_mut()[word_idx] |= val << (byte_pos * 8);
        }
    }
    let pix: Pix = pix_mut.into();

    let bytes = pix.write_spix_to_bytes().unwrap();
    let restored = Pix::read_spix_from_bytes(&bytes).unwrap();

    assert_eq!(pix.width(), restored.width());
    assert_eq!(pix.height(), restored.height());
    assert_eq!(pix.depth(), restored.depth());
    assert_eq!(pix.data(), restored.data());
}

#[test]
fn test_spix_roundtrip_32bpp() {
    let mut pix_mut = PixMut::new(10, 10, PixelDepth::Bit32).unwrap();
    for (i, word) in pix_mut.data_mut().iter_mut().enumerate() {
        *word = (i as u32).wrapping_mul(0x0101_0101);
    }
    let pix: Pix = pix_mut.into();

    let bytes = pix.write_spix_to_bytes().unwrap();
    let restored = Pix::read_spix_from_bytes(&bytes).unwrap();

    assert_eq!(pix.width(), restored.width());
    assert_eq!(pix.height(), restored.height());
    assert_eq!(pix.depth(), restored.depth());
    assert_eq!(pix.data(), restored.data());
}

#[test]
fn test_spix_roundtrip_with_colormap() {
    let mut pix_mut = PixMut::new(16, 16, PixelDepth::Bit8).unwrap();
    let mut cmap = PixColormap::new(8).unwrap();
    cmap.add_rgba(255, 0, 0, 255).unwrap();
    cmap.add_rgba(0, 255, 0, 200).unwrap();
    cmap.add_rgba(0, 0, 255, 128).unwrap();
    pix_mut.set_colormap(Some(cmap)).unwrap();
    pix_mut.data_mut()[0] = 0x0001_0200;
    let pix: Pix = pix_mut.into();

    let bytes = pix.write_spix_to_bytes().unwrap();
    let restored = Pix::read_spix_from_bytes(&bytes).unwrap();

    assert_eq!(pix.width(), restored.width());
    assert_eq!(pix.height(), restored.height());
    assert!(restored.has_colormap());
    let rcmap = restored.colormap().unwrap();
    assert_eq!(rcmap.len(), 3);
    assert_eq!(rcmap.get_rgba(0), Some((255, 0, 0, 255)));
    assert_eq!(rcmap.get_rgba(1), Some((0, 255, 0, 200)));
    assert_eq!(rcmap.get_rgba(2), Some((0, 0, 255, 128)));
    assert_eq!(pix.data(), restored.data());
}

#[test]
fn test_spix_header_read() {
    let pix = Pix::new(320, 240, PixelDepth::Bit8).unwrap();
    let bytes = pix.write_spix_to_bytes().unwrap();

    let header = Pix::read_spix_header(&bytes).unwrap();
    assert_eq!(header.width, 320);
    assert_eq!(header.height, 240);
    assert_eq!(header.depth, 8);
    assert_eq!(header.ncolors, 0);
}

#[test]
fn test_spix_invalid_magic() {
    let data = b"notspix_invalid_data_here_padding";
    assert!(Pix::read_spix_from_bytes(data).is_err());
}

#[test]
fn test_spix_truncated_data() {
    let data = b"spix";
    assert!(Pix::read_spix_from_bytes(data).is_err());
}

#[test]
fn test_spix_informat_is_set() {
    let pix = Pix::new(10, 10, PixelDepth::Bit8).unwrap();
    let bytes = pix.write_spix_to_bytes().unwrap();
    let restored = Pix::read_spix_from_bytes(&bytes).unwrap();
    assert_eq!(restored.informat(), ImageFormat::Spix);
}

#[test]
fn test_spix_all_depths() {
    for depth in [
        PixelDepth::Bit1,
        PixelDepth::Bit2,
        PixelDepth::Bit4,
        PixelDepth::Bit8,
        PixelDepth::Bit16,
        PixelDepth::Bit32,
    ] {
        let pix = Pix::new(64, 48, depth).unwrap();
        let bytes = pix.write_spix_to_bytes().unwrap();
        let restored = Pix::read_spix_from_bytes(&bytes).unwrap();
        assert_eq!(pix.width(), restored.width());
        assert_eq!(pix.height(), restored.height());
        assert_eq!(pix.depth(), restored.depth());
        assert_eq!(pix.wpl(), restored.wpl());
    }
}

fn header_bytes(w: u32, h: u32, d: u32, wpl: u32, n: u32) -> Vec<u8> {
    let mut v = b"spix".to_vec();
    for x in [w, h, d, wpl, n] {
        v.extend_from_slice(&x.to_le_bytes());
    }
    v
}

#[test]
fn test_spix_exact_layout() {
    let mut pm = PixMut::new(1, 1, PixelDepth::Bit8).unwrap();
    pm.data_mut()[0] = 0x1122_3344;
    let pix: Pix = pm.into();
    let bytes = pix.write_spix_to_bytes().unwrap();
    let mut expected = header_bytes(1, 1, 8, 1, 0);
    expected.extend_from_slice(&[4, 0, 0, 0, 0x44, 0x33, 0x22, 0x11]);
    assert_eq!(bytes, expected);
}

#[test]
fn test_spix_colormap_layout() {
    let mut pm = PixMut::new(1, 1, PixelDepth::Bit2).unwrap();
    let mut cmap = PixColormap::new(2).unwrap();
    cmap.add_rgba(1, 2, 3, 4).unwrap();
    pm.set_colormap(Some(cmap)).unwrap();
    let pix: Pix = pm.into();
    let bytes = pix.write_spix_to_bytes().unwrap();
    let mut expected = header_bytes(1, 1, 2, 1, 1);
    expected.extend_from_slice(&[1, 2, 3, 4, 4, 0, 0, 0, 0, 0, 0, 0]);
    assert_eq!(bytes, expected);
}

#[test]
fn test_spix_bad_dimension() {
    let mut data = header_bytes(0, 5, 8, 0, 0);
    data.extend_from_slice(&[0, 0, 0, 0]);
    match Pix::read_spix_from_bytes(&data) {
        Err(Error::InvalidDimension { width: 0, height: 5 }) => {}
        other => panic!("unexpected {:?}", other.map(|p| p.width())),
    }
}

#[test]
fn test_spix_bad_depth() {
    let mut data = header_bytes(1, 1, 3, 1, 0);
    data.extend_from_slice(&[4, 0, 0, 0, 0, 0, 0, 0]);
    assert!(matches!(Pix::read_spix_from_bytes(&data), Err(Error::InvalidDepth(3))));
}

#[test]
fn test_spix_size_mismatch() {
    let mut data = header_bytes(1, 1, 8, 1, 0);
    data.extend_from_slice(&[8, 0, 0, 0, 0, 0, 0, 0]);
    assert!(matches!(Pix::read_spix_from_bytes(&data), Err(Error::DecodeError(_))));
}

#[test]
fn test_spix_colormap_on_rgb_rejected() {
    let mut data = header_bytes(1, 1, 32, 1, 1);
    data.extend_from_slice(&[9, 9, 9, 9, 4, 0, 0, 0, 0, 0, 0, 0]);
    assert!(matches!(Pix::read_spix_from_bytes(&data), Err(Error::InvalidDepth(32))));
}

#[test]
fn test_spix_too_many_colors() {
    let mut data = header_bytes(1, 1, 1, 1, 3);
    data.extend_from_slice(&[0; 12]);
    data.extend_from_slice(&[4, 0, 0, 0, 0, 0, 0, 0]);
    assert!(matches!(Pix::read_spix_from_bytes(&data), Err(Error::InvalidParameter(_))));
}

#[test]
fn test_spix_header_errors() {
    assert!(matches!(Pix::read_spix_header(b"spix"), Err(Error::DecodeError(_))));
    let mut data = header_bytes(1, 1, 8, 1, 0);
    data[0] = b'x';
    assert!(matches!(Pix::read_spix_header(&data), Err(Error::DecodeError(_))));
}
