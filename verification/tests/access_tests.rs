use leptonica_core::pix::access::{
    get_data_bit, get_data_byte, get_data_dibit, get_data_qbit, get_data_two_bytes, set_data_bit,
    set_data_byte, set_data_dibit, set_data_qbit, set_data_two_bytes,
};
use leptonica_core::{Pix, PixelDepth};

#[test]
fn test_1bit_access() {
    let mut line = [0u32; 2];

    // Set some bits
    set_data_bit(&mut line, 0, 1); // First bit (MSB of first word)
    set_data_bit(&mut line, 31, 1); // Last bit of first word
    set_data_bit(&mut line, 32, 1); // First bit of second word

    assert_eq!(get_data_bit(&line, 0), 1);
    assert_eq!(get_data_bit(&line, 1), 0);
    assert_eq!(get_data_bit(&line, 31), 1);
    assert_eq!(get_data_bit(&line, 32), 1);
    assert_eq!(get_data_bit(&line, 33), 0);

    // Clear a bit
    set_data_bit(&mut line, 0, 0);
    assert_eq!(get_data_bit(&line, 0), 0);
}

#[test]
fn test_2bit_access() {
    let mut line = [0u32; 1];

    set_data_dibit(&mut line, 0, 3); // First 2 bits
    set_data_dibit(&mut line, 15, 2); // Last 2 bits of word

    assert_eq!(get_data_dibit(&line, 0), 3);
    assert_eq!(get_data_dibit(&line, 1), 0);
    assert_eq!(get_data_dibit(&line, 15), 2);
}

#[test]
fn test_4bit_access() {
    let mut line = [0u32; 1];

    set_data_qbit(&mut line, 0, 0xF);
    set_data_qbit(&mut line, 7, 0xA);

    assert_eq!(get_data_qbit(&line, 0), 0xF);
    assert_eq!(get_data_qbit(&line, 1), 0);
    assert_eq!(get_data_qbit(&line, 7), 0xA);
}

#[test]
fn test_8bit_access() {
    let mut line = [0u32; 1];

    set_data_byte(&mut line, 0, 0xFF);
    set_data_byte(&mut line, 3, 0x42);

    assert_eq!(get_data_byte(&line, 0), 0xFF);
    assert_eq!(get_data_byte(&line, 1), 0);
    assert_eq!(get_data_byte(&line, 3), 0x42);

    // Verify word layout: byte 0 is MSB
    assert_eq!(line[0], 0xFF000042);
}

#[test]
fn test_16bit_access() {
    let mut line = [0u32; 1];

    set_data_two_bytes(&mut line, 0, 0xABCD);
    set_data_two_bytes(&mut line, 1, 0x1234);

    assert_eq!(get_data_two_bytes(&line, 0), 0xABCD);
    assert_eq!(get_data_two_bytes(&line, 1), 0x1234);

    // Verify word layout
    assert_eq!(line[0], 0xABCD1234);
}

#[test]
fn test_pix_pixel_access() {
    let pix = Pix::new(10, 10, PixelDepth::Bit8).unwrap();
    let mut pix_mut = pix.try_into_mut().unwrap();

    pix_mut.set_pixel(5, 5, 128).unwrap();
    assert_eq!(pix_mut.get_pixel(5, 5), Some(128));

    // Out of bounds
    assert!(pix_mut.set_pixel(100, 5, 128).is_err());
    assert_eq!(pix_mut.get_pixel(100, 5), None);
}

#[test]
fn test_rgb_access() {
    let pix = Pix::new(10, 10, PixelDepth::Bit32).unwrap();
    let mut pix_mut = pix.try_into_mut().unwrap();

    pix_mut.set_rgb(0, 0, 255, 128, 64).unwrap();

    let pix: Pix = pix_mut.into();
    assert_eq!(pix.get_rgb(0, 0), Some((255, 128, 64)));
}
