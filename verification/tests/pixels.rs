use spark::pixels::{image_to_rgba, PixelFormat};

#[test]
fn rgba8_is_copied() {
    let p = [1u8, 2, 3, 4, 5, 6, 7, 8];
    assert_eq!(image_to_rgba(PixelFormat::R8G8B8A8, &p), p.to_vec());
}

#[test]
fn rgb8_gains_opaque_alpha() {
    let p = [10u8, 20, 30, 40, 50, 60];
    assert_eq!(
        image_to_rgba(PixelFormat::R8G8B8, &p),
        vec![10, 20, 30, 255, 40, 50, 60, 255]
    );
}

#[test]
fn sixteen_bit_channels_keep_high_bytes() {
    let p = [0x11u8, 0xA1, 0x22, 0xB2, 0x33, 0xC3, 0x44, 0xD4];
    assert_eq!(image_to_rgba(PixelFormat::R16G16B16A16, &p), vec![0xA1, 0xB2, 0xC3, 0xD4]);
    let p = [0x11u8, 0xA1, 0x22, 0xB2, 0x33, 0xC3];
    assert_eq!(image_to_rgba(PixelFormat::R16G16B16, &p), vec![0xA1, 0xB2, 0xC3, 255]);
    // Two 16-bit channels keep the low bytes, with a trailing 3-byte pixel.
    let p = [1u8, 2, 3, 4, 5, 6, 7];
    assert_eq!(
        image_to_rgba(PixelFormat::R16G16, &p),
        vec![1, 3, 0, 255, 5, 7, 0, 255]
    );
}

#[test]
fn luminance_is_replicated() {
    let p = [7u8, 9];
    assert_eq!(image_to_rgba(PixelFormat::R8, &p), vec![7, 7, 7, 255, 9, 9, 9, 255]);
    assert_eq!(image_to_rgba(PixelFormat::R8G8, &p), vec![7, 7, 7, 255, 9, 9, 9, 255]);
    assert!(image_to_rgba(PixelFormat::R16, &[]).is_empty());
}
