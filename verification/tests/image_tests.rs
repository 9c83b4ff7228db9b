use openmoonvy_mcp_rs::image_probe::probe_image_size;

#[test]
fn probe_png_dimensions_from_ihdr() {
    let mut bytes = vec![0x89, b'P', b'N', b'G', 0x0d, 0x0a, 0x1a, 0x0a];
    bytes.extend_from_slice(&[
        0x00, 0x00, 0x00, 0x0d, b'I', b'H', b'D', b'R', 0x00, 0x00, 0x0b, 0x40, 0x00, 0x00, 0x07, 0x08, 0x08, 0x06,
        0x00, 0x00, 0x00, 0x00, 0x00, 0x00, 0x00,
    ]);
    let (w, h) = probe_image_size(&bytes).expect("png dims");
    assert_eq!((w, h), (2880, 1800));
}

#[test]
fn probe_jpeg_dimensions_from_sof() {
    let mut bytes = vec![0xff, 0xd8, 0xff, 0xe0];
    bytes.extend_from_slice(&[0x00, 0x10, b'J', b'F', b'I', b'F', 0x00, 0x01, 0x01, 0x00, 0x00, 0x01, 0x00, 0x01, 0x00, 0x00]);
    bytes.extend_from_slice(&[0xff, 0xc0, 0x00, 0x11, 0x08]);
    bytes.extend_from_slice(&[0x03, 0x84, 0x05, 0xa0]);
    bytes.extend_from_slice(&[0x03, 0x01, 0x11, 0x00, 0x02, 0x11, 0x00, 0x03, 0x11, 0x00]);
    let (w, h) = probe_image_size(&bytes).expect("jpeg dims");
    assert_eq!((w, h), (1440, 900));
}

#[test]
fn probe_returns_none_for_garbage() {
    assert!(probe_image_size(b"not an image at all").is_none());
    assert!(probe_image_size(&[]).is_none());
}

#[test]
fn probe_jpeg_skips_huffman_table_marker() {
    // SOI, then a DHT segment (0xC4 is not a frame header), then SOF2.
    let mut bytes = vec![0xff, 0xd8];
    bytes.extend_from_slice(&[0xff, 0xc4, 0x00, 0x04, 0x00, 0x00]);
    bytes.extend_from_slice(&[0xff, 0xc2, 0x00, 0x11, 0x08, 0x00, 0x10, 0x00, 0x20, 0x03, 0x01]);
    assert_eq!(probe_image_size(&bytes), Some((32, 16)));
}

#[test]
fn probe_short_png_header_is_not_png() {
    let bytes = vec![0x89, b'P', b'N', b'G', 0x0d, 0x0a, 0x1a, 0x0a, 0, 0];
    assert!(probe_image_size(&bytes).is_none());
}
