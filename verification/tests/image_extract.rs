use bokai::image_extract::{
    epub_extract_images, ext_for, gif_dimensions, jpeg_dimensions, png_dimensions, sniff_raster,
};

#[test]
fn image_extract_non_epub_bytes_error() {
    assert!(epub_extract_images(b"not an epub").is_err());
}

#[test]
fn sniff_raster_recognizes_and_rejects() {
    assert_eq!(sniff_raster(&[0xFF, 0xD8, 0xFF, 0x00]), Some("jpg"));
    assert_eq!(
        sniff_raster(&[0x89, 0x50, 0x4E, 0x47, 0x0D, 0x0A, 0x1A, 0x0A]),
        Some("png")
    );
    assert_eq!(sniff_raster(b"GIF89a....."), Some("gif"));
    assert_eq!(sniff_raster(b"RIFF____WEBP...."), Some("webp"));
    assert_eq!(sniff_raster(b"BM......"), Some("bmp"));
    assert_eq!(sniff_raster(b"<?xml version"), None);
    assert_eq!(sniff_raster(b"\x00\x01\x00\x00ttf"), None);
}

#[test]
fn ext_for_prefers_declared_media_type() {
    assert_eq!(ext_for("image/png", &[0xFF, 0xD8, 0xFF]), Some("png"));
    assert_eq!(ext_for("image/svg+xml", b"<svg>"), Some("svg"));
    // Missing/odd type → sniff the bytes.
    assert_eq!(ext_for("", &[0xFF, 0xD8, 0xFF]), Some("jpg"));
    // Non-image members are rejected.
    assert_eq!(ext_for("application/xhtml+xml", b"<html>"), None);
    assert_eq!(ext_for("text/css", b"body{}"), None);
}

#[test]
fn dimension_sniffers_read_synthetic_headers() {
    // PNG: signature + IHDR length + "IHDR" + 800x600 (big-endian).
    let mut png = vec![0x89, 0x50, 0x4E, 0x47, 0x0D, 0x0A, 0x1A, 0x0A];
    png.extend_from_slice(&[0, 0, 0, 13]); // IHDR length
    png.extend_from_slice(b"IHDR");
    png.extend_from_slice(&800u32.to_be_bytes());
    png.extend_from_slice(&600u32.to_be_bytes());
    assert_eq!(png_dimensions(&png), Some((800, 600)));

    // GIF: header + 320x240 (little-endian).
    let mut gif = b"GIF89a".to_vec();
    gif.extend_from_slice(&320u16.to_le_bytes());
    gif.extend_from_slice(&240u16.to_le_bytes());
    assert_eq!(gif_dimensions(&gif), Some((320, 240)));

    // JPEG: SOI, an APP0 segment to skip, then SOF0 with 128x256.
    let mut jpg = vec![0xFF, 0xD8];
    jpg.extend_from_slice(&[0xFF, 0xE0, 0x00, 0x04, 0x00, 0x00]); // APP0 len=4
    jpg.extend_from_slice(&[0xFF, 0xC0, 0x00, 0x11, 0x08]); // SOF0, len, precision
    jpg.extend_from_slice(&256u16.to_be_bytes()); // height
    jpg.extend_from_slice(&128u16.to_be_bytes()); // width
    assert_eq!(jpeg_dimensions(&jpg), Some((128, 256)));
}
