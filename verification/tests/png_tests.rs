use solid_formats::png::{calc_crc32, encode_rgba_to_png, write_png_chunk};
use std::io::Read;

#[test]
fn crc_of_iend_is_the_known_value() {
    assert_eq!(calc_crc32(b"IEND", &[]), 0xAE42_6082);
    // CRC-32 of "IHDR" followed by a 1x1 RGBA header.
    let ihdr = [0, 0, 0, 1, 0, 0, 0, 1, 8, 6, 0, 0, 0];
    assert_eq!(calc_crc32(b"IHDR", &ihdr), 0x1F15_C489);
}

#[test]
fn chunk_layout() {
    let mut out = Vec::new();
    write_png_chunk(&mut out, b"tEXt", b"ab");
    assert_eq!(&out[0..4], &2u32.to_be_bytes());
    assert_eq!(&out[4..8], b"tEXt");
    assert_eq!(&out[8..10], b"ab");
    assert_eq!(&out[10..14], &calc_crc32(b"tEXt", b"ab").to_be_bytes());
    assert_eq!(out.len(), 14);
}

#[test]
fn png_holds_filtered_rows_deflated() {
    let rgba: Vec<u8> = (0u8..16).collect();
    let png = encode_rgba_to_png(&rgba, 2, 2);
    assert_eq!(&png[0..8], b"\x89PNG\r\n\x1a\n");
    assert_eq!(&png[12..16], b"IHDR");
    assert_eq!(&png[16..20], &2u32.to_be_bytes());
    assert_eq!(&png[20..24], &2u32.to_be_bytes());
    let idat_len = u32::from_be_bytes([png[33], png[34], png[35], png[36]]) as usize;
    assert_eq!(&png[37..41], b"IDAT");
    let data = &png[41..41 + idat_len];
    let mut raw = Vec::new();
    flate2::read::DeflateDecoder::new(data).read_to_end(&mut raw).unwrap();
    let mut want = vec![0u8];
    want.extend_from_slice(&rgba[0..8]);
    want.push(0);
    want.extend_from_slice(&rgba[8..16]);
    assert_eq!(raw, want);
    assert_eq!(&png[png.len() - 8..png.len() - 4], b"IEND");
}
