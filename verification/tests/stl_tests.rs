use solid_formats::stl::{
    count_triangles, deduplicate, detect_binary, encode_binary, parse_ascii, parse_binary,
    read_stl, StlColor, StlContent, StlDetect, StlError, StlLoader, StlTriangle, Vec3Bits,
};

fn v(x: f32, y: f32, z: f32) -> Vec3Bits {
    Vec3Bits { x: x.to_bits(), y: y.to_bits(), z: z.to_bits() }
}

fn tri(a: Vec3Bits, b: Vec3Bits, c: Vec3Bits) -> StlTriangle {
    StlTriangle { normal: v(0.0, 0.0, 1.0), vertices: [a, b, c], color: None }
}

#[test]
fn binary_round_trip_keeps_triangles() {
    let t1 = tri(v(0.0, 0.0, 0.0), v(1.0, 0.0, 0.0), v(0.0, 1.0, 0.0));
    let t2 = tri(v(1.0, 0.0, 0.0), v(1.0, 1.0, 0.0), v(0.0, 1.0, 0.0));
    let bytes = encode_binary(b"cube", &[t1, t2]);
    assert_eq!(bytes.len(), 84 + 2 * 50);
    assert!(detect_binary(&bytes));
    let (name, tris) = parse_binary(&bytes).unwrap();
    assert_eq!(name, b"cube".to_vec());
    assert_eq!(tris, vec![t1, t2]);
}

#[test]
fn binary_too_small_and_truncated() {
    assert_eq!(parse_binary(&[0u8; 10]).unwrap_err(), StlError::TooSmall);
    let mut bytes = vec![0u8; 84];
    bytes[80] = 2;
    assert_eq!(parse_binary(&bytes).unwrap_err(), StlError::Truncated);
}

#[test]
fn ascii_facets_are_read_as_text() {
    let src = b"solid part\n facet normal 0 0 1\n  outer loop\n   vertex 0 0 0\n   vertex 1 0 0\n   vertex 0 1 0\n  endloop\n endfacet\nendsolid part\n";
    let (name, facets) = parse_ascii(src).unwrap();
    assert_eq!(name, b"part".to_vec());
    assert_eq!(facets.len(), 1);
    assert_eq!(facets[0].normal.z, b"1".to_vec());
    assert_eq!(facets[0].vertices[1].x, b"1".to_vec());
    match read_stl(src).unwrap() {
        StlContent::Text { name, .. } => assert_eq!(name, b"part".to_vec()),
        _ => panic!("expected text"),
    }
}

#[test]
fn welding_shares_vertices() {
    let t1 = tri(v(0.0, 0.0, 0.0), v(1.0, 0.0, 0.0), v(0.0, 1.0, 0.0));
    let t2 = tri(v(1.0, 0.0, 0.0), v(1.0, 1.0, 0.0), v(0.0, 1.0, 0.0));
    let (verts, idx) = deduplicate(&[t1, t2]);
    assert_eq!(verts.len(), 4);
    assert_eq!(idx, vec![0, 1, 2, 1, 3, 2]);
}

#[test]
fn detection_and_counts() {
    assert_eq!(StlLoader.detect(b"solid x"), StlDetect::Ascii);
    assert_eq!(StlLoader.detect(&[0u8; 84]), StlDetect::MaybeBinary);
    assert_eq!(StlLoader.detect(b"abc"), StlDetect::No);
    assert_eq!(count_triangles(&[3, 7, 0]), 3);
}

#[test]
fn header_name_trims_unicode_whitespace() {
    let mut bytes = vec![0u8; 84];
    let head = "\u{3000}A\u{00A0}\u{3000}".as_bytes();
    bytes[..head.len()].copy_from_slice(head);
    let (name, tris) = parse_binary(&bytes).unwrap();
    assert_eq!(name, b"A".to_vec());
    assert!(tris.is_empty());
    let (name, _) = parse_ascii("solid \u{2003}part\u{3000}\nendsolid\n".as_bytes()).unwrap();
    assert_eq!(name, b"part".to_vec());
    let src = "solid s\nfacet normal 0\u{00A0}0 1\nvertex 0\u{3000}0 0\nvertex 1 0 0\nvertex 0 1 0\nendfacet\n";
    let (_, facets) = parse_ascii(src.as_bytes()).unwrap();
    assert_eq!(facets.len(), 1);
    assert_eq!(facets[0].normal.y, b"0".to_vec());
    assert_eq!(facets[0].vertices[0].y, b"0".to_vec());
}

#[test]
fn welded_vertices_carry_the_colour_of_their_first_facet() {
    let red = StlColor { r: 31, g: 0, b: 0 };
    let blue = StlColor { r: 0, g: 0, b: 31 };
    let mut t1 = tri(v(0.0, 0.0, 0.0), v(1.0, 0.0, 0.0), v(0.0, 1.0, 0.0));
    t1.color = Some(red);
    let mut t2 = tri(v(1.0, 0.0, 0.0), v(1.0, 1.0, 0.0), v(0.0, 1.0, 0.0));
    t2.color = Some(blue);
    let (verts, idx) = deduplicate(&[t1, t2]);
    assert_eq!(verts.len(), 4);
    assert_eq!(idx, vec![0, 1, 2, 1, 3, 2]);
    assert_eq!(verts[1].color, Some(red));
    assert_eq!(verts[3].color, Some(blue));
    // The colour is decoded from the attribute word (bit 15, then RGB555).
    let mut bytes = encode_binary(b"c", &[t1]);
    let attr: u16 = 0x8000 | (31 << 10);
    bytes[84 + 48..84 + 50].copy_from_slice(&attr.to_le_bytes());
    let (_, back) = parse_binary(&bytes).unwrap();
    assert_eq!(back[0].color, Some(red));
}
