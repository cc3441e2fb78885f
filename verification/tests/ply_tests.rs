use solid_formats::ply::{load_ply, parse_header, PlyDetect, PlyError, PlyFormat, PlyLoader, PropType, ScalarType};

const ASCII_HEADER3: &str = "\
ply\n\
format ascii 1.0\n\
element vertex 3\n\
property float x\n\
property float y\n\
property float z\n\
element face 1\n\
property list uchar uint vertex_indices\n\
end_header\n";

fn binary_ply_face(indices: &[u32], truncated_quality: bool) -> Vec<u8> {
    let header = b"ply\nformat binary_little_endian 1.0\nelement vertex 1\nproperty float x\nproperty float y\nproperty float z\nelement face 1\nproperty list uchar uint vertex_indices\nproperty float quality\nend_header\n";
    let mut out = header.to_vec();
    out.extend_from_slice(&0.0f32.to_le_bytes());
    out.extend_from_slice(&0.0f32.to_le_bytes());
    out.extend_from_slice(&0.0f32.to_le_bytes());
    out.push(indices.len() as u8);
    for &i in indices {
        out.extend_from_slice(&i.to_le_bytes());
    }
    if !truncated_quality {
        out.extend_from_slice(&1.0f32.to_le_bytes());
    }
    out
}

#[test]
fn ascii_face_out_of_range_index_errors() {
    let ply = format!("{ASCII_HEADER3}0 0 0\n1 0 0\n0 1 0\n3 0 1 9\n");
    let err = load_ply(ply.as_bytes()).unwrap_err();
    assert!(matches!(err, PlyError::IndexOutOfRange { index: 9 }), "expected out-of-range error, got {err:?}");
}

#[test]
fn binary_face_out_of_range_index_errors() {
    let bytes = binary_ply_face(&[0, 0, 9], false);
    let err = load_ply(&bytes).unwrap_err();
    assert!(matches!(err, PlyError::IndexOutOfRange { index: 9 }), "expected out-of-range error, got {err:?}");
}

#[test]
fn ascii_face_count_mismatch_errors() {
    let ply = format!("{ASCII_HEADER3}0 0 0\n1 0 0\n0 1 0\n4 0 1 2\n");
    let err = load_ply(ply.as_bytes()).unwrap_err();
    assert!(matches!(err, PlyError::FaceCountMismatch { declared: 4 }), "expected count-mismatch error, got {err:?}");
}

#[test]
fn ascii_vertex_truncation_errors() {
    let ply = format!("{ASCII_HEADER3}0 0 0\n1 0 0\n3 0 1 2\n");
    let err = load_ply(ply.as_bytes());
    assert!(err.is_err(), "expected a parse error for truncated body, got {err:?}");
}

#[test]
fn binary_truncated_face_scalar_errors() {
    let bytes = binary_ply_face(&[0], true);
    let err = load_ply(&bytes).unwrap_err();
    assert_eq!(err, PlyError::UnexpectedEnd, "expected truncation error, got {err:?}");
}

#[test]
fn ascii_huge_vertex_count_is_rejected_before_allocating() {
    let ply = "ply\nformat ascii 1.0\nelement vertex 4294967295\nproperty float x\nproperty float y\nproperty float z\nend_header\n0 0 0\n";
    let err = load_ply(ply.as_bytes()).unwrap_err();
    assert!(
        matches!(err, PlyError::ElementCountTooLarge { count: 4294967295 }),
        "expected hostile-count error, got {err:?}"
    );
}

#[test]
fn binary_huge_vertex_count_is_rejected_before_allocating() {
    let header = b"ply\nformat binary_little_endian 1.0\nelement vertex 4294967295\nproperty float x\nproperty float y\nproperty float z\nend_header\n";
    let mut bytes = header.to_vec();
    bytes.extend_from_slice(&[0u8; 12]);
    let err = load_ply(&bytes).unwrap_err();
    assert!(
        matches!(err, PlyError::ElementCountTooLarge { count: 4294967295 }),
        "expected hostile-count error, got {err:?}"
    );
}

#[test]
fn binary_valid_face_with_quality_loads() {
    let bytes = binary_ply_face(&[0, 0, 0], false);
    let (_, mesh) = load_ply(&bytes).unwrap();
    assert_eq!(mesh.indices.len(), 3);
}

#[test]
fn header_is_read() {
    let h = parse_header(ASCII_HEADER3.as_bytes()).unwrap();
    assert_eq!(h.format, PlyFormat::Ascii);
    assert_eq!(h.header_byte_len, ASCII_HEADER3.len());
    assert_eq!(h.elements.len(), 2);
    assert_eq!(h.elements[0].name, b"vertex".to_vec());
    assert_eq!(h.elements[0].count, 3);
    assert_eq!(h.elements[0].properties[2].prop_type, PropType::Scalar(ScalarType::F32));
    assert_eq!(
        h.elements[1].properties[0].prop_type,
        PropType::List { count_type: ScalarType::U8, value_type: ScalarType::U32 }
    );
    assert_eq!(parse_header(b"ply\nformat ascii 1.0\n").unwrap_err(), PlyError::MissingEndHeader);
    assert_eq!(parse_header(b"ply\nformat weird 1.0\nend_header\n").unwrap_err(), PlyError::UnknownFormat);
}

#[test]
fn ascii_quad_is_fanned() {
    let ply = "ply\nformat ascii 1.0\nelement vertex 4\nproperty float x\nproperty float y\nproperty float z\nelement face 1\nproperty list uchar int vertex_indices\nend_header\n0 0 0\n1 0 0\n1 1 0\n0 1 0\n4 0 1 2 3\n";
    let (_, mesh) = load_ply(ply.as_bytes()).unwrap();
    assert_eq!(mesh.indices, vec![0, 1, 2, 0, 2, 3]);
    assert_eq!(mesh.blocks.len(), 1);
    assert_eq!(mesh.blocks[0].rows.len(), 4);
    assert_eq!(mesh.blocks[0].layout.x, Some(0));
    assert_eq!(mesh.blocks[0].layout.z, Some(2));
}

#[test]
fn scalar_types_and_detection() {
    assert_eq!(ScalarType::from_str("uchar"), Some(ScalarType::U8));
    assert_eq!(ScalarType::from_str("float64"), Some(ScalarType::F64));
    assert_eq!(ScalarType::from_str("quad"), None);
    assert_eq!(ScalarType::I16.byte_size(), 2);
    assert_eq!(ScalarType::F64.byte_size(), 8);
    assert_eq!(PlyLoader.detect(b"ply\n"), PlyDetect::Certain);
    assert_eq!(PlyLoader.detect(b"ply\r"), PlyDetect::Likely);
    assert_eq!(PlyLoader.detect(b"pl"), PlyDetect::No);
}

fn twin_bodies() -> (Vec<u8>, Vec<u8>) {
    let mut be = Vec::new();
    let mut le = Vec::new();
    for (x, s, i) in [(1.5f32, -2i16, 70000i32), (-0.25, 300, -5), (8.0, 0, 1), (2.0, 7, 9)] {
        be.extend_from_slice(&x.to_be_bytes());
        le.extend_from_slice(&x.to_le_bytes());
        be.extend_from_slice(&s.to_be_bytes());
        le.extend_from_slice(&s.to_le_bytes());
        be.extend_from_slice(&i.to_be_bytes());
        le.extend_from_slice(&i.to_le_bytes());
    }
    be.extend_from_slice(&4u16.to_be_bytes());
    le.extend_from_slice(&4u16.to_le_bytes());
    for k in [0i32, 1, 2, 3] {
        be.extend_from_slice(&k.to_be_bytes());
        le.extend_from_slice(&k.to_le_bytes());
    }
    (be, le)
}

#[test]
fn big_endian_body_reads_as_its_little_endian_twin() {
    let head = "element vertex 4\nproperty float x\nproperty short y\nproperty int z\nelement face 1\nproperty list ushort int vertex_indices\nend_header\n";
    let (be, le) = twin_bodies();
    let mut be_file = format!("ply\nformat binary_big_endian 1.0\n{}", head).into_bytes();
    be_file.extend_from_slice(&be);
    let mut le_file = format!("ply\nformat binary_little_endian 1.0\n{}", head).into_bytes();
    le_file.extend_from_slice(&le);
    let (_, m_be) = load_ply(&be_file).unwrap();
    let (_, m_le) = load_ply(&le_file).unwrap();
    assert_eq!(m_be.indices, vec![0, 1, 2, 0, 2, 3]);
    assert_eq!(m_be.indices, m_le.indices);
    assert_eq!(format!("{:?}", m_be.blocks), format!("{:?}", m_le.blocks));
    assert_eq!(format!("{:?}", m_be.blocks[0].rows[0][1]), "Int(-2)");
    assert_eq!(format!("{:?}", m_be.blocks[0].rows[0][2]), "Int(70000)");
}
