use solid_formats::gltf::{
    buffer_source, decode_data_uri, embedded_buffer_uri, parse_glb, read_u32, triangulate, write_glb, BufferSource,
    DataUriError, GltfAccessor, GltfBufferView, GltfError, GltfLoader, GltfRoot, GltfSaver,
};

#[test]
fn glb_round_trip() {
    let json = br#"{"asset":{"version":"2.0"}}"#;
    let bin = [1u8, 2, 3, 4, 5];
    let glb = write_glb(json, &bin);
    assert_eq!(&glb[0..4], b"glTF");
    assert_eq!(glb.len() % 4, 0);
    let (j, b) = parse_glb(&glb).unwrap();
    let text = String::from_utf8(j).unwrap();
    assert_eq!(text.trim_end(), std::str::from_utf8(json).unwrap());
    assert_eq!(&b[..5], &bin);
    assert_eq!(GltfSaver.glb_bytes(json, &bin), glb);
    let (j2, _) = GltfLoader.split_container(&glb).unwrap();
    assert_eq!(String::from_utf8(j2).unwrap().trim_end(), std::str::from_utf8(json).unwrap());
    let (plain, none) = GltfLoader.split_container(json).unwrap();
    assert_eq!(plain, json.to_vec());
    assert!(none.is_empty());
}

#[test]
fn glb_chunk_length_beyond_eof_errors_not_panics() {
    let mut glb = write_glb(br#"{"asset":{"version":"2.0"}}"#, &[0u8; 8]);
    glb[12..16].copy_from_slice(&u32::MAX.to_le_bytes());
    let err = parse_glb(&glb).expect_err("hostile chunk length must error, not panic");
    assert!(matches!(err, GltfError::GlbChunkBeyondEnd { .. }), "unexpected error: {err:?}");
}

#[test]
fn glb_header_errors() {
    assert!(matches!(parse_glb(b"glTF"), Err(GltfError::GlbTooShort)));
    let mut bad = write_glb(b"{}", &[]);
    bad[0] = b'x';
    assert!(matches!(parse_glb(&bad), Err(GltfError::GlbBadMagic)));
    let mut v1 = write_glb(b"{}", &[]);
    v1[4] = 1;
    assert!(matches!(parse_glb(&v1), Err(GltfError::GlbBadVersion { version: 1 })));
}

#[test]
fn primitive_mode_triangle_strip_is_expanded() {
    assert_eq!(
        triangulate(Some(5), &[0, 1, 2, 3], 4).unwrap(),
        vec![0, 1, 2, 1, 3, 2],
        "strip must be expanded to triangles with correct winding"
    );
}

#[test]
fn primitive_mode_triangle_fan_is_expanded() {
    assert_eq!(triangulate(Some(6), &[0, 1, 2, 3], 4).unwrap(), vec![0, 1, 2, 0, 2, 3]);
}

#[test]
fn primitive_mode_lines_is_rejected() {
    let err = triangulate(Some(1), &[0, 1, 2], 3).expect_err("LINES mode must be rejected");
    assert!(matches!(err, GltfError::UnsupportedMode { mode: 1 }), "unexpected error: {err:?}");
}

#[test]
fn out_of_range_index_value_errors() {
    let err = triangulate(None, &[0, 1, 99], 3).expect_err("OOB index must error");
    assert!(matches!(err, GltfError::IndexOutOfRange { index: 99, vertex_count: 3 }), "unexpected error: {err:?}");
    assert_eq!(triangulate(Some(4), &[0, 1, 2], 3).unwrap(), vec![0, 1, 2]);
}

fn root_with_indices(count: usize, view_len: usize) -> GltfRoot {
    GltfRoot {
        buffer_views: vec![GltfBufferView { buffer: 0, byte_offset: 4, byte_length: view_len, byte_stride: None, target: None }],
        accessors: vec![GltfAccessor {
            buffer_view: Some(0),
            byte_offset: 0,
            component_type: 5125,
            count,
            type_: "SCALAR".to_string(),
            normalized: false,
            sparse: None,
        }],
        extensions_required: vec![],
    }
}

#[test]
fn accessor_reads_and_bounds() {
    let mut buf = vec![0xAAu8; 4];
    for v in [7u32, 8, 9] {
        buf.extend_from_slice(&v.to_le_bytes());
    }
    let buffers = vec![buf];
    assert_eq!(read_u32(&root_with_indices(3, 12), &buffers, 0).unwrap(), vec![7, 8, 9]);
    assert!(matches!(read_u32(&root_with_indices(3, 12), &buffers, 1), Err(GltfError::AccessorOutOfRange { index: 1 })));
    assert!(read_u32(&root_with_indices(4, 12), &buffers, 0).is_err(), "oversized accessor must error");
    assert!(read_u32(&root_with_indices(3, 8), &buffers, 0).is_err(), "byte_length shortfall must error");
}

#[test]
fn data_uris_decode() {
    match decode_data_uri(b"data:application/octet-stream;base64,AQID") {
        Some(Ok((mime, data))) => {
            assert_eq!(mime, b"application/octet-stream".to_vec());
            assert_eq!(data, vec![1, 2, 3]);
        },
        other => panic!("{other:?}"),
    }
    assert!(decode_data_uri(b"file.bin").is_none());
    assert_eq!(decode_data_uri(b"data:nocomma").unwrap().unwrap_err(), DataUriError::MissingComma);
    assert_eq!(decode_data_uri(b"data:x;base64,!!!").unwrap().unwrap_err(), DataUriError::Base64);
}

#[test]
fn buffer_sources() {
    assert!(matches!(buffer_source(0, Some(b"data:;base64,AAE="), 0), Ok(BufferSource::Embedded(d)) if d == vec![0, 1]));
    assert!(matches!(buffer_source(0, Some(b"mesh.bin"), 0), Ok(BufferSource::File(u)) if u == b"mesh.bin".to_vec()));
    assert!(matches!(buffer_source(0, None, 4), Ok(BufferSource::BinChunk)));
    assert!(matches!(buffer_source(1, None, 4), Err(GltfError::BufferMissing { index: 1 })));
    assert!(matches!(buffer_source(0, Some(b"data:x"), 0), Err(GltfError::DataUriMissingComma)));
}

#[test]
fn buffers_embed_as_base64() {
    assert_eq!(embedded_buffer_uri(&[1, 2, 3]).unwrap(), b"data:application/octet-stream;base64,AQID".to_vec());
    assert!(embedded_buffer_uri(&[]).is_none());
    let uri = GltfSaver.buffer_uri(&[9, 8, 7, 6]).unwrap();
    match decode_data_uri(&uri) {
        Some(Ok((_, data))) => assert_eq!(data, vec![9, 8, 7, 6]),
        other => panic!("{other:?}"),
    }
}

#[test]
fn float_words_are_read_raw() {
    let mut buf = Vec::new();
    for v in [1.5f32, -2.0] {
        buf.extend_from_slice(&v.to_le_bytes());
    }
    let root = GltfRoot {
        buffer_views: vec![GltfBufferView { buffer: 0, byte_offset: 0, byte_length: 8, byte_stride: None, target: None }],
        accessors: vec![GltfAccessor {
            buffer_view: Some(0),
            byte_offset: 0,
            component_type: 5126,
            count: 2,
            type_: "SCALAR".to_string(),
            normalized: false,
            sparse: None,
        }],
        extensions_required: vec![],
    };
    let words = solid_formats::gltf::read_f32_words(&root, &[buf], 0).unwrap();
    assert_eq!(words, vec![1.5f32.to_bits(), (-2.0f32).to_bits()]);
}

fn vec3_root(count: usize, view_len: usize) -> GltfRoot {
    GltfRoot {
        buffer_views: vec![GltfBufferView { buffer: 0, byte_offset: 0, byte_length: view_len, byte_stride: None, target: None }],
        accessors: vec![GltfAccessor {
            buffer_view: Some(0),
            byte_offset: 0,
            component_type: 5126,
            count,
            type_: "VEC3".to_string(),
            normalized: false,
            sparse: None,
        }],
        extensions_required: vec![],
    }
}

#[test]
fn hostile_accessor_count_is_rejected_before_allocation() {
    let root = vec3_root(1_000_000_000, 36);
    let err = solid_formats::gltf::read_f32_words(&root, &[vec![0u8; 48]], 0).unwrap_err();
    assert!(matches!(err, GltfError::AccessorTooLarge { index: 0, bytes: 12_000_000_000 }), "{err:?}");
}

#[test]
fn buffer_view_byte_length_limits_accessor_reads() {
    let root = vec3_root(3, 24);
    let err = solid_formats::gltf::read_f32_words(&root, &[vec![0u8; 48]], 0).unwrap_err();
    assert!(matches!(err, GltfError::AccessorNeedsMore { index: 0, need: 36, available: 24 }), "{err:?}");
}
