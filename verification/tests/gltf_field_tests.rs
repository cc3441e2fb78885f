use solid_formats::gltf::{DataUriError, GltfBufferView, GltfRoot};
use solid_formats::gltf_fields::{
    alpha_mode_name, alpha_mode_of, decimal_bytes, double_sided_field, double_sided_of, image_fields, image_origin,
    name_field, name_of, node_name, offset_indices, sequential_indices, tex_coord_field, texture_source_of,
    uv_channel_of, AlphaMode, ImageError, ImageOrigin,
};

#[test]
fn alpha_modes_round_trip() {
    for m in [AlphaMode::Opaque, AlphaMode::Mask, AlphaMode::Blend] {
        let name = alpha_mode_name(m);
        assert_eq!(alpha_mode_of(name.as_ref()), m);
    }
    assert_eq!(alpha_mode_name(AlphaMode::Opaque), None);
    assert_eq!(alpha_mode_name(AlphaMode::Blend), Some("BLEND".to_string()));
    assert_eq!(alpha_mode_of(Some(&"mask".to_string())), AlphaMode::Opaque);
}

#[test]
fn optional_fields_are_left_out_at_their_default() {
    assert_eq!(tex_coord_field(0), None);
    assert_eq!(tex_coord_field(2), Some(2));
    assert_eq!(uv_channel_of(None), 0);
    assert_eq!(uv_channel_of(tex_coord_field(3)), 3);
    assert_eq!(texture_source_of(None), 0);
    assert_eq!(texture_source_of(Some(4)), 4);
    assert_eq!(double_sided_field(false), None);
    assert_eq!(double_sided_of(double_sided_field(true)), true);
    assert_eq!(name_field(&String::new()), None);
    assert_eq!(name_of(name_field(&"Cube".to_string()).as_ref()), "Cube");
    assert_eq!(name_of(None), "");
}

#[test]
fn unnamed_nodes_are_named_by_index() {
    assert_eq!(decimal_bytes(0), b"0".to_vec());
    assert_eq!(decimal_bytes(1204), b"1204".to_vec());
    assert_eq!(node_name(None, 7), b"Node_7".to_vec());
    assert_eq!(node_name(Some(b"Arm"), 7), b"Arm".to_vec());
}

#[test]
fn primitive_indices_are_moved_past_earlier_vertices() {
    assert_eq!(offset_indices(&[0, 1, 2], 10), vec![10, 11, 12]);
    assert_eq!(sequential_indices(4), vec![0, 1, 2, 3]);
    assert_eq!(sequential_indices(0), Vec::<u32>::new());
}

fn root_with_view() -> GltfRoot {
    GltfRoot {
        buffer_views: vec![GltfBufferView { buffer: 0, byte_offset: 2, byte_length: 3, byte_stride: None, target: None }],
        accessors: vec![],
        extensions_required: vec![],
    }
}

#[test]
fn images_are_found_by_uri_or_buffer_view() {
    let root = root_with_view();
    let bufs = vec![vec![9u8, 9, 1, 2, 3, 9]];
    match image_origin(&root, &bufs, None, Some(0), None).unwrap() {
        ImageOrigin::Embedded { mime, data } => {
            assert_eq!(mime, b"image/png".to_vec());
            assert_eq!(data, vec![1, 2, 3]);
        }
        other => panic!("{:?}", other),
    }
    match image_origin(&root, &bufs, Some(b"tex/wood.png"), Some(0), None).unwrap() {
        ImageOrigin::Uri(u) => assert_eq!(u, b"tex/wood.png".to_vec()),
        other => panic!("{:?}", other),
    }
    match image_origin(&root, &bufs, Some(b"data:image/jpeg;base64,AQID"), None, None).unwrap() {
        ImageOrigin::Embedded { mime, data } => {
            assert_eq!(mime, b"image/jpeg".to_vec());
            assert_eq!(data, vec![1, 2, 3]);
        }
        other => panic!("{:?}", other),
    }
    assert!(matches!(
        image_origin(&root, &bufs, Some(b"data:image/png;base64"), None, None),
        Err(ImageError::Uri(DataUriError::MissingComma))
    ));
    assert!(matches!(
        image_origin(&root, &bufs, Some(b"data:image/png;base64,@@"), None, None),
        Err(ImageError::Uri(DataUriError::Base64))
    ));
    match image_origin(&root, &bufs, None, None, None).unwrap() {
        ImageOrigin::Uri(u) => assert!(u.is_empty()),
        other => panic!("{:?}", other),
    }
}

#[test]
fn written_images_read_back() {
    let root = root_with_view();
    let bufs: Vec<Vec<u8>> = vec![];
    let embedded = ImageOrigin::Embedded { mime: b"image/png".to_vec(), data: vec![0x89, 0x50, 0x4E, 0x47] };
    let (uri, mime) = image_fields(&embedded);
    assert_eq!(uri, b"data:image/png;base64,iVBORw==".to_vec());
    assert_eq!(mime, Some(b"image/png".to_vec()));
    match image_origin(&root, &bufs, Some(&uri), None, mime.as_deref()).unwrap() {
        ImageOrigin::Embedded { mime, data } => {
            assert_eq!(mime, b"image/png".to_vec());
            assert_eq!(data, vec![0x89, 0x50, 0x4E, 0x47]);
        }
        other => panic!("{:?}", other),
    }
    let file = ImageOrigin::Uri(b"a.png".to_vec());
    let (uri, mime) = image_fields(&file);
    assert_eq!(mime, None);
    match image_origin(&root, &bufs, Some(&uri), None, None).unwrap() {
        ImageOrigin::Uri(u) => assert_eq!(u, b"a.png".to_vec()),
        other => panic!("{:?}", other),
    }
}

#[test]
fn image_buffer_view_beyond_buffer_errors() {
    // The view ends at byte 52 of a 48-byte buffer.
    let root = GltfRoot {
        buffer_views: vec![
            GltfBufferView { buffer: 0, byte_offset: 0, byte_length: 36, byte_stride: None, target: None },
            GltfBufferView { buffer: 0, byte_offset: 40, byte_length: 12, byte_stride: None, target: None },
        ],
        accessors: vec![],
        extensions_required: vec![],
    };
    let bufs = vec![vec![0u8; 48]];
    let err = image_origin(&root, &bufs, None, Some(1), Some(b"image/png")).unwrap_err();
    assert_eq!(err, ImageError::View { view: 1 });
    assert_eq!(image_origin(&root, &bufs, None, Some(7), None).unwrap_err(), ImageError::View { view: 7 });
    let no_buffer: Vec<Vec<u8>> = vec![];
    assert_eq!(image_origin(&root, &no_buffer, None, Some(0), None).unwrap_err(), ImageError::View { view: 0 });
}
