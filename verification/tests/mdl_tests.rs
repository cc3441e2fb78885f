use solid_formats::mdl::{
    clamp_skin_coord, encode_mdl, parse_mdl, MdlData, MdlError, MdlSaveError, MdlSaver, MdlFrame, MdlHeader, MdlLoader, MdlSimpleFrame, MdlSkin, MdlTexCoord,
    MdlTriangle, MdlVertex, MDL_IDENT,
};
use solid_formats::mdl_scene::{mesh_plan, seam_shifts_fit, skin_fills, skin_png, skin_rgba, MdlCorner, MdlSceneError};

fn vert(x: u8, y: u8, z: u8) -> MdlVertex {
    MdlVertex { v: [x, y, z], normal_index: 0 }
}

fn one_triangle(facesfront: i32) -> MdlData {
    let header = MdlHeader {
        ident: MDL_IDENT,
        version: 6,
        scale: [1.0f32.to_bits(); 3],
        translate: [0.0f32.to_bits(); 3],
        boundingradius: 1.0f32.to_bits(),
        eyeposition: [0; 3],
        num_skins: 1,
        skinwidth: 4,
        skinheight: 2,
        num_verts: 3,
        num_tris: 1,
        num_frames: 1,
        synctype: 0,
        flags: 0,
        size: 0,
    };
    MdlData {
        header,
        skins: vec![MdlSkin::Single { data: (0u8..8).collect() }],
        texcoords: vec![
            MdlTexCoord { onseam: 0, s: 0, t: 0 },
            MdlTexCoord { onseam: 32, s: 1, t: 0 },
            MdlTexCoord { onseam: 0, s: 0, t: 1 },
        ],
        triangles: vec![MdlTriangle { facesfront, vertex: [0, 1, 2] }],
        frames: vec![MdlFrame::Simple(MdlSimpleFrame {
            bboxmin: vert(0, 0, 0),
            bboxmax: vert(255, 255, 0),
            name: *b"frame0\0\0\0\0\0\0\0\0\0\0",
            verts: vec![vert(0, 0, 0), vert(255, 0, 0), vert(0, 255, 0)],
        })],
    }
}

fn le_i32(b: &[u8], at: usize) -> i32 {
    i32::from_le_bytes([b[at], b[at + 1], b[at + 2], b[at + 3]])
}

#[test]
fn saver_header_fields() {
    let bytes = encode_mdl(&one_triangle(1));
    assert_eq!(&bytes[0..4], b"IDPO", "magic should be 'IDPO'");
    assert_eq!(u32::from_le_bytes([bytes[0], bytes[1], bytes[2], bytes[3]]), 1330660425);
    assert_eq!(le_i32(&bytes, 4), 6, "version should be 6");
    assert_eq!(le_i32(&bytes, 60), 3, "vertex count should be 3");
    assert_eq!(le_i32(&bytes, 64), 1, "triangle count should be 1");
    assert_eq!(le_i32(&bytes, 68), 1, "frame count should be 1");
}

#[test]
fn round_trip_keeps_everything() {
    let m = one_triangle(1);
    let bytes = encode_mdl(&m);
    let back = parse_mdl(&bytes).unwrap();
    assert_eq!(back.header, m.header);
    assert_eq!(back.texcoords, m.texcoords);
    assert_eq!(back.triangles, m.triangles);
    match (&back.skins[0], &m.skins[0]) {
        (MdlSkin::Single { data: a }, MdlSkin::Single { data: b }) => assert_eq!(a, b),
        _ => panic!("skin kind changed"),
    }
    match (&back.frames[0], &m.frames[0]) {
        (MdlFrame::Simple(a), MdlFrame::Simple(b)) => {
            assert_eq!(a.verts, b.verts);
            assert_eq!(a.name, b.name);
            assert_eq!(a.bboxmax, b.bboxmax);
        },
        _ => panic!("frame kind changed"),
    }
}

#[test]
fn loader_rejects_bad_magic() {
    let mut bytes = encode_mdl(&one_triangle(1));
    bytes[0] = b'X';
    assert!(matches!(parse_mdl(&bytes), Err(MdlError::BadIdent { .. })), "bad magic should be rejected");
    assert!(!MdlLoader.detect(&bytes));
    assert!(MdlLoader.detect(b"IDPO"));
    assert!(!MdlLoader.detect(b"IDP"));
}

#[test]
fn loader_rejects_truncated() {
    let bytes = encode_mdl(&one_triangle(1));
    assert_eq!(parse_mdl(&bytes[..10]).unwrap_err(), MdlError::TooSmall, "truncated MDL should be rejected");
    assert_eq!(parse_mdl(&bytes[..bytes.len() - 1]).unwrap_err(), MdlError::UnexpectedEnd);
    let mut v5 = bytes.clone();
    v5[4] = 5;
    assert_eq!(parse_mdl(&v5).unwrap_err(), MdlError::BadVersion { found: 5 });
}

#[test]
fn front_faces_share_seam_vertices() {
    let m = one_triangle(1);
    assert!(seam_shifts_fit(&m));
    let (corners, idx) = mesh_plan(&m).unwrap().unwrap();
    assert_eq!(idx, vec![0, 1, 2]);
    assert_eq!(corners[1], MdlCorner { vertex: 1, s: 1, t: 0 });
}

#[test]
fn back_faces_move_seam_corners_half_a_skin() {
    let m = one_triangle(0);
    let (corners, idx) = mesh_plan(&m).unwrap().unwrap();
    assert_eq!(idx, vec![0, 1, 2]);
    assert_eq!(corners[1], MdlCorner { vertex: 1, s: 3, t: 0 });
}

#[test]
fn mesh_plan_errors() {
    let mut m = one_triangle(1);
    m.triangles[0].vertex[2] = 7;
    assert!(matches!(mesh_plan(&m), Err(MdlSceneError::VertexIndexOutOfRange { index: 7, num_verts: 3 })));
    let mut e = one_triangle(1);
    e.header.num_tris = 0;
    assert!(mesh_plan(&e).unwrap().is_none());
}

#[test]
fn skin_is_paletted_into_rgba_and_png() {
    let m = one_triangle(1);
    let palette: Vec<u8> = (0..768).map(|i| (i % 251) as u8).collect();
    let (px, w, h) = skin_rgba(&m, &palette).unwrap();
    assert_eq!((w, h), (4, 2));
    assert_eq!(px.len(), 32);
    assert_eq!(&px[4..8], &[palette[3], palette[4], palette[5], 255]);
    assert!(skin_fills(&m));
    let png = skin_png(&m, &palette).unwrap();
    assert_eq!(&png[0..8], b"\x89PNG\r\n\x1a\n");
}

#[test]
fn saver_merges_meshes_and_rejects_empty_scenes() {
    let (nv, tris) = MdlSaver.merge_meshes(&[3, 3], &vec![vec![0, 1, 2], vec![2, 1, 0, 1]]).unwrap();
    assert_eq!(nv, 6);
    assert_eq!(
        tris,
        vec![MdlTriangle { facesfront: 1, vertex: [0, 1, 2] }, MdlTriangle { facesfront: 1, vertex: [5, 4, 3] }]
    );
    assert_eq!(MdlSaver.merge_meshes(&[], &vec![]).unwrap_err(), MdlSaveError::NoGeometry, "empty scene should produce an error");
    assert_eq!(MdlSaver.merge_meshes(&[3], &vec![vec![0, 1]]).unwrap_err(), MdlSaveError::NoGeometry);
}

#[test]
fn saver_model_has_one_frame_and_reads_back() {
    assert_eq!(clamp_skin_coord(-3), 0);
    assert_eq!(clamp_skin_coord(70), 63);
    assert_eq!(clamp_skin_coord(12), 12);
    let tris = vec![MdlTriangle { facesfront: 1, vertex: [0, 1, 2] }];
    let verts = vec![
        MdlVertex { v: [0, 0, 0], normal_index: 5 },
        MdlVertex { v: [255, 0, 0], normal_index: 5 },
        MdlVertex { v: [0, 255, 0], normal_index: 5 },
    ];
    let uvs = [Some((10, 80)), None, Some((-1, 5))];
    let one = 1.0f32.to_bits();
    let m = MdlSaver.assemble(tris, &uvs, verts, [one, one, one], [0, 0, 0], one);
    assert_eq!(m.header.num_verts, 3);
    assert_eq!(m.header.num_tris, 1);
    assert_eq!(m.header.num_frames, 1);
    assert_eq!(m.header.skinwidth, 64);
    assert_eq!(m.header.num_skins, 0);
    assert_eq!((m.texcoords[0].s, m.texcoords[0].t), (10, 63));
    assert_eq!((m.texcoords[1].s, m.texcoords[1].t), (0, 0));
    assert_eq!((m.texcoords[2].s, m.texcoords[2].t), (0, 5));
    let bytes = encode_mdl(&m);
    let back = parse_mdl(&bytes).unwrap();
    assert_eq!(back.header, m.header);
    assert_eq!(back.texcoords, m.texcoords);
    assert_eq!(back.triangles, m.triangles);
}
