use solid_formats::obj::{
    material_textures, TextureSlot, find_material, parse_face, parse_mtl, parse_obj, resolve_idx, strip_options, tex_path, ObjError, ObjRef,
    Opacity,
};
use solid_formats::obj_mesh::{group_mesh_plan, obj_mesh_plans};

#[test]
fn loader_errors_on_out_of_range_face_vertex() {
    let err = parse_obj(b"v 0 0 0\nv 1 0 0\nv 0 1 0\nf 1 2 9\n").unwrap_err();
    assert!(matches!(err, ObjError::VertexIndexOutOfRange { raw: 9 }), "expected out-of-range error, got {err:?}");
}

#[test]
fn loader_errors_on_out_of_range_face_normal() {
    let err = parse_obj(b"v 0 0 0\nv 1 0 0\nv 0 1 0\nvn 0 0 1\nf 1//2 2//2 3//2\n").unwrap_err();
    assert!(matches!(err, ObjError::NormalIndexOutOfRange { raw: 2 }), "expected normal index error, got {err:?}");
}

#[test]
fn loader_errors_on_face_with_less_than_three_corners() {
    let err = parse_obj(b"v 0 0 0\nv 1 0 0\nf 1 2\n").unwrap_err();
    assert!(matches!(err, ObjError::TooFewCorners { count: 2 }), "expected too-few-corners error, got {err:?}");
}

#[test]
fn indices_resolve_from_either_end() {
    assert_eq!(resolve_idx(1, 3), Some(0));
    assert_eq!(resolve_idx(3, 3), Some(2));
    assert_eq!(resolve_idx(4, 3), None);
    assert_eq!(resolve_idx(-1, 3), Some(2));
    assert_eq!(resolve_idx(-3, 3), Some(0));
    assert_eq!(resolve_idx(-4, 3), None);
    assert_eq!(resolve_idx(0, 3), None);
}

#[test]
fn face_tokens_split_into_indices() {
    let f = parse_face(b"1/2/3 2//1 -1", 3, 2, 3, 5).unwrap().unwrap();
    assert_eq!(f.smoothing_group, 5);
    assert_eq!(
        f.refs,
        vec![
            ObjRef { position: 0, uv: Some(1), normal: Some(2) },
            ObjRef { position: 1, uv: None, normal: Some(0) },
            ObjRef { position: 2, uv: None, normal: None },
        ]
    );
    assert!(matches!(parse_face(b"1/9 2 3", 3, 2, 0, 0), Err(ObjError::UvIndexOutOfRange { raw: 9 })));
}

#[test]
fn texture_paths_skip_options() {
    assert_eq!(tex_path(b"-s 1 1 1 wood.png"), b"wood.png".to_vec());
    assert_eq!(tex_path(b"-bm"), b"-bm".to_vec());
    assert_eq!(strip_options(b"-bm 0.5 bump.png"), b"bump.png".to_vec());
    assert_eq!(strip_options(b"-bm 0.5"), b"-bm 0.5".to_vec());
}

#[test]
fn groups_runs_and_smoothing_are_read() {
    let src = b"mtllib a.mtl\nv 0 0 0\nv 1 0 0\nv 1 1 0\nv 0 1 0\ng quad\nusemtl red\ns 1\nf 1 2 3 4\nusemtl blue\ns off\nf 1 2 3\n";
    let obj = parse_obj(src).unwrap();
    assert_eq!(obj.mtllibs, vec![b"a.mtl".to_vec()]);
    assert_eq!(obj.positions.len(), 4);
    assert_eq!(obj.groups.len(), 1);
    let g = &obj.groups[0];
    assert_eq!(g.name, b"quad".to_vec());
    assert_eq!(g.face_runs.len(), 2);
    assert_eq!(g.face_runs[0].material, b"red".to_vec());
    assert_eq!(g.face_runs[0].faces[0].smoothing_group, 1);
    assert_eq!(g.face_runs[1].material, b"blue".to_vec());
    assert_eq!(g.face_runs[1].faces[0].smoothing_group, 0);
}

#[test]
fn quad_becomes_two_triangles_sharing_vertices() {
    let obj = parse_obj(b"v 0 0 0\nv 1 0 0\nv 1 1 0\nv 0 1 0\nvn 0 0 1\nf 1//1 2//1 3//1 4//1\n").unwrap();
    let plans = obj_mesh_plans(&obj);
    assert_eq!(plans.len(), 1);
    let p = &plans[0];
    assert_eq!(p.corners.len(), 4);
    assert_eq!(p.primitives.len(), 1);
    assert_eq!(p.primitives[0].run, 0);
    assert_eq!(p.primitives[0].indices, vec![0, 1, 2, 0, 2, 3]);
    assert!(p.smooth_tris.is_empty(), "authored normals: no smoothing");
}

#[test]
fn repeated_corners_reuse_vertices_and_smoothing_groups_split_them() {
    // Two triangles over the same edge; without normals in the file the
    // smoothing group takes part in the key.
    let src = b"v 0 0 0\nv 1 0 0\nv 0 1 0\nv 1 1 0\ns 1\nf 1 2 3\nf 2 4 3\ns 2\nf 1 2 3\n";
    let obj = parse_obj(src).unwrap();
    let p = group_mesh_plan(&obj.groups[0], true);
    assert_eq!(p.corners.len(), 7);
    assert_eq!(p.primitives[0].indices, vec![0, 1, 2, 1, 3, 2, 4, 5, 6]);
    assert_eq!(p.smooth_tris, vec![(0, 1, 2, 1), (1, 3, 2, 1), (4, 5, 6, 2)]);
    // With smoothing off, all corners of one position share a vertex.
    let q = group_mesh_plan(&obj.groups[0], false);
    assert_eq!(q.corners.len(), 4);
    assert_eq!(q.primitives[0].indices, vec![0, 1, 2, 1, 3, 2, 0, 1, 2]);
    assert!(q.smooth_tris.is_empty());
}

#[test]
fn every_index_names_a_vertex() {
    let src = b"v 0 0 0\nv 1 0 0\nv 0 1 0\nv 1 1 0\nvt 0 0\nvt 1 1\nf 1/1 2/2 3/1 4/2\nusemtl m\nf 4 3 2\n";
    let obj = parse_obj(src).unwrap();
    for p in obj_mesh_plans(&obj) {
        for prim in &p.primitives {
            assert_eq!(prim.indices.len() % 3, 0);
            for &i in &prim.indices {
                assert!((i as usize) < p.corners.len());
            }
        }
    }
}

#[test]
fn mtl_library_reads_and_replaces_by_name() {
    let src = b"newmtl a\nKd 1 0 0\nd 0.5\nmap_Kd -o 1 1 tex.png\nnewmtl b\nTr 0.25\nnewmtl a\nNs 10\n";
    let ms = parse_mtl(src);
    assert_eq!(ms.len(), 2);
    assert_eq!(ms[0].name, b"a".to_vec());
    assert!(ms[0].kd.is_none(), "the later `a` replaced the first");
    assert_eq!(ms[0].ns, Some(b"10".to_vec()));
    assert!(matches!(&ms[1].opacity, Some(Opacity::Transparency(t)) if t == b"0.25"));
    assert_eq!(find_material(&ms, b"b"), Some(1));
    assert_eq!(find_material(&ms, b"zzz"), None);
    let first = parse_mtl(b"newmtl a\nKd 1 0 0\nmap_Kd -o 1 1 tex.png\n");
    assert!(first[0].kd.is_some());
    assert_eq!(first[0].map_kd, Some(b"tex.png".to_vec()));
}

#[test]
fn material_textures_come_in_slot_order() {
    let ms = parse_mtl(b"newmtl m\nmap_Ke glow.png\nmap_Kd base.png\nmap_Pm metal.png\nbump -bm 2 n.png\n");
    let ts = material_textures(&ms[0]);
    assert_eq!(
        ts,
        vec![
            (TextureSlot::Diffuse, b"base.png".to_vec()),
            (TextureSlot::Metallic, b"metal.png".to_vec()),
            (TextureSlot::Normal, b"n.png".to_vec()),
            (TextureSlot::Emissive, b"glow.png".to_vec()),
        ]
    );
    assert_eq!(TextureSlot::Metallic.suffix(), "metallic");
    assert!(TextureSlot::Roughness.is_metallic_roughness());
    assert!(!TextureSlot::Normal.is_metallic_roughness());
}
