use std::io::Write;
use solid_formats::fbx::{
    detect_binary, escape, parse_binary, polygon_plan, polygon_vertex_index, read_property, FbxCorner,
    FbxError, FbxNode, FbxProperty, MappingMode,
};
use solid_formats::fbx_ascii::{parse_ascii, sniff_version, tokenize, utf8_encode, detect_ascii, Token};
use solid_formats::fbx_anim::{animations, AnimProp};
use solid_formats::fbx_write::{i32_array_text, connections_text, definitions_text, header_text, object_id, write_links, MaterialOut, NodeOut, SceneCounts};
use solid_formats::fbx_scene::{ObjectKind, Channel, Link, 
    find_setting, layer_indices, layer_mapping, layer_reference, layer_values, link_scene, resolve_slot,
    LayerReference, object_label_of, texture_file, FbxDetect, FbxLoader,
    FbxVariant, NodeLink,
};

fn chars(s: &str) -> Vec<char> {
    s.chars().collect()
}

fn word(t: &Token) -> Option<String> {
    match t {
        Token::Word(w) => Some(w.iter().collect()),
        _ => None,
    }
}

fn prop_str(p: &FbxProperty) -> Option<&[u8]> {
    match p {
        FbxProperty::String(s) => Some(s.as_slice()),
        _ => None,
    }
}

fn find_child<'a>(n: &'a FbxNode, name: &str) -> Option<&'a FbxNode> {
    n.children.iter().find(|c| c.name == name.as_bytes())
}

#[test]
fn dashed_bare_identifiers_stay_single_token() {
    let tokens = tokenize(&chars("Pre-Extrapolation: 0")).unwrap();
    assert!(
        word(&tokens[0]).as_deref() == Some("Pre-Extrapolation"),
        "expected single dashed token, got {tokens:?}"
    );
}

#[test]
fn dashed_identifiers_and_bare_word_values_parse() {
    let src = r#"; FBX 7.4.0 project file
Model: 1, "M", "Mesh"  {
    Version: 232
    Properties70:  {
        Pre-Extrapolation: 0
        Post-Extrapolation: 0
        Shading: Flat
    }
}
"#;
    let doc = parse_ascii(&chars(src)).unwrap();
    let model = doc.roots.iter().find(|n| n.name == b"Model").expect("Model node");
    let props = model.child(b"Properties70").expect("Properties70 node");

    assert!(
        props.children.iter().any(|n| n.name == b"Pre-Extrapolation"),
        "dashed property was not parsed as a node"
    );
    assert!(
        !props.children.iter().any(|n| n.name == b"Extrapolation"),
        "dashed identifier was split into a bogus 'Extrapolation' node"
    );
    let shading = props.children.iter().find(|n| n.name == b"Shading").expect("Shading node");
    assert!(
        shading.properties.iter().any(|p| prop_str(p) == Some(b"Flat".as_slice())),
        "bare-word value 'Flat' was dropped"
    );
}

#[test]
fn negative_numbers_still_parse_as_integers() {
    let tokens = tokenize(&chars("-1,2,-3.5")).unwrap();
    assert!(matches!(tokens[0], Token::Integer { value: -1, .. }), "{tokens:?}");
    assert!(matches!(tokens[2], Token::Integer { value: 2, .. }), "{tokens:?}");
    assert!(
        matches!(&tokens[4], Token::Float(t) if (t.iter().collect::<String>().parse::<f64>().unwrap() - -3.5).abs() < 1e-9),
        "{tokens:?}"
    );
}

#[test]
fn tokenizer_reads_strings_comments_and_punctuation() {
    let tokens = tokenize(&chars("; comment\nA: \"x\\ty\\\"\", *2 {}")).unwrap();
    assert_eq!(word(&tokens[0]).as_deref(), Some("A"));
    assert!(matches!(tokens[1], Token::Colon));
    match &tokens[2] {
        Token::Str(s) => assert_eq!(s.iter().collect::<String>(), "x\ty\""),
        other => panic!("expected a string, got {other:?}"),
    }
    assert!(matches!(tokens[3], Token::Comma));
    assert!(matches!(tokens[4], Token::Star));
    assert!(matches!(tokens[5], Token::Integer { value: 2, .. }));
    assert!(matches!(tokens[6], Token::LBrace));
    assert!(matches!(tokens[7], Token::RBrace));
    assert!(matches!(tokens[8], Token::Eof));
    assert_eq!(tokens.len(), 9);
}

#[test]
fn tokenizer_rejects_bad_numbers() {
    match tokenize(&chars("1e")) {
        Err(FbxError::BadFloat { text }) => assert_eq!(text, vec!['1', 'e']),
        other => panic!("expected BadFloat, got {other:?}"),
    }
    match tokenize(&chars("99999999999999999999")) {
        Err(FbxError::BadInteger { text }) => assert_eq!(text.len(), 20),
        other => panic!("expected BadInteger, got {other:?}"),
    }
}

#[test]
fn tokenizer_takes_unicode_letters_into_words() {
    let tokens = tokenize(&chars("\u{00fc}ber\u{3000}x")).unwrap();
    assert_eq!(word(&tokens[0]).as_deref(), Some("\u{00fc}ber"));
    assert_eq!(word(&tokens[1]).as_deref(), Some("x"));
}

#[test]
fn utf8_encoding_matches_std() {
    for s in ["abc", "\u{e9}", "\u{20ac}", "\u{1f600}", "mixed \u{e9}\u{20ac}\u{1f600}"] {
        assert_eq!(utf8_encode(&chars(s)), s.as_bytes().to_vec());
    }
}

#[test]
fn version_is_sniffed_or_defaults() {
    let ts = tokenize(&chars("FBXHeaderExtension: { FBXVersion: 7300 }")).unwrap();
    assert_eq!(sniff_version(&ts), 7300);
    let ts = tokenize(&chars("Objects: { }")).unwrap();
    assert_eq!(sniff_version(&ts), 7400);
    let doc = parse_ascii(&chars("\u{feff}; FBX 7.5\nFBXVersion: 7500\n")).unwrap();
    assert_eq!(doc.version, 7500);
    assert_eq!(doc.roots.len(), 1);
    assert_eq!(doc.roots[0].name, b"FBXVersion".to_vec());
}

#[test]
fn array_properties_pick_their_kind() {
    let src = "A: *3 { a: 1,2,3 }\nB: *2 { a: 1,5000000000 }\nC: *2 { a: 1,2.5 }\nD: *1 x";
    let doc = parse_ascii(&chars(src)).unwrap();
    assert_eq!(doc.roots.len(), 4);
    match &doc.roots[0].properties[0] {
        FbxProperty::ArrInt32(v) => assert_eq!(v, &vec![1, 2, 3]),
        other => panic!("{other:?}"),
    }
    match &doc.roots[1].properties[0] {
        FbxProperty::ArrInt64(v) => assert_eq!(v, &vec![1, 5000000000]),
        other => panic!("{other:?}"),
    }
    match &doc.roots[2].properties[0] {
        FbxProperty::ArrFloat64Text(v) => {
            assert_eq!(v.len(), 2);
            assert_eq!(v[0].iter().collect::<String>(), "1");
            assert_eq!(v[1].iter().collect::<String>(), "2.5");
        },
        other => panic!("{other:?}"),
    }
    // No brace after the count: no array; the word that follows is a value.
    assert_eq!(doc.roots[3].properties.len(), 1);
    assert_eq!(prop_str(&doc.roots[3].properties[0]), Some(b"x".as_slice()));
}

#[test]
fn ascii_detection() {
    assert!(detect_ascii(b"; FBX 7.4.0 project"));
    assert!(detect_ascii(b";FBX"));
    assert!(detect_ascii(b"\xEF\xBB\xBF; FBX"));
    assert!(!detect_ascii(b"FBX"));
    assert!(!detect_ascii(b"; FBX\xff"));
}

fn binary_fbx_with_node() -> Vec<u8> {
    let mut d = b"Kaydara FBX Binary  \x00\x1a\x00".to_vec();
    d.extend_from_slice(&7400u32.to_le_bytes());
    // Node "A" with one Int32 property: 13 + 1 + 5 = 19 bytes from offset 27.
    d.extend_from_slice(&46u32.to_le_bytes());
    d.extend_from_slice(&1u32.to_le_bytes());
    d.extend_from_slice(&5u32.to_le_bytes());
    d.push(1);
    d.push(b'A');
    d.push(b'I');
    d.extend_from_slice(&5i32.to_le_bytes());
    d.extend_from_slice(&[0u8; 13]);
    d
}

#[test]
fn binary_document_parses() {
    let d = binary_fbx_with_node();
    assert!(detect_binary(&d));
    let doc = parse_binary(&d).unwrap();
    assert_eq!(doc.version, 7400);
    assert_eq!(doc.roots.len(), 1);
    assert_eq!(doc.roots[0].name, b"A".to_vec());
    assert!(matches!(doc.roots[0].properties[0], FbxProperty::Int32(5)));
    assert!(doc.roots[0].children.is_empty());
}

#[test]
fn binary_errors() {
    assert_eq!(parse_binary(b"short").unwrap_err(), FbxError::UnexpectedEof);
    let mut bad = binary_fbx_with_node();
    bad[0] = b'X';
    assert_eq!(parse_binary(&bad).unwrap_err(), FbxError::BadMagic);
    let d = binary_fbx_with_node();
    assert_eq!(parse_binary(&d[..40]).unwrap_err(), FbxError::UnexpectedEof);
    // An unknown property type code.
    let mut odd = binary_fbx_with_node();
    odd[27 + 14] = b'Q';
    assert_eq!(parse_binary(&odd).unwrap_err(), FbxError::UnknownPropertyType { code: b'Q' });
}

#[test]
fn compressed_array_property_is_inflated() {
    let mut raw = Vec::new();
    for v in [7i32, -8, 9] {
        raw.extend_from_slice(&v.to_le_bytes());
    }
    let mut enc = flate2::write::ZlibEncoder::new(Vec::new(), flate2::Compression::default());
    enc.write_all(&raw).unwrap();
    let packed = enc.finish().unwrap();
    let mut d = vec![b'i'];
    d.extend_from_slice(&3u32.to_le_bytes());
    d.extend_from_slice(&1u32.to_le_bytes());
    d.extend_from_slice(&(packed.len() as u32).to_le_bytes());
    d.extend_from_slice(&packed);
    let (p, end) = read_property(&d, 0).unwrap();
    assert_eq!(end as usize, d.len());
    match p {
        FbxProperty::ArrInt32(v) => assert_eq!(v, vec![7, -8, 9]),
        other => panic!("{other:?}"),
    }
    // Bytes that do not inflate.
    let mut bad = vec![b'i'];
    bad.extend_from_slice(&3u32.to_le_bytes());
    bad.extend_from_slice(&1u32.to_le_bytes());
    bad.extend_from_slice(&4u32.to_le_bytes());
    bad.extend_from_slice(&[1, 2, 3, 4]);
    assert_eq!(read_property(&bad, 0).unwrap_err(), FbxError::Decompress);
}

#[test]
fn polygons_fan_into_triangles() {
    let (corners, tris) = polygon_plan(&[0, 1, -3, 2, 3, 4, -6], MappingMode::ByPolygonVertex, MappingMode::ByVertex);
    assert_eq!(corners.len(), 7);
    assert_eq!(corners[2], FbxCorner { vertex: 2, normal_slot: 2, uv_slot: 2 });
    assert_eq!(corners[6], FbxCorner { vertex: 5, normal_slot: 6, uv_slot: 5 });
    assert_eq!(tris, vec![0, 1, 2, 3, 4, 5, 3, 5, 6]);
    // A polygon without its closing entry gives no triangles.
    let (_, open) = polygon_plan(&[0, 1, 2], MappingMode::ByVertex, MappingMode::ByVertex);
    assert!(open.is_empty());
}

#[test]
fn written_polygon_indices_close_each_polygon() {
    assert_eq!(polygon_vertex_index(&[0, 1, 2]), vec![0, 1, -3]);
    let pvi = polygon_vertex_index(&[0, 1, 2, 2, 1, 3]);
    assert_eq!(pvi, vec![0, 1, -3, 2, 1, -4]);
    let (corners, tris) = polygon_plan(&pvi, MappingMode::ByVertex, MappingMode::ByVertex);
    assert_eq!(tris, vec![0, 1, 2, 3, 4, 5]);
    let verts: Vec<usize> = corners.iter().map(|c| c.vertex).collect();
    assert_eq!(verts, vec![0, 1, 2, 2, 1, 3]);
}

#[test]
fn mapping_modes_and_escaping() {
    assert_eq!(MappingMode::from_str("ByVertice"), MappingMode::ByVertex);
    assert_eq!(MappingMode::from_str("ByVertex"), MappingMode::ByVertex);
    assert_eq!(MappingMode::from_str("ByPolygonVertex"), MappingMode::ByPolygonVertex);
    assert_eq!(escape(b"a\"b"), b"a\\\"b".to_vec());
}

#[test]
fn loader_detects_and_picks_a_variant() {
    let bin = binary_fbx_with_node();
    assert_eq!(FbxLoader.detect(&bin), FbxDetect::Binary);
    assert_eq!(FbxLoader.detect(b"; FBX 7.4"), FbxDetect::Ascii);
    assert_eq!(FbxLoader.detect(b"\xEF\xBB\xBF; FBX"), FbxDetect::Unknown);
    assert_eq!(FbxLoader.detect(b""), FbxDetect::Unknown);
    assert_eq!(FbxLoader.variant(&bin), Some(FbxVariant::Binary));
    assert_eq!(FbxLoader.variant(b"\xEF\xBB\xBF; FBX 7.4.0 project file"), Some(FbxVariant::Ascii));
    assert_eq!(FbxLoader.variant(b"This is definitely not an FBX file at all!"), None);
    assert_eq!(FbxLoader.variant(b""), None);
}

const SCENE: &str = r#"; FBX 7.4.0 project file
Objects:  {
    Geometry: 10, "Geometry::Tri", "Mesh" {
        Vertices: *9 { a: 0.0,0,0,1,0,0,0,1,0 }
        PolygonVertexIndex: *3 { a: 0,1,-3 }
    }
    Geometry: 11, "Geometry::Empty", "Mesh" {
        Vertices: *0 { a: }
        PolygonVertexIndex: *0 { a: }
    }
    Material: 20, "Material::Red", "" {
    }
    Texture: 30, "Texture::Diffuse", "" {
        FileName: "diffuse.png"
    }
    Model: 41, "Model::Child", "Mesh" {
    }
    Model: 40, "Model::Root", "Null" {
    }
}
Connections:  {
    C: "OO",41,40
    C: "OO",40,0
    C: "OO",10,41
    C: "OO",20,41
    C: "OP",30,20,"DiffuseColor"
}
"#;

#[test]
fn object_graph_resolves() {
    let doc = parse_ascii(&chars(SCENE)).unwrap();
    let links = link_scene(&doc);
    assert_eq!(links.geometries.len(), 1, "a geometry without data is left out");
    assert_eq!(links.geometries[0].entry.id, 10);
    assert_eq!(links.geometries[0].material, Some(0));
    assert_eq!(links.materials.len(), 1);
    assert_eq!(links.materials[0].diffuse, Some(0));
    assert_eq!(links.materials[0].normal, None);
    assert_eq!(links.textures.len(), 1);
    assert_eq!(links.models.len(), 2);
    // The root model is made first, then its child under it.
    assert_eq!(
        links.nodes,
        vec![
            NodeLink { id: 40, model: 1, parent: None, mesh: None },
            NodeLink { id: 41, model: 0, parent: Some(0), mesh: Some(0) },
        ]
    );
    let objects = doc.roots.iter().find(|n| n.name == b"Objects").unwrap();
    let tex = &objects.children[links.textures[0].object];
    assert_eq!(prop_str(&find_child(tex, "FileName").unwrap().properties[0]), Some(b"diffuse.png".as_slice()));
}

#[test]
fn parent_cycles_become_roots() {
    let src = r#"Objects: {
    Model: 1, "A", "Null" { }
    Model: 2, "B", "Null" { }
}
Connections: {
    C: "OO",1,2
    C: "OO",2,1
}
"#;
    let doc = parse_ascii(&chars(src)).unwrap();
    let links = link_scene(&doc);
    assert_eq!(
        links.nodes,
        vec![
            NodeLink { id: 1, model: 0, parent: None, mesh: None },
            NodeLink { id: 2, model: 1, parent: None, mesh: None },
        ]
    );
}

#[test]
fn nodes_come_after_their_parents() {
    let src = r#"Objects: {
    Model: 3, "C", "Null" { }
    Model: 2, "B", "Null" { }
    Model: 1, "A", "Null" { }
}
Connections: {
    C: "OO",3,2
    C: "OO",2,1
}
"#;
    let doc = parse_ascii(&chars(src)).unwrap();
    let links = link_scene(&doc);
    let ids: Vec<i64> = links.nodes.iter().map(|n| n.id).collect();
    assert_eq!(ids, vec![1, 2, 3]);
    for (i, n) in links.nodes.iter().enumerate() {
        if let Some(p) = n.parent {
            assert!(p < i);
        }
    }
    assert_eq!(links.nodes[2].parent, Some(1));
}

const OBJECTS: &str = "Objects: {\n\
    Model: 1, \"Box\0\u{1}Model\", \"Mesh\" {\n\
        Properties70: {\n\
            P: \"Lcl Translation\", \"Lcl Translation\", \"\", \"A\", 1, 2, 3\n\
            P: \"LclTranslation\", \"\", \"\", \"A\", 4, 5, 6\n\
            P: \"Lcl Scaling\", \"\", \"\", \"A\", 2, 2, 2\n\
        }\n\
    }\n\
    Texture: 2, \"Tex\", \"\" {\n\
        RelativeFilename: \"rel.png\"\n\
    }\n\
    Geometry: 3, \"Geo\", \"Mesh\" {\n\
        LayerElementNormal: 0 {\n\
            MappingInformationType: \"ByVertice\"\n\
            Normals: *3 { a: 0,0,1.0 }\n\
        }\n\
        LayerElementUV: 0 {\n\
            UV: *2 { a: 0,1 }\n\
        }\n\
    }\n\
}\n";

#[test]
fn single_objects_are_read() {
    let doc = parse_ascii(&chars(OBJECTS)).unwrap();
    let objects = &doc.roots[0];
    let model = &objects.children[0];
    assert_eq!(object_label_of(model), b"Box".to_vec());
    // The later translation setting overrides the earlier one.
    assert_eq!(find_setting(model, b"LclTranslation", b"Lcl Translation"), Some(1));
    assert_eq!(find_setting(model, b"LclScaling", b"Lcl Scaling"), Some(2));
    assert_eq!(find_setting(model, b"LclRotation", b"Lcl Rotation"), None);
    let tex = &objects.children[1];
    assert_eq!(texture_file(tex), b"rel.png".to_vec());
    let geo = &objects.children[2];
    assert_eq!(layer_mapping(geo, b"LayerElementNormal"), MappingMode::ByVertex);
    assert_eq!(layer_mapping(geo, b"LayerElementUV"), MappingMode::ByPolygonVertex);
    assert!(matches!(layer_values(geo, b"LayerElementNormal", b"Normals"), Some(FbxProperty::ArrFloat64Text(v)) if v.len() == 3));
    // All-integer arrays are read as integers, and still serve as values.
    assert!(matches!(layer_values(geo, b"LayerElementUV", b"UV"), Some(FbxProperty::ArrInt32(v)) if v == &vec![0, 1]));
    assert!(layer_values(geo, b"LayerElementTangent", b"Tangents").is_none());
}

#[test]
fn written_links_read_back() {
    // Two meshes, one material with a diffuse texture, two nodes: a root
    // showing mesh 1 and a child showing mesh 0 with the material.
    let c = SceneCounts { meshes: 2, materials: 1, textures: 1, nodes: 2 };
    let nodes = vec![
        NodeOut { mesh: Some(1), material: None, parent: None },
        NodeOut { mesh: Some(0), material: Some(0), parent: Some(0) },
    ];
    let mats = vec![MaterialOut { diffuse: Some(0), normal: None }];
    let links = write_links(c, &nodes, &mats);
    let oo = |src, dst| Link { to_object: true, src, dst, channel: Channel::Other };
    assert_eq!(
        links,
        vec![
            oo(2, 5),
            oo(5, 0),
            oo(1, 6),
            oo(3, 6),
            oo(6, 5),
            Link { to_object: false, src: 4, dst: 3, channel: Channel::Diffuse },
        ]
    );
    assert_eq!(object_id(c, ObjectKind::Geometry, 1), 2);
    assert_eq!(object_id(c, ObjectKind::Material, 0), 3);
    assert_eq!(object_id(c, ObjectKind::Texture, 0), 4);
    assert_eq!(object_id(c, ObjectKind::Model, 1), 6);

    // Render the objects and connections as ASCII FBX and read them back.
    let mut text = String::from("; FBX 7.4.0 project file\nObjects: {\n");
    for i in 0..2 {
        text += &format!(
            "Geometry: {}, \"G{i}\", \"Mesh\" {{\nVertices: *3 {{ a: 0.5,0,0 }}\nPolygonVertexIndex: *3 {{ a: 0,1,-3 }}\n}}\n",
            object_id(c, ObjectKind::Geometry, i)
        );
    }
    for i in 0..2 {
        text += &format!("Model: {}, \"N{i}\", \"Mesh\" {{ }}\n", object_id(c, ObjectKind::Model, i));
    }
    text += &format!("Material: {}, \"M\", \"\" {{ }}\n", object_id(c, ObjectKind::Material, 0));
    text += &format!("Texture: {}, \"T\", \"\" {{ }}\n", object_id(c, ObjectKind::Texture, 0));
    text += "}\nConnections: {\n";
    for l in &links {
        if l.to_object {
            text += &format!("C: \"OO\",{},{}\n", l.src, l.dst);
        } else {
            text += &format!("C: \"OP\",{},{},\"DiffuseColor\"\n", l.src, l.dst);
        }
    }
    text += "}\n";
    let doc = parse_ascii(&chars(&text)).unwrap();
    let read = link_scene(&doc);
    assert_eq!(read.geometries.len(), 2);
    assert_eq!(read.geometries[0].material, Some(0), "mesh 0 takes the child's material");
    assert_eq!(read.geometries[1].material, None);
    assert_eq!(read.materials[0].diffuse, Some(0));
    assert_eq!(
        read.nodes,
        vec![
            NodeLink { id: 5, model: 0, parent: None, mesh: Some(1) },
            NodeLink { id: 6, model: 1, parent: Some(0), mesh: Some(0) },
        ]
    );
}

fn scratch_header() -> String {
    "; FBX 7.4.0 project file\nFBXHeaderExtension:  {\n    FBXHeaderVersion: 1003\n    FBXVersion: 7400\n}\nDefinitions:  {\n    Version: 100\n    Count: 3\n}\n".to_string()
}

fn scratch_close() -> String {
    "\nConnections:  {\n    C: \"OO\",100,200\n}\n".to_string()
}

fn geometry_of(doc: &solid_formats::fbx::FbxDocument) -> &FbxNode {
    let objects = doc.roots.iter().find(|n| n.name == b"Objects").unwrap();
    objects.children.iter().find(|n| n.name == b"Geometry").unwrap()
}

fn pvi_of(geo: &FbxNode) -> Vec<i32> {
    match &geo.child(b"PolygonVertexIndex").unwrap().properties[0] {
        FbxProperty::ArrInt32(v) => v.clone(),
        other => panic!("{other:?}"),
    }
}

#[test]
fn control_point_normal_mapping() {
    let src = format!(
        r#"{header}
Objects:  {{
    Geometry: 100, "Geom", "Mesh"  {{
        Vertices: *12 {{
            a: 0,0,0,1,0,0,0,1,0,1,1,0
        }}
        PolygonVertexIndex: *8 {{
            a: 0,1,2,-4,2,3,0,-1
        }}
        LayerElementNormal: 0 {{
            Version: 101
            MappingInformationType: "ByControlPoint"
            ReferenceInformationType: "Direct"
            Normals: *12 {{
                a: 0,0,1,0,0,1,0,0,1,0,0,1
            }}
        }}
    }}
    Model: 200, "Model::Geom", "Mesh"  {{
        Version: 232
    }}
}}
{close}"#,
        header = scratch_header(),
        close = scratch_close()
    );
    let doc = parse_ascii(&chars(&src)).unwrap();
    let links = link_scene(&doc);
    assert_eq!(links.geometries.len(), 1, "mesh should be created");
    assert_eq!(links.nodes[0].mesh, Some(0));
    let geo = geometry_of(&doc);
    let mode = layer_mapping(geo, b"LayerElementNormal");
    assert_eq!(mode, MappingMode::ByVertex);
    let (corners, tris) = polygon_plan(&pvi_of(geo), mode, MappingMode::ByPolygonVertex);
    assert_eq!(corners.len(), 8);
    assert_eq!(tris.len(), 12);
    let normals = match layer_values(geo, b"LayerElementNormal", b"Normals") {
        Some(FbxProperty::ArrInt32(v)) => v.clone(),
        other => panic!("{other:?}"),
    };
    for (i, c) in corners.iter().enumerate() {
        let n = &normals[c.normal_slot * 3..c.normal_slot * 3 + 3];
        assert_eq!(n, &[0, 0, 1], "vertex {i}: normal {n:?} is wrong for ByControlPoint layer");
    }
}

#[test]
fn uv_index_to_direct_mapping() {
    let src = format!(
        r#"{header}
Objects:  {{
    Geometry: 100, "Geom", "Mesh"  {{
        Vertices: *12 {{
            a: 0,0,0,1,0,0,0,1,0,1,1,0
        }}
        PolygonVertexIndex: *8 {{
            a: 0,1,2,-4,2,3,0,-1
        }}
        LayerElementUV: 0 {{
            Version: 101
            Name: "UVMap"
            MappingInformationType: "ByPolygonVertex"
            ReferenceInformationType: "IndexToDirect"
            UV: *6 {{
                a: 0,0,1,0,0,1,1,1,0.5,0.5,0.25,0.25
            }}
            UVIndex: *8 {{
                a: 0,1,2,0,2,3,0,4
            }}
        }}
    }}
    Model: 200, "Model::Geom", "Mesh"  {{
        Version: 232
    }}
}}
{close}"#,
        header = scratch_header(),
        close = scratch_close()
    );
    let doc = parse_ascii(&chars(&src)).unwrap();
    let geo = geometry_of(&doc);
    let mode = layer_mapping(geo, b"LayerElementUV");
    let (corners, _) = polygon_plan(&pvi_of(geo), MappingMode::ByPolygonVertex, mode);
    assert_eq!(corners.len(), 8);
    let reference = layer_reference(geo, b"LayerElementUV");
    assert_eq!(reference, LayerReference::IndexToDirect);
    let index = layer_indices(geo, b"LayerElementUV", b"UVIndex");
    let uvs = match layer_values(geo, b"LayerElementUV", b"UV") {
        Some(FbxProperty::ArrFloat64Text(v)) => v.clone(),
        other => panic!("{other:?}"),
    };
    let uv = |corner: usize| {
        let slot = resolve_slot(corners[corner].uv_slot, reference, index).expect("UV should be set");
        let u: f64 = uvs[slot * 2].iter().collect::<String>().parse().unwrap();
        let v: f64 = uvs[slot * 2 + 1].iter().collect::<String>().parse().unwrap();
        (u, v)
    };
    // Corner 7 -> UVIndex 4 -> UV (0.5, 0.5).
    assert_eq!(uv(7), (0.5, 0.5), "corner 7 uv");
    // Corner 0 -> UVIndex 0 -> UV (0, 0).
    assert_eq!(uv(0), (0.0, 0.0), "corner 0 uv");
    assert_eq!(resolve_slot(9, reference, index), None);
    assert_eq!(resolve_slot(9, LayerReference::Direct, None), Some(9));
}

#[test]
fn scratch_issues_secondary_uv_layer_is_imported() {
    let src = format!(
        r#"{header}
Objects:  {{
    Geometry: 100, "Geom", "Mesh"  {{
        Vertices: *12 {{
            a: 0,0,0,1,0,0,0,1,0,1,1,0
        }}
        PolygonVertexIndex: *8 {{
            a: 0,1,2,-4,2,3,0,-1
        }}
        LayerElementUV: 0 {{
            Version: 101
            Name: "UVMap"
            MappingInformationType: "ByPolygonVertex"
            ReferenceInformationType: "Direct"
            UV: *16 {{
                a: 0,0,1,0,0,1,1,1,0,0,1,0,0,1,1,1
            }}
        }}
        LayerElementUV: 1 {{
            Version: 101
            Name: "LightmapUV"
            MappingInformationType: "ByPolygonVertex"
            ReferenceInformationType: "Direct"
            UV: *16 {{
                a: 0.25,0.25,0.75,0.25,0.25,0.75,0.75,0.75,0.25,0.25,0.75,0.25,0.25,0.75,0.75,0.75
            }}
        }}
    }}
    Model: 200, "Model::Geom", "Mesh"  {{
        Version: 232
    }}
}}
{close}"#,
        header = scratch_header(),
        close = scratch_close()
    );
    let doc = parse_ascii(&chars(&src)).unwrap();
    let geo = geometry_of(&doc);
    let layers = geo.children_named(b"LayerElementUV");
    assert_eq!(layers.len(), 2, "secondary UV layer should be imported into channel 1");
    let second = &geo.children[layers[1]];
    match &second.child(b"UV").unwrap().properties[0] {
        FbxProperty::ArrFloat64Text(v) => assert_eq!(v.len(), 16),
        other => panic!("{other:?}"),
    }
}

#[test]
fn hostile_array_count_rejected_by_property_reader() {
    let mut d = vec![b'd'];
    d.extend_from_slice(&u32::MAX.to_le_bytes());
    d.extend_from_slice(&0u32.to_le_bytes());
    d.extend_from_slice(&4u32.to_le_bytes());
    d.extend_from_slice(&[0, 0, 0, 0]);
    assert_eq!(read_property(&d, 0).unwrap_err(), FbxError::ArrayTooLarge { count: u32::MAX, elem_size: 8 });
    // A count beyond the stored bytes is refused too.
    let mut short = vec![b'i'];
    short.extend_from_slice(&2u32.to_le_bytes());
    short.extend_from_slice(&0u32.to_le_bytes());
    short.extend_from_slice(&4u32.to_le_bytes());
    short.extend_from_slice(&[1, 0, 0, 0]);
    assert_eq!(read_property(&short, 0).unwrap_err(), FbxError::ArrayTooLarge { count: 2, elem_size: 4 });
    match solid_formats::fbx::array_elements(&[1, 0, 0, 0, 2, 0, 0, 0], b'i') {
        FbxProperty::ArrInt32(v) => assert_eq!(v, vec![1, 2]),
        other => panic!("{other:?}"),
    }
}

#[test]
fn leading_comment_line_is_dropped_and_eof_closes_once() {
    let body: Vec<char> = "Model: 1, \"a\" {\n}\n".chars().collect();
    let mut with_comment: Vec<char> = "; FBX 7.4.0 project file\u{3000}".chars().collect();
    with_comment.push('\n');
    with_comment.extend(body.iter().copied());
    let a = solid_formats::fbx_ascii::tokenize(&body).unwrap();
    let b = solid_formats::fbx_ascii::tokenize(&with_comment).unwrap();
    assert_eq!(format!("{a:?}"), format!("{b:?}"));
    let eofs = b.iter().filter(|t| matches!(t, solid_formats::fbx_ascii::Token::Eof)).count();
    assert_eq!(eofs, 1);
    assert!(matches!(b.last(), Some(solid_formats::fbx_ascii::Token::Eof)));
}

#[test]
fn saved_sections_are_written_as_text() {
    let links = vec![
        Link { to_object: true, src: 1, dst: 0, channel: Channel::Other },
        Link { to_object: false, src: 13, dst: 2, channel: Channel::Diffuse },
    ];
    let conn = connections_text(&links);
    assert_eq!(
        String::from_utf8(conn.clone()).unwrap(),
        "Connections:  {\n\tC: \"OO\",1,0\n\tC: \"OP\",13,2,\"DiffuseColor\"\n}\n"
    );
    assert_eq!(
        String::from_utf8(definitions_text(4)).unwrap(),
        "Definitions:  {\n\tVersion: 100\n\tCount: 4\n}\n\n"
    );
    let mut all = header_text();
    all.extend(definitions_text(4));
    all.extend(conn);
    let text: Vec<char> = String::from_utf8(all).unwrap().chars().collect();
    let doc = parse_ascii(&text).unwrap();
    assert_eq!(doc.version, 7400);
    let names: Vec<Vec<u8>> = doc.roots.iter().map(|n| n.name.clone()).collect();
    assert_eq!(names, vec![b"FBXHeaderExtension".to_vec(), b"Definitions".to_vec(), b"Connections".to_vec()]);
    assert_eq!(doc.roots[2].children.len(), 2);
}

fn malicious_node_fbx(prop_bytes: Vec<u8>) -> Vec<u8> {
    let mut buf = b"Kaydara FBX Binary  \x00\x1a\x00".to_vec();
    buf.extend_from_slice(&7400u32.to_le_bytes());
    let end_pos = buf.len();
    buf.extend_from_slice(&0u32.to_le_bytes());
    buf.extend_from_slice(&1u32.to_le_bytes());
    let prop_len_pos = buf.len();
    buf.extend_from_slice(&0u32.to_le_bytes());
    buf.push(4);
    buf.extend_from_slice(b"Test");
    let props_start = buf.len();
    buf.extend_from_slice(&prop_bytes);
    let prop_list_len = (buf.len() - props_start) as u32;
    buf.extend_from_slice(&[0u8; 13]);
    let end_offset = buf.len() as u32;
    buf[end_pos..end_pos + 4].copy_from_slice(&end_offset.to_le_bytes());
    buf[prop_len_pos..prop_len_pos + 4].copy_from_slice(&prop_list_len.to_le_bytes());
    buf
}

#[test]
fn hostile_array_count_is_rejected_not_oomin() {
    let mut p = vec![b'd'];
    p.extend_from_slice(&u32::MAX.to_le_bytes());
    p.extend_from_slice(&0u32.to_le_bytes());
    p.extend_from_slice(&4u32.to_le_bytes());
    p.extend_from_slice(&[0u8; 4]);
    let err = parse_binary(&malicious_node_fbx(p)).unwrap_err();
    assert_eq!(err, FbxError::ArrayTooLarge { count: u32::MAX, elem_size: 8 });
    assert!(format!("{err:?}").contains("ArrayTooLarge"));
}

#[test]
fn hostile_string_length_is_rejected_not_oomin() {
    let mut p = vec![b'S'];
    p.extend_from_slice(&u32::MAX.to_le_bytes());
    p.extend_from_slice(b"tiny");
    let err = parse_binary(&malicious_node_fbx(p)).unwrap_err();
    assert_eq!(err, FbxError::UnexpectedEof);
}

#[test]
fn geometry_polygon_indices_are_written_per_triangle() {
    let pvi = polygon_vertex_index(&[0, 1, 2, 2, 1, 3]);
    let text = i32_array_text(b"PolygonVertexIndex", &pvi, 2);
    assert_eq!(
        String::from_utf8(text).unwrap(),
        "\t\tPolygonVertexIndex: *6 {\n\t\t\ta: 0,1,-3,2,1,-4\n\t\t}\n"
    );
    assert_eq!(String::from_utf8(i32_array_text(b"E", &[], 0)).unwrap(), "E: *0 {\n\ta: \n}\n");
}

const ANIM_HEADER: &str = "; FBX 7.4.0 project file\nFBXHeaderExtension:  {\n    FBXHeaderVersion: 1003\n    FBXVersion: 7400\n}\nDefinitions:  {\n    Version: 100\n    Count: 3\n}\n";

const ANIM_OBJECTS: &str = r#"
Objects:  {
    Model: 200, "Model::Geom", "Mesh"  {
        Version: 232
    }
    AnimationStack: 300, "Take 001", ""  {
    }
    AnimationLayer: 400, "BaseLayer", ""  {
    }
    AnimationCurveNode: 500, "AnimCurveNode::T", ""  {
        Properties70:  {
            P: "d|X", "Number", "", "A",0
            P: "d|Y", "Number", "", "A",0
            P: "d|Z", "Number", "", "A",0
        }
    }
    AnimationCurve: 600, "AnimCurve::", ""  {
        Default: 0
        KeyTime: *2 {
            a: 0.0,46186158000.0
        }
        KeyValueFloat: *2 {
            a: 0,1
        }
    }
    AnimationCurve: 601, "AnimCurve::", ""  {
        Default: 0
        KeyTime: *2 {
            a: 0.0,46186158000.0
        }
        KeyValueFloat: *2 {
            a: 0,2
        }
    }
    AnimationCurve: 602, "AnimCurve::", ""  {
        Default: 0
        KeyTime: *2 {
            a: 0.0,46186158000.0
        }
        KeyValueFloat: *2 {
            a: 0,3
        }
    }
}
"#;

const ANIM_CONNECTIONS: &str = r#"Connections:  {
    C: "OP",600,500,"d|X"
    C: "OP",601,500,"d|Y"
    C: "OP",602,500,"d|Z"
    C: "OP",500,200,"Lcl Translation"
    C: "OO",500,400
    C: "OO",400,300
    C: "OO",300,0
}
"#;

#[test]
fn animation_keytime_as_floats_imports() {
    let src = format!("{}{}{}", ANIM_HEADER, ANIM_OBJECTS, ANIM_CONNECTIONS);
    let doc = parse_ascii(&chars(&src)).unwrap();
    let anims = animations(&doc);
    assert_eq!(anims.len(), 1, "animation with float-typed KeyTimes should still be imported");
    let anim = &anims[0];
    assert_eq!(anim.channels.len(), 1);
    assert_eq!(anim.channels[0].key_count, 2);
}

#[test]
fn animation_channel_names_its_model_and_curves() {
    let src = format!("{}{}{}", ANIM_HEADER, ANIM_OBJECTS, ANIM_CONNECTIONS);
    let doc = parse_ascii(&chars(&src)).unwrap();
    let anims = animations(&doc);
    assert_eq!(anims[0].stack, 1);
    let ch = anims[0].channels[0];
    assert_eq!(ch.model, 0);
    assert_eq!(ch.target, AnimProp::Translation);
    assert_eq!((ch.x, ch.y, ch.z), (Some(0), Some(1), Some(2)));
}

#[test]
fn animation_without_layer_link_has_no_channels() {
    let conns = ANIM_CONNECTIONS.replace("    C: \"OO\",400,300\n", "");
    let src = format!("{}{}{}", ANIM_HEADER, ANIM_OBJECTS, conns);
    let doc = parse_ascii(&chars(&src)).unwrap();
    let anims = animations(&doc);
    assert_eq!(anims.len(), 1);
    assert!(anims[0].channels.is_empty());
}

#[test]
fn document_without_stacks_has_no_animations() {
    let doc = parse_ascii(&chars("; FBX 7.4.0 project file\nObjects:  {\n}\n")).unwrap();
    assert!(animations(&doc).is_empty());
}

#[test]
fn tokenizer_separates_on_unicode_white_space() {
    let tokens = tokenize(&chars("A\u{3000}B\u{00A0}C\u{2009}D\u{85}E")).unwrap();
    let words: Vec<Option<String>> = tokens.iter().map(word).collect();
    assert_eq!(words, vec![Some("A".into()), Some("B".into()), Some("C".into()), Some("D".into()), Some("E".into()), None]);
    assert!(matches!(tokens[5], Token::Eof));
}

use solid_formats::fbx_attr::{node_attributes, AttrKind, AttrPlan};

const ATTR_SCENE: &str = r#"; FBX 7.4.0 project file
Objects:  {
    NodeAttribute: 10, "NodeAttribute::Cam", "Camera"  {
        Properties70:  {
            P: "FieldOfView", "FieldOfView", "", "A",45
            P: "CameraProjectionType", "enum", "", "",1
        }
        TypeFlags: "Camera"
    }
    Model: 20, "Model::CamNode", "Camera"  {
    }
    NodeAttribute: 11, "NodeAttribute::Sun", "Light"  {
        Properties70:  {
            P: "LightType", "enum", "", "",1
            P: "Intensity", "Number", "", "A",100
        }
    }
    NodeAttribute: 12, "NodeAttribute::Bulb", "Light"  {
    }
    Model: 21, "Model::LightNode", "Light"  {
    }
    NodeAttribute: 13, "NodeAttribute::Loose", "Camera"  {
    }
}
Connections:  {
    C: "OO",10,20
    C: "OO",11,21
    C: "OO",12,21
    C: "OO",20,0
}
"#;

#[test]
fn cameras_and_lights_attach_to_their_models() {
    let doc = parse_ascii(&chars(ATTR_SCENE)).unwrap();
    let attrs = node_attributes(&doc);
    assert_eq!(
        attrs,
        vec![
            AttrPlan { object: 0, model: 0, kind: AttrKind::Camera, setting: 1 },
            AttrPlan { object: 2, model: 1, kind: AttrKind::Light, setting: 1 },
            AttrPlan { object: 3, model: 1, kind: AttrKind::Light, setting: 0 },
        ]
    );
}
