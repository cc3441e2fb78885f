use solid_formats::gltf_nodes::{cycle_free_from, node_layout, read_plan_checked, read_plan_of, start_nodes, write_order};

#[test]
fn written_nodes_follow_breadth_first_order_once_each() {
    // 0 -> {1, 2}, 1 -> {2}: node 2 is reached twice but written once.
    let children = vec![vec![1, 2], vec![2], vec![]];
    assert_eq!(write_order(&children, &vec![0]), vec![0, 1, 2]);
    let layout = node_layout(&children, &vec![0]);
    assert_eq!(layout.order, vec![0, 1, 2]);
    assert_eq!(layout.children, vec![vec![1, 2], vec![2], vec![]]);
    assert_eq!(layout.roots, vec![0]);
}

#[test]
fn written_child_indices_follow_the_new_order() {
    // Scene node 2 is the root, its child is 1, whose child is 0.
    let children = vec![vec![], vec![0], vec![1]];
    let layout = node_layout(&children, &vec![2]);
    assert_eq!(layout.order, vec![2, 1, 0]);
    assert_eq!(layout.children, vec![vec![1], vec![2], vec![]]);
    assert_eq!(layout.roots, vec![0]);
}

#[test]
fn unreachable_scene_nodes_are_not_written() {
    let children = vec![vec![], vec![], vec![0]];
    let layout = node_layout(&children, &vec![1]);
    assert_eq!(layout.order, vec![1]);
    assert_eq!(layout.roots, vec![0]);
}

#[test]
fn cyclic_scene_graph_is_written_once_per_node() {
    let children = vec![vec![1], vec![0]];
    let layout = node_layout(&children, &vec![0, 1]);
    assert_eq!(layout.order, vec![0, 1]);
    assert_eq!(layout.children, vec![vec![1], vec![0]]);
    assert_eq!(layout.roots, vec![0, 1]);
}

#[test]
fn start_nodes_prefer_the_default_scene() {
    let scenes = vec![vec![3], vec![1, 2]];
    assert_eq!(start_nodes(Some(1), &scenes, 4), vec![1, 2]);
    assert_eq!(start_nodes(Some(5), &scenes, 3), vec![0, 1, 2]);
    assert_eq!(start_nodes(None, &scenes, 4), vec![3]);
    assert_eq!(start_nodes(None, &vec![], 2), vec![0, 1]);
}

#[test]
fn read_plan_creates_nodes_breadth_first_with_parents() {
    // 0 -> {1, 2}, 1 -> {3}; index 9 is out of range and skipped.
    let children = vec![vec![1, 2], vec![3], vec![], vec![]];
    let plan = read_plan_of(&children, &vec![0, 9]);
    assert_eq!(plan, vec![(0, None), (1, Some(0)), (2, Some(0)), (3, Some(1))]);
}

#[test]
fn read_plan_repeats_a_node_with_two_parents() {
    let children = vec![vec![2], vec![2], vec![]];
    let plan = read_plan_of(&children, &vec![0, 1]);
    assert_eq!(plan, vec![(0, None), (1, None), (2, Some(0)), (2, Some(1))]);
}

use solid_formats::gltf::{read_f32_words, read_u32, GltfRoot};
use solid_formats::gltf_write::{write_mesh, write_primitive, PrimitiveSlots, VertexBits};

fn empty_root() -> GltfRoot {
    GltfRoot { buffer_views: vec![], accessors: vec![], extensions_required: vec![] }
}

fn vertex(x: f32, y: f32, z: f32) -> VertexBits {
    VertexBits { position: [x.to_bits(), y.to_bits(), z.to_bits()], normal: None, tangent: None, uv0: None, color0: None }
}

#[test]
fn primitive_with_positions_only_writes_two_blocks() {
    let mut root = empty_root();
    let mut bin = Vec::new();
    let vs = vec![vertex(1.0, 2.0, 3.0), vertex(4.0, 5.0, 6.0)];
    let slots = write_primitive(&mut root, &mut bin, &vs, &[0, 1, 1]);
    assert_eq!(
        slots,
        PrimitiveSlots { position: 0, normal: None, tangent: None, texcoord0: None, color0: None, indices: 1 }
    );
    assert_eq!(bin.len(), 2 * 12 + 3 * 4);
    assert_eq!(&bin[0..4], &1.0f32.to_le_bytes());
    assert_eq!(&bin[24..28], &0u32.to_le_bytes());
    assert_eq!(root.buffer_views.len(), 2);
    assert_eq!(root.buffer_views[0].byte_offset, 0);
    assert_eq!(root.buffer_views[0].byte_length, 24);
    assert_eq!(root.buffer_views[0].target, Some(34962));
    assert_eq!(root.buffer_views[1].byte_offset, 24);
    assert_eq!(root.buffer_views[1].byte_length, 12);
    assert_eq!(root.buffer_views[1].target, Some(34963));
    assert_eq!(root.accessors[0].type_, "VEC3");
    assert_eq!(root.accessors[0].component_type, 5126);
    assert_eq!(root.accessors[1].type_, "SCALAR");
    assert_eq!(root.accessors[1].component_type, 5125);
}

#[test]
fn missing_attributes_get_defaults_once_any_vertex_has_them() {
    let mut root = empty_root();
    let mut bin = Vec::new();
    let mut a = vertex(0.0, 0.0, 0.0);
    a.normal = Some([0.0f32.to_bits(), 0.0f32.to_bits(), 1.0f32.to_bits()]);
    let b = vertex(1.0, 0.0, 0.0);
    let slots = write_primitive(&mut root, &mut bin, &[a, b], &[0, 1, 0]);
    assert_eq!(slots.normal, Some(1));
    assert_eq!(slots.indices, 2);
    let normals = read_f32_words(&root, &[bin.clone()], 1).unwrap();
    let expect: Vec<u32> = [0.0f32, 0.0, 1.0, 0.0, 1.0, 0.0].iter().map(|f| f.to_bits()).collect();
    assert_eq!(normals, expect);
}

#[test]
fn written_mesh_reads_back() {
    let mut root = empty_root();
    let mut bin = Vec::new();
    let vs = vec![vertex(1.0, 2.0, 3.0), vertex(4.0, 5.0, 6.0), vertex(7.0, 8.0, 9.0)];
    let prims = vec![vec![0, 1, 2], vec![2, 1, 0, 0, 1, 2]];
    let slots = write_mesh(&mut root, &mut bin, &vs, &prims);
    assert_eq!(slots.len(), 2);
    assert_eq!(slots[1].position, 2);
    let bufs = [bin.clone()];
    for (k, p) in prims.iter().enumerate() {
        assert_eq!(&read_u32(&root, &bufs, slots[k].indices).unwrap(), p);
        let pos = read_f32_words(&root, &bufs, slots[k].position).unwrap();
        let expect: Vec<u32> = (1..=9).map(|i| (i as f32).to_bits()).collect();
        assert_eq!(pos, expect);
    }
}

use solid_formats::gltf_read::{assemble_vertices, merge_primitives};
use solid_formats::gltf_write::{attribute_list, buffer_entry, node_records};

#[test]
fn vertices_take_each_attribute_they_have_an_element_for() {
    let one = 1.0f32.to_bits();
    let positions = vec![1, 2, 3, 4, 5, 6, 7];
    let normals = vec![10, 11, 12];
    let uvs = vec![vec![20, 21, 22, 23], vec![30]];
    let colors = vec![40, 41, 42, 43, 44, 45];
    let joints = vec![[1u16, 2, 3, 4], [5, 6, 7, 8]];
    let weights = vec![50, 51, 52, 53];
    let vs = assemble_vertices(&positions, &normals, &[], &uvs, &colors, &joints, &weights);
    assert_eq!(vs.len(), 2);
    assert_eq!(vs[0].position, [1, 2, 3]);
    assert_eq!(vs[1].position, [4, 5, 6]);
    assert_eq!(vs[0].normal, Some([10, 11, 12]));
    assert_eq!(vs[1].normal, None);
    assert_eq!(vs[0].tangent, None);
    assert_eq!(vs[0].uvs, vec![Some([20, 21]), None]);
    assert_eq!(vs[1].uvs, vec![Some([22, 23]), None]);
    assert_eq!(vs[0].color0, Some([40, 41, 42, one]));
    assert_eq!(vs[1].color0, Some([43, 44, 45, one]));
    assert_eq!(vs[0].skin, Some(([1, 2, 3, 4], [50, 51, 52, 53])));
    assert_eq!(vs[1].skin, None);
}

#[test]
fn written_vertices_are_assembled_back() {
    let mut root = empty_root();
    let mut bin = Vec::new();
    let mut a = vertex(1.0, 2.0, 3.0);
    let mut b = vertex(4.0, 5.0, 6.0);
    a.uv0 = Some([0.5f32.to_bits(), 0.25f32.to_bits()]);
    b.uv0 = Some([0.75f32.to_bits(), 1.0f32.to_bits()]);
    let slots = write_primitive(&mut root, &mut bin, &[a, b], &[0, 1, 0]);
    let bufs = [bin];
    let pos = read_f32_words(&root, &bufs, slots.position).unwrap();
    let uv = read_f32_words(&root, &bufs, slots.texcoord0.unwrap()).unwrap();
    let vs = assemble_vertices(&pos, &[], &[], &vec![uv], &[], &[], &[]);
    assert_eq!(vs.len(), 2);
    assert_eq!(vs[0].position, a.position);
    assert_eq!(vs[1].position, b.position);
    assert_eq!(vs[0].uvs, vec![a.uv0]);
    assert_eq!(vs[1].uvs, vec![b.uv0]);
    assert_eq!(vs[0].normal, None);
    assert_eq!(vs[1].color0, None);
}

#[test]
fn reachable_cycles_are_found_before_reading() {
    // 0 -> 1 -> 0 is a cycle; 2 -> 3 is not.
    let children = vec![vec![1], vec![0], vec![3, 9], vec![]];
    assert!(!cycle_free_from(&children, &vec![0]));
    assert!(cycle_free_from(&children, &vec![2]));
    assert!(cycle_free_from(&children, &vec![]));
    assert!(read_plan_checked(&children, &vec![1]).is_none());
    assert_eq!(read_plan_checked(&children, &vec![2]), Some(vec![(2, None), (3, Some(0))]));
    // A node reached by two paths is no cycle.
    let diamond = vec![vec![1, 2], vec![3], vec![3], vec![]];
    assert!(cycle_free_from(&diamond, &vec![0]));
    // A self-loop is.
    assert!(!cycle_free_from(&vec![vec![0]], &vec![0]));
}

#[test]
fn document_entries_of_a_written_scene() {
    let slots = PrimitiveSlots { position: 3, normal: None, tangent: Some(4), texcoord0: Some(5), color0: None, indices: 6 };
    assert_eq!(
        attribute_list(slots),
        vec![("POSITION".to_string(), 3), ("TANGENT".to_string(), 4), ("TEXCOORD_0".to_string(), 5)]
    );
    assert_eq!(buffer_entry(0), None);
    assert_eq!(buffer_entry(40), Some(40));
    let children = vec![vec![], vec![0]];
    let layout = node_layout(&children, &vec![1]);
    let recs = node_records(&layout, &vec!["leaf".to_string(), String::new()], &vec![Some(0), None], &vec![None, Some(2)]);
    assert_eq!(recs.len(), 2);
    assert_eq!(recs[0].name, None);
    assert_eq!(recs[0].children, vec![1]);
    assert_eq!(recs[0].camera, Some(2));
    assert_eq!(recs[1].name, Some("leaf".to_string()));
    assert_eq!(recs[1].mesh, Some(0));
}

#[test]
fn primitives_merge_into_one_vertex_list() {
    let p0 = assemble_vertices(&[1, 2, 3, 4, 5, 6], &[], &[], &vec![], &[], &[], &[]);
    let p1 = assemble_vertices(&[7, 8, 9], &[], &[], &vec![], &[], &[], &[]);
    let (verts, idx) = merge_primitives(vec![p0, p1], &vec![vec![0, 1, 1], vec![0, 0, 0]]);
    assert_eq!(verts.len(), 3);
    assert_eq!(verts[2].position, [7, 8, 9]);
    assert_eq!(idx, vec![vec![0, 1, 1], vec![2, 2, 2]]);
}

use solid_formats::gltf_write::write_meshes;

#[test]
fn written_meshes_tile_the_buffer() {
    let mut root = empty_root();
    let mut bin = Vec::new();
    let mut a = vertex(1.0, 2.0, 3.0);
    a.uv0 = Some([0.5f32.to_bits(), 0.25f32.to_bits()]);
    let meshes = vec![
        (vec![a, vertex(4.0, 5.0, 6.0), vertex(7.0, 8.0, 9.0)], vec![vec![0, 1, 2]]),
        (vec![vertex(0.0, 0.0, 0.0), vertex(1.0, 1.0, 1.0)], vec![vec![0, 1], vec![1, 0, 1]]),
    ];
    let slots = write_meshes(&mut root, &mut bin, &meshes);
    assert_eq!(slots.len(), 2);
    assert_eq!(slots[0].len(), 1);
    assert_eq!(slots[1].len(), 2);
    assert_eq!(slots[0][0].texcoord0, Some(1));
    assert_eq!(slots[1][0].position, 3);
    assert_eq!(slots[1][1].indices, 6);
    let mut offset = 0;
    for v in &root.buffer_views {
        assert_eq!(v.buffer, 0);
        assert_eq!(v.byte_offset, offset);
        offset += v.byte_length;
    }
    assert_eq!(offset, bin.len());
    assert_eq!(root.buffer_views.len(), 7);
    assert_eq!(bin.len(), 36 + 24 + 12 + 24 + 8 + 24 + 12);
    assert_eq!(buffer_entry(bin.len()), Some(bin.len()));
}

use solid_formats::gltf_write::{mesh_record, primitive_record};

#[test]
fn primitive_record_names_its_accessors_and_material() {
    let slots = PrimitiveSlots { position: 0, normal: Some(1), tangent: None, texcoord0: None, color0: None, indices: 2 };
    let r = primitive_record(slots, Some(3));
    assert_eq!(r.attributes, vec![("POSITION".to_string(), 0), ("NORMAL".to_string(), 1)]);
    assert_eq!(r.indices, Some(2));
    assert_eq!(r.material, Some(3));
}

#[test]
fn mesh_record_keeps_primitive_order_and_drops_empty_name() {
    let a = PrimitiveSlots { position: 0, normal: None, tangent: None, texcoord0: None, color0: None, indices: 1 };
    let b = PrimitiveSlots { position: 2, normal: None, tangent: None, texcoord0: Some(3), color0: None, indices: 4 };
    let r = mesh_record(&"Cube".to_string(), &vec![a, b], &vec![None, Some(0)]);
    assert_eq!(r.name, Some("Cube".to_string()));
    assert_eq!(r.primitives.len(), 2);
    assert_eq!(r.primitives[1].attributes, vec![("POSITION".to_string(), 2), ("TEXCOORD_0".to_string(), 3)]);
    assert_eq!(r.primitives[1].indices, Some(4));
    assert_eq!(r.primitives[0].material, None);
    assert_eq!(r.primitives[1].material, Some(0));
    assert_eq!(mesh_record(&String::new(), &vec![], &vec![]).name, None);
}
