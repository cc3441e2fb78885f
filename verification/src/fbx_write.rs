//! The object graph an FBX writer emits: an id for every geometry,
//! material, texture and model, and the connections between them.

use vstd::prelude::*;
use vstd::string::StringSliceAdditionalSpecFns;
use crate::bytes::push_bytes;
use crate::fbx_scene::{model_links, texture_links, Channel, Link, ModelLinks, TextureLinks};
use crate::gltf_fields::decimal;

verus! {

/// A scene node as the writer sees it: the mesh it shows, the material of
/// that mesh's first primitive, and its parent (by position in the node
/// list).
#[derive(Debug, Clone, Copy, PartialEq, Eq, Structural)]
pub struct NodeOut {
    pub mesh: Option<usize>,
    pub material: Option<usize>,
    pub parent: Option<usize>,
}

/// A material as the writer sees it: the textures (by position) of its
/// base colour and its normal map.
#[derive(Debug, Clone, Copy, PartialEq, Eq, Structural)]
pub struct MaterialOut {
    pub diffuse: Option<usize>,
    pub normal: Option<usize>,
}

/// How many objects of each kind a scene has.
#[derive(Debug, Clone, Copy, PartialEq, Eq, Structural)]
pub struct SceneCounts {
    pub meshes: usize,
    pub materials: usize,
    pub textures: usize,
    pub nodes: usize,
}

/// Ids are handed out from 1 in order: meshes, materials, textures, nodes.
pub open spec fn mesh_id(c: SceneCounts, i: int) -> int {
    1 + i
}

pub open spec fn material_id(c: SceneCounts, i: int) -> int {
    1 + c.meshes + i
}

pub open spec fn texture_id(c: SceneCounts, i: int) -> int {
    1 + c.meshes + c.materials + i
}

pub open spec fn node_id(c: SceneCounts, i: int) -> int {
    1 + c.meshes + c.materials + c.textures + i
}

pub open spec fn total_objects(c: SceneCounts) -> int {
    c.meshes + c.materials + c.textures + c.nodes
}

/// Every reference of the scene is in range.
pub open spec fn scene_refs_ok(c: SceneCounts, nodes: Seq<NodeOut>, mats: Seq<MaterialOut>) -> bool {
    &&& nodes.len() == c.nodes
    &&& mats.len() == c.materials
    &&& forall|k: int| 0 <= k < nodes.len() ==> match (#[trigger] nodes[k]).mesh {
        Some(m) => m < c.meshes,
        None => true,
    }
    &&& forall|k: int| 0 <= k < nodes.len() ==> match (#[trigger] nodes[k]).material {
        Some(m) => m < c.materials,
        None => true,
    }
    &&& forall|k: int| 0 <= k < mats.len() ==> match (#[trigger] mats[k]).diffuse {
        Some(t) => t < c.textures,
        None => true,
    }
    &&& forall|k: int| 0 <= k < mats.len() ==> match (#[trigger] mats[k]).normal {
        Some(t) => t < c.textures,
        None => true,
    }
}

pub open spec fn oo(src: int, dst: int) -> Link {
    Link { to_object: true, src: src as i64, dst: dst as i64, channel: Channel::Other }
}

/// A node's connections: its mesh and that mesh's material to it, then it
/// to its parent (0, the scene root, when it has none or the parent is not
/// among the nodes).
pub open spec fn node_links(c: SceneCounts, nodes: Seq<NodeOut>, k: int) -> Seq<Link> {
    let n = nodes[k];
    let nid = node_id(c, k);
    let a = match n.mesh {
        Some(m) => seq![oo(mesh_id(c, m as int), nid)],
        None => seq![],
    };
    let b = match (n.mesh, n.material) {
        (Some(_), Some(m)) => seq![oo(material_id(c, m as int), nid)],
        _ => seq![],
    };
    let pid = match n.parent {
        Some(p) => if p < nodes.len() { node_id(c, p as int) } else { 0 },
        None => 0,
    };
    a + b + seq![oo(nid, pid)]
}

/// A material's texture connections: base colour, then normal map.
pub open spec fn material_links(c: SceneCounts, mats: Seq<MaterialOut>, k: int) -> Seq<Link> {
    let m = mats[k];
    let mid = material_id(c, k) as i64;
    let a = match m.diffuse {
        Some(t) => seq![Link { to_object: false, src: texture_id(c, t as int) as i64, dst: mid, channel: Channel::Diffuse }],
        None => seq![],
    };
    let b = match m.normal {
        Some(t) => seq![Link { to_object: false, src: texture_id(c, t as int) as i64, dst: mid, channel: Channel::Normal }],
        None => seq![],
    };
    a + b
}

pub open spec fn all_node_links(c: SceneCounts, nodes: Seq<NodeOut>, n: nat) -> Seq<Link>
    decreases n,
{
    if n == 0 {
        seq![]
    } else {
        all_node_links(c, nodes, (n - 1) as nat) + node_links(c, nodes, n - 1)
    }
}

pub open spec fn all_material_links(c: SceneCounts, mats: Seq<MaterialOut>, n: nat) -> Seq<Link>
    decreases n,
{
    if n == 0 {
        seq![]
    } else {
        all_material_links(c, mats, (n - 1) as nat) + material_links(c, mats, n - 1)
    }
}

/// The `Connections` a writer emits, in order.
pub open spec fn write_links_spec(c: SceneCounts, nodes: Seq<NodeOut>, mats: Seq<MaterialOut>) -> Seq<Link> {
    all_node_links(c, nodes, nodes.len()) + all_material_links(c, mats, mats.len())
}

fn push_oo(out: &mut Vec<Link>, src: i64, dst: i64)
    ensures
        final(out)@ == old(out)@.push(oo(src as int, dst as int)),
{
    out.push(Link { to_object: true, src, dst, channel: Channel::Other });
}

/// The connections an FBX writer emits for a scene: each node's mesh,
/// material and parent links, then each material's texture links.
pub fn write_links(c: SceneCounts, nodes: &Vec<NodeOut>, mats: &Vec<MaterialOut>) -> (r: Vec<Link>)
    requires
        total_objects(c) < i64::MAX,
        scene_refs_ok(c, nodes@, mats@),
    ensures
        r@ == write_links_spec(c, nodes@, mats@),
{
    let base_mat: i64 = 1 + c.meshes as i64;
    let base_tex: i64 = base_mat + c.materials as i64;
    let base_node: i64 = base_tex + c.textures as i64;
    let mut out: Vec<Link> = Vec::new();
    let mut k: usize = 0;
    while k < nodes.len()
        invariant
            k <= nodes@.len(),
            total_objects(c) < i64::MAX,
            scene_refs_ok(c, nodes@, mats@),
            base_mat == 1 + c.meshes,
            base_tex == 1 + c.meshes + c.materials,
            base_node == 1 + c.meshes + c.materials + c.textures,
            out@ == all_node_links(c, nodes@, k as nat),
        decreases nodes@.len() - k,
    {
        let n = nodes[k];
        assert(nodes@[k as int] == n);
        let nid = base_node + k as i64;
        let ghost before = out@;
        match n.mesh {
            Some(m) => {
                push_oo(&mut out, 1 + m as i64, nid);
                match n.material {
                    Some(mi) => push_oo(&mut out, base_mat + mi as i64, nid),
                    None => {},
                }
            },
            None => {},
        }
        let pid: i64 = match n.parent {
            Some(p) => if p < nodes.len() {
                base_node + p as i64
            } else {
                0
            },
            None => 0,
        };
        push_oo(&mut out, nid, pid);
        assert(out@ =~= before + node_links(c, nodes@, k as int));
        k = k + 1;
    }
    let ghost first = out@;
    let mut k: usize = 0;
    while k < mats.len()
        invariant
            k <= mats@.len(),
            total_objects(c) < i64::MAX,
            scene_refs_ok(c, nodes@, mats@),
            base_mat == 1 + c.meshes,
            base_tex == 1 + c.meshes + c.materials,
            out@ == first + all_material_links(c, mats@, k as nat),
        decreases mats@.len() - k,
    {
        let m = mats[k];
        assert(mats@[k as int] == m);
        let mid = base_mat + k as i64;
        let ghost before = out@;
        match m.diffuse {
            Some(t) => out.push(Link { to_object: false, src: base_tex + t as i64, dst: mid, channel: Channel::Diffuse }),
            None => {},
        }
        match m.normal {
            Some(t) => out.push(Link { to_object: false, src: base_tex + t as i64, dst: mid, channel: Channel::Normal }),
            None => {},
        }
        assert(out@ =~= before + material_links(c, mats@, k as int));
        assert(first + all_material_links(c, mats@, (k + 1) as nat) =~= first + all_material_links(c, mats@, k as nat)
            + material_links(c, mats@, k as int));
        k = k + 1;
    }
    out
}


/// The id the writer gives object `i` of kind `kind` (models are the
/// scene's nodes).
pub fn object_id(c: SceneCounts, kind: crate::fbx_scene::ObjectKind, i: usize) -> (r: i64)
    requires
        total_objects(c) < i64::MAX,
        i < match kind {
            crate::fbx_scene::ObjectKind::Geometry => c.meshes,
            crate::fbx_scene::ObjectKind::Material => c.materials,
            crate::fbx_scene::ObjectKind::Texture => c.textures,
            crate::fbx_scene::ObjectKind::Model => c.nodes,
        },
    ensures
        r == match kind {
            crate::fbx_scene::ObjectKind::Geometry => mesh_id(c, i as int),
            crate::fbx_scene::ObjectKind::Material => material_id(c, i as int),
            crate::fbx_scene::ObjectKind::Texture => texture_id(c, i as int),
            crate::fbx_scene::ObjectKind::Model => node_id(c, i as int),
        },
{
    match kind {
        crate::fbx_scene::ObjectKind::Geometry => 1 + i as i64,
        crate::fbx_scene::ObjectKind::Material => 1 + c.meshes as i64 + i as i64,
        crate::fbx_scene::ObjectKind::Texture => 1 + c.meshes as i64 + c.materials as i64 + i as i64,
        crate::fbx_scene::ObjectKind::Model => 1 + c.meshes as i64 + c.materials as i64 + c.textures as i64 + i as i64,
    }
}


// ── What the reader makes of it ──────────────────────────────────────────

/// The positions of the objects whose ids run from `base`, `n` of them:
/// what the reader's id index holds for objects written in order.
pub open spec fn id_range_map(base: int, n: int) -> Map<i64, usize> {
    Map::new(|id: i64| base <= id < base + n, |id: i64| (id - base) as usize)
}

pub open spec fn geo_map(c: SceneCounts) -> Map<i64, usize> {
    id_range_map(1, c.meshes as int)
}

pub open spec fn mat_map(c: SceneCounts) -> Map<i64, usize> {
    id_range_map(material_id(c, 0), c.materials as int)
}

pub open spec fn tex_map(c: SceneCounts) -> Map<i64, usize> {
    id_range_map(texture_id(c, 0), c.textures as int)
}

pub open spec fn model_map(c: SceneCounts) -> Map<i64, usize> {
    id_range_map(node_id(c, 0), c.nodes as int)
}

/// The model links of the first `n` nodes, as the scene has them.
pub open spec fn expected_model_links(c: SceneCounts, nodes: Seq<NodeOut>, n: int) -> ModelLinks {
    let nb = node_id(c, 0);
    ModelLinks {
        geometry: Map::new(
            |key: i64| nb <= key < nb + n && nodes[key - nb].mesh is Some,
            |key: i64| mesh_id(c, nodes[key - nb].mesh.unwrap() as int) as i64,
        ),
        material: Map::new(
            |key: i64| nb <= key < nb + n && nodes[key - nb].mesh is Some && nodes[key - nb].material is Some,
            |key: i64| material_id(c, nodes[key - nb].material.unwrap() as int) as i64,
        ),
        parent: Map::new(
            |key: i64| nb <= key < nb + n && (nodes[key - nb].parent matches Some(p) && p < nodes.len()),
            |key: i64| node_id(c, nodes[key - nb].parent.unwrap() as int) as i64,
        ),
    }
}

/// The texture links of the first `n` materials, as the scene has them.
pub open spec fn expected_texture_links(mats: Seq<MaterialOut>, n: int) -> TextureLinks {
    TextureLinks {
        diffuse: Map::new(|i: usize| i < n && mats[i as int].diffuse is Some, |i: usize| mats[i as int].diffuse.unwrap()),
        normal: Map::new(|i: usize| i < n && mats[i as int].normal is Some, |i: usize| mats[i as int].normal.unwrap()),
    }
}

proof fn lemma_model_links_push(ls: Seq<Link>, l: Link, g: Map<i64, usize>, m: Map<i64, usize>, md: Map<i64, usize>)
    ensures
        model_links(ls.push(l), g, m, md) == ({
            let st = model_links(ls, g, m, md);
            if !l.to_object || !md.contains_key(l.dst) {
                st
            } else if g.contains_key(l.src) {
                ModelLinks { geometry: st.geometry.insert(l.dst, l.src), ..st }
            } else if m.contains_key(l.src) {
                if st.material.contains_key(l.dst) {
                    st
                } else {
                    ModelLinks { material: st.material.insert(l.dst, l.src), ..st }
                }
            } else if md.contains_key(l.src) {
                ModelLinks { parent: st.parent.insert(l.src, l.dst), ..st }
            } else {
                st
            }
        }),
{
    assert(ls.push(l).drop_last() =~= ls);
}

proof fn lemma_texture_links_push(ls: Seq<Link>, l: Link, t: Map<i64, usize>, m: Map<i64, usize>)
    ensures
        texture_links(ls.push(l), t, m) == ({
            let st = texture_links(ls, t, m);
            if !l.to_object && t.contains_key(l.src) && m.contains_key(l.dst) {
                match l.channel {
                    Channel::Diffuse => TextureLinks { diffuse: st.diffuse.insert(m[l.dst], t[l.src]), ..st },
                    Channel::Normal => TextureLinks { normal: st.normal.insert(m[l.dst], t[l.src]), ..st },
                    Channel::Other => st,
                }
            } else {
                st
            }
        }),
{
    assert(ls.push(l).drop_last() =~= ls);
}

proof fn lemma_node_step(c: SceneCounts, nodes: Seq<NodeOut>, mats: Seq<MaterialOut>, n: int)
    requires
        total_objects(c) < i64::MAX,
        scene_refs_ok(c, nodes, mats),
        0 <= n < nodes.len(),
        model_links(all_node_links(c, nodes, n as nat), geo_map(c), mat_map(c), model_map(c)) == expected_model_links(
            c,
            nodes,
            n,
        ),
    ensures
        model_links(all_node_links(c, nodes, (n + 1) as nat), geo_map(c), mat_map(c), model_map(c))
            == expected_model_links(c, nodes, n + 1),
{
    let (g, m, md) = (geo_map(c), mat_map(c), model_map(c));
    let nb = node_id(c, 0);
    let nid = node_id(c, n);
    let node = nodes[n];
    let before = all_node_links(c, nodes, n as nat);
    let st0 = expected_model_links(c, nodes, n);
    let a = match node.mesh {
        Some(mi) => seq![oo(mesh_id(c, mi as int), nid)],
        None => seq![],
    };
    let b = match (node.mesh, node.material) {
        (Some(_), Some(mt)) => seq![oo(material_id(c, mt as int), nid)],
        _ => seq![],
    };
    let pid = match node.parent {
        Some(p) => if p < nodes.len() { node_id(c, p as int) } else { 0 },
        None => 0,
    };
    let pl = oo(nid, pid);
    assert(all_node_links(c, nodes, (n + 1) as nat) == before + (a + b + seq![pl]));
    // After the mesh link.
    let s1 = before + a;
    let st1 = if node.mesh is Some {
        ModelLinks { geometry: st0.geometry.insert(nid as i64, mesh_id(c, node.mesh.unwrap() as int) as i64), ..st0 }
    } else {
        st0
    };
    if let Some(mi) = node.mesh {
        assert(s1 =~= before.push(oo(mesh_id(c, mi as int), nid)));
        lemma_model_links_push(before, oo(mesh_id(c, mi as int), nid), g, m, md);
    } else {
        assert(s1 =~= before);
    }
    assert(model_links(s1, g, m, md) == st1);
    // After the material link.
    let s2 = s1 + b;
    let st2 = if node.mesh is Some && node.material is Some {
        ModelLinks { material: st1.material.insert(nid as i64, material_id(c, node.material.unwrap() as int) as i64), ..st1 }
    } else {
        st1
    };
    if let (Some(_), Some(mt)) = (node.mesh, node.material) {
        assert(s2 =~= s1.push(oo(material_id(c, mt as int), nid)));
        lemma_model_links_push(s1, oo(material_id(c, mt as int), nid), g, m, md);
        assert(!st1.material.contains_key(nid as i64));
    } else {
        assert(s2 =~= s1);
    }
    assert(model_links(s2, g, m, md) == st2);
    // After the parent link.
    let s3 = s2.push(pl);
    assert(s3 =~= before + (a + b + seq![pl]));
    lemma_model_links_push(s2, pl, g, m, md);
    let st3 = model_links(s3, g, m, md);
    let ex = expected_model_links(c, nodes, n + 1);
    assert(st3.geometry =~= ex.geometry);
    assert(st3.material =~= ex.material);
    assert(st3.parent =~= ex.parent);
}

proof fn lemma_nodes_resolve(c: SceneCounts, nodes: Seq<NodeOut>, mats: Seq<MaterialOut>, n: nat)
    requires
        total_objects(c) < i64::MAX,
        scene_refs_ok(c, nodes, mats),
        n <= nodes.len(),
    ensures
        model_links(all_node_links(c, nodes, n), geo_map(c), mat_map(c), model_map(c)) == expected_model_links(
            c,
            nodes,
            n as int,
        ),
    decreases n,
{
    if n == 0 {
        let ex = expected_model_links(c, nodes, 0);
        assert(ex.geometry =~= Map::empty());
        assert(ex.material =~= Map::empty());
        assert(ex.parent =~= Map::empty());
    } else {
        lemma_nodes_resolve(c, nodes, mats, (n - 1) as nat);
        lemma_node_step(c, nodes, mats, n - 1);
    }
}


proof fn lemma_nodes_no_textures(c: SceneCounts, nodes: Seq<NodeOut>, n: nat)
    requires
        n <= nodes.len(),
    ensures
        texture_links(all_node_links(c, nodes, n), tex_map(c), mat_map(c)) == (TextureLinks {
            diffuse: Map::empty(),
            normal: Map::empty(),
        }),
    decreases n,
{
    if n > 0 {
        let k = n - 1;
        lemma_nodes_no_textures(c, nodes, k as nat);
        let before = all_node_links(c, nodes, k as nat);
        let node = nodes[k];
        let nid = node_id(c, k);
        let a = match node.mesh {
            Some(mi) => seq![oo(mesh_id(c, mi as int), nid)],
            None => seq![],
        };
        let b = match (node.mesh, node.material) {
            (Some(_), Some(mt)) => seq![oo(material_id(c, mt as int), nid)],
            _ => seq![],
        };
        let pid = match node.parent {
            Some(p) => if p < nodes.len() { node_id(c, p as int) } else { 0 },
            None => 0,
        };
        let (t, m) = (tex_map(c), mat_map(c));
        let s1 = before + a;
        if let Some(mi) = node.mesh {
            assert(s1 =~= before.push(oo(mesh_id(c, mi as int), nid)));
            lemma_texture_links_push(before, oo(mesh_id(c, mi as int), nid), t, m);
        } else {
            assert(s1 =~= before);
        }
        let s2 = s1 + b;
        if let (Some(_), Some(mt)) = (node.mesh, node.material) {
            assert(s2 =~= s1.push(oo(material_id(c, mt as int), nid)));
            lemma_texture_links_push(s1, oo(material_id(c, mt as int), nid), t, m);
        } else {
            assert(s2 =~= s1);
        }
        lemma_texture_links_push(s2, oo(nid, pid), t, m);
        assert(s2.push(oo(nid, pid)) =~= all_node_links(c, nodes, n));
    }
}

proof fn lemma_materials_resolve(c: SceneCounts, nodes: Seq<NodeOut>, mats: Seq<MaterialOut>, n: nat)
    requires
        total_objects(c) < i64::MAX,
        scene_refs_ok(c, nodes, mats),
        n <= mats.len(),
    ensures
        ({
            let first = all_node_links(c, nodes, nodes.len());
            let ls = first + all_material_links(c, mats, n);
            &&& model_links(ls, geo_map(c), mat_map(c), model_map(c)) == model_links(
                first,
                geo_map(c),
                mat_map(c),
                model_map(c),
            )
            &&& texture_links(ls, tex_map(c), mat_map(c)) == expected_texture_links(mats, n as int)
        }),
    decreases n,
{
    let first = all_node_links(c, nodes, nodes.len());
    let (g, m, md, t) = (geo_map(c), mat_map(c), model_map(c), tex_map(c));
    if n == 0 {
        assert(first + all_material_links(c, mats, 0) =~= first);
        lemma_nodes_no_textures(c, nodes, nodes.len());
        let ex = expected_texture_links(mats, 0);
        assert(ex.diffuse =~= Map::empty());
        assert(ex.normal =~= Map::empty());
    } else {
        let k = n - 1;
        lemma_materials_resolve(c, nodes, mats, k as nat);
        let before = first + all_material_links(c, mats, k as nat);
        let mt = mats[k];
        let mid = material_id(c, k) as i64;
        let st0 = expected_texture_links(mats, k);
        let s1 = match mt.diffuse {
            Some(tx) => before.push(Link { to_object: false, src: texture_id(c, tx as int) as i64, dst: mid, channel: Channel::Diffuse }),
            None => before,
        };
        if let Some(tx) = mt.diffuse {
            let l = Link { to_object: false, src: texture_id(c, tx as int) as i64, dst: mid, channel: Channel::Diffuse };
            lemma_model_links_push(before, l, g, m, md);
            lemma_texture_links_push(before, l, t, m);
        }
        let s2 = match mt.normal {
            Some(tx) => s1.push(Link { to_object: false, src: texture_id(c, tx as int) as i64, dst: mid, channel: Channel::Normal }),
            None => s1,
        };
        if let Some(tx) = mt.normal {
            let l = Link { to_object: false, src: texture_id(c, tx as int) as i64, dst: mid, channel: Channel::Normal };
            lemma_model_links_push(s1, l, g, m, md);
            lemma_texture_links_push(s1, l, t, m);
        }
        assert(s2 =~= first + all_material_links(c, mats, n));
        let st = texture_links(s2, t, m);
        let ex = expected_texture_links(mats, n as int);
        assert(st.diffuse =~= ex.diffuse);
        assert(st.normal =~= ex.normal);
    }
}

/// The connections a writer emits resolve, under the reader's rules, to the
/// scene's own links: each node's mesh, the material of that mesh and its
/// parent node, and each material's base-colour and normal-map textures
/// (with objects indexed by the ids the writer gives them).
pub proof fn lemma_written_links_resolve(c: SceneCounts, nodes: Seq<NodeOut>, mats: Seq<MaterialOut>)
    requires
        total_objects(c) < i64::MAX,
        scene_refs_ok(c, nodes, mats),
    ensures
        model_links(write_links_spec(c, nodes, mats), geo_map(c), mat_map(c), model_map(c)) == expected_model_links(
            c,
            nodes,
            nodes.len() as int,
        ),
        texture_links(write_links_spec(c, nodes, mats), tex_map(c), mat_map(c)) == expected_texture_links(
            mats,
            mats.len() as int,
        ),
{
    lemma_nodes_resolve(c, nodes, mats, nodes.len());
    lemma_materials_resolve(c, nodes, mats, mats.len());
}


// ── Text of the fixed sections ───────────────────────────────────────────────

/// The decimal text of a whole number, as `format!` writes an `i64`.
pub open spec fn int_text(v: int) -> Seq<u8> {
    if v < 0 {
        seq![45u8] + decimal((-v) as nat)
    } else {
        decimal(v as nat)
    }
}

fn decimal_u64(n: u64) -> (r: Vec<u8>)
    ensures
        r@ == decimal(n as nat),
    decreases n,
{
    if n < 10 {
        vec![(48 + n) as u8]
    } else {
        let mut v = decimal_u64(n / 10);
        v.push((48 + n % 10) as u8);
        v
    }
}

/// Appends the decimal text of `v`.
fn push_int(out: &mut Vec<u8>, v: i64)
    ensures
        final(out)@ == old(out)@ + int_text(v as int),
{
    if v < 0 {
        out.push(45u8);
        let mag: u64 = (-(v as i128)) as u64;
        let d = decimal_u64(mag);
        push_bytes(out, d.as_slice());
    } else {
        let d = decimal_u64(v as u64);
        push_bytes(out, d.as_slice());
    }
}

/// The property a texture link names: `DiffuseColor` or `NormalMap`.
pub open spec fn channel_text(c: Channel) -> Seq<u8> {
    match c {
        Channel::Diffuse => "DiffuseColor".spec_bytes(),
        Channel::Normal => "NormalMap".spec_bytes(),
        Channel::Other => Seq::empty(),
    }
}

/// The line a writer emits for a connection, indented once:
/// `C: "OO",src,dst`, or `C: "OP",src,dst,"Channel"`.
pub open spec fn link_line(l: Link) -> Seq<u8> {
    if l.to_object {
        "\tC: \"OO\",".spec_bytes() + int_text(l.src as int) + ",".spec_bytes() + int_text(l.dst as int) + "\n".spec_bytes()
    } else {
        "\tC: \"OP\",".spec_bytes() + int_text(l.src as int) + ",".spec_bytes() + int_text(l.dst as int) + ",\"".spec_bytes()
            + channel_text(l.channel) + "\"\n".spec_bytes()
    }
}

/// The `Connections` section: one line per link.
pub open spec fn connections_text_spec(links: Seq<Link>) -> Seq<u8> {
    "Connections:  {\n".spec_bytes() + crate::bytes::concat_map(links, |l: Link| link_line(l)) + "}\n".spec_bytes()
}

/// The `Definitions` section: its version and the count of objects.
pub open spec fn definitions_text_spec(total: nat) -> Seq<u8> {
    "Definitions:  {\n\tVersion: 100\n\tCount: ".spec_bytes() + decimal(total) + "\n}\n\n".spec_bytes()
}

/// The header comment and `FBXHeaderExtension` of a saved file (version
/// 7400).
pub open spec fn header_text_spec() -> Seq<u8> {
    "; FBX 7.4.0 project file\n; Saved by solid-fbx\n\nFBXHeaderExtension:  {\n\tFBXHeaderVersion: 1003\n\tFBXVersion: 7400\n}\n\n".spec_bytes()
}

pub fn header_text() -> (r: Vec<u8>)
    ensures
        r@ == header_text_spec(),
{
    vstd::slice::slice_to_vec(
        "; FBX 7.4.0 project file\n; Saved by solid-fbx\n\nFBXHeaderExtension:  {\n\tFBXHeaderVersion: 1003\n\tFBXVersion: 7400\n}\n\n".as_bytes(),
    )
}

pub fn definitions_text(total: usize) -> (r: Vec<u8>)
    ensures
        r@ == definitions_text_spec(total as nat),
{
    let mut out = vstd::slice::slice_to_vec("Definitions:  {\n\tVersion: 100\n\tCount: ".as_bytes());
    let d = decimal_u64(total as u64);
    push_bytes(&mut out, d.as_slice());
    push_bytes(&mut out, "\n}\n\n".as_bytes());
    out
}

fn link_line_exec(out: &mut Vec<u8>, l: Link)
    ensures
        final(out)@ == old(out)@ + link_line(l),
{
    if l.to_object {
        push_bytes(out, "\tC: \"OO\",".as_bytes());
        push_int(out, l.src);
        push_bytes(out, ",".as_bytes());
        push_int(out, l.dst);
        push_bytes(out, "\n".as_bytes());
    } else {
        push_bytes(out, "\tC: \"OP\",".as_bytes());
        push_int(out, l.src);
        push_bytes(out, ",".as_bytes());
        push_int(out, l.dst);
        push_bytes(out, ",\"".as_bytes());
        match l.channel {
            Channel::Diffuse => push_bytes(out, "DiffuseColor".as_bytes()),
            Channel::Normal => push_bytes(out, "NormalMap".as_bytes()),
            Channel::Other => {},
        }
        push_bytes(out, "\"\n".as_bytes());
    }
    assert(out@ =~= old(out)@ + link_line(l));
}

/// The `Connections` section of a saved file.
pub fn connections_text(links: &Vec<Link>) -> (r: Vec<u8>)
    ensures
        r@ == connections_text_spec(links@),
{
    let mut out = vstd::slice::slice_to_vec("Connections:  {\n".as_bytes());
    let ghost start = out@;
    let mut i: usize = 0;
    assert(links@.take(0) =~= Seq::<Link>::empty());
    assert(out@ =~= start + crate::bytes::concat_map(links@.take(0), |l: Link| link_line(l)));
    while i < links.len()
        invariant
            i <= links@.len(),
            start == "Connections:  {\n".spec_bytes(),
            out@ == start + crate::bytes::concat_map(links@.take(i as int), |l: Link| link_line(l)),
        decreases links@.len() - i,
    {
        proof {
            crate::bytes::lemma_concat_map_push(links@.take(i as int), links@[i as int], |l: Link| link_line(l));
            assert(links@.take(i as int).push(links@[i as int]) =~= links@.take(i + 1));
        }
        link_line_exec(&mut out, links[i]);
        i = i + 1;
    }
    assert(links@.take(i as int) =~= links@);
    push_bytes(&mut out, "}\n".as_bytes());
    out
}


/// `n` tab characters.
pub open spec fn tabs(n: nat) -> Seq<u8> {
    Seq::new(n, |i: int| 9u8)
}

/// The decimal texts of `v`, separated by commas.
pub open spec fn joined_ints(v: Seq<i32>) -> Seq<u8>
    decreases v.len(),
{
    if v.len() == 0 {
        seq![]
    } else if v.len() == 1 {
        int_text(v[0] as int)
    } else {
        joined_ints(v.drop_last()) + seq![44u8] + int_text(v.last() as int)
    }
}

/// An integer array property as a writer emits it at indent level `n`:
/// `Name: *count {`, the values on one `a:` line one level deeper, and `}`.
pub open spec fn i32_array_text_spec(name: Seq<u8>, data: Seq<i32>, n: nat) -> Seq<u8> {
    tabs(n) + name + ": *".spec_bytes() + decimal(data.len()) + " {\n".spec_bytes() + tabs(n + 1) + "a: ".spec_bytes()
        + joined_ints(data) + "\n".spec_bytes() + tabs(n) + "}\n".spec_bytes()
}

fn push_tabs(out: &mut Vec<u8>, n: usize)
    ensures
        final(out)@ == old(out)@ + tabs(n as nat),
{
    let mut i: usize = 0;
    while i < n
        invariant
            i <= n,
            out@ == old(out)@ + tabs(i as nat),
        decreases n - i,
    {
        out.push(9u8);
        i = i + 1;
        assert(out@ =~= old(out)@ + tabs(i as nat));
    }
}

/// The text of an integer array property (such as `PolygonVertexIndex`).
pub fn i32_array_text(name: &[u8], data: &[i32], indent: usize) -> (r: Vec<u8>)
    requires
        indent < usize::MAX,
    ensures
        r@ == i32_array_text_spec(name@, data@, indent as nat),
{
    let mut out: Vec<u8> = Vec::new();
    push_tabs(&mut out, indent);
    push_bytes(&mut out, name);
    push_bytes(&mut out, ": *".as_bytes());
    let d = decimal_u64(data.len() as u64);
    push_bytes(&mut out, d.as_slice());
    push_bytes(&mut out, " {\n".as_bytes());
    push_tabs(&mut out, indent + 1);
    push_bytes(&mut out, "a: ".as_bytes());
    let ghost head = out@;
    let mut i: usize = 0;
    assert(joined_ints(data@.take(0)) =~= Seq::<u8>::empty());
    assert(out@ =~= head + joined_ints(data@.take(0)));
    while i < data.len()
        invariant
            i <= data@.len(),
            out@ == head + joined_ints(data@.take(i as int)),
        decreases data@.len() - i,
    {
        if i > 0 {
            out.push(44u8);
        }
        push_int(&mut out, data[i] as i64);
        proof {
            let t = data@.take(i + 1);
            assert(t.drop_last() =~= data@.take(i as int));
            assert(t.last() == data@[i as int]);
            if i == 0 {
                assert(t.len() == 1);
                assert(head + joined_ints(t) =~= head + int_text(data@[0] as int));
            }
        }
        i = i + 1;
        assert(out@ =~= head + joined_ints(data@.take(i as int)));
    }
    assert(data@.take(i as int) =~= data@);
    push_bytes(&mut out, "\n".as_bytes());
    push_tabs(&mut out, indent);
    push_bytes(&mut out, "}\n".as_bytes());
    assert(out@ =~= i32_array_text_spec(name@, data@, indent as nat));
    out
}

} // verus!
