//! How the objects of an FBX document refer to each other.
//!
//! The `Objects` section lists geometries, materials, textures and models,
//! each with an id; the `Connections` section links them by id: a
//! geometry or a material to the model that uses it, a model to its parent
//! model, a texture to a channel of a material. This module resolves those
//! links to positions and decides the order in which models become scene
//! nodes, parents before their children.

use vstd::prelude::*;
use vstd::string::StringSliceAdditionalSpecFns;
use std::collections::HashMap;
use crate::fbx::{as_i64_spec, first_named, FbxDocument, FbxNode, FbxPropertyView};

verus! {

// ── Objects ──────────────────────────────────────────────────────────────

/// An object of the `Objects` section: its id and its position among the
/// section's children.
#[derive(Debug, Clone, Copy, PartialEq, Eq, Structural)]
pub struct ObjectEntry {
    pub id: i64,
    pub object: usize,
}

/// The kinds of object that take part in a scene.
#[derive(Debug, Clone, Copy, PartialEq, Eq, Structural)]
pub enum ObjectKind {
    Geometry,
    Material,
    Texture,
    Model,
}

pub open spec fn kind_name(k: ObjectKind) -> Seq<u8> {
    match k {
        ObjectKind::Geometry => "Geometry".spec_bytes(),
        ObjectKind::Material => "Material".spec_bytes(),
        ObjectKind::Texture => "Texture".spec_bytes(),
        ObjectKind::Model => "Model".spec_bytes(),
    }
}

/// Property `k` as an integer, or 0.
pub open spec fn prop_i64_or_zero(n: FbxNode, k: int) -> i64 {
    if 0 <= k < n.properties@.len() {
        match as_i64_spec(n.properties@[k]@) {
            Some(v) => v,
            None => 0,
        }
    } else {
        0
    }
}

/// Property `k` as a string, or the empty string.
pub open spec fn prop_str_or_empty(n: FbxNode, k: int) -> Seq<u8> {
    if 0 <= k < n.properties@.len() {
        match n.properties@[k]@ {
            FbxPropertyView::String(s) => s,
            _ => seq![],
        }
    } else {
        seq![]
    }
}

/// The first property of the first child named `name`.
pub open spec fn child_value(n: FbxNode, name: Seq<u8>) -> Option<FbxPropertyView> {
    match first_named(n.children@, name) {
        Some(i) => if n.children@[i as int].properties@.len() > 0 {
            Some(n.children@[i as int].properties@[0]@)
        } else {
            None
        },
        None => None,
    }
}

/// The length of a numeric array that reads as `f64` values: an `f64`
/// array, or an integer one (an ASCII array whose values are all
/// integers).
pub open spec fn f64_array_len(p: FbxPropertyView) -> Option<nat> {
    match p {
        FbxPropertyView::ArrFloat64(v) => Some(v.len()),
        FbxPropertyView::ArrFloat64Text(v) => Some(v.len()),
        FbxPropertyView::ArrInt32(v) => Some(v.len()),
        FbxPropertyView::ArrInt64(v) => Some(v.len()),
        _ => None,
    }
}

/// A geometry is kept when it has some vertex coordinates (a numeric
/// array) and some polygon vertex indices (an `i32` array).
pub open spec fn has_mesh_data(n: FbxNode) -> bool {
    &&& match child_value(n, "Vertices".spec_bytes()) {
        Some(p) => match f64_array_len(p) {
            Some(l) => l > 0,
            None => false,
        },
        None => false,
    }
    &&& match child_value(n, "PolygonVertexIndex".spec_bytes()) {
        Some(FbxPropertyView::ArrInt32(v)) => v.len() > 0,
        _ => false,
    }
}

/// Whether child `n` of `Objects` is an object of kind `k`.
pub open spec fn is_object(n: FbxNode, k: ObjectKind) -> bool {
    n.name@ == kind_name(k) && (k != ObjectKind::Geometry || has_mesh_data(n))
}

/// The objects of kind `k` among the first `n` children, in order.
pub open spec fn entries_of(ns: Seq<FbxNode>, k: ObjectKind, n: nat) -> Seq<ObjectEntry>
    decreases n,
{
    if n == 0 {
        seq![]
    } else {
        let rest = entries_of(ns, k, (n - 1) as nat);
        if is_object(ns[n - 1], k) {
            rest.push(ObjectEntry { id: prop_i64_or_zero(ns[n - 1], 0), object: (n - 1) as usize })
        } else {
            rest
        }
    }
}

/// The children of the first top-level node named `name`.
pub open spec fn section(doc: FbxDocument, name: Seq<u8>) -> Seq<FbxNode> {
    match first_named(doc.roots@, name) {
        Some(i) => doc.roots@[i as int].children@,
        None => seq![],
    }
}

/// The objects of kind `k` of a document.
pub open spec fn objects_of(doc: FbxDocument, k: ObjectKind) -> Seq<ObjectEntry> {
    let ns = section(doc, "Objects".spec_bytes());
    entries_of(ns, k, ns.len())
}

/// For each id, the position of the last entry with that id.
pub open spec fn index_map(es: Seq<ObjectEntry>) -> Map<i64, usize>
    decreases es.len(),
{
    if es.len() == 0 {
        Map::empty()
    } else {
        index_map(es.drop_last()).insert(es.last().id, (es.len() - 1) as usize)
    }
}

// ── Connections ──────────────────────────────────────────────────────────

/// The material channel that a texture link feeds.
#[derive(Debug, Clone, Copy, PartialEq, Eq, Structural)]
pub enum Channel {
    Diffuse,
    Normal,
    Other,
}

/// A connection: object to object (`OO`), or object to a property of an
/// object (`OP`, with the channel that the property names).
#[derive(Debug, Clone, Copy, PartialEq, Eq, Structural)]
pub struct Link {
    pub to_object: bool,
    pub src: i64,
    pub dst: i64,
    pub channel: Channel,
}

pub open spec fn channel_of(p: Seq<u8>) -> Channel {
    if p == "DiffuseColor".spec_bytes() || p == "Diffuse".spec_bytes() {
        Channel::Diffuse
    } else if p == "NormalMap".spec_bytes() || p == "Bump".spec_bytes() {
        Channel::Normal
    } else {
        Channel::Other
    }
}

/// The link a `C` node states: its type (first property), source and
/// destination ids (second and third), and for `OP` the property name
/// (fourth). Other types state none.
pub open spec fn link_of(c: FbxNode) -> Option<Link> {
    let t = prop_str_or_empty(c, 0);
    if t == "OO".spec_bytes() {
        Some(Link { to_object: true, src: prop_i64_or_zero(c, 1), dst: prop_i64_or_zero(c, 2), channel: Channel::Other })
    } else if t == "OP".spec_bytes() {
        Some(
            Link {
                to_object: false,
                src: prop_i64_or_zero(c, 1),
                dst: prop_i64_or_zero(c, 2),
                channel: channel_of(prop_str_or_empty(c, 3)),
            },
        )
    } else {
        None
    }
}

/// The links stated by the `C` nodes among the first `n` children.
pub open spec fn links_in(cs: Seq<FbxNode>, n: nat) -> Seq<Link>
    decreases n,
{
    if n == 0 {
        seq![]
    } else {
        let rest = links_in(cs, (n - 1) as nat);
        if cs[n - 1].name@ == "C".spec_bytes() {
            match link_of(cs[n - 1]) {
                Some(l) => rest.push(l),
                None => rest,
            }
        } else {
            rest
        }
    }
}

pub open spec fn links_of(doc: FbxDocument) -> Seq<Link> {
    let cs = section(doc, "Connections".spec_bytes());
    links_in(cs, cs.len())
}

// ── Resolution ───────────────────────────────────────────────────────────

/// For each material (by position), the texture (by position) that feeds
/// its diffuse and its normal channel; a later link wins.
pub struct TextureLinks {
    pub diffuse: Map<usize, usize>,
    pub normal: Map<usize, usize>,
}

pub open spec fn texture_links(ls: Seq<Link>, tex: Map<i64, usize>, mat: Map<i64, usize>) -> TextureLinks
    decreases ls.len(),
{
    if ls.len() == 0 {
        TextureLinks { diffuse: Map::empty(), normal: Map::empty() }
    } else {
        let st = texture_links(ls.drop_last(), tex, mat);
        let l = ls.last();
        if !l.to_object && tex.contains_key(l.src) && mat.contains_key(l.dst) {
            match l.channel {
                Channel::Diffuse => TextureLinks { diffuse: st.diffuse.insert(mat[l.dst], tex[l.src]), ..st },
                Channel::Normal => TextureLinks { normal: st.normal.insert(mat[l.dst], tex[l.src]), ..st },
                Channel::Other => st,
            }
        } else {
            st
        }
    }
}

/// For each model id: its geometry id (a later link wins), its first
/// material id, and its parent model id (a later link wins).
pub struct ModelLinks {
    pub geometry: Map<i64, i64>,
    pub material: Map<i64, i64>,
    pub parent: Map<i64, i64>,
}

pub open spec fn model_links(
    ls: Seq<Link>,
    geo: Map<i64, usize>,
    mat: Map<i64, usize>,
    model: Map<i64, usize>,
) -> ModelLinks
    decreases ls.len(),
{
    if ls.len() == 0 {
        ModelLinks { geometry: Map::empty(), material: Map::empty(), parent: Map::empty() }
    } else {
        let st = model_links(ls.drop_last(), geo, mat, model);
        let l = ls.last();
        if !l.to_object || !model.contains_key(l.dst) {
            st
        } else if geo.contains_key(l.src) {
            ModelLinks { geometry: st.geometry.insert(l.dst, l.src), ..st }
        } else if mat.contains_key(l.src) {
            if st.material.contains_key(l.dst) {
                st
            } else {
                ModelLinks { material: st.material.insert(l.dst, l.src), ..st }
            }
        } else if model.contains_key(l.src) {
            ModelLinks { parent: st.parent.insert(l.src, l.dst), ..st }
        } else {
            st
        }
    }
}

/// For each geometry id, a model that uses it: of the models (in order)
/// whose geometry it is, the last.
pub open spec fn owners(models: Seq<ObjectEntry>, geometry: Map<i64, i64>) -> Map<i64, i64>
    decreases models.len(),
{
    if models.len() == 0 {
        Map::empty()
    } else {
        let st = owners(models.drop_last(), geometry);
        let m = models.last();
        if geometry.contains_key(m.id) {
            st.insert(geometry[m.id], m.id)
        } else {
            st
        }
    }
}


// ── Scene nodes ──────────────────────────────────────────────────────────

/// A scene node made from a model: the model's id and position among the
/// models, the position of its parent node, and the geometry (by
/// position) it shows.
#[derive(Debug, Clone, Copy, PartialEq, Eq, Structural)]
pub struct NodeLink {
    pub id: i64,
    pub model: usize,
    pub parent: Option<usize>,
    pub mesh: Option<usize>,
}

/// For each model id, the position of the last node made for it.
pub open spec fn node_positions(created: Seq<NodeLink>) -> Map<i64, usize>
    decreases created.len(),
{
    if created.len() == 0 {
        Map::empty()
    } else {
        node_positions(created.drop_last()).insert(created.last().id, (created.len() - 1) as usize)
    }
}

/// What the node resolution reads: the positions of geometries and
/// models by id, and each model's geometry and parent.
pub struct LinkContext {
    pub geo: Map<i64, usize>,
    pub model: Map<i64, usize>,
    pub geometry: Map<i64, i64>,
    pub parent: Map<i64, i64>,
}

/// The position of the model with id `id` (always known for the ids that
/// are asked about; 0 otherwise).
pub open spec fn model_pos(cx: LinkContext, id: i64) -> usize {
    if cx.model.contains_key(id) {
        cx.model[id]
    } else {
        0
    }
}

/// The node for model `id`, made after `created`: a child of its parent's
/// node when that node exists, with its geometry's mesh.
pub open spec fn make_node(created: Seq<NodeLink>, id: i64, cx: LinkContext) -> NodeLink {
    let pm = node_positions(created);
    let par = cx.parent;
    let g = cx.geometry;
    NodeLink {
        id,
        model: model_pos(cx, id),
        parent: if par.contains_key(id) && pm.contains_key(par[id]) { Some(pm[par[id]]) } else { None },
        mesh: if g.contains_key(id) && cx.geo.contains_key(g[id]) { Some(cx.geo[g[id]]) } else { None },
    }
}

/// Makes the nodes of `batch` in order.
pub open spec fn make_batch(created: Seq<NodeLink>, batch: Seq<i64>, cx: LinkContext) -> Seq<NodeLink>
    decreases batch.len(),
{
    if batch.len() == 0 {
        created
    } else {
        make_batch(created.push(make_node(created, batch[0], cx)), batch.drop_first(), cx)
    }
}

/// Makes the nodes of `ids` as roots without meshes (models whose parents
/// are caught in a cycle).
pub open spec fn make_roots(created: Seq<NodeLink>, ids: Seq<i64>, cx: LinkContext) -> Seq<NodeLink>
    decreases ids.len(),
{
    if ids.len() == 0 {
        created
    } else {
        make_roots(
            created.push(NodeLink { id: ids[0], model: model_pos(cx, ids[0]), parent: None, mesh: None }),
            ids.drop_first(),
            cx,
        )
    }
}

/// Splits the waiting models into those whose parent has a node and the
/// rest, each in order. (A waiting model always has a parent link.)
pub open spec fn split_ready(created: Seq<NodeLink>, waiting: Seq<i64>, parent: Map<i64, i64>) -> (Seq<i64>, Seq<i64>)
    decreases waiting.len(),
{
    if waiting.len() == 0 {
        (seq![], seq![])
    } else {
        let (r, w) = split_ready(created, waiting.drop_last(), parent);
        let id = waiting.last();
        if parent.contains_key(id) && node_positions(created).contains_key(parent[id]) {
            (r.push(id), w)
        } else {
            (r, w.push(id))
        }
    }
}

/// Splitting the waiting models keeps each of them, in one part or the
/// other.
pub proof fn lemma_split_len(created: Seq<NodeLink>, waiting: Seq<i64>, parent: Map<i64, i64>)
    ensures
        split_ready(created, waiting, parent).0.len() + split_ready(created, waiting, parent).1.len() == waiting.len(),
    decreases waiting.len(),
{
    if waiting.len() > 0 {
        lemma_split_len(created, waiting.drop_last(), parent);
    }
}

/// Rounds of node making: the queued models and the waiting ones whose
/// parent now has a node are made, in that order; when none can be made
/// and some still wait, those become roots.
pub open spec fn build_nodes(created: Seq<NodeLink>, queue: Seq<i64>, waiting: Seq<i64>, cx: LinkContext) -> Seq<NodeLink>
    decreases queue.len() + waiting.len(),
{
    let (ready, rest) = split_ready(created, waiting, cx.parent);
    let batch = queue + ready;
    if batch.len() == 0 {
        make_roots(created, rest, cx)
    } else {
        proof {
            lemma_split_len(created, waiting, cx.parent);
        }
        build_nodes(make_batch(created, batch, cx), seq![], rest, cx)
    }
}

/// The ids of the models, in order, that have a parent link (`true`) or
/// have none (`false`).
pub open spec fn models_with_parent(models: Seq<ObjectEntry>, parent: Map<i64, i64>, with: bool) -> Seq<i64>
    decreases models.len(),
{
    if models.len() == 0 {
        seq![]
    } else {
        let rest = models_with_parent(models.drop_last(), parent, with);
        if parent.contains_key(models.last().id) == with {
            rest.push(models.last().id)
        } else {
            rest
        }
    }
}

/// The scene nodes, in the order they are made: models without a parent
/// link first, then rounds of those whose parent has a node.
pub open spec fn plan_nodes(models: Seq<ObjectEntry>, cx: LinkContext) -> Seq<NodeLink> {
    build_nodes(
        seq![],
        models_with_parent(models, cx.parent, false),
        models_with_parent(models, cx.parent, true),
        cx,
    )
}


// ── Reading objects and links ────────────────────────────────────────────

pub(crate) fn prop_i64_at(n: &FbxNode, k: usize) -> (r: i64)
    ensures
        r == prop_i64_or_zero(*n, k as int),
{
    if k < n.properties.len() {
        match n.properties[k].as_i64() {
            Some(v) => v,
            None => 0,
        }
    } else {
        0
    }
}

/// Whether property `k` of `n`, as a string (or empty), equals `lit`.
pub(crate) fn prop_str_is(n: &FbxNode, k: usize, lit: &[u8]) -> (r: bool)
    ensures
        r == (prop_str_or_empty(*n, k as int) == lit@),
{
    if lit.len() == 0 {
        assert(lit@ =~= Seq::<u8>::empty());
    }
    if k < n.properties.len() {
        match n.properties[k].as_str() {
            Some(s) => crate::text::eq_bytes(s.as_slice(), lit),
            None => lit.len() == 0,
        }
    } else {
        lit.len() == 0
    }
}

fn child_value_is_nonempty_f64(n: &FbxNode) -> (r: bool)
    ensures
        r == match child_value(*n, "Vertices".spec_bytes()) {
            Some(p) => match f64_array_len(p) {
                Some(l) => l > 0,
                None => false,
            },
            None => false,
        },
{
    let name = crate::stl::literal("Vertices");
    match n.child(name.as_slice()) {
        Some(c) => {
            if c.properties.len() == 0 {
                return false;
            }
            match &c.properties[0] {
                crate::fbx::FbxProperty::ArrFloat64(v) => v.len() > 0,
                crate::fbx::FbxProperty::ArrFloat64Text(v) => v.len() > 0,
                crate::fbx::FbxProperty::ArrInt32(v) => v.len() > 0,
                crate::fbx::FbxProperty::ArrInt64(v) => v.len() > 0,
                _ => false,
            }
        },
        None => false,
    }
}

fn child_value_is_nonempty_i32(n: &FbxNode) -> (r: bool)
    ensures
        r == match child_value(*n, "PolygonVertexIndex".spec_bytes()) {
            Some(FbxPropertyView::ArrInt32(v)) => v.len() > 0,
            _ => false,
        },
{
    let name = crate::stl::literal("PolygonVertexIndex");
    match n.child(name.as_slice()) {
        Some(c) => {
            if c.properties.len() == 0 {
                return false;
            }
            match &c.properties[0] {
                crate::fbx::FbxProperty::ArrInt32(v) => v.len() > 0,
                _ => false,
            }
        },
        None => false,
    }
}

fn kind_literal(k: ObjectKind) -> (r: Vec<u8>)
    ensures
        r@ == kind_name(k),
{
    match k {
        ObjectKind::Geometry => crate::stl::literal("Geometry"),
        ObjectKind::Material => crate::stl::literal("Material"),
        ObjectKind::Texture => crate::stl::literal("Texture"),
        ObjectKind::Model => crate::stl::literal("Model"),
    }
}

/// The objects of kind `k` among `ns`, in order.
pub fn collect_objects(ns: &Vec<FbxNode>, k: ObjectKind) -> (r: Vec<ObjectEntry>)
    ensures
        r@ == entries_of(ns@, k, ns@.len()),
{
    let name = kind_literal(k);
    let mut out: Vec<ObjectEntry> = Vec::new();
    let mut i: usize = 0;
    while i < ns.len()
        invariant
            i <= ns@.len(),
            name@ == kind_name(k),
            out@ == entries_of(ns@, k, i as nat),
        decreases ns@.len() - i,
    {
        let n = &ns[i];
        let keep = crate::text::eq_bytes(n.name.as_slice(), name.as_slice()) && (k != ObjectKind::Geometry || (
        child_value_is_nonempty_f64(n) && child_value_is_nonempty_i32(n)));
        if keep {
            out.push(ObjectEntry { id: prop_i64_at(n, 0), object: i });
        }
        i = i + 1;
    }
    out
}

/// For each id, the position of the last entry with that id.
pub fn build_index(es: &Vec<ObjectEntry>) -> (r: HashMap<i64, usize>)
    ensures
        r@ == index_map(es@),
{
    broadcast use vstd::std_specs::hash::group_hash_axioms;
    let mut m: HashMap<i64, usize> = HashMap::new();
    let mut i: usize = 0;
    while i < es.len()
        invariant
            i <= es@.len(),
            m@ == index_map(es@.take(i as int)),
        decreases es@.len() - i,
    {
        m.insert(es[i].id, i);
        assert(es@.take(i + 1).drop_last() =~= es@.take(i as int));
        i = i + 1;
    }
    assert(es@.take(i as int) =~= es@);
    m
}

/// The links stated by the `C` nodes among `cs`, in order.
pub fn collect_links(cs: &Vec<FbxNode>) -> (r: Vec<Link>)
    ensures
        r@ == links_in(cs@, cs@.len()),
{
    let c_name = crate::stl::literal("C");
    let oo = crate::stl::literal("OO");
    let op = crate::stl::literal("OP");
    let diffuse_color = crate::stl::literal("DiffuseColor");
    let diffuse = crate::stl::literal("Diffuse");
    let normal_map = crate::stl::literal("NormalMap");
    let bump = crate::stl::literal("Bump");
    let mut out: Vec<Link> = Vec::new();
    let mut i: usize = 0;
    while i < cs.len()
        invariant
            i <= cs@.len(),
            c_name@ == "C".spec_bytes(),
            oo@ == "OO".spec_bytes(),
            op@ == "OP".spec_bytes(),
            diffuse_color@ == "DiffuseColor".spec_bytes(),
            diffuse@ == "Diffuse".spec_bytes(),
            normal_map@ == "NormalMap".spec_bytes(),
            bump@ == "Bump".spec_bytes(),
            out@ == links_in(cs@, i as nat),
        decreases cs@.len() - i,
    {
        let c = &cs[i];
        if crate::text::eq_bytes(c.name.as_slice(), c_name.as_slice()) {
            if prop_str_is(c, 0, oo.as_slice()) {
                out.push(Link { to_object: true, src: prop_i64_at(c, 1), dst: prop_i64_at(c, 2), channel: Channel::Other });
            } else if prop_str_is(c, 0, op.as_slice()) {
                let channel = if prop_str_is(c, 3, diffuse_color.as_slice()) || prop_str_is(c, 3, diffuse.as_slice()) {
                    Channel::Diffuse
                } else if prop_str_is(c, 3, normal_map.as_slice()) || prop_str_is(c, 3, bump.as_slice()) {
                    Channel::Normal
                } else {
                    Channel::Other
                };
                out.push(Link { to_object: false, src: prop_i64_at(c, 1), dst: prop_i64_at(c, 2), channel });
            }
        }
        i = i + 1;
    }
    out
}


// ── Resolving links ──────────────────────────────────────────────────────

fn resolve_textures(ls: &Vec<Link>, tex: &HashMap<i64, usize>, mat: &HashMap<i64, usize>) -> (r: (
    HashMap<usize, usize>,
    HashMap<usize, usize>,
))
    ensures
        r.0@ == texture_links(ls@, tex@, mat@).diffuse,
        r.1@ == texture_links(ls@, tex@, mat@).normal,
{
    broadcast use vstd::std_specs::hash::group_hash_axioms;
    let mut diffuse: HashMap<usize, usize> = HashMap::new();
    let mut normal: HashMap<usize, usize> = HashMap::new();
    let mut i: usize = 0;
    while i < ls.len()
        invariant
            i <= ls@.len(),
            diffuse@ == texture_links(ls@.take(i as int), tex@, mat@).diffuse,
            normal@ == texture_links(ls@.take(i as int), tex@, mat@).normal,
        decreases ls@.len() - i,
    {
        let l = ls[i];
        assert(ls@.take(i + 1).drop_last() =~= ls@.take(i as int));
        if !l.to_object {
            match (tex.get(&l.src), mat.get(&l.dst)) {
                (Some(ti), Some(mi)) => {
                    match l.channel {
                        Channel::Diffuse => {
                            diffuse.insert(*mi, *ti);
                        },
                        Channel::Normal => {
                            normal.insert(*mi, *ti);
                        },
                        Channel::Other => {},
                    }
                },
                _ => {},
            }
        }
        i = i + 1;
    }
    assert(ls@.take(i as int) =~= ls@);
    (diffuse, normal)
}

fn resolve_models(
    ls: &Vec<Link>,
    geo: &HashMap<i64, usize>,
    mat: &HashMap<i64, usize>,
    model: &HashMap<i64, usize>,
) -> (r: (HashMap<i64, i64>, HashMap<i64, i64>, HashMap<i64, i64>))
    ensures
        r.0@ == model_links(ls@, geo@, mat@, model@).geometry,
        r.1@ == model_links(ls@, geo@, mat@, model@).material,
        r.2@ == model_links(ls@, geo@, mat@, model@).parent,
{
    broadcast use vstd::std_specs::hash::group_hash_axioms;
    let mut geometry: HashMap<i64, i64> = HashMap::new();
    let mut material: HashMap<i64, i64> = HashMap::new();
    let mut parent: HashMap<i64, i64> = HashMap::new();
    let mut i: usize = 0;
    while i < ls.len()
        invariant
            i <= ls@.len(),
            geometry@ == model_links(ls@.take(i as int), geo@, mat@, model@).geometry,
            material@ == model_links(ls@.take(i as int), geo@, mat@, model@).material,
            parent@ == model_links(ls@.take(i as int), geo@, mat@, model@).parent,
        decreases ls@.len() - i,
    {
        let l = ls[i];
        assert(ls@.take(i + 1).drop_last() =~= ls@.take(i as int));
        if l.to_object && model.contains_key(&l.dst) {
            if geo.contains_key(&l.src) {
                geometry.insert(l.dst, l.src);
            } else if mat.contains_key(&l.src) {
                if !material.contains_key(&l.dst) {
                    material.insert(l.dst, l.src);
                }
            } else if model.contains_key(&l.src) {
                parent.insert(l.src, l.dst);
            }
        }
        i = i + 1;
    }
    assert(ls@.take(i as int) =~= ls@);
    (geometry, material, parent)
}

fn resolve_owners(models: &Vec<ObjectEntry>, geometry: &HashMap<i64, i64>) -> (r: HashMap<i64, i64>)
    ensures
        r@ == owners(models@, geometry@),
{
    broadcast use vstd::std_specs::hash::group_hash_axioms;
    let mut own: HashMap<i64, i64> = HashMap::new();
    let mut i: usize = 0;
    while i < models.len()
        invariant
            i <= models@.len(),
            own@ == owners(models@.take(i as int), geometry@),
        decreases models@.len() - i,
    {
        let m = models[i];
        assert(models@.take(i + 1).drop_last() =~= models@.take(i as int));
        match geometry.get(&m.id) {
            Some(g) => {
                own.insert(*g, m.id);
            },
            None => {},
        }
        i = i + 1;
    }
    assert(models@.take(i as int) =~= models@);
    own
}


// ── Making the nodes ─────────────────────────────────────────────────────

fn node_of(
    created: &Vec<NodeLink>,
    pos: &HashMap<i64, usize>,
    id: i64,
    geo: &HashMap<i64, usize>,
    model: &HashMap<i64, usize>,
    geometry: &HashMap<i64, i64>,
    parent: &HashMap<i64, i64>,
) -> (r: NodeLink)
    requires
        pos@ == node_positions(created@),
    ensures
        r == make_node(created@, id, LinkContext { geo: geo@, model: model@, geometry: geometry@, parent: parent@ }),
{
    broadcast use vstd::std_specs::hash::group_hash_axioms;
    let m = match model.get(&id) {
        Some(m) => *m,
        None => 0,
    };
    let par = match parent.get(&id) {
        Some(p) => match pos.get(p) {
            Some(q) => Some(*q),
            None => None,
        },
        None => None,
    };
    let mesh = match geometry.get(&id) {
        Some(g) => match geo.get(g) {
            Some(q) => Some(*q),
            None => None,
        },
        None => None,
    };
    NodeLink { id, model: m, parent: par, mesh }
}

proof fn lemma_positions_push(created: Seq<NodeLink>, n: NodeLink)
    ensures
        node_positions(created.push(n)) == node_positions(created).insert(n.id, created.len() as usize),
{
    assert(created.push(n).drop_last() =~= created);
}

/// Splits `waiting` into the models whose parent has a node and the rest.
fn split_waiting(
    created: &Vec<NodeLink>,
    pos: &HashMap<i64, usize>,
    waiting: &Vec<i64>,
    parent: &HashMap<i64, i64>,
) -> (r: (Vec<i64>, Vec<i64>))
    requires
        pos@ == node_positions(created@),
    ensures
        (r.0@, r.1@) == split_ready(created@, waiting@, parent@),
{
    broadcast use vstd::std_specs::hash::group_hash_axioms;
    let mut ready: Vec<i64> = Vec::new();
    let mut rest: Vec<i64> = Vec::new();
    let mut i: usize = 0;
    while i < waiting.len()
        invariant
            i <= waiting@.len(),
            pos@ == node_positions(created@),
            (ready@, rest@) == split_ready(created@, waiting@.take(i as int), parent@),
        decreases waiting@.len() - i,
    {
        let id = waiting[i];
        assert(waiting@.take(i + 1).drop_last() =~= waiting@.take(i as int));
        assert(waiting@.take(i + 1).last() == id);
        let has = match parent.get(&id) {
            Some(p) => pos.contains_key(p),
            None => false,
        };
        if has {
            ready.push(id);
        } else {
            rest.push(id);
        }
        i = i + 1;
    }
    assert(waiting@.take(i as int) =~= waiting@);
    (ready, rest)
}


fn split_models(models: &Vec<ObjectEntry>, parent: &HashMap<i64, i64>) -> (r: (Vec<i64>, Vec<i64>))
    ensures
        r.0@ == models_with_parent(models@, parent@, false),
        r.1@ == models_with_parent(models@, parent@, true),
{
    broadcast use vstd::std_specs::hash::group_hash_axioms;
    let mut roots: Vec<i64> = Vec::new();
    let mut kids: Vec<i64> = Vec::new();
    let mut i: usize = 0;
    while i < models.len()
        invariant
            i <= models@.len(),
            roots@ == models_with_parent(models@.take(i as int), parent@, false),
            kids@ == models_with_parent(models@.take(i as int), parent@, true),
        decreases models@.len() - i,
    {
        let id = models[i].id;
        assert(models@.take(i + 1).drop_last() =~= models@.take(i as int));
        if parent.contains_key(&id) {
            kids.push(id);
        } else {
            roots.push(id);
        }
        i = i + 1;
    }
    assert(models@.take(i as int) =~= models@);
    (roots, kids)
}

/// Makes the scene nodes for the models, parents before children.
fn make_nodes(
    models: &Vec<ObjectEntry>,
    geo: &HashMap<i64, usize>,
    model: &HashMap<i64, usize>,
    geometry: &HashMap<i64, i64>,
    parent: &HashMap<i64, i64>,
) -> (r: Vec<NodeLink>)
    ensures
        r@ == plan_nodes(models@, LinkContext { geo: geo@, model: model@, geometry: geometry@, parent: parent@ }),
{
    broadcast use vstd::std_specs::hash::group_hash_axioms;
    let ghost cx = LinkContext { geo: geo@, model: model@, geometry: geometry@, parent: parent@ };
    let (mut queue, mut waiting) = split_models(models, parent);
    let mut created: Vec<NodeLink> = Vec::new();
    let mut pos: HashMap<i64, usize> = HashMap::new();
    assert(created@ =~= Seq::<NodeLink>::empty());
    loop
        invariant
            cx == (LinkContext { geo: geo@, model: model@, geometry: geometry@, parent: parent@ }),
            pos@ == node_positions(created@),
            plan_nodes(models@, cx) == build_nodes(created@, queue@, waiting@, cx),
        decreases queue@.len() + waiting@.len(),
    {
        let (ready, rest) = split_waiting(&created, &pos, &waiting, parent);
        proof {
            lemma_split_len(created@, waiting@, parent@);
        }
        let mut batch = queue;
        let mut ready = ready;
        batch.append(&mut ready);
        if batch.len() == 0 {
            let ghost c0 = created@;
            let mut j: usize = 0;
            assert(rest@.skip(0) =~= rest@);
            while j < rest.len()
                invariant
                    j <= rest@.len(),
                    cx == (LinkContext { geo: geo@, model: model@, geometry: geometry@, parent: parent@ }),
                    make_roots(c0, rest@, cx) == make_roots(created@, rest@.skip(j as int), cx),
                decreases rest@.len() - j,
            {
                let id = rest[j];
                let m = match model.get(&id) {
                    Some(m) => *m,
                    None => 0,
                };
                assert(rest@.skip(j as int).drop_first() =~= rest@.skip(j + 1));
                created.push(NodeLink { id, model: m, parent: None, mesh: None });
                j = j + 1;
            }
            assert(rest@.skip(j as int) =~= Seq::<i64>::empty());
            return created;
        }
        let ghost c0 = created@;
        let mut j: usize = 0;
        assert(batch@.skip(0) =~= batch@);
        while j < batch.len()
            invariant
                j <= batch@.len(),
                cx == (LinkContext { geo: geo@, model: model@, geometry: geometry@, parent: parent@ }),
                pos@ == node_positions(created@),
                make_batch(c0, batch@, cx) == make_batch(created@, batch@.skip(j as int), cx),
            decreases batch@.len() - j,
        {
            let id = batch[j];
            let node = node_of(&created, &pos, id, geo, model, geometry, parent);
            assert(batch@.skip(j as int).drop_first() =~= batch@.skip(j + 1));
            proof {
                lemma_positions_push(created@, node);
            }
            let at = created.len();
            created.push(node);
            pos.insert(id, at);
            j = j + 1;
        }
        assert(batch@.skip(j as int) =~= Seq::<i64>::empty());
        queue = Vec::new();
        waiting = rest;
        assert(queue@ =~= Seq::<i64>::empty());
    }
}


// ── The whole document ───────────────────────────────────────────────────

pub open spec fn map_get<K, V>(m: Map<K, V>, k: K) -> Option<V> {
    if m.contains_key(k) {
        Some(m[k])
    } else {
        None
    }
}

/// The material (by position) of a geometry: the first material linked to
/// the model that uses it.
pub open spec fn geometry_material(gid: i64, own: Map<i64, i64>, first: Map<i64, i64>, mat: Map<i64, usize>) -> Option<usize> {
    if own.contains_key(gid) && first.contains_key(own[gid]) && mat.contains_key(first[own[gid]]) {
        Some(mat[first[own[gid]]])
    } else {
        None
    }
}

/// A geometry and the material its mesh uses.
#[derive(Debug, Clone, Copy, PartialEq, Eq, Structural)]
pub struct GeometryLink {
    pub entry: ObjectEntry,
    pub material: Option<usize>,
}

/// A material and the textures (by position) of its diffuse and normal
/// channels.
#[derive(Debug, Clone, Copy, PartialEq, Eq, Structural)]
pub struct MaterialLink {
    pub entry: ObjectEntry,
    pub diffuse: Option<usize>,
    pub normal: Option<usize>,
}

/// The resolved object graph of a document.
pub struct FbxLinks {
    pub geometries: Vec<GeometryLink>,
    pub materials: Vec<MaterialLink>,
    pub textures: Vec<ObjectEntry>,
    pub models: Vec<ObjectEntry>,
    pub nodes: Vec<NodeLink>,
}

pub struct FbxLinksView {
    pub geometries: Seq<GeometryLink>,
    pub materials: Seq<MaterialLink>,
    pub textures: Seq<ObjectEntry>,
    pub models: Seq<ObjectEntry>,
    pub nodes: Seq<NodeLink>,
}

impl View for FbxLinks {
    type V = FbxLinksView;

    open spec fn view(&self) -> FbxLinksView {
        FbxLinksView {
            geometries: self.geometries@,
            materials: self.materials@,
            textures: self.textures@,
            models: self.models@,
            nodes: self.nodes@,
        }
    }
}

/// The object graph of `doc`.
pub open spec fn links_spec(doc: FbxDocument) -> FbxLinksView {
    let geos = objects_of(doc, ObjectKind::Geometry);
    let mats = objects_of(doc, ObjectKind::Material);
    let texs = objects_of(doc, ObjectKind::Texture);
    let models = objects_of(doc, ObjectKind::Model);
    let (gmap, mmap, tmap, modmap) = (index_map(geos), index_map(mats), index_map(texs), index_map(models));
    let ls = links_of(doc);
    let tl = texture_links(ls, tmap, mmap);
    let ml = model_links(ls, gmap, mmap, modmap);
    let own = owners(models, ml.geometry);
    FbxLinksView {
        geometries: Seq::new(
            geos.len(),
            |i: int| GeometryLink { entry: geos[i], material: geometry_material(geos[i].id, own, ml.material, mmap) },
        ),
        materials: Seq::new(
            mats.len(),
            |i: int| MaterialLink { entry: mats[i], diffuse: map_get(tl.diffuse, i as usize), normal: map_get(tl.normal, i as usize) },
        ),
        textures: texs,
        models,
        nodes: plan_nodes(models, LinkContext { geo: gmap, model: modmap, geometry: ml.geometry, parent: ml.parent }),
    }
}

/// Resolves the object graph of `doc`: which material and textures each
/// geometry and material use, and the scene nodes with their parents and
/// meshes.
pub fn link_scene(doc: &FbxDocument) -> (r: FbxLinks)
    ensures
        r@ == links_spec(*doc),
{
    let empty: Vec<FbxNode> = Vec::new();
    let objects_name = crate::stl::literal("Objects");
    let objects: &Vec<FbxNode> = match doc.find(objects_name.as_slice()) {
        Some(n) => &n.children,
        None => &empty,
    };
    assert(objects@ == section(*doc, "Objects".spec_bytes()));
    let geos = collect_objects(objects, ObjectKind::Geometry);
    let mats = collect_objects(objects, ObjectKind::Material);
    let texs = collect_objects(objects, ObjectKind::Texture);
    let models = collect_objects(objects, ObjectKind::Model);
    let gmap = build_index(&geos);
    let mmap = build_index(&mats);
    let tmap = build_index(&texs);
    let modmap = build_index(&models);
    let conns_name = crate::stl::literal("Connections");
    let conns: &Vec<FbxNode> = match doc.find(conns_name.as_slice()) {
        Some(n) => &n.children,
        None => &empty,
    };
    assert(conns@ == section(*doc, "Connections".spec_bytes()));
    let ls = collect_links(conns);
    let (diffuse, normal) = resolve_textures(&ls, &tmap, &mmap);
    let (geometry, first_mat, parent) = resolve_models(&ls, &gmap, &mmap, &modmap);
    let own = resolve_owners(&models, &geometry);
    let ghost spec = links_spec(*doc);
    let mut glinks: Vec<GeometryLink> = Vec::new();
    let mut i: usize = 0;
    while i < geos.len()
        invariant
            i <= geos@.len(),
            spec == links_spec(*doc),
            geos@ == objects_of(*doc, ObjectKind::Geometry),
            mats@ == objects_of(*doc, ObjectKind::Material),
            texs@ == objects_of(*doc, ObjectKind::Texture),
            models@ == objects_of(*doc, ObjectKind::Model),
            gmap@ == index_map(geos@),
            mmap@ == index_map(mats@),
            tmap@ == index_map(texs@),
            modmap@ == index_map(models@),
            ls@ == links_of(*doc),
            own@ == owners(models@, geometry@),
            geometry@ == model_links(ls@, gmap@, mmap@, modmap@).geometry,
            first_mat@ == model_links(ls@, gmap@, mmap@, modmap@).material,
            glinks@ =~= spec.geometries.take(i as int),
        decreases geos@.len() - i,
    {
        broadcast use vstd::std_specs::hash::group_hash_axioms;
        let g = geos[i];
        let material = match own.get(&g.id) {
            Some(m) => match first_mat.get(m) {
                Some(f) => match mmap.get(f) {
                    Some(q) => Some(*q),
                    None => None,
                },
                None => None,
            },
            None => None,
        };
        assert(spec.geometries[i as int] == GeometryLink { entry: g, material });
        glinks.push(GeometryLink { entry: g, material });
        i = i + 1;
    }
    let mut mlinks: Vec<MaterialLink> = Vec::new();
    let mut i: usize = 0;
    while i < mats.len()
        invariant
            i <= mats@.len(),
            spec == links_spec(*doc),
            geos@ == objects_of(*doc, ObjectKind::Geometry),
            mats@ == objects_of(*doc, ObjectKind::Material),
            texs@ == objects_of(*doc, ObjectKind::Texture),
            models@ == objects_of(*doc, ObjectKind::Model),
            gmap@ == index_map(geos@),
            mmap@ == index_map(mats@),
            tmap@ == index_map(texs@),
            modmap@ == index_map(models@),
            ls@ == links_of(*doc),
            diffuse@ == texture_links(ls@, tmap@, mmap@).diffuse,
            normal@ == texture_links(ls@, tmap@, mmap@).normal,
            mlinks@ =~= spec.materials.take(i as int),
        decreases mats@.len() - i,
    {
        broadcast use vstd::std_specs::hash::group_hash_axioms;
        let d = match diffuse.get(&i) {
            Some(t) => Some(*t),
            None => None,
        };
        let n = match normal.get(&i) {
            Some(t) => Some(*t),
            None => None,
        };
        assert(spec.materials[i as int] == MaterialLink { entry: mats[i as int], diffuse: d, normal: n });
        mlinks.push(MaterialLink { entry: mats[i], diffuse: d, normal: n });
        i = i + 1;
    }
    let nodes = make_nodes(&models, &gmap, &modmap, &geometry, &parent);
    assert(glinks@ =~= spec.geometries);
    assert(mlinks@ =~= spec.materials);
    FbxLinks { geometries: glinks, materials: mlinks, textures: texs, models, nodes }
}


// ── Parents come first ───────────────────────────────────────────────────

/// Every node's parent node was made before it.
pub open spec fn parents_first(created: Seq<NodeLink>) -> bool {
    forall|i: int| 0 <= i < created.len() ==> match #[trigger] created[i].parent {
        Some(p) => p < i,
        None => true,
    }
}

proof fn lemma_positions_bound(created: Seq<NodeLink>)
    ensures
        forall|k: i64| #[trigger] node_positions(created).contains_key(k) ==> node_positions(created)[k] < created.len(),
    decreases created.len(),
{
    if created.len() > 0 {
        let prev = created.drop_last();
        lemma_positions_bound(prev);
        let m = node_positions(created);
        assert(m == node_positions(prev).insert(created.last().id, (created.len() - 1) as usize));
        assert forall|k: i64| #[trigger] m.contains_key(k) implies m[k] < created.len() by {
            if k != created.last().id {
                assert(node_positions(prev).contains_key(k));
            }
        }
    }
}

proof fn lemma_batch_parents_first(created: Seq<NodeLink>, batch: Seq<i64>, cx: LinkContext)
    requires
        parents_first(created),
    ensures
        parents_first(make_batch(created, batch, cx)),
    decreases batch.len(),
{
    if batch.len() > 0 {
        let n = make_node(created, batch[0], cx);
        lemma_positions_bound(created);
        let c2 = created.push(n);
        assert forall|i: int| 0 <= i < c2.len() implies match #[trigger] c2[i].parent {
            Some(p) => p < i,
            None => true,
        } by {
            if i < created.len() {
                assert(c2[i] == created[i]);
            }
        }
        lemma_batch_parents_first(c2, batch.drop_first(), cx);
    }
}

proof fn lemma_roots_parents_first(created: Seq<NodeLink>, ids: Seq<i64>, cx: LinkContext)
    requires
        parents_first(created),
    ensures
        parents_first(make_roots(created, ids, cx)),
    decreases ids.len(),
{
    if ids.len() > 0 {
        let c2 = created.push(NodeLink { id: ids[0], model: model_pos(cx, ids[0]), parent: None, mesh: None });
        assert forall|i: int| 0 <= i < c2.len() implies match #[trigger] c2[i].parent {
            Some(p) => p < i,
            None => true,
        } by {
            if i < created.len() {
                assert(c2[i] == created[i]);
            }
        }
        lemma_roots_parents_first(c2, ids.drop_first(), cx);
    }
}

proof fn lemma_build_parents_first(created: Seq<NodeLink>, queue: Seq<i64>, waiting: Seq<i64>, cx: LinkContext)
    requires
        parents_first(created),
    ensures
        parents_first(build_nodes(created, queue, waiting, cx)),
    decreases queue.len() + waiting.len(),
{
    let (ready, rest) = split_ready(created, waiting, cx.parent);
    let batch = queue + ready;
    if batch.len() == 0 {
        lemma_roots_parents_first(created, rest, cx);
    } else {
        lemma_split_len(created, waiting, cx.parent);
        lemma_batch_parents_first(created, batch, cx);
        lemma_build_parents_first(make_batch(created, batch, cx), seq![], rest, cx);
    }
}

/// Scene nodes are made parents first: a node's parent always comes
/// earlier in the node list.
pub proof fn lemma_parents_first(models: Seq<ObjectEntry>, cx: LinkContext)
    ensures
        parents_first(plan_nodes(models, cx)),
{
    lemma_build_parents_first(
        seq![],
        models_with_parent(models, cx.parent, false),
        models_with_parent(models, cx.parent, true),
        cx,
    );
}


// ── Loading ──────────────────────────────────────────────────────────────

/// How sure a first look at a file is that it is FBX.
#[derive(Debug, Clone, Copy, PartialEq, Eq, Structural)]
pub enum FbxDetect {
    /// The binary magic.
    Binary,
    /// An ASCII opening comment.
    Ascii,
    /// Neither.
    Unknown,
}

/// The two encodings of an FBX file.
#[derive(Debug, Clone, Copy, PartialEq, Eq, Structural)]
pub enum FbxVariant {
    Binary,
    Ascii,
}

/// Reads FBX files, binary or ASCII.
pub struct FbxLoader;

impl FbxLoader {
    /// A first look at the leading bytes (up to 64): the binary magic, or
    /// `; FBX` / `;FBX` at the very start.
    pub fn detect(&self, head: &[u8]) -> (r: FbxDetect)
        ensures
            r == (if head@.len() >= 23 && head@.take(23) == crate::fbx::fbx_magic() {
                FbxDetect::Binary
            } else if crate::text::begins_with(head@, "; FBX".spec_bytes()) || crate::text::begins_with(
                head@,
                ";FBX".spec_bytes(),
            ) {
                FbxDetect::Ascii
            } else {
                FbxDetect::Unknown
            }),
    {
        if crate::fbx::detect_binary(head) {
            return FbxDetect::Binary;
        }
        let a = crate::stl::literal("; FBX");
        let b = crate::stl::literal(";FBX");
        if crate::text::starts_with(head, a.as_slice()) || crate::text::starts_with(head, b.as_slice()) {
            FbxDetect::Ascii
        } else {
            FbxDetect::Unknown
        }
    }

    /// Which parser a file goes to: binary when it opens with the magic,
    /// else ASCII when its first 16 bytes (after a byte-order mark) are
    /// UTF-8 opening with `; FBX` or `;FBX`; `None` when it is neither.
    pub fn variant(&self, data: &[u8]) -> (r: Option<FbxVariant>)
        ensures
            r == (if data@.len() >= 23 && data@.take(23) == crate::fbx::fbx_magic() {
                Some(FbxVariant::Binary)
            } else if crate::fbx_ascii::looks_ascii(data@.take(if data@.len() < 16 { data@.len() as int } else { 16 })) {
                Some(FbxVariant::Ascii)
            } else {
                None
            }),
    {
        if crate::fbx::detect_binary(data) {
            return Some(FbxVariant::Binary);
        }
        let n = if data.len() < 16 { data.len() } else { 16 };
        let head = vstd::slice::slice_subrange(data, 0, n);
        assert(head@ =~= data@.take(n as int));
        if crate::fbx_ascii::detect_ascii(head) {
            Some(FbxVariant::Ascii)
        } else {
            None
        }
    }
}


// ── Reading single objects ───────────────────────────────────────────────

/// The bytes of `s` before its first NUL.
pub open spec fn before_nul(s: Seq<u8>) -> Seq<u8>
    decreases s.len(),
{
    if s.len() == 0 {
        seq![]
    } else if s[0] == 0 {
        seq![]
    } else {
        seq![s[0]] + before_nul(s.drop_first())
    }
}

/// The name of an object: its second property as a string (empty when it
/// is not one), up to the first NUL (binary files append the class after
/// one).
pub open spec fn object_label(n: FbxNode) -> Seq<u8> {
    before_nul(prop_str_or_empty(n, 1))
}

pub fn object_label_of(n: &FbxNode) -> (r: Vec<u8>)
    ensures
        r@ == object_label(*n),
{
    let empty: Vec<u8> = Vec::new();
    let s: &Vec<u8> = match n.object_name() {
        Some(s) => s,
        None => &empty,
    };
    assert(s@ == prop_str_or_empty(*n, 1));
    let mut out: Vec<u8> = Vec::new();
    let mut i: usize = 0;
    assert(s@.skip(0) =~= s@);
    assert(out@ + before_nul(s@) =~= before_nul(s@));
    while i < s.len() && s[i] != 0
        invariant
            i <= s@.len(),
            forall|k: int| 0 <= k < i ==> s@[k] != 0,
            out@ == s@.take(i as int),
            before_nul(s@) == out@ + before_nul(s@.skip(i as int)),
        decreases s@.len() - i,
    {
        assert(s@.skip(i as int).drop_first() =~= s@.skip(i + 1));
        assert(out@.push(s[i as int]) =~= s@.take(i + 1));
        assert(out@ + (seq![s@[i as int]] + before_nul(s@.skip(i + 1))) =~= out@.push(s@[i as int]) + before_nul(
            s@.skip(i + 1),
        ));
        out.push(s[i]);
        i = i + 1;
    }
    assert(out@ + Seq::<u8>::empty() =~= out@);
    out
}

/// The first property of `n`'s first child named `name`, as a string
/// (empty when there is no such child or it is no string).
pub open spec fn child_str(n: FbxNode, name: Seq<u8>) -> Option<Seq<u8>> {
    match first_named(n.children@, name) {
        Some(i) => Some(prop_str_or_empty(n.children@[i as int], 0)),
        None => None,
    }
}

/// The file a texture object names: its `FileName` child's string, else
/// its `RelativeFilename` child's; empty when it has neither.
pub open spec fn texture_file_spec(n: FbxNode) -> Seq<u8> {
    match child_str(n, "FileName".spec_bytes()) {
        Some(s) => s,
        None => match child_str(n, "RelativeFilename".spec_bytes()) {
            Some(s) => s,
            None => seq![],
        },
    }
}

fn first_str_or_empty(n: &FbxNode) -> (r: Vec<u8>)
    ensures
        r@ == prop_str_or_empty(*n, 0),
{
    match n.as_str() {
        Some(s) => crate::text::copy_range(s.as_slice(), 0, s.len()),
        None => Vec::new(),
    }
}

pub fn texture_file(n: &FbxNode) -> (r: Vec<u8>)
    ensures
        r@ == texture_file_spec(*n),
{
    let a = crate::stl::literal("FileName");
    match n.child(a.as_slice()) {
        Some(c) => first_str_or_empty(c),
        None => {
            let b = crate::stl::literal("RelativeFilename");
            match n.child(b.as_slice()) {
                Some(c) => first_str_or_empty(c),
                None => Vec::new(),
            }
        },
    }
}

/// How a geometry layer's values are indexed: its
/// `MappingInformationType`, per polygon corner when it gives none.
pub open spec fn layer_mapping_spec(geo: FbxNode, layer: Seq<u8>) -> crate::fbx::MappingMode {
    match first_named(geo.children@, layer) {
        Some(i) => {
            let l = geo.children@[i as int];
            match first_named(l.children@, "MappingInformationType".spec_bytes()) {
                Some(j) => match l.children@[j as int].properties@.len() > 0 {
                    true => match l.children@[j as int].properties@[0]@ {
                        FbxPropertyView::String(s) => crate::fbx::mapping_mode_of(s),
                        _ => crate::fbx::MappingMode::ByPolygonVertex,
                    },
                    false => crate::fbx::MappingMode::ByPolygonVertex,
                },
                None => crate::fbx::MappingMode::ByPolygonVertex,
            }
        },
        None => crate::fbx::MappingMode::ByPolygonVertex,
    }
}

pub fn layer_mapping(geo: &FbxNode, layer: &[u8]) -> (r: crate::fbx::MappingMode)
    ensures
        r == layer_mapping_spec(*geo, layer@),
{
    let key = crate::stl::literal("MappingInformationType");
    match geo.child(layer) {
        Some(l) => match l.child(key.as_slice()) {
            Some(m) => match m.as_str() {
                Some(s) => {
                    if crate::text::eq_bytes(s.as_slice(), "ByVertex".as_bytes()) || crate::text::eq_bytes(
                        s.as_slice(),
                        "ByVertice".as_bytes(),
                    ) || crate::text::eq_bytes(s.as_slice(), "ByControlPoint".as_bytes()) {
                        crate::fbx::MappingMode::ByVertex
                    } else {
                        crate::fbx::MappingMode::ByPolygonVertex
                    }
                },
                None => crate::fbx::MappingMode::ByPolygonVertex,
            },
            None => crate::fbx::MappingMode::ByPolygonVertex,
        },
        None => crate::fbx::MappingMode::ByPolygonVertex,
    }
}

/// The values of a geometry layer: the first property of the layer's child
/// `key`, when it is a numeric array.
pub open spec fn layer_values_spec(geo: FbxNode, layer: Seq<u8>, key: Seq<u8>) -> Option<FbxPropertyView> {
    match first_named(geo.children@, layer) {
        Some(i) => match child_value(geo.children@[i as int], key) {
            Some(p) => if f64_array_len(p) is Some {
                Some(p)
            } else {
                None
            },
            None => None,
        },
        None => None,
    }
}

pub fn layer_values<'a>(geo: &'a FbxNode, layer: &[u8], key: &[u8]) -> (r: Option<&'a crate::fbx::FbxProperty>)
    ensures
        match (r, layer_values_spec(*geo, layer@, key@)) {
            (Some(p), Some(sp)) => p@ == sp,
            (None, None) => true,
            _ => false,
        },
{
    match geo.child(layer) {
        Some(l) => match l.child(key) {
            Some(c) => {
                if c.properties.len() == 0 {
                    return None;
                }
                let p = &c.properties[0];
                match p {
                    crate::fbx::FbxProperty::ArrFloat64(_) => Some(p),
                    crate::fbx::FbxProperty::ArrFloat64Text(_) => Some(p),
                    crate::fbx::FbxProperty::ArrInt32(_) => Some(p),
                    crate::fbx::FbxProperty::ArrInt64(_) => Some(p),
                    _ => None,
                }
            },
            None => None,
        },
        None => None,
    }
}

/// How a layer's values are found for a slot: the slot itself, or the
/// entry of the layer's index array at the slot.
#[derive(Debug, Clone, Copy, PartialEq, Eq, Structural)]
pub enum LayerReference {
    Direct,
    IndexToDirect,
}

/// A layer's `ReferenceInformationType`: `IndexToDirect` (or its older
/// name `Index`) goes through the index array; anything else, or none, is
/// direct.
pub open spec fn layer_reference_spec(geo: FbxNode, layer: Seq<u8>) -> LayerReference {
    match first_named(geo.children@, layer) {
        Some(i) => match child_value(geo.children@[i as int], "ReferenceInformationType".spec_bytes()) {
            Some(FbxPropertyView::String(s)) => if s == "IndexToDirect".spec_bytes() || s == "Index".spec_bytes() {
                LayerReference::IndexToDirect
            } else {
                LayerReference::Direct
            },
            _ => LayerReference::Direct,
        },
        None => LayerReference::Direct,
    }
}

pub fn layer_reference(geo: &FbxNode, layer: &[u8]) -> (r: LayerReference)
    ensures
        r == layer_reference_spec(*geo, layer@),
{
    let key = crate::stl::literal("ReferenceInformationType");
    match geo.child(layer) {
        Some(l) => match l.child(key.as_slice()) {
            Some(c) => {
                if c.properties.len() == 0 {
                    return LayerReference::Direct;
                }
                match &c.properties[0] {
                    crate::fbx::FbxProperty::String(s) => {
                        if crate::text::eq_bytes(s.as_slice(), "IndexToDirect".as_bytes()) || crate::text::eq_bytes(
                            s.as_slice(),
                            "Index".as_bytes(),
                        ) {
                            LayerReference::IndexToDirect
                        } else {
                            LayerReference::Direct
                        }
                    },
                    _ => LayerReference::Direct,
                }
            },
            None => LayerReference::Direct,
        },
        None => LayerReference::Direct,
    }
}

/// A layer's index array (such as `UVIndex` or `NormalsIndex`): the first
/// property of the layer's child `key`, when it is an `i32` array.
pub open spec fn layer_indices_spec(geo: FbxNode, layer: Seq<u8>, key: Seq<u8>) -> Option<Seq<i32>> {
    match first_named(geo.children@, layer) {
        Some(i) => match child_value(geo.children@[i as int], key) {
            Some(FbxPropertyView::ArrInt32(v)) => Some(v),
            _ => None,
        },
        None => None,
    }
}

pub fn layer_indices<'a>(geo: &'a FbxNode, layer: &[u8], key: &[u8]) -> (r: Option<&'a Vec<i32>>)
    ensures
        match (r, layer_indices_spec(*geo, layer@, key@)) {
            (Some(v), Some(sv)) => v@ == sv,
            (None, None) => true,
            _ => false,
        },
{
    match geo.child(layer) {
        Some(l) => match l.child(key) {
            Some(c) => {
                if c.properties.len() == 0 {
                    return None;
                }
                match &c.properties[0] {
                    crate::fbx::FbxProperty::ArrInt32(v) => Some(v),
                    _ => None,
                }
            },
            None => None,
        },
        None => None,
    }
}

/// Where a slot's value sits in a layer: the slot itself for a direct
/// layer; through the index array otherwise, where a missing array, a slot
/// past its end or a negative entry gives none.
pub open spec fn resolve_slot_spec(slot: usize, reference: LayerReference, indices: Option<Seq<i32>>) -> Option<usize> {
    match reference {
        LayerReference::Direct => Some(slot),
        LayerReference::IndexToDirect => match indices {
            Some(ix) => if slot < ix.len() && ix[slot as int] >= 0 {
                Some(ix[slot as int] as usize)
            } else {
                None
            },
            None => None,
        },
    }
}

pub fn resolve_slot(slot: usize, reference: LayerReference, indices: Option<&Vec<i32>>) -> (r: Option<usize>)
    ensures
        r == resolve_slot_spec(
            slot,
            reference,
            match indices {
                Some(v) => Some(v@),
                None => None,
            },
        ),
{
    match reference {
        LayerReference::Direct => Some(slot),
        LayerReference::IndexToDirect => match indices {
            Some(ix) => {
                if slot < ix.len() && ix[slot] >= 0 {
                    Some(ix[slot] as usize)
                } else {
                    None
                }
            },
            None => None,
        },
    }
}

/// Among the first `n` children, the last `P` node whose first property
/// (a string) is `a` or `b`.
pub open spec fn last_p(ns: Seq<FbxNode>, a: Seq<u8>, b: Seq<u8>, n: nat) -> Option<usize>
    decreases n,
{
    if n == 0 {
        None
    } else {
        let c = ns[n - 1];
        let has = c.properties@.len() > 0 && c.properties@[0]@ is String;
        if c.name@ == "P".spec_bytes() && has && (prop_str_or_empty(c, 0) == a || prop_str_or_empty(c, 0) == b) {
            Some((n - 1) as usize)
        } else {
            last_p(ns, a, b, (n - 1) as nat)
        }
    }
}

/// The `P` node (by position among the `Properties70` children) that sets
/// a property named `a` or `b`: the last one, as later ones override.
pub open spec fn setting_of(obj: FbxNode, a: Seq<u8>, b: Seq<u8>) -> Option<usize> {
    match first_named(obj.children@, "Properties70".spec_bytes()) {
        Some(i) => {
            let ps = obj.children@[i as int].children@;
            last_p(ps, a, b, ps.len())
        },
        None => None,
    }
}

pub fn find_setting(obj: &FbxNode, a: &[u8], b: &[u8]) -> (r: Option<usize>)
    ensures
        r == setting_of(*obj, a@, b@),
{
    let p70 = crate::stl::literal("Properties70");
    let p_name = crate::stl::literal("P");
    match obj.child(p70.as_slice()) {
        Some(props) => {
            let mut k = props.children.len();
            while k > 0
                invariant
                    k <= props.children@.len(),
                    p_name@ == "P".spec_bytes(),
                    setting_of(*obj, a@, b@) == last_p(props.children@, a@, b@, props.children@.len()),
                    last_p(props.children@, a@, b@, props.children@.len()) == last_p(props.children@, a@, b@, k as nat),
                decreases k,
            {
                let c = &props.children[k - 1];
                if crate::text::eq_bytes(c.name.as_slice(), p_name.as_slice()) {
                    match c.as_str() {
                        Some(s) => {
                            if crate::text::eq_bytes(s.as_slice(), a) || crate::text::eq_bytes(s.as_slice(), b) {
                                assert(prop_str_or_empty(*c, 0) == s@);
                                return Some(k - 1);
                            }
                        },
                        None => {},
                    }
                }
                k = k - 1;
            }
            None
        },
        None => None,
    }
}

} // verus!
