//! Animations of an FBX document: which objects make up each animation.
//!
//! An `AnimationStack` is one animation. An `AnimationLayer` belongs to a
//! stack, and an `AnimationCurveNode` to a layer, each by an object link.
//! A curve node animates the translation, rotation or scaling of a model
//! (a property link named `Lcl Translation`, `Lcl Rotation` or `Lcl
//! Scaling`), and its X, Y and Z components are `AnimationCurve`s linked to
//! it by property links named `d|X`, `d|Y` and `d|Z`. Each curve node
//! with a target in a stack's layers is one channel of that animation; its
//! keys are those of its first component curve.

use vstd::prelude::*;
use vstd::string::StringSliceAdditionalSpecFns;
use std::collections::HashMap;
use crate::fbx::{first_named, FbxDocument, FbxNode, FbxPropertyView};
use crate::fbx_scene::{
    build_index, child_value, f64_array_len, index_map, prop_i64_at, prop_i64_or_zero, prop_str_is, prop_str_or_empty,
    section, ObjectEntry,
};

verus! {

/// The objects named `name` among the first `n` children, in order.
pub open spec fn named_entries(ns: Seq<FbxNode>, name: Seq<u8>, n: nat) -> Seq<ObjectEntry>
    decreases n,
{
    if n == 0 {
        seq![]
    } else {
        let rest = named_entries(ns, name, (n - 1) as nat);
        if ns[n - 1].name@ == name {
            rest.push(ObjectEntry { id: prop_i64_or_zero(ns[n - 1], 0), object: (n - 1) as usize })
        } else {
            rest
        }
    }
}

/// The objects named `name` in a document's `Objects` section.
pub open spec fn named_objects(doc: FbxDocument, name: Seq<u8>) -> Seq<ObjectEntry> {
    let ns = section(doc, "Objects".spec_bytes());
    named_entries(ns, name, ns.len())
}

/// What a property link names, for animations.
#[derive(Debug, Clone, Copy, PartialEq, Eq, Structural)]
pub enum AnimProp {
    Translation,
    Rotation,
    Scaling,
    X,
    Y,
    Z,
    Other,
}

pub open spec fn anim_prop_of(p: Seq<u8>) -> AnimProp {
    if p == "Lcl Translation".spec_bytes() {
        AnimProp::Translation
    } else if p == "Lcl Rotation".spec_bytes() {
        AnimProp::Rotation
    } else if p == "Lcl Scaling".spec_bytes() {
        AnimProp::Scaling
    } else if p == "d|X".spec_bytes() {
        AnimProp::X
    } else if p == "d|Y".spec_bytes() {
        AnimProp::Y
    } else if p == "d|Z".spec_bytes() {
        AnimProp::Z
    } else {
        AnimProp::Other
    }
}

/// A connection as the animation reader sees it.
#[derive(Debug, Clone, Copy, PartialEq, Eq, Structural)]
pub struct AnimLink {
    pub to_object: bool,
    pub src: i64,
    pub dst: i64,
    pub prop: AnimProp,
}

pub open spec fn anim_link_of(c: FbxNode) -> Option<AnimLink> {
    let t = prop_str_or_empty(c, 0);
    if t == "OO".spec_bytes() {
        Some(AnimLink { to_object: true, src: prop_i64_or_zero(c, 1), dst: prop_i64_or_zero(c, 2), prop: AnimProp::Other })
    } else if t == "OP".spec_bytes() {
        Some(
            AnimLink {
                to_object: false,
                src: prop_i64_or_zero(c, 1),
                dst: prop_i64_or_zero(c, 2),
                prop: anim_prop_of(prop_str_or_empty(c, 3)),
            },
        )
    } else {
        None
    }
}

/// The links stated by the `C` nodes among the first `n` children.
pub open spec fn anim_links_in(cs: Seq<FbxNode>, n: nat) -> Seq<AnimLink>
    decreases n,
{
    if n == 0 {
        seq![]
    } else {
        let rest = anim_links_in(cs, (n - 1) as nat);
        if cs[n - 1].name@ == "C".spec_bytes() {
            match anim_link_of(cs[n - 1]) {
                Some(l) => rest.push(l),
                None => rest,
            }
        } else {
            rest
        }
    }
}

/// The ids of the objects each animation object is linked to (a later
/// link wins): a layer's stack, a curve node's layer, a curve node's model
/// and property, and a curve node's X, Y and Z curves.
pub struct AnimMaps {
    pub layer_stack: Map<i64, i64>,
    pub node_layer: Map<i64, i64>,
    pub node_target: Map<i64, (i64, AnimProp)>,
    pub curve_x: Map<i64, i64>,
    pub curve_y: Map<i64, i64>,
    pub curve_z: Map<i64, i64>,
}

/// The ids of the objects of each kind.
pub struct AnimIds {
    pub stacks: Map<i64, usize>,
    pub layers: Map<i64, usize>,
    pub nodes: Map<i64, usize>,
    pub curves: Map<i64, usize>,
    pub models: Map<i64, usize>,
}

pub open spec fn anim_maps(ls: Seq<AnimLink>, ids: AnimIds) -> AnimMaps
    decreases ls.len(),
{
    if ls.len() == 0 {
        AnimMaps {
            layer_stack: Map::empty(),
            node_layer: Map::empty(),
            node_target: Map::empty(),
            curve_x: Map::empty(),
            curve_y: Map::empty(),
            curve_z: Map::empty(),
        }
    } else {
        let st = anim_maps(ls.drop_last(), ids);
        let l = ls.last();
        if l.to_object {
            if ids.layers.contains_key(l.src) && ids.stacks.contains_key(l.dst) {
                AnimMaps { layer_stack: st.layer_stack.insert(l.src, l.dst), ..st }
            } else if ids.nodes.contains_key(l.src) && ids.layers.contains_key(l.dst) {
                AnimMaps { node_layer: st.node_layer.insert(l.src, l.dst), ..st }
            } else {
                st
            }
        } else if ids.nodes.contains_key(l.src) && ids.models.contains_key(l.dst) && (l.prop == AnimProp::Translation
            || l.prop == AnimProp::Rotation || l.prop == AnimProp::Scaling) {
            AnimMaps { node_target: st.node_target.insert(l.src, (l.dst, l.prop)), ..st }
        } else if ids.curves.contains_key(l.src) && ids.nodes.contains_key(l.dst) {
            if l.prop == AnimProp::X {
                AnimMaps { curve_x: st.curve_x.insert(l.dst, l.src), ..st }
            } else if l.prop == AnimProp::Y {
                AnimMaps { curve_y: st.curve_y.insert(l.dst, l.src), ..st }
            } else if l.prop == AnimProp::Z {
                AnimMaps { curve_z: st.curve_z.insert(l.dst, l.src), ..st }
            } else {
                st
            }
        } else {
            st
        }
    }
}

/// A channel of an animation: the model (by position among the models)
/// and the property it animates, its X, Y and Z curves (by position among
/// the curves), and how many keys it has.
#[derive(Debug, Clone, Copy, PartialEq, Eq, Structural)]
pub struct ChannelPlan {
    pub model: usize,
    pub target: AnimProp,
    pub x: Option<usize>,
    pub y: Option<usize>,
    pub z: Option<usize>,
    pub key_count: usize,
}

/// The number of keys of a curve: the length of its `KeyTime` array
/// (integer ticks, or the same written with decimal points), else 0.
pub open spec fn key_count_of(curve: FbxNode) -> nat {
    match child_value(curve, "KeyTime".spec_bytes()) {
        Some(p) => match f64_array_len(p) {
            Some(l) => l,
            None => 0,
        },
        None => 0,
    }
}

/// The curve (by position) linked to a curve node for one component.
pub open spec fn curve_pos(m: Map<i64, i64>, node: i64, curves: Map<i64, usize>) -> Option<usize> {
    if m.contains_key(node) && curves.contains_key(m[node]) {
        Some(curves[m[node]])
    } else {
        None
    }
}

/// The first of the X, Y, Z curves that is there.
pub open spec fn first_curve(x: Option<usize>, y: Option<usize>, z: Option<usize>) -> Option<usize> {
    if x is Some {
        x
    } else if y is Some {
        y
    } else {
        z
    }
}

/// Whether curve node `node` belongs, through its layer, to stack `stack`
/// and has a target.
pub open spec fn in_stack(m: AnimMaps, node: i64, stack: i64) -> bool {
    &&& m.node_layer.contains_key(node)
    &&& m.layer_stack.contains_key(m.node_layer[node])
    &&& m.layer_stack[m.node_layer[node]] == stack
    &&& m.node_target.contains_key(node)
}

pub open spec fn channel_of_node(
    objects: Seq<FbxNode>,
    curves: Seq<ObjectEntry>,
    m: AnimMaps,
    ids: AnimIds,
    node: i64,
) -> ChannelPlan {
    let x = curve_pos(m.curve_x, node, ids.curves);
    let y = curve_pos(m.curve_y, node, ids.curves);
    let z = curve_pos(m.curve_z, node, ids.curves);
    ChannelPlan {
        model: ids.models[m.node_target[node].0],
        target: m.node_target[node].1,
        x,
        y,
        z,
        key_count: match first_curve(x, y, z) {
            Some(c) => key_count_of(objects[curves[c as int].object as int]) as usize,
            None => 0,
        },
    }
}

/// The channels of stack `stack`: one per curve node among the first `n`
/// (in order) that belongs to it and has a target.
pub open spec fn stack_channels(
    objects: Seq<FbxNode>,
    nodes: Seq<ObjectEntry>,
    curves: Seq<ObjectEntry>,
    m: AnimMaps,
    ids: AnimIds,
    stack: i64,
    n: nat,
) -> Seq<ChannelPlan>
    decreases n,
{
    if n == 0 {
        seq![]
    } else {
        let rest = stack_channels(objects, nodes, curves, m, ids, stack, (n - 1) as nat);
        let node = nodes[n - 1].id;
        if in_stack(m, node, stack) {
            rest.push(channel_of_node(objects, curves, m, ids, node))
        } else {
            rest
        }
    }
}

/// An animation: its stack (by position in `Objects`) and its channels.
pub struct AnimPlan {
    pub stack: usize,
    pub channels: Vec<ChannelPlan>,
}

pub struct AnimPlanView {
    pub stack: usize,
    pub channels: Seq<ChannelPlan>,
}

impl View for AnimPlan {
    type V = AnimPlanView;

    open spec fn view(&self) -> AnimPlanView {
        AnimPlanView { stack: self.stack, channels: self.channels@ }
    }
}

pub open spec fn doc_ids(doc: FbxDocument) -> AnimIds {
    AnimIds {
        stacks: index_map(named_objects(doc, "AnimationStack".spec_bytes())),
        layers: index_map(named_objects(doc, "AnimationLayer".spec_bytes())),
        nodes: index_map(named_objects(doc, "AnimationCurveNode".spec_bytes())),
        curves: index_map(named_objects(doc, "AnimationCurve".spec_bytes())),
        models: index_map(crate::fbx_scene::objects_of(doc, crate::fbx_scene::ObjectKind::Model)),
    }
}

/// The animations of a document: one per `AnimationStack`, in order, each
/// with the channels of its curve nodes.
pub open spec fn animations_spec(doc: FbxDocument) -> Seq<AnimPlanView> {
    let objects = section(doc, "Objects".spec_bytes());
    let cs = section(doc, "Connections".spec_bytes());
    let ids = doc_ids(doc);
    let m = anim_maps(anim_links_in(cs, cs.len()), ids);
    let stacks = named_objects(doc, "AnimationStack".spec_bytes());
    let nodes = named_objects(doc, "AnimationCurveNode".spec_bytes());
    let curves = named_objects(doc, "AnimationCurve".spec_bytes());
    Seq::new(
        stacks.len(),
        |k: int|
            AnimPlanView {
                stack: stacks[k].object,
                channels: stack_channels(objects, nodes, curves, m, ids, stacks[k].id, nodes.len()),
            },
    )
}


// ── Reading ──────────────────────────────────────────────────────────────

/// The objects named `name` among `ns`, in order.
pub fn collect_named(ns: &Vec<FbxNode>, name: &[u8]) -> (r: Vec<ObjectEntry>)
    ensures
        r@ == named_entries(ns@, name@, ns@.len()),
{
    let mut out: Vec<ObjectEntry> = Vec::new();
    let mut i: usize = 0;
    while i < ns.len()
        invariant
            i <= ns@.len(),
            out@ == named_entries(ns@, name@, i as nat),
        decreases ns@.len() - i,
    {
        let n = &ns[i];
        if crate::text::eq_bytes(n.name.as_slice(), name) {
            out.push(ObjectEntry { id: prop_i64_at(n, 0), object: i });
        }
        i = i + 1;
    }
    out
}

/// The connections among `cs` as the animation reader sees them.
pub fn collect_anim_links(cs: &Vec<FbxNode>) -> (r: Vec<AnimLink>)
    ensures
        r@ == anim_links_in(cs@, cs@.len()),
{
    let c_name = crate::stl::literal("C");
    let oo = crate::stl::literal("OO");
    let op = crate::stl::literal("OP");
    let t = crate::stl::literal("Lcl Translation");
    let r = crate::stl::literal("Lcl Rotation");
    let sc = crate::stl::literal("Lcl Scaling");
    let dx = crate::stl::literal("d|X");
    let dy = crate::stl::literal("d|Y");
    let dz = crate::stl::literal("d|Z");
    let mut out: Vec<AnimLink> = Vec::new();
    let mut i: usize = 0;
    while i < cs.len()
        invariant
            i <= cs@.len(),
            c_name@ == "C".spec_bytes(),
            oo@ == "OO".spec_bytes(),
            op@ == "OP".spec_bytes(),
            t@ == "Lcl Translation".spec_bytes(),
            r@ == "Lcl Rotation".spec_bytes(),
            sc@ == "Lcl Scaling".spec_bytes(),
            dx@ == "d|X".spec_bytes(),
            dy@ == "d|Y".spec_bytes(),
            dz@ == "d|Z".spec_bytes(),
            out@ == anim_links_in(cs@, i as nat),
        decreases cs@.len() - i,
    {
        let c = &cs[i];
        if crate::text::eq_bytes(c.name.as_slice(), c_name.as_slice()) {
            if prop_str_is(c, 0, oo.as_slice()) {
                out.push(AnimLink { to_object: true, src: prop_i64_at(c, 1), dst: prop_i64_at(c, 2), prop: AnimProp::Other });
            } else if prop_str_is(c, 0, op.as_slice()) {
                let prop = if prop_str_is(c, 3, t.as_slice()) {
                    AnimProp::Translation
                } else if prop_str_is(c, 3, r.as_slice()) {
                    AnimProp::Rotation
                } else if prop_str_is(c, 3, sc.as_slice()) {
                    AnimProp::Scaling
                } else if prop_str_is(c, 3, dx.as_slice()) {
                    AnimProp::X
                } else if prop_str_is(c, 3, dy.as_slice()) {
                    AnimProp::Y
                } else if prop_str_is(c, 3, dz.as_slice()) {
                    AnimProp::Z
                } else {
                    AnimProp::Other
                };
                out.push(AnimLink { to_object: false, src: prop_i64_at(c, 1), dst: prop_i64_at(c, 2), prop });
            }
        }
        i = i + 1;
    }
    out
}

struct AnimTables {
    layer_stack: HashMap<i64, i64>,
    node_layer: HashMap<i64, i64>,
    node_target: HashMap<i64, (i64, AnimProp)>,
    curve_x: HashMap<i64, i64>,
    curve_y: HashMap<i64, i64>,
    curve_z: HashMap<i64, i64>,
}

spec fn tables_view(t: AnimTables) -> AnimMaps {
    AnimMaps {
        layer_stack: t.layer_stack@,
        node_layer: t.node_layer@,
        node_target: t.node_target@,
        curve_x: t.curve_x@,
        curve_y: t.curve_y@,
        curve_z: t.curve_z@,
    }
}

fn resolve_anim(
    ls: &Vec<AnimLink>,
    stacks: &HashMap<i64, usize>,
    layers: &HashMap<i64, usize>,
    nodes: &HashMap<i64, usize>,
    curves: &HashMap<i64, usize>,
    models: &HashMap<i64, usize>,
) -> (r: AnimTables)
    ensures
        tables_view(r) == anim_maps(
            ls@,
            AnimIds { stacks: stacks@, layers: layers@, nodes: nodes@, curves: curves@, models: models@ },
        ),
{
    broadcast use vstd::std_specs::hash::group_hash_axioms;
    let ghost ids = AnimIds { stacks: stacks@, layers: layers@, nodes: nodes@, curves: curves@, models: models@ };
    let mut t = AnimTables {
        layer_stack: HashMap::new(),
        node_layer: HashMap::new(),
        node_target: HashMap::new(),
        curve_x: HashMap::new(),
        curve_y: HashMap::new(),
        curve_z: HashMap::new(),
    };
    let mut i: usize = 0;
    assert(ls@.take(0) =~= Seq::<AnimLink>::empty());
    assert(tables_view(t) == anim_maps(ls@.take(0), ids));
    while i < ls.len()
        invariant
            i <= ls@.len(),
            ids == (AnimIds { stacks: stacks@, layers: layers@, nodes: nodes@, curves: curves@, models: models@ }),
            tables_view(t) == anim_maps(ls@.take(i as int), ids),
        decreases ls@.len() - i,
    {
        let l = ls[i];
        assert(ls@.take(i + 1).drop_last() =~= ls@.take(i as int));
        assert(ls@.take(i + 1).last() == l);
        if l.to_object {
            if layers.contains_key(&l.src) && stacks.contains_key(&l.dst) {
                t.layer_stack.insert(l.src, l.dst);
            } else if nodes.contains_key(&l.src) && layers.contains_key(&l.dst) {
                t.node_layer.insert(l.src, l.dst);
            }
        } else if nodes.contains_key(&l.src) && models.contains_key(&l.dst) && (l.prop == AnimProp::Translation || l.prop
            == AnimProp::Rotation || l.prop == AnimProp::Scaling) {
            t.node_target.insert(l.src, (l.dst, l.prop));
        } else if curves.contains_key(&l.src) && nodes.contains_key(&l.dst) {
            if l.prop == AnimProp::X {
                t.curve_x.insert(l.dst, l.src);
            } else if l.prop == AnimProp::Y {
                t.curve_y.insert(l.dst, l.src);
            } else if l.prop == AnimProp::Z {
                t.curve_z.insert(l.dst, l.src);
            }
        }
        i = i + 1;
    }
    assert(ls@.take(i as int) =~= ls@);
    t
}


proof fn lemma_index_map_bound(es: Seq<ObjectEntry>)
    ensures
        forall|k: i64| #[trigger] index_map(es).contains_key(k) ==> index_map(es)[k] < es.len(),
    decreases es.len(),
{
    if es.len() > 0 {
        lemma_index_map_bound(es.drop_last());
        let prev = index_map(es.drop_last());
        assert forall|k: i64| #[trigger] index_map(es).contains_key(k) implies index_map(es)[k] < es.len() by {
            if k != es.last().id {
                assert(prev.contains_key(k));
            }
        }
    }
}

pub(crate) proof fn lemma_named_bound(ns: Seq<FbxNode>, name: Seq<u8>, n: nat)
    ensures
        forall|i: int| 0 <= i < named_entries(ns, name, n).len() ==> #[trigger] named_entries(ns, name, n)[i].object < n,
    decreases n,
{
    if n > 0 {
        lemma_named_bound(ns, name, (n - 1) as nat);
        let rest = named_entries(ns, name, (n - 1) as nat);
        assert forall|i: int| 0 <= i < named_entries(ns, name, n).len() implies #[trigger] named_entries(ns, name, n)[i].object < n by {
            if i < rest.len() {
                assert(named_entries(ns, name, n)[i] == rest[i]);
            }
        }
    }
}

proof fn lemma_targets(ls: Seq<AnimLink>, ids: AnimIds)
    ensures
        forall|k: i64| #[trigger] anim_maps(ls, ids).node_target.contains_key(k) ==> ids.models.contains_key(
            anim_maps(ls, ids).node_target[k].0,
        ),
    decreases ls.len(),
{
    if ls.len() > 0 {
        lemma_targets(ls.drop_last(), ids);
        let st = anim_maps(ls.drop_last(), ids);
        let l = ls.last();
        let now = anim_maps(ls, ids);
        assert forall|k: i64| #[trigger] now.node_target.contains_key(k) implies ids.models.contains_key(
            now.node_target[k].0,
        ) by {
            if !l.to_object && ids.nodes.contains_key(l.src) && ids.models.contains_key(l.dst) && (l.prop
                == AnimProp::Translation || l.prop == AnimProp::Rotation || l.prop == AnimProp::Scaling) {
                if k != l.src {
                    assert(st.node_target.contains_key(k));
                }
            } else {
                assert(now.node_target == st.node_target);
            }
        }
    }
}

/// The number of keys of a curve.
fn key_count(n: &FbxNode) -> (r: usize)
    ensures
        r as nat == key_count_of(*n),
{
    let name = crate::stl::literal("KeyTime");
    match n.child(name.as_slice()) {
        Some(c) => {
            if c.properties.len() == 0 {
                return 0;
            }
            match &c.properties[0] {
                crate::fbx::FbxProperty::ArrFloat64(v) => v.len(),
                crate::fbx::FbxProperty::ArrFloat64Text(v) => v.len(),
                crate::fbx::FbxProperty::ArrInt32(v) => v.len(),
                crate::fbx::FbxProperty::ArrInt64(v) => v.len(),
                _ => 0,
            }
        },
        None => 0,
    }
}

fn curve_pos_of(m: &HashMap<i64, i64>, node: i64, curves: &HashMap<i64, usize>) -> (r: Option<usize>)
    ensures
        r == curve_pos(m@, node, curves@),
{
    match m.get(&node) {
        Some(c) => match curves.get(c) {
            Some(p) => Some(*p),
            None => None,
        },
        None => None,
    }
}

/// The animations of a document: one per `AnimationStack`, in order, each
/// with a channel for every curve node of its layers that animates a
/// model's translation, rotation or scaling.
pub fn animations(doc: &FbxDocument) -> (r: Vec<AnimPlan>)
    ensures
        r@.map_values(|a: AnimPlan| a@) == animations_spec(*doc),
{
    broadcast use vstd::std_specs::hash::group_hash_axioms;
    let empty: Vec<FbxNode> = Vec::new();
    let objects_name = crate::stl::literal("Objects");
    let objects: &Vec<FbxNode> = match doc.find(objects_name.as_slice()) {
        Some(n) => &n.children,
        None => &empty,
    };
    assert(objects@ == section(*doc, "Objects".spec_bytes()));
    let conns_name = crate::stl::literal("Connections");
    let conns: &Vec<FbxNode> = match doc.find(conns_name.as_slice()) {
        Some(n) => &n.children,
        None => &empty,
    };
    assert(conns@ == section(*doc, "Connections".spec_bytes()));
    let stacks = collect_named(objects, crate::stl::literal("AnimationStack").as_slice());
    let layers = collect_named(objects, crate::stl::literal("AnimationLayer").as_slice());
    let nodes = collect_named(objects, crate::stl::literal("AnimationCurveNode").as_slice());
    let curves = collect_named(objects, crate::stl::literal("AnimationCurve").as_slice());
    let models = crate::fbx_scene::collect_objects(objects, crate::fbx_scene::ObjectKind::Model);
    let smap = build_index(&stacks);
    let lmap = build_index(&layers);
    let nmap = build_index(&nodes);
    let cmap = build_index(&curves);
    let mmap = build_index(&models);
    let ls = collect_anim_links(conns);
    let t = resolve_anim(&ls, &smap, &lmap, &nmap, &cmap, &mmap);
    let ghost ids = doc_ids(*doc);
    let ghost m = tables_view(t);
    let ghost spec = animations_spec(*doc);
    proof {
        lemma_index_map_bound(curves@);
        lemma_named_bound(objects@, "AnimationCurve".spec_bytes(), objects@.len());
        lemma_targets(ls@, ids);
    }
    let mut out: Vec<AnimPlan> = Vec::new();
    let mut k: usize = 0;
    while k < stacks.len()
        invariant
            k <= stacks@.len(),
            stacks@ == named_objects(*doc, "AnimationStack".spec_bytes()),
            nodes@ == named_objects(*doc, "AnimationCurveNode".spec_bytes()),
            curves@ == named_objects(*doc, "AnimationCurve".spec_bytes()),
            objects@ == section(*doc, "Objects".spec_bytes()),
            ids == doc_ids(*doc),
            m == tables_view(t),
            m == anim_maps(anim_links_in(section(*doc, "Connections".spec_bytes()), section(*doc, "Connections".spec_bytes()).len()), ids),
            cmap@ == ids.curves,
            mmap@ == ids.models,
            spec == animations_spec(*doc),
            spec.len() == stacks@.len(),
            forall|c: i64| #[trigger] ids.curves.contains_key(c) ==> ids.curves[c] < curves@.len(),
            forall|i: int| 0 <= i < curves@.len() ==> #[trigger] curves@[i].object < objects@.len(),
            forall|q: i64| #[trigger] m.node_target.contains_key(q) ==> ids.models.contains_key(m.node_target[q].0),
            out@.map_values(|a: AnimPlan| a@) == spec.take(k as int),
        decreases stacks@.len() - k,
    {
        let sid = stacks[k].id;
        let mut chans: Vec<ChannelPlan> = Vec::new();
        let mut j: usize = 0;
        while j < nodes.len()
            invariant
                j <= nodes@.len(),
                k < stacks@.len(),
                sid == stacks@[k as int].id,
                nodes@ == named_objects(*doc, "AnimationCurveNode".spec_bytes()),
                curves@ == named_objects(*doc, "AnimationCurve".spec_bytes()),
                objects@ == section(*doc, "Objects".spec_bytes()),
                m == tables_view(t),
                cmap@ == ids.curves,
                mmap@ == ids.models,
                forall|c: i64| #[trigger] ids.curves.contains_key(c) ==> ids.curves[c] < curves@.len(),
                forall|i: int| 0 <= i < curves@.len() ==> #[trigger] curves@[i].object < objects@.len(),
                forall|q: i64| #[trigger] m.node_target.contains_key(q) ==> ids.models.contains_key(m.node_target[q].0),
                chans@ == stack_channels(objects@, nodes@, curves@, m, ids, sid, j as nat),
            decreases nodes@.len() - j,
        {
            let nid = nodes[j].id;
            let belongs = match t.node_layer.get(&nid) {
                Some(layer) => match t.layer_stack.get(layer) {
                    Some(s) => *s == sid && t.node_target.contains_key(&nid),
                    None => false,
                },
                None => false,
            };
            if belongs {
                let (target_id, prop) = *t.node_target.get(&nid).unwrap();
                let model = *mmap.get(&target_id).unwrap();
                let x = curve_pos_of(&t.curve_x, nid, &cmap);
                let y = curve_pos_of(&t.curve_y, nid, &cmap);
                let z = curve_pos_of(&t.curve_z, nid, &cmap);
                let first = if x.is_some() {
                    x
                } else if y.is_some() {
                    y
                } else {
                    z
                };
                let key_count = match first {
                    Some(c) => {
                        let obj = curves[c].object;
                        key_count(&objects[obj])
                    },
                    None => 0,
                };
                let ch = ChannelPlan { model, target: prop, x, y, z, key_count };
                assert(ch == channel_of_node(objects@, curves@, m, ids, nid));
                chans.push(ch);
            }
            j = j + 1;
        }
        let ghost before = out@.map_values(|a: AnimPlan| a@);
        proof {
            assert(spec[k as int].channels == chans@);
            assert(spec[k as int].stack == stacks@[k as int].object);
        }
        let plan = AnimPlan { stack: stacks[k].object, channels: chans };
        assert(plan@ == spec[k as int]);
        out.push(plan);
        assert(out@.map_values(|a: AnimPlan| a@) =~= before.push(spec[k as int]));
        assert(spec.take(k + 1) =~= spec.take(k as int).push(spec[k as int]));
        k = k + 1;
    }
    assert(spec.take(k as int) =~= spec);
    out
}

} // verus!
