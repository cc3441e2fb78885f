//! Cameras and lights of an FBX document.
//!
//! A camera or a light is a `NodeAttribute` object whose class (its third
//! property) is `Camera` or `Light`, attached by an object link to the
//! model that places it. Which projection a camera uses and which kind a
//! light is are integer settings: `CameraProjectionType` (0 perspective,
//! 1 orthographic) and `LightType` (0 point, 1 directional, 2 spot, 3
//! area). Their measures (field of view, clip planes, intensity) are
//! floating-point values that the caller reads from the object.

use vstd::prelude::*;
use vstd::string::StringSliceAdditionalSpecFns;
use std::collections::HashMap;
use crate::fbx::{first_named, FbxDocument, FbxNode};
use crate::fbx_anim::{collect_named, lemma_named_bound, named_objects};
use crate::fbx_scene::{
    build_index, collect_links, collect_objects, find_setting, index_map, last_p, links_of, objects_of, prop_i64_at,
    prop_i64_or_zero, prop_str_is, prop_str_or_empty, section, setting_of, Link, ObjectEntry, ObjectKind,
};

verus! {

/// What a node attribute describes.
#[derive(Debug, Clone, Copy, PartialEq, Eq, Structural)]
pub enum AttrKind {
    Camera,
    Light,
}

/// A camera or light: its object (by position in `Objects`), the model
/// it is attached to (by position among the models), its kind and its
/// projection or light type.
#[derive(Debug, Clone, Copy, PartialEq, Eq, Structural)]
pub struct AttrPlan {
    pub object: usize,
    pub model: usize,
    pub kind: AttrKind,
    pub setting: i64,
}

/// The kind an object's class names, if it is a camera or a light.
pub open spec fn attr_kind_of(n: FbxNode) -> Option<AttrKind> {
    let c = prop_str_or_empty(n, 2);
    if c == "Camera".spec_bytes() {
        Some(AttrKind::Camera)
    } else if c == "Light".spec_bytes() {
        Some(AttrKind::Light)
    } else {
        None
    }
}

/// The name of the integer setting of each kind.
pub open spec fn setting_name(k: AttrKind) -> Seq<u8> {
    match k {
        AttrKind::Camera => "CameraProjectionType".spec_bytes(),
        AttrKind::Light => "LightType".spec_bytes(),
    }
}

/// The integer a setting holds (value 5 of its `P` node), 0 when unset.
pub open spec fn setting_value(n: FbxNode, name: Seq<u8>) -> i64 {
    match (setting_of(n, name, name), first_named(n.children@, "Properties70".spec_bytes())) {
        (Some(i), Some(p)) => prop_i64_or_zero(n.children@[p as int].children@[i as int], 4),
        _ => 0,
    }
}

/// For each attribute (by id), the model (by position) that the last
/// object link from it to a model names.
pub open spec fn attached(ls: Seq<Link>, attrs: Map<i64, usize>, models: Map<i64, usize>) -> Map<i64, usize>
    decreases ls.len(),
{
    if ls.len() == 0 {
        Map::empty()
    } else {
        let rest = attached(ls.drop_last(), attrs, models);
        let l = ls.last();
        if l.to_object && attrs.contains_key(l.src) && models.contains_key(l.dst) {
            rest.insert(l.src, models[l.dst])
        } else {
            rest
        }
    }
}

/// The cameras and lights among the attributes `es`, in order: those of
/// class `Camera` or `Light` that are attached to a model.
pub open spec fn attr_plans(objects: Seq<FbxNode>, es: Seq<ObjectEntry>, att: Map<i64, usize>) -> Seq<AttrPlan>
    decreases es.len(),
{
    if es.len() == 0 {
        seq![]
    } else {
        let rest = attr_plans(objects, es.drop_last(), att);
        let e = es.last();
        let n = objects[e.object as int];
        match attr_kind_of(n) {
            Some(k) => if att.contains_key(e.id) {
                rest.push(AttrPlan { object: e.object, model: att[e.id], kind: k, setting: setting_value(n, setting_name(k)) })
            } else {
                rest
            },
            None => rest,
        }
    }
}

/// The cameras and lights of a document.
pub open spec fn attrs_spec(doc: FbxDocument) -> Seq<AttrPlan> {
    let es = named_objects(doc, "NodeAttribute".spec_bytes());
    let att = attached(links_of(doc), index_map(es), index_map(objects_of(doc, ObjectKind::Model)));
    attr_plans(section(doc, "Objects".spec_bytes()), es, att)
}

proof fn lemma_last_p_bound(ns: Seq<FbxNode>, a: Seq<u8>, b: Seq<u8>, n: nat)
    requires
        n <= ns.len(),
    ensures
        last_p(ns, a, b, n) matches Some(i) ==> i < n,
    decreases n,
{
    if n > 0 {
        lemma_last_p_bound(ns, a, b, (n - 1) as nat);
    }
}

/// The integer setting `name` of an object, 0 when unset.
pub fn setting_int(n: &FbxNode, name: &[u8]) -> (r: i64)
    ensures
        r == setting_value(*n, name@),
{
    match find_setting(n, name, name) {
        Some(i) => {
            let p70 = crate::stl::literal("Properties70");
            match n.child(p70.as_slice()) {
                Some(props) => {
                    proof {
                        lemma_last_p_bound(props.children@, name@, name@, props.children@.len());
                    }
                    prop_i64_at(&props.children[i], 4)
                },
                None => 0,
            }
        },
        None => 0,
    }
}

fn attach_links(ls: &Vec<Link>, attrs: &HashMap<i64, usize>, models: &HashMap<i64, usize>) -> (r: HashMap<i64, usize>)
    ensures
        r@ == attached(ls@, attrs@, models@),
{
    broadcast use vstd::std_specs::hash::group_hash_axioms;
    let mut m: HashMap<i64, usize> = HashMap::new();
    let mut i: usize = 0;
    assert(ls@.take(0) =~= Seq::<Link>::empty());
    while i < ls.len()
        invariant
            i <= ls@.len(),
            m@ == attached(ls@.take(i as int), attrs@, models@),
        decreases ls@.len() - i,
    {
        let l = ls[i];
        assert(ls@.take(i + 1).drop_last() =~= ls@.take(i as int));
        assert(ls@.take(i + 1).last() == l);
        if l.to_object && attrs.contains_key(&l.src) {
            match models.get(&l.dst) {
                Some(p) => {
                    m.insert(l.src, *p);
                },
                None => {},
            }
        }
        i = i + 1;
    }
    assert(ls@.take(i as int) =~= ls@);
    m
}

/// The cameras and lights of a document, in the order of their objects.
pub fn node_attributes(doc: &FbxDocument) -> (r: Vec<AttrPlan>)
    ensures
        r@ == attrs_spec(*doc),
{
    broadcast use vstd::std_specs::hash::group_hash_axioms;
    let empty: Vec<FbxNode> = Vec::new();
    let objects_name = crate::stl::literal("Objects");
    let objects: &Vec<FbxNode> = match doc.find(objects_name.as_slice()) {
        Some(n) => &n.children,
        None => &empty,
    };
    assert(objects@ == section(*doc, "Objects".spec_bytes()));
    let conns_name = crate::stl::literal("Connections");
    let conns: &Vec<FbxNode> = match doc.find(conns_name.as_slice()) {
        Some(n) => &n.children,
        None => &empty,
    };
    assert(conns@ == section(*doc, "Connections".spec_bytes()));
    let es = collect_named(objects, crate::stl::literal("NodeAttribute").as_slice());
    let models = collect_objects(objects, ObjectKind::Model);
    let amap = build_index(&es);
    let mmap = build_index(&models);
    let ls = collect_links(conns);
    let att = attach_links(&ls, &amap, &mmap);
    let camera = crate::stl::literal("Camera");
    let light = crate::stl::literal("Light");
    let proj = crate::stl::literal("CameraProjectionType");
    let ltype = crate::stl::literal("LightType");
    proof {
        lemma_named_bound(objects@, "NodeAttribute".spec_bytes(), objects@.len());
    }
    let mut out: Vec<AttrPlan> = Vec::new();
    let mut k: usize = 0;
    assert(es@.take(0) =~= Seq::<ObjectEntry>::empty());
    while k < es.len()
        invariant
            k <= es@.len(),
            es@ == named_objects(*doc, "NodeAttribute".spec_bytes()),
            objects@ == section(*doc, "Objects".spec_bytes()),
            forall|i: int| 0 <= i < es@.len() ==> #[trigger] es@[i].object < objects@.len(),
            camera@ == "Camera".spec_bytes(),
            light@ == "Light".spec_bytes(),
            proj@ == "CameraProjectionType".spec_bytes(),
            ltype@ == "LightType".spec_bytes(),
            out@ == attr_plans(objects@, es@.take(k as int), att@),
        decreases es@.len() - k,
    {
        let e = es[k];
        let n = &objects[e.object];
        assert(es@.take(k + 1).drop_last() =~= es@.take(k as int));
        assert(es@.take(k + 1).last() == e);
        let kind = if prop_str_is(n, 2, camera.as_slice()) {
            Some(AttrKind::Camera)
        } else if prop_str_is(n, 2, light.as_slice()) {
            Some(AttrKind::Light)
        } else {
            None
        };
        if let Some(kd) = kind {
            if let Some(model) = att.get(&e.id) {
                let setting = match kd {
                    AttrKind::Camera => setting_int(n, proj.as_slice()),
                    AttrKind::Light => setting_int(n, ltype.as_slice()),
                };
                out.push(AttrPlan { object: e.object, model: *model, kind: kd, setting });
            }
        }
        k = k + 1;
    }
    assert(es@.take(k as int) =~= es@);
    out
}

} // verus!
