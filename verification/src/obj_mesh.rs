//! From OBJ faces to indexed triangle meshes.
//!
//! Each group becomes one mesh. A corner becomes a vertex the first time its
//! combination of position, texture coordinate, normal and (where it
//! matters) smoothing group is met; later corners with the same combination
//! share that vertex. Polygons are split into triangle fans, one triangle
//! list per material run.

use vstd::prelude::*;
use std::collections::HashMap;
use crate::obj::{ObjData, ObjDataView, ObjFace, ObjFaceView, ObjGroup, ObjGroupView, ObjRef, FaceRunView};

verus! {

/// The cache key of a corner: position index, texture-coordinate index
/// plus one (0: none), normal index plus one (0: none), and the smoothing
/// group where smoothing splits vertices (else 0). The indices are taken
/// as `u32`, wrapping.
pub type CornerKey = (usize, u32, u32, u32);

pub open spec fn idx_key(o: Option<usize>) -> u32 {
    match o {
        Some(v) => {
            let a = v as u32;
            if a == 0xFFFF_FFFFu32 {
                0
            } else {
                (a + 1) as u32
            }
        },
        None => 0,
    }
}

/// Smoothing groups split vertices only when the file has no normals of
/// its own (`use_sg`), and only for corners without a normal.
pub open spec fn corner_key(r: ObjRef, sg: u32, use_sg: bool) -> CornerKey {
    (r.position, idx_key(r.uv), idx_key(r.normal), if use_sg && r.normal is None { sg } else { 0 })
}

/// The vertices made so far (each by the corner that made it) and the
/// vertex of each key met.
pub struct VertexState {
    pub corners: Seq<ObjRef>,
    pub seen: Map<CornerKey, u32>,
}

/// A corner reuses the vertex of its key, or makes a new one numbered by
/// the vertex count as a `u32`.
pub open spec fn add_corner(vs: VertexState, r: ObjRef, key: CornerKey) -> (VertexState, u32) {
    if vs.seen.contains_key(key) {
        (vs, vs.seen[key])
    } else {
        let i = (vs.corners.len() % 0x1_0000_0000) as u32;
        (VertexState { corners: vs.corners.push(r), seen: vs.seen.insert(key, i) }, i)
    }
}

/// The vertices of the first `n` corners of a face.
pub open spec fn face_corners(vs: VertexState, refs: Seq<ObjRef>, sg: u32, use_sg: bool, n: nat) -> (VertexState, Seq<u32>)
    decreases n,
{
    if n == 0 {
        (vs, seq![])
    } else {
        let (v1, idx) = face_corners(vs, refs, sg, use_sg, (n - 1) as nat);
        let (v2, i) = add_corner(v1, refs[n - 1], corner_key(refs[n - 1], sg, use_sg));
        (v2, idx.push(i))
    }
}

/// The triangle fan of a polygon: (v0, v[i], v[i+1]) for each i from 1.
pub open spec fn fan(idx: Seq<u32>) -> Seq<u32> {
    if idx.len() < 3 {
        seq![]
    } else {
        Seq::new((3 * (idx.len() - 2)) as nat, |k: int| if k % 3 == 0 { idx[0] } else { idx[k / 3 + k % 3] })
    }
}

/// The fan's triangles with their smoothing group.
pub open spec fn fan_sg(idx: Seq<u32>, sg: u32) -> Seq<(u32, u32, u32, u32)> {
    if idx.len() < 3 {
        seq![]
    } else {
        Seq::new((idx.len() - 2) as nat, |i: int| (idx[0], idx[i + 1], idx[i + 2], sg))
    }
}

pub struct RunAcc {
    pub vs: VertexState,
    pub tris: Seq<u32>,
    pub sg_tris: Seq<(u32, u32, u32, u32)>,
}

/// The first `n` faces of a run: polygons of fewer than three corners are
/// passed over; triangles in a smoothing group above 0 are recorded for
/// normal smoothing when smoothing applies.
pub open spec fn run_fold(acc: RunAcc, faces: Seq<ObjFaceView>, use_sg: bool, n: nat) -> RunAcc
    decreases n,
{
    if n == 0 {
        acc
    } else {
        let a = run_fold(acc, faces, use_sg, (n - 1) as nat);
        let f = faces[n - 1];
        if f.refs.len() < 3 {
            a
        } else {
            let sg = if use_sg { f.smoothing_group } else { 0 };
            let (vs2, idx) = face_corners(a.vs, f.refs, sg, use_sg, f.refs.len());
            RunAcc {
                vs: vs2,
                tris: a.tris + fan(idx),
                sg_tris: if use_sg && sg > 0 { a.sg_tris + fan_sg(idx, sg) } else { a.sg_tris },
            }
        }
    }
}

pub struct GroupAcc {
    pub vs: VertexState,
    /// Each run with triangles: its position among the runs and its
    /// triangle indices.
    pub prims: Seq<(usize, Seq<u32>)>,
    pub sg_tris: Seq<(u32, u32, u32, u32)>,
}

/// The first `n` runs of a group.
pub open spec fn group_fold(runs: Seq<FaceRunView>, use_sg: bool, n: nat) -> GroupAcc
    decreases n,
{
    if n == 0 {
        GroupAcc { vs: VertexState { corners: seq![], seen: Map::empty() }, prims: seq![], sg_tris: seq![] }
    } else {
        let g = group_fold(runs, use_sg, (n - 1) as nat);
        let faces = runs[n - 1].faces;
        let r = run_fold(RunAcc { vs: g.vs, tris: seq![], sg_tris: g.sg_tris }, faces, use_sg, faces.len());
        GroupAcc {
            vs: r.vs,
            prims: if r.tris.len() > 0 { g.prims.push(((n - 1) as usize, r.tris)) } else { g.prims },
            sg_tris: r.sg_tris,
        }
    }
}

pub open spec fn group_plan_spec(g: ObjGroupView, use_sg: bool) -> GroupAcc {
    group_fold(g.face_runs, use_sg, g.face_runs.len())
}

// ── The key table ────────────────────────────────────────────────────────

pub open spec fn pack3(a: usize, b: u32, c: u32) -> u128 {
    (a * 0x1_0000_0000_0000_0000int + b * 0x1_0000_0000int + c) as u128
}

proof fn lemma_pack3_injective(a1: usize, b1: u32, c1: u32, a2: usize, b2: u32, c2: u32)
    requires
        pack3(a1, b1, c1) == pack3(a2, b2, c2),
    ensures
        a1 == a2 && b1 == b2 && c1 == c2,
{
    let k1: int = a1 * 0x1_0000_0000_0000_0000int + b1 * 0x1_0000_0000int + c1;
    let k2: int = a2 * 0x1_0000_0000_0000_0000int + b2 * 0x1_0000_0000int + c2;
    assert(0 <= k1 < 0x1_0000_0000_0000_0000_0000_0000_0000_0000int);
    assert(0 <= k2 < 0x1_0000_0000_0000_0000_0000_0000_0000_0000int);
    assert(k1 == k2);
}

fn pack3_exec(a: usize, b: u32, c: u32) -> (r: u128)
    ensures
        r == pack3(a, b, c),
{
    (a as u128) * 0x1_0000_0000_0000_0000 + (b as u128) * 0x1_0000_0000 + c as u128
}

/// Keys with a normal go to one table (by position, texture coordinate and
/// normal), keys without to the other (by position, texture coordinate
/// and smoothing slot).
pub open spec fn key_shape(k: CornerKey) -> bool {
    k.2 == 0 || k.3 == 0
}

pub open spec fn table_has(n: Map<u128, u32>, s: Map<u128, u32>, k: CornerKey) -> bool {
    if k.2 != 0 {
        n.contains_key(pack3(k.0, k.1, k.2))
    } else {
        s.contains_key(pack3(k.0, k.1, k.3))
    }
}

pub open spec fn table_get(n: Map<u128, u32>, s: Map<u128, u32>, k: CornerKey) -> u32 {
    if k.2 != 0 {
        n[pack3(k.0, k.1, k.2)]
    } else {
        s[pack3(k.0, k.1, k.3)]
    }
}

pub open spec fn tables_hold(seen: Map<CornerKey, u32>, n: Map<u128, u32>, s: Map<u128, u32>) -> bool {
    &&& forall|k: CornerKey| #[trigger] seen.contains_key(k) ==> key_shape(k)
    &&& forall|k: CornerKey|
        key_shape(k) ==> (#[trigger] seen.contains_key(k) <==> table_has(n, s, k)) && (seen.contains_key(k) ==> seen[k]
            == table_get(n, s, k))
}


fn idx_key_exec(o: Option<usize>) -> (r: u32)
    ensures
        r == idx_key(o),
{
    match o {
        Some(v) => {
            let a = #[verifier::truncate] (v as u32);
            if a == 0xFFFF_FFFFu32 {
                0
            } else {
                a + 1
            }
        },
        None => 0,
    }
}

/// The vertex of corner `r`: found in the tables, or made.
fn add_corner_exec(
    corners: &mut Vec<ObjRef>,
    tn: &mut HashMap<u128, u32>,
    ts: &mut HashMap<u128, u32>,
    Ghost(seen): Ghost<Map<CornerKey, u32>>,
    r: ObjRef,
    sg: u32,
    use_sg: bool,
) -> (i: u32)
    requires
        tables_hold(seen, old(tn)@, old(ts)@),
    ensures
        ({
            let (vs2, j) = add_corner(VertexState { corners: old(corners)@, seen }, r, corner_key(r, sg, use_sg));
            &&& i == j
            &&& final(corners)@ == vs2.corners
            &&& tables_hold(vs2.seen, final(tn)@, final(ts)@)
        }),
{
    broadcast use vstd::std_specs::hash::group_hash_axioms;
    let uk = idx_key_exec(r.uv);
    let nk = idx_key_exec(r.normal);
    let slot = if use_sg && r.normal.is_none() { sg } else { 0 };
    let ghost key: CornerKey = (r.position, uk, nk, slot);
    assert(key == corner_key(r, sg, use_sg));
    assert(key_shape(key));
    let (to_n, packed) = if nk != 0 { (true, pack3_exec(r.position, uk, nk)) } else { (false, pack3_exec(r.position, uk, slot)) };
    let found = if to_n {
        match tn.get(&packed) {
            Some(v) => Some(*v),
            None => None,
        }
    } else {
        match ts.get(&packed) {
            Some(v) => Some(*v),
            None => None,
        }
    };
    match found {
        Some(v) => v,
        None => {
            let ni = ((corners.len() as u64) % 0x1_0000_0000) as u32;
            let ghost seen2 = seen.insert(key, ni);
            corners.push(r);
            if to_n {
                tn.insert(packed, ni);
            } else {
                ts.insert(packed, ni);
            }
            assert forall|k: CornerKey| key_shape(k) implies (#[trigger] seen2.contains_key(k) <==> table_has(
                tn@,
                ts@,
                k,
            )) && (seen2.contains_key(k) ==> seen2[k] == table_get(tn@, ts@, k)) by {
                if k != key {
                    if k.2 != 0 && to_n && pack3(k.0, k.1, k.2) == packed {
                        lemma_pack3_injective(k.0, k.1, k.2, key.0, key.1, key.2);
                    }
                    if k.2 == 0 && !to_n && pack3(k.0, k.1, k.3) == packed {
                        lemma_pack3_injective(k.0, k.1, k.3, key.0, key.1, key.3);
                    }
                }
            }
            ni
        },
    }
}


fn face_exec(
    corners: &mut Vec<ObjRef>,
    tn: &mut HashMap<u128, u32>,
    ts: &mut HashMap<u128, u32>,
    Ghost(seen): Ghost<Map<CornerKey, u32>>,
    face: &ObjFace,
    sg: u32,
    use_sg: bool,
) -> (idx: Vec<u32>)
    requires
        tables_hold(seen, old(tn)@, old(ts)@),
    ensures
        ({
            let (vs2, sidx) = face_corners(
                VertexState { corners: old(corners)@, seen },
                face.refs@,
                sg,
                use_sg,
                face.refs@.len(),
            );
            &&& idx@ == sidx
            &&& final(corners)@ == vs2.corners
            &&& tables_hold(vs2.seen, final(tn)@, final(ts)@)
        }),
{
    let ghost vs0 = VertexState { corners: corners@, seen };
    let ghost mut cur = seen;
    let mut idx: Vec<u32> = Vec::new();
    let mut c: usize = 0;
    while c < face.refs.len()
        invariant
            c <= face.refs@.len(),
            vs0.seen == seen,
            face_corners(vs0, face.refs@, sg, use_sg, c as nat) == (VertexState { corners: corners@, seen: cur }, idx@),
            tables_hold(cur, tn@, ts@),
        decreases face.refs@.len() - c,
    {
        let r = face.refs[c];
        let ghost before = corners@;
        let i = add_corner_exec(corners, tn, ts, Ghost(cur), r, sg, use_sg);
        proof {
            cur = add_corner(VertexState { corners: before, seen: cur }, r, corner_key(r, sg, use_sg)).0.seen;
        }
        idx.push(i);
        c = c + 1;
    }
    idx
}


fn push_fan(tris: &mut Vec<u32>, idx: &Vec<u32>)
    ensures
        final(tris)@ == old(tris)@ + fan(idx@),
{
    if idx.len() < 3 {
        assert(old(tris)@ + fan(idx@) =~= old(tris)@);
        return;
    }
    let ghost base = tris@;
    let mut i: usize = 1;
    while i < idx.len() - 1
        invariant
            3 <= idx@.len(),
            1 <= i <= idx@.len() - 1,
            tris@ =~= base + fan(idx@).take(3 * (i - 1)),
        decreases idx@.len() - i,
    {
        tris.push(idx[0]);
        tris.push(idx[i]);
        tris.push(idx[i + 1]);
        proof {
            let f = fan(idx@);
            let t: int = 3 * (i - 1);
            assert(t / 3 == i - 1 && t % 3 == 0 && (t + 1) / 3 == i - 1 && (t + 1) % 3 == 1 && (t + 2) / 3 == i - 1
                && (t + 2) % 3 == 2);
            assert(f.take(3 * i) =~= f.take(t).push(f[t]).push(f[t + 1]).push(f[t + 2]));
        }
        i = i + 1;
    }
    assert(fan(idx@).take(3 * (i - 1)) =~= fan(idx@));
}

fn push_fan_sg(out: &mut Vec<(u32, u32, u32, u32)>, idx: &Vec<u32>, sg: u32)
    ensures
        final(out)@ == old(out)@ + fan_sg(idx@, sg),
{
    if idx.len() < 3 {
        assert(old(out)@ + fan_sg(idx@, sg) =~= old(out)@);
        return;
    }
    let ghost base = out@;
    let mut i: usize = 1;
    while i < idx.len() - 1
        invariant
            3 <= idx@.len(),
            1 <= i <= idx@.len() - 1,
            out@ =~= base + fan_sg(idx@, sg).take(i - 1),
        decreases idx@.len() - i,
    {
        out.push((idx[0], idx[i], idx[i + 1], sg));
        assert(fan_sg(idx@, sg).take(i as int) =~= fan_sg(idx@, sg).take(i - 1).push(fan_sg(idx@, sg)[i - 1]));
        i = i + 1;
    }
    assert(fan_sg(idx@, sg).take(i - 1) =~= fan_sg(idx@, sg));
}


fn run_exec(
    corners: &mut Vec<ObjRef>,
    tn: &mut HashMap<u128, u32>,
    ts: &mut HashMap<u128, u32>,
    Ghost(seen): Ghost<Map<CornerKey, u32>>,
    tris: &mut Vec<u32>,
    sg_tris: &mut Vec<(u32, u32, u32, u32)>,
    faces: &Vec<ObjFace>,
    use_sg: bool,
) -> (r: Ghost<Map<CornerKey, u32>>)
    requires
        tables_hold(seen, old(tn)@, old(ts)@),
    ensures
        ({
            let a = run_fold(
                RunAcc { vs: VertexState { corners: old(corners)@, seen }, tris: old(tris)@, sg_tris: old(sg_tris)@ },
                faces@.map_values(|f: ObjFace| f@),
                use_sg,
                faces@.len(),
            );
            &&& final(corners)@ == a.vs.corners
            &&& r@ == a.vs.seen
            &&& final(tris)@ == a.tris
            &&& final(sg_tris)@ == a.sg_tris
            &&& tables_hold(r@, final(tn)@, final(ts)@)
        }),
{
    let ghost fv = faces@.map_values(|f: ObjFace| f@);
    let ghost acc0 = RunAcc { vs: VertexState { corners: corners@, seen }, tris: tris@, sg_tris: sg_tris@ };
    let ghost mut cur = seen;
    let mut k: usize = 0;
    while k < faces.len()
        invariant
            k <= faces@.len(),
            fv == faces@.map_values(|f: ObjFace| f@),
            run_fold(acc0, fv, use_sg, k as nat) == (RunAcc {
                vs: VertexState { corners: corners@, seen: cur },
                tris: tris@,
                sg_tris: sg_tris@,
            }),
            tables_hold(cur, tn@, ts@),
        decreases faces@.len() - k,
    {
        let face = &faces[k];
        assert(fv[k as int] == face@);
        if face.refs.len() >= 3 {
            let sg = if use_sg { face.smoothing_group } else { 0 };
            let ghost before = corners@;
            let idx = face_exec(corners, tn, ts, Ghost(cur), face, sg, use_sg);
            proof {
                cur = face_corners(VertexState { corners: before, seen: cur }, face.refs@, sg, use_sg, face.refs@.len()).0.seen;
            }
            push_fan(tris, &idx);
            if use_sg && sg > 0 {
                push_fan_sg(sg_tris, &idx, sg);
            }
        }
        k = k + 1;
    }
    Ghost(cur)
}

/// The triangles of one material run: its position among the runs and
/// three vertex indices per triangle.
pub struct ObjPrimitive {
    pub run: usize,
    pub indices: Vec<u32>,
}

/// The mesh of one group: the corner that made each vertex, the triangle
/// lists of the runs that have triangles, and the triangles to smooth
/// normals over (with their smoothing group).
pub struct ObjMeshPlan {
    pub corners: Vec<ObjRef>,
    pub primitives: Vec<ObjPrimitive>,
    pub smooth_tris: Vec<(u32, u32, u32, u32)>,
}

pub open spec fn prims_view(ps: Seq<ObjPrimitive>) -> Seq<(usize, Seq<u32>)> {
    ps.map_values(|p: ObjPrimitive| (p.run, p.indices@))
}

/// Plans the mesh of one group.
pub fn group_mesh_plan(group: &ObjGroup, use_sg: bool) -> (r: ObjMeshPlan)
    ensures
        r.corners@ == group_plan_spec(group@, use_sg).vs.corners,
        prims_view(r.primitives@) == group_plan_spec(group@, use_sg).prims,
        r.smooth_tris@ == group_plan_spec(group@, use_sg).sg_tris,
{
    broadcast use vstd::std_specs::hash::group_hash_axioms;
    let ghost runs = group@.face_runs;
    let mut corners: Vec<ObjRef> = Vec::new();
    let mut tn: HashMap<u128, u32> = HashMap::new();
    let mut ts: HashMap<u128, u32> = HashMap::new();
    let mut prims: Vec<ObjPrimitive> = Vec::new();
    let mut sg_tris: Vec<(u32, u32, u32, u32)> = Vec::new();
    let ghost mut cur: Map<CornerKey, u32> = Map::empty();
    assert(prims_view(prims@) =~= Seq::<(usize, Seq<u32>)>::empty());
    let mut j: usize = 0;
    while j < group.face_runs.len()
        invariant
            j <= group.face_runs@.len(),
            runs == group@.face_runs,
            group_fold(runs, use_sg, j as nat) == (GroupAcc {
                vs: VertexState { corners: corners@, seen: cur },
                prims: prims_view(prims@),
                sg_tris: sg_tris@,
            }),
            tables_hold(cur, tn@, ts@),
        decreases group.face_runs@.len() - j,
    {
        let run = &group.face_runs[j];
        assert(runs[j as int] == run@);
        assert(run@.faces == run.faces@.map_values(|f: ObjFace| f@));
        let mut tris: Vec<u32> = Vec::new();
        let ghost before_sg = sg_tris@;
        let g = run_exec(&mut corners, &mut tn, &mut ts, Ghost(cur), &mut tris, &mut sg_tris, &run.faces, use_sg);
        proof {
            cur = g@;
        }
        if tris.len() > 0 {
            let ghost pv = prims_view(prims@);
            prims.push(ObjPrimitive { run: j, indices: tris });
            assert(prims_view(prims@) =~= pv.push((j, tris@)));
        }
        j = j + 1;
    }
    ObjMeshPlan { corners, primitives: prims, smooth_tris: sg_tris }
}

/// Whether smoothing groups split vertices and call for smoothed normals:
/// only when the file has no normals of its own.
pub open spec fn uses_smoothing(obj: ObjDataView) -> bool {
    obj.normals.len() == 0
}

/// Plans the mesh of each group of a file, in order.
pub fn obj_mesh_plans(obj: &ObjData) -> (r: Vec<ObjMeshPlan>)
    ensures
        r@.len() == obj.groups@.len(),
        forall|i: int| 0 <= i < r@.len() ==> {
            let p = group_plan_spec(obj.groups@[i]@, uses_smoothing(obj@));
            &&& (#[trigger] r@[i]).corners@ == p.vs.corners
            &&& prims_view(r@[i].primitives@) == p.prims
            &&& r@[i].smooth_tris@ == p.sg_tris
        },
{
    let use_sg = obj.normals.len() == 0;
    let mut out: Vec<ObjMeshPlan> = Vec::new();
    let mut i: usize = 0;
    while i < obj.groups.len()
        invariant
            i <= obj.groups@.len(),
            use_sg == uses_smoothing(obj@),
            out@.len() == i,
            forall|k: int| 0 <= k < i ==> {
                let p = group_plan_spec(obj.groups@[k]@, use_sg);
                &&& (#[trigger] out@[k]).corners@ == p.vs.corners
                &&& prims_view(out@[k].primitives@) == p.prims
                &&& out@[k].smooth_tris@ == p.sg_tris
            },
        decreases obj.groups@.len() - i,
    {
        let plan = group_mesh_plan(&obj.groups[i], use_sg);
        out.push(plan);
        i = i + 1;
    }
    out
}


// ── Every index names a vertex ───────────────────────────────────────────

pub open spec fn below(s: Seq<u32>, n: nat) -> bool {
    forall|i: int| 0 <= i < s.len() ==> (#[trigger] s[i]) < n
}

pub open spec fn tris_below(s: Seq<(u32, u32, u32, u32)>, n: nat) -> bool {
    forall|i: int| 0 <= i < s.len() ==> (#[trigger] s[i]).0 < n && s[i].1 < n && s[i].2 < n
}

pub open spec fn seen_below(vs: VertexState) -> bool {
    forall|k: CornerKey| #[trigger] vs.seen.contains_key(k) ==> vs.seen[k] < vs.corners.len()
}

proof fn lemma_face_below(vs: VertexState, refs: Seq<ObjRef>, sg: u32, use_sg: bool, n: nat)
    requires
        seen_below(vs),
        n <= refs.len(),
    ensures
        ({
            let (v2, idx) = face_corners(vs, refs, sg, use_sg, n);
            &&& seen_below(v2)
            &&& vs.corners.len() <= v2.corners.len()
            &&& below(idx, v2.corners.len())
            &&& idx.len() == n
        }),
    decreases n,
{
    if n > 0 {
        lemma_face_below(vs, refs, sg, use_sg, (n - 1) as nat);
        let (v1, idx) = face_corners(vs, refs, sg, use_sg, (n - 1) as nat);
        let key = corner_key(refs[n - 1], sg, use_sg);
        let (v2, i) = add_corner(v1, refs[n - 1], key);
        if !v1.seen.contains_key(key) {
            assert forall|k: CornerKey| #[trigger] v2.seen.contains_key(k) implies v2.seen[k] < v2.corners.len() by {
                if k != key {
                    assert(v1.seen.contains_key(k));
                }
            }
        }
        assert(below(idx.push(i), v2.corners.len()));
    }
}

proof fn lemma_fan_below(idx: Seq<u32>, sg: u32, n: nat)
    requires
        below(idx, n),
    ensures
        below(fan(idx), n),
        tris_below(fan_sg(idx, sg), n),
{
    if idx.len() >= 3 {
        let f = fan(idx);
        assert forall|k: int| 0 <= k < f.len() implies (#[trigger] f[k]) < n by {
            if k % 3 != 0 {
                assert(k / 3 + k % 3 < idx.len()) by (nonlinear_arith)
                    requires
                        0 <= k < 3 * (idx.len() - 2),
                        k % 3 == 1 || k % 3 == 2,
                ;
            }
        }
    }
}

proof fn lemma_run_below(acc: RunAcc, faces: Seq<ObjFaceView>, use_sg: bool, n: nat)
    requires
        seen_below(acc.vs),
        below(acc.tris, acc.vs.corners.len()),
        tris_below(acc.sg_tris, acc.vs.corners.len()),
        n <= faces.len(),
    ensures
        ({
            let a = run_fold(acc, faces, use_sg, n);
            &&& seen_below(a.vs)
            &&& acc.vs.corners.len() <= a.vs.corners.len()
            &&& below(a.tris, a.vs.corners.len())
            &&& tris_below(a.sg_tris, a.vs.corners.len())
        }),
    decreases n,
{
    if n > 0 {
        lemma_run_below(acc, faces, use_sg, (n - 1) as nat);
        let a = run_fold(acc, faces, use_sg, (n - 1) as nat);
        let f = faces[n - 1];
        if f.refs.len() >= 3 {
            let sg = if use_sg { f.smoothing_group } else { 0 };
            lemma_face_below(a.vs, f.refs, sg, use_sg, f.refs.len());
            let (vs2, idx) = face_corners(a.vs, f.refs, sg, use_sg, f.refs.len());
            let m = vs2.corners.len();
            lemma_fan_below(idx, sg, m);
            let t = a.tris + fan(idx);
            assert forall|i: int| 0 <= i < t.len() implies (#[trigger] t[i]) < m by {
                if i < a.tris.len() {
                    assert(a.tris[i] < a.vs.corners.len());
                } else {
                    assert(fan(idx)[i - a.tris.len()] < m);
                }
            }
            let st = a.sg_tris + fan_sg(idx, sg);
            assert forall|i: int| 0 <= i < st.len() implies (#[trigger] st[i]).0 < m && st[i].1 < m && st[i].2 < m by {
                if i < a.sg_tris.len() {
                    assert(a.sg_tris[i].0 < a.vs.corners.len());
                } else {
                    assert(fan_sg(idx, sg)[i - a.sg_tris.len()].0 < m);
                }
            }
            assert forall|i: int| 0 <= i < a.sg_tris.len() implies (#[trigger] a.sg_tris[i]).0 < m && a.sg_tris[i].1 < m
                && a.sg_tris[i].2 < m by {}
        }
    }
}

proof fn lemma_group_below(runs: Seq<FaceRunView>, use_sg: bool, n: nat)
    requires
        n <= runs.len(),
    ensures
        ({
            let g = group_fold(runs, use_sg, n);
            &&& seen_below(g.vs)
            &&& forall|j: int| 0 <= j < g.prims.len() ==> below((#[trigger] g.prims[j]).1, g.vs.corners.len())
            &&& tris_below(g.sg_tris, g.vs.corners.len())
        }),
    decreases n,
{
    if n > 0 {
        lemma_group_below(runs, use_sg, (n - 1) as nat);
        let g = group_fold(runs, use_sg, (n - 1) as nat);
        let faces = runs[n - 1].faces;
        let acc = RunAcc { vs: g.vs, tris: seq![], sg_tris: g.sg_tris };
        lemma_run_below(acc, faces, use_sg, faces.len());
        let r = run_fold(acc, faces, use_sg, faces.len());
        let m = r.vs.corners.len();
        let ps = if r.tris.len() > 0 { g.prims.push(((n - 1) as usize, r.tris)) } else { g.prims };
        assert forall|j: int| 0 <= j < ps.len() implies below((#[trigger] ps[j]).1, m) by {
            if j < g.prims.len() {
                assert(ps[j] == g.prims[j]);
                assert forall|i: int| 0 <= i < ps[j].1.len() implies (#[trigger] ps[j].1[i]) < m by {
                    assert(below(g.prims[j].1, g.vs.corners.len()));
                }
            }
        }
    }
}

/// In the mesh of a group, every triangle index (and every index of a
/// triangle to smooth over) names one of the mesh's vertices.
pub proof fn lemma_indices_in_range(g: ObjGroupView, use_sg: bool)
    ensures
        ({
            let p = group_plan_spec(g, use_sg);
            &&& forall|j: int| 0 <= j < p.prims.len() ==> below((#[trigger] p.prims[j]).1, p.vs.corners.len())
            &&& tris_below(p.sg_tris, p.vs.corners.len())
        }),
{
    lemma_group_below(g.face_runs, use_sg, g.face_runs.len());
}


// ── One vertex per key ───────────────────────────────────────────────────

/// Distinct keys have distinct vertices, and every vertex has a key.
pub open spec fn one_per_key(vs: VertexState) -> bool {
    &&& forall|k1: CornerKey, k2: CornerKey|
        #[trigger] vs.seen.contains_key(k1) && #[trigger] vs.seen.contains_key(k2) && vs.seen[k1] == vs.seen[k2] ==> k1
            == k2
    &&& forall|i: int| 0 <= i < vs.corners.len() ==> #[trigger] has_key_for(vs, i)
}

/// Some key has vertex `i`.
pub open spec fn has_key_for(vs: VertexState, i: int) -> bool {
    exists|k: CornerKey| #[trigger] vs.seen.contains_key(k) && vs.seen[k] == i
}

pub open spec fn fits_u32(vs: VertexState) -> bool {
    vs.corners.len() <= 0x1_0000_0000
}

proof fn lemma_face_one_per_key(vs: VertexState, refs: Seq<ObjRef>, sg: u32, use_sg: bool, n: nat)
    requires
        seen_below(vs),
        fits_u32(vs) ==> one_per_key(vs),
        n <= refs.len(),
    ensures
        ({
            let v2 = face_corners(vs, refs, sg, use_sg, n).0;
            fits_u32(v2) ==> one_per_key(v2)
        }),
    decreases n,
{
    if n > 0 {
        lemma_face_below(vs, refs, sg, use_sg, (n - 1) as nat);
        lemma_face_one_per_key(vs, refs, sg, use_sg, (n - 1) as nat);
        let v1 = face_corners(vs, refs, sg, use_sg, (n - 1) as nat).0;
        let key = corner_key(refs[n - 1], sg, use_sg);
        let v2 = add_corner(v1, refs[n - 1], key).0;
        if !v1.seen.contains_key(key) && fits_u32(v2) {
            let l = v1.corners.len();
            assert(l < 0x1_0000_0000);
            assert((l % 0x1_0000_0000) as u32 == l);
            assert forall|k1: CornerKey, k2: CornerKey|
                #[trigger] v2.seen.contains_key(k1) && #[trigger] v2.seen.contains_key(k2) && v2.seen[k1] == v2.seen[k2]
                implies k1 == k2 by {
                if k1 != key {
                    assert(v1.seen.contains_key(k1));
                }
                if k2 != key {
                    assert(v1.seen.contains_key(k2));
                }
            }
            assert forall|i: int| 0 <= i < v2.corners.len() implies #[trigger] has_key_for(v2, i) by {
                if i < l {
                    assert(has_key_for(v1, i));
                    let k = choose|k: CornerKey| #[trigger] v1.seen.contains_key(k) && v1.seen[k] == i;
                    assert(v2.seen.contains_key(k) && v2.seen[k] == i);
                } else {
                    assert(v2.seen.contains_key(key) && v2.seen[key] == i);
                }
            }
        }
    }
}

proof fn lemma_run_one_per_key(acc: RunAcc, faces: Seq<ObjFaceView>, use_sg: bool, n: nat)
    requires
        seen_below(acc.vs),
        below(acc.tris, acc.vs.corners.len()),
        tris_below(acc.sg_tris, acc.vs.corners.len()),
        fits_u32(acc.vs) ==> one_per_key(acc.vs),
        n <= faces.len(),
    ensures
        ({
            let a = run_fold(acc, faces, use_sg, n);
            fits_u32(a.vs) ==> one_per_key(a.vs)
        }),
    decreases n,
{
    if n > 0 {
        lemma_run_below(acc, faces, use_sg, (n - 1) as nat);
        lemma_run_one_per_key(acc, faces, use_sg, (n - 1) as nat);
        let a = run_fold(acc, faces, use_sg, (n - 1) as nat);
        let f = faces[n - 1];
        if f.refs.len() >= 3 {
            let sg = if use_sg { f.smoothing_group } else { 0 };
            lemma_face_below(a.vs, f.refs, sg, use_sg, f.refs.len());
            lemma_face_one_per_key(a.vs, f.refs, sg, use_sg, f.refs.len());
        }
    }
}

proof fn lemma_group_one_per_key(runs: Seq<FaceRunView>, use_sg: bool, n: nat)
    requires
        n <= runs.len(),
    ensures
        ({
            let g = group_fold(runs, use_sg, n);
            fits_u32(g.vs) ==> one_per_key(g.vs)
        }),
    decreases n,
{
    if n > 0 {
        lemma_group_below(runs, use_sg, (n - 1) as nat);
        lemma_group_one_per_key(runs, use_sg, (n - 1) as nat);
        let g = group_fold(runs, use_sg, (n - 1) as nat);
        let faces = runs[n - 1].faces;
        let acc = RunAcc { vs: g.vs, tris: seq![], sg_tris: g.sg_tris };
        lemma_run_one_per_key(acc, faces, use_sg, faces.len());
    }
}

/// A group's mesh has one vertex per distinct corner key (for meshes of at
/// most 2^32 vertices): corners with the same key share a vertex, corners
/// with different keys get different ones, and every vertex stands for a
/// key.
pub proof fn lemma_one_vertex_per_key(g: ObjGroupView, use_sg: bool)
    ensures
        fits_u32(group_plan_spec(g, use_sg).vs) ==> one_per_key(group_plan_spec(g, use_sg).vs),
{
    lemma_group_one_per_key(g.face_runs, use_sg, g.face_runs.len());
}

} // verus!
