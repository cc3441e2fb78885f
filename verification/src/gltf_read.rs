//! Assembling a primitive's vertices from the words its accessors hold:
//! one vertex per whole position, each other attribute given to the
//! vertices it has an element for.

use vstd::prelude::*;
use crate::gltf_write::{attr_flat, attr_width, attr_words, has_attr, lemma_attr_words_len, Attribute, VertexBits, ONE_BITS};

verus! {

/// A vertex as a reader assembles it: floats by their bits, one optional
/// UV pair per texture-coordinate channel read, and the skin joints and
/// weights when both are there.
#[derive(Debug, Clone)]
pub struct VertexRead {
    pub position: [u32; 3],
    pub normal: Option<[u32; 3]>,
    pub tangent: Option<[u32; 4]>,
    pub uvs: Vec<Option<[u32; 2]>>,
    pub color0: Option<[u32; 4]>,
    pub skin: Option<([u16; 4], [u32; 4])>,
}

pub struct VertexReadView {
    pub position: Seq<u32>,
    pub normal: Option<Seq<u32>>,
    pub tangent: Option<Seq<u32>>,
    pub uvs: Seq<Option<Seq<u32>>>,
    pub color0: Option<Seq<u32>>,
    pub skin: Option<(Seq<u16>, Seq<u32>)>,
}

pub open spec fn opt_view<const N: usize>(o: Option<[u32; N]>) -> Option<Seq<u32>> {
    match o {
        Some(a) => Some(a@),
        None => None,
    }
}

impl View for VertexRead {
    type V = VertexReadView;

    open spec fn view(&self) -> VertexReadView {
        VertexReadView {
            position: self.position@,
            normal: opt_view(self.normal),
            tangent: opt_view(self.tangent),
            uvs: self.uvs@.map_values(|u: Option<[u32; 2]>| opt_view(u)),
            color0: opt_view(self.color0),
            skin: match self.skin {
                Some((j, w)) => Some((j@, w@)),
                None => None,
            },
        }
    }
}

/// Element `i` of a flat list read `w` words at a time.
pub open spec fn chunk(flat: Seq<u32>, w: nat, i: int) -> Seq<u32> {
    flat.subrange(i * w, i * w + w)
}

/// Element `i` when the list has one, read `w` words at a time (a partial
/// last element does not count).
pub open spec fn chunk_at(flat: Seq<u32>, w: nat, i: int) -> Option<Seq<u32>> {
    if i < flat.len() / w {
        Some(chunk(flat, w, i))
    } else {
        None
    }
}

/// A vertex colour: four words per element when the list divides by four
/// (RGBA), else three with alpha `1.0` (RGB).
pub open spec fn color_at(flat: Seq<u32>, i: int) -> Option<Seq<u32>> {
    if flat.len() % 4 == 0 {
        chunk_at(flat, 4, i)
    } else {
        match chunk_at(flat, 3, i) {
            Some(c) => Some(c.push(ONE_BITS)),
            None => None,
        }
    }
}

/// The vertices a reader assembles: as many as whole positions; each other
/// attribute goes to the vertices it has a whole element for; the skin only
/// where both joints and weights have one.
pub open spec fn assemble_spec(
    positions: Seq<u32>,
    normals: Seq<u32>,
    tangents: Seq<u32>,
    uvs: Seq<Seq<u32>>,
    colors: Seq<u32>,
    joints: Seq<Seq<u16>>,
    weights: Seq<u32>,
) -> Seq<VertexReadView> {
    Seq::new(
        positions.len() / 3,
        |i: int|
            VertexReadView {
                position: chunk(positions, 3, i),
                normal: chunk_at(normals, 3, i),
                tangent: chunk_at(tangents, 4, i),
                uvs: Seq::new(uvs.len(), |c: int| chunk_at(uvs[c], 2, i)),
                color0: color_at(colors, i),
                skin: if i < joints.len() && i < weights.len() / 4 {
                    Some((joints[i], chunk(weights, 4, i)))
                } else {
                    None
                },
            },
    )
}

fn chunk2(flat: &[u32], i: usize) -> (r: [u32; 2])
    requires
        i < flat@.len() / 2,
    ensures
        r@ == chunk(flat@, 2, i as int),
{
    let len = flat.len();
    assert(2 * i + 2 <= len) by (nonlinear_arith) requires i < len / 2;
    let r = [flat[2 * i], flat[2 * i + 1]];
    assert(r@ =~= chunk(flat@, 2, i as int));
    r
}

fn chunk3(flat: &[u32], i: usize) -> (r: [u32; 3])
    requires
        i < flat@.len() / 3,
    ensures
        r@ == chunk(flat@, 3, i as int),
{
    let len = flat.len();
    assert(3 * i + 3 <= len) by (nonlinear_arith) requires i < len / 3;
    let r = [flat[3 * i], flat[3 * i + 1], flat[3 * i + 2]];
    assert(r@ =~= chunk(flat@, 3, i as int));
    r
}

fn chunk4(flat: &[u32], i: usize) -> (r: [u32; 4])
    requires
        i < flat@.len() / 4,
    ensures
        r@ == chunk(flat@, 4, i as int),
{
    let len = flat.len();
    assert(4 * i + 4 <= len) by (nonlinear_arith) requires i < len / 4;
    let r = [flat[4 * i], flat[4 * i + 1], flat[4 * i + 2], flat[4 * i + 3]];
    assert(r@ =~= chunk(flat@, 4, i as int));
    r
}

fn color_of(flat: &[u32], i: usize) -> (r: Option<[u32; 4]>)
    ensures
        opt_view(r) == color_at(flat@, i as int),
{
    if flat.len() % 4 == 0 {
        if i < flat.len() / 4 {
            Some(chunk4(flat, i))
        } else {
            None
        }
    } else if i < flat.len() / 3 {
        let c = chunk3(flat, i);
        let r = [c[0], c[1], c[2], ONE_BITS];
        assert(r@ =~= c@.push(ONE_BITS));
        Some(r)
    } else {
        None
    }
}

/// The joints of each vertex, as sequences.
pub open spec fn joints_view(j: Seq<[u16; 4]>) -> Seq<Seq<u16>> {
    j.map_values(|a: [u16; 4]| a@)
}

/// Assembles a primitive's vertices from its accessors' words: positions,
/// normals and tangents, each texture-coordinate channel, the first
/// colours, and the skin joints and weights.
pub fn assemble_vertices(
    positions: &[u32],
    normals: &[u32],
    tangents: &[u32],
    uvs: &Vec<Vec<u32>>,
    colors: &[u32],
    joints: &[[u16; 4]],
    weights: &[u32],
) -> (r: Vec<VertexRead>)
    ensures
        r@.map_values(|v: VertexRead| v@) == assemble_spec(
            positions@,
            normals@,
            tangents@,
            uvs@.map_values(|u: Vec<u32>| u@),
            colors@,
            joints_view(joints@),
            weights@,
        ),
{
    let ghost uvv = uvs@.map_values(|u: Vec<u32>| u@);
    let ghost target = assemble_spec(positions@, normals@, tangents@, uvv, colors@, joints_view(joints@), weights@);
    let n = positions.len() / 3;
    let mut out: Vec<VertexRead> = Vec::new();
    let mut i: usize = 0;
    while i < n
        invariant
            n == positions@.len() / 3,
            i <= n,
            uvv == uvs@.map_values(|u: Vec<u32>| u@),
            target == assemble_spec(positions@, normals@, tangents@, uvv, colors@, joints_view(joints@), weights@),
            out@.len() == i,
            forall|k: int| 0 <= k < i ==> #[trigger] out@[k]@ == target[k],
        decreases n - i,
    {
        let position = chunk3(positions, i);
        let normal = if i < normals.len() / 3 {
            Some(chunk3(normals, i))
        } else {
            None
        };
        let tangent = if i < tangents.len() / 4 {
            Some(chunk4(tangents, i))
        } else {
            None
        };
        let mut vuv: Vec<Option<[u32; 2]>> = Vec::new();
        let mut c: usize = 0;
        while c < uvs.len()
            invariant
                uvv == uvs@.map_values(|u: Vec<u32>| u@),
                c <= uvs@.len(),
                vuv@.len() == c,
                forall|t: int| 0 <= t < c ==> opt_view(#[trigger] vuv@[t]) == chunk_at(uvv[t], 2, i as int),
            decreases uvs@.len() - c,
        {
            let ch = &uvs[c];
            assert(ch@ == uvv[c as int]);
            let u = if i < ch.len() / 2 {
                Some(chunk2(ch.as_slice(), i))
            } else {
                None
            };
            vuv.push(u);
            c = c + 1;
        }
        let color0 = color_of(colors, i);
        let skin = if i < joints.len() && i < weights.len() / 4 {
            Some((joints[i], chunk4(weights, i)))
        } else {
            None
        };
        let v = VertexRead { position, normal, tangent, uvs: vuv, color0, skin };
        proof {
            assert(v@.uvs =~= target[i as int].uvs);
            if i < joints@.len() {
                assert(joints_view(joints@)[i as int] == joints@[i as int]@);
            }
        }
        out.push(v);
        i = i + 1;
    }
    assert(out@.map_values(|v: VertexRead| v@) =~= target);
    out
}

/// Each optional attribute is on every vertex or on none.
pub open spec fn uniform(vs: Seq<VertexBits>) -> bool {
    &&& (forall|i: int| 0 <= i < vs.len() ==> (#[trigger] vs[i]).normal is Some) || (forall|i: int|
        0 <= i < vs.len() ==> (#[trigger] vs[i]).normal is None)
    &&& (forall|i: int| 0 <= i < vs.len() ==> (#[trigger] vs[i]).tangent is Some) || (forall|i: int|
        0 <= i < vs.len() ==> (#[trigger] vs[i]).tangent is None)
    &&& (forall|i: int| 0 <= i < vs.len() ==> (#[trigger] vs[i]).uv0 is Some) || (forall|i: int|
        0 <= i < vs.len() ==> (#[trigger] vs[i]).uv0 is None)
    &&& (forall|i: int| 0 <= i < vs.len() ==> (#[trigger] vs[i]).color0 is Some) || (forall|i: int|
        0 <= i < vs.len() ==> (#[trigger] vs[i]).color0 is None)
}

/// The words a reader gets for an attribute of written vertices: the
/// stream when it was written, nothing otherwise.
pub open spec fn stream_or_empty(vs: Seq<VertexBits>, a: Attribute) -> Seq<u32> {
    if has_attr(vs, a) {
        attr_flat(vs, a)
    } else {
        Seq::empty()
    }
}

/// The texture-coordinate channels a reader finds in written vertices.
pub open spec fn uv_channels(vs: Seq<VertexBits>) -> Seq<Seq<u32>> {
    if has_attr(vs, Attribute::TexCoord0) {
        seq![attr_flat(vs, Attribute::TexCoord0)]
    } else {
        Seq::empty()
    }
}

/// A written vertex as a reader assembles it.
pub open spec fn read_view_of(v: VertexBits) -> VertexReadView {
    VertexReadView {
        position: v.position@,
        normal: opt_view(v.normal),
        tangent: opt_view(v.tangent),
        uvs: match v.uv0 {
            Some(u) => seq![Some(u@)],
            None => Seq::empty(),
        },
        color0: opt_view(v.color0),
        skin: None,
    }
}

/// A stream holds one element per vertex: element `i` is vertex `i`'s.
proof fn lemma_flat_chunks(vs: Seq<VertexBits>, a: Attribute)
    ensures
        attr_flat(vs, a).len() / attr_width(a) == vs.len(),
        forall|i: int| 0 <= i < vs.len() ==> #[trigger] chunk(attr_flat(vs, a), attr_width(a), i) == attr_words(vs[i], a),
{
    let w = attr_width(a);
    let f = attr_flat(vs, a);
    assert(w > 0);
    assert((vs.len() * w) / w == vs.len()) by (nonlinear_arith) requires w > 0;
    assert forall|i: int| 0 <= i < vs.len() implies #[trigger] chunk(f, w, i) == attr_words(vs[i], a) by {
        lemma_attr_words_len(vs[i], a);
        assert(i * w + w <= vs.len() * w) by (nonlinear_arith) requires 0 <= i < vs.len(), w > 0;
        assert(i * w >= 0) by (nonlinear_arith) requires i >= 0, w > 0;
        assert forall|c: int| 0 <= c < w implies #[trigger] chunk(f, w, i)[c] == attr_words(vs[i], a)[c] by {
            assert((i * w + c) / (w as int) == i && (i * w + c) % (w as int) == c) by (nonlinear_arith)
                requires 0 <= c < w, i >= 0, w > 0;
            assert(chunk(f, w, i)[c] == f[i * w + c]);
        }
        assert(chunk(f, w, i) =~= attr_words(vs[i], a));
    }
}

/// Vertices written to a glTF primitive come back from its streams as
/// they were, when each optional attribute is on all of them or on none
/// (a missing one would come back as the writer's default).
pub proof fn lemma_vertices_read_back(vs: Seq<VertexBits>)
    requires
        uniform(vs),
    ensures
        assemble_spec(
            attr_flat(vs, Attribute::Position),
            stream_or_empty(vs, Attribute::Normal),
            stream_or_empty(vs, Attribute::Tangent),
            uv_channels(vs),
            stream_or_empty(vs, Attribute::Color0),
            Seq::empty(),
            Seq::empty(),
        ) == vs.map_values(|v: VertexBits| read_view_of(v)),
{
    lemma_flat_chunks(vs, Attribute::Position);
    lemma_flat_chunks(vs, Attribute::Normal);
    lemma_flat_chunks(vs, Attribute::Tangent);
    lemma_flat_chunks(vs, Attribute::TexCoord0);
    lemma_flat_chunks(vs, Attribute::Color0);
    let got = assemble_spec(
        attr_flat(vs, Attribute::Position),
        stream_or_empty(vs, Attribute::Normal),
        stream_or_empty(vs, Attribute::Tangent),
        uv_channels(vs),
        stream_or_empty(vs, Attribute::Color0),
        Seq::empty(),
        Seq::empty(),
    );
    let want = vs.map_values(|v: VertexBits| read_view_of(v));
    assert(got.len() == want.len());
    assert forall|i: int| 0 <= i < vs.len() implies #[trigger] got[i] == want[i] by {
        let v = vs[i];
        assert(chunk(attr_flat(vs, Attribute::Position), 3, i) == v.position@);
        if has_attr(vs, Attribute::Normal) {
            assert(v.normal is Some);
            assert(chunk_at(stream_or_empty(vs, Attribute::Normal), 3, i) == opt_view(v.normal));
        } else {
            assert(v.normal is None);
        }
        if has_attr(vs, Attribute::Tangent) {
            assert(v.tangent is Some);
            assert(chunk_at(stream_or_empty(vs, Attribute::Tangent), 4, i) == opt_view(v.tangent));
        } else {
            assert(v.tangent is None);
        }
        if has_attr(vs, Attribute::Color0) {
            assert(v.color0 is Some);
            assert((vs.len() * 4) % 4 == 0) by (nonlinear_arith);
            assert(color_at(stream_or_empty(vs, Attribute::Color0), i) == opt_view(v.color0));
        } else {
            assert(v.color0 is None);
        }
        if has_attr(vs, Attribute::TexCoord0) {
            assert(v.uv0 is Some);
            assert(got[i].uvs =~= want[i].uvs);
        } else {
            assert(v.uv0 is None);
            assert(got[i].uvs =~= want[i].uvs);
        }
    }
    assert(got =~= want);
}


/// The vertex views of the first `k` primitives, one after another.
pub open spec fn flat_vertices(ls: Seq<Seq<VertexReadView>>, k: nat) -> Seq<VertexReadView>
    decreases k,
{
    if k == 0 || k > ls.len() {
        Seq::empty()
    } else {
        flat_vertices(ls, (k - 1) as nat) + ls[k - 1]
    }
}

/// The views of each primitive's vertices.
pub open spec fn lists_of_views(ls: Seq<Vec<VertexRead>>) -> Seq<Seq<VertexReadView>> {
    ls.map_values(|v: Vec<VertexRead>| v@.map_values(|x: VertexRead| x@))
}

/// Merges the primitives of a mesh into one vertex list: each primitive's
/// vertices follow those before it, and its indices move past them (the
/// count taken as `u32`).
pub fn merge_primitives(vertex_lists: Vec<Vec<VertexRead>>, index_lists: &Vec<Vec<u32>>) -> (r: (Vec<VertexRead>, Vec<Vec<u32>>))
    requires
        index_lists@.len() == vertex_lists@.len(),
        forall|k: int, i: int|
            0 <= k < index_lists@.len() && 0 <= i < index_lists@[k]@.len() ==> #[trigger] index_lists@[k]@[i]
                + (flat_vertices(lists_of_views(vertex_lists@), k as nat).len() as u32) <= u32::MAX,
    ensures
        r.0@.map_values(|x: VertexRead| x@) == flat_vertices(lists_of_views(vertex_lists@), vertex_lists@.len()),
        r.1@.len() == index_lists@.len(),
        forall|k: int| 0 <= k < index_lists@.len() ==> (#[trigger] r.1@[k])@.len() == index_lists@[k]@.len(),
        forall|k: int, i: int|
            0 <= k < index_lists@.len() && 0 <= i < index_lists@[k]@.len() ==> #[trigger] r.1@[k]@[i] == index_lists@[k]@[i] + (flat_vertices(
                lists_of_views(vertex_lists@),
                k as nat,
            ).len() as u32),
{
    let ghost lv = lists_of_views(vertex_lists@);
    let ghost orig = vertex_lists@;
    let mut rest = vertex_lists;
    let mut all: Vec<VertexRead> = Vec::new();
    let mut out: Vec<Vec<u32>> = Vec::new();
    let mut k: usize = 0;
    let n = rest.len();
    assert(orig.skip(0) =~= orig);
    while k < n
        invariant
            n == orig.len(),
            index_lists@.len() == n,
            lv == lists_of_views(orig),
            k <= n,
            rest@ == orig.skip(k as int),
            all@.map_values(|x: VertexRead| x@) == flat_vertices(lv, k as nat),
            out@.len() == k,
            forall|a: int, i: int|
                0 <= a < n && 0 <= i < index_lists@[a]@.len() ==> #[trigger] index_lists@[a]@[i]
                    + (flat_vertices(lv, a as nat).len() as u32) <= u32::MAX,
            forall|a: int| 0 <= a < k ==> (#[trigger] out@[a])@.len() == index_lists@[a]@.len(),
            forall|a: int, i: int|
                0 <= a < k && 0 <= i < index_lists@[a]@.len() ==> #[trigger] out@[a]@[i] == index_lists@[a]@[i]
                    + (flat_vertices(lv, a as nat).len() as u32),
        decreases n - k,
    {
        let base = all.len();
        assert(base == flat_vertices(lv, k as nat).len());
        let idx = crate::gltf_fields::offset_indices(index_lists[k].as_slice(), base);
        let mut vs = rest.remove(0);
        assert(vs@ == orig[k as int]@);
        let ghost before = all@.map_values(|x: VertexRead| x@);
        all.append(&mut vs);
        assert(all@.map_values(|x: VertexRead| x@) =~= before + lv[k as int]);
        assert(rest@ =~= orig.skip(k + 1));
        let ghost prev = out@;
        out.push(idx);
        proof {
            assert(index_lists[k as int]@ == index_lists@[k as int]@);
            assert forall|a: int| 0 <= a < k + 1 implies (#[trigger] out@[a])@.len() == index_lists@[a]@.len() by {
                if a < k {
                    assert(out@[a] == prev[a]);
                }
            }
            assert forall|a: int, i: int|
                0 <= a < k + 1 && 0 <= i < index_lists@[a]@.len() implies #[trigger] out@[a]@[i] == index_lists@[a]@[i]
                    + (flat_vertices(lv, a as nat).len() as u32) by {
                if a < k {
                    assert(out@[a] == prev[a]);
                    assert(prev[a]@[i] == index_lists@[a]@[i] + (flat_vertices(lv, a as nat).len() as u32));
                } else {
                    assert(out@[a]@ == idx@);
                    assert(a == k);
                    assert(idx@[i] == index_lists@[a]@[i] + (base as u32));
                    assert((base as u32) == (flat_vertices(lv, a as nat).len() as u32));
                }
            }
        }
        k = k + 1;
    }
    assert(lv == lists_of_views(vertex_lists@));
    (all, out)
}

} // verus!
