//! Writing mesh data into a glTF document: for every primitive, the vertex
//! streams and the indices go into the binary buffer, each with its
//! bufferView and accessor.

use vstd::prelude::*;
use crate::bytes::{concat_map, le32, le32_bytes, lemma_concat_fixed, lemma_concat_map_push, lemma_le32_roundtrip, push_u32_le};
use crate::gltf::{
    component_size_spec, element_words, get_slice_spec, index_value, num_components_spec, push_acc, push_bv,
    raw_component, read_f32_words_spec, read_u32_spec, slice_bytes, stride_fits_spec, validate_accessor_spec,
    AccessorSlice, GltfAccessorView, GltfBufferView, GltfError, GltfRoot, GltfRootView, MAX_ACCESSOR_BYTES,
};

verus! {

/// A vertex as the writer sees it: each float by its IEEE-754 bits.
#[derive(Debug, Clone, Copy)]
pub struct VertexBits {
    pub position: [u32; 3],
    pub normal: Option<[u32; 3]>,
    pub tangent: Option<[u32; 4]>,
    pub uv0: Option<[u32; 2]>,
    pub color0: Option<[u32; 4]>,
}

/// The vertex streams a primitive can have, in the order they are written.
#[derive(Debug, Clone, Copy, PartialEq, Eq, Structural)]
pub enum Attribute {
    Position,
    Normal,
    Tangent,
    TexCoord0,
    Color0,
}

/// The bits of `1.0f32`.
pub const ONE_BITS: u32 = 0x3F80_0000u32;

/// The words a vertex contributes to a stream; a vertex without the
/// attribute gets the default (normal `+Y`, tangent `(1, 0, 0, 1)`, UV
/// `(0, 0)`, colour white).
pub open spec fn attr_words(v: VertexBits, a: Attribute) -> Seq<u32> {
    match a {
        Attribute::Position => v.position@,
        Attribute::Normal => match v.normal {
            Some(n) => n@,
            None => seq![0u32, ONE_BITS, 0u32],
        },
        Attribute::Tangent => match v.tangent {
            Some(t) => t@,
            None => seq![ONE_BITS, 0u32, 0u32, ONE_BITS],
        },
        Attribute::TexCoord0 => match v.uv0 {
            Some(u) => u@,
            None => seq![0u32, 0u32],
        },
        Attribute::Color0 => match v.color0 {
            Some(c) => c@,
            None => seq![ONE_BITS, ONE_BITS, ONE_BITS, ONE_BITS],
        },
    }
}

/// Little-endian bytes of a list of words.
pub open spec fn words_bytes(ws: Seq<u32>) -> Seq<u8> {
    concat_map(ws, |w: u32| le32_bytes(w as nat))
}

/// The bytes of one attribute stream over all vertices.
pub open spec fn attr_stream(vs: Seq<VertexBits>, a: Attribute) -> Seq<u8> {
    concat_map(vs, |v: VertexBits| words_bytes(attr_words(v, a)))
}

/// Whether a stream is written: positions always, the others when some
/// vertex has the attribute.
pub open spec fn has_attr(vs: Seq<VertexBits>, a: Attribute) -> bool {
    match a {
        Attribute::Position => true,
        Attribute::Normal => exists|i: int| 0 <= i < vs.len() && (#[trigger] vs[i]).normal is Some,
        Attribute::Tangent => exists|i: int| 0 <= i < vs.len() && (#[trigger] vs[i]).tangent is Some,
        Attribute::TexCoord0 => exists|i: int| 0 <= i < vs.len() && (#[trigger] vs[i]).uv0 is Some,
        Attribute::Color0 => exists|i: int| 0 <= i < vs.len() && (#[trigger] vs[i]).color0 is Some,
    }
}

/// Floats per element of a stream.
pub open spec fn attr_width(a: Attribute) -> nat {
    match a {
        Attribute::Position => 3,
        Attribute::Normal => 3,
        Attribute::Tangent => 4,
        Attribute::TexCoord0 => 2,
        Attribute::Color0 => 4,
    }
}

/// The accessor type of a stream.
pub open spec fn attr_type(a: Attribute) -> Seq<char> {
    match a {
        Attribute::Position => "VEC3"@,
        Attribute::Normal => "VEC3"@,
        Attribute::Tangent => "VEC4"@,
        Attribute::TexCoord0 => "VEC2"@,
        Attribute::Color0 => "VEC4"@,
    }
}

/// The binary buffer and the bufferViews and accessors written so far.
pub struct DocState {
    pub bin: Seq<u8>,
    pub views: Seq<GltfBufferView>,
    pub accessors: Seq<GltfAccessorView>,
}

/// Target of vertex data (`ARRAY_BUFFER`) and of indices
/// (`ELEMENT_ARRAY_BUFFER`); component types `FLOAT` and `UNSIGNED_INT`.
pub const ARRAY_BUFFER: u32 = 34962u32;
pub const ELEMENT_ARRAY_BUFFER: u32 = 34963u32;
pub const FLOAT: u32 = 5126u32;
pub const UNSIGNED_INT: u32 = 5125u32;

/// Appends a block of `len` bytes at the end of the buffer, with a
/// bufferView over it and an accessor over that view.
pub open spec fn add_block(s: DocState, data: Seq<u8>, target: u32, ct: u32, count: nat, ty: Seq<char>) -> DocState {
    DocState {
        bin: s.bin + data,
        views: s.views.push(
            GltfBufferView {
                buffer: 0,
                byte_offset: s.bin.len() as usize,
                byte_length: data.len() as usize,
                byte_stride: None,
                target: Some(target),
            },
        ),
        accessors: s.accessors.push(
            GltfAccessorView {
                buffer_view: Some(s.views.len() as usize),
                byte_offset: 0,
                component_type: ct,
                count: count as usize,
                type_: ty,
                normalized: false,
                sparse: None,
            },
        ),
    }
}

/// The state after one attribute stream (unchanged when it is not written).
pub open spec fn attr_step(s: DocState, vs: Seq<VertexBits>, a: Attribute) -> DocState {
    if has_attr(vs, a) {
        add_block(s, attr_stream(vs, a), ARRAY_BUFFER, FLOAT, vs.len(), attr_type(a))
    } else {
        s
    }
}

/// The state after the indices of a primitive.
pub open spec fn index_step(s: DocState, idx: Seq<u32>) -> DocState {
    add_block(s, words_bytes(idx), ELEMENT_ARRAY_BUFFER, UNSIGNED_INT, idx.len(), "SCALAR"@)
}

/// The document's current state.
pub open spec fn doc_state(gltf: GltfRoot, bin: Seq<u8>) -> DocState {
    DocState { bin, views: gltf@.buffer_views, accessors: gltf@.accessors }
}

/// Appends the little-endian bytes of each word.
pub fn push_words(out: &mut Vec<u8>, ws: &[u32])
    ensures
        final(out)@ == old(out)@ + words_bytes(ws@),
{
    let mut i: usize = 0;
    assert(ws@.take(0) =~= Seq::<u32>::empty());
    assert(old(out)@ + words_bytes(Seq::<u32>::empty()) =~= old(out)@);
    while i < ws.len()
        invariant
            i <= ws@.len(),
            out@ == old(out)@ + words_bytes(ws@.take(i as int)),
        decreases ws@.len() - i,
    {
        proof {
            lemma_concat_map_push(ws@.take(i as int), ws@[i as int], |w: u32| le32_bytes(w as nat));
            assert(ws@.take(i as int).push(ws@[i as int]) =~= ws@.take(i + 1));
        }
        push_u32_le(out, ws[i]);
        i = i + 1;
    }
    assert(ws@.take(i as int) =~= ws@);
}

/// The words of one vertex for one stream.
fn words_of(v: &VertexBits, a: Attribute) -> (r: Vec<u32>)
    ensures
        r@ == attr_words(*v, a),
{
    let r: Vec<u32> = match a {
        Attribute::Position => {
            let p = v.position;
            vec![p[0], p[1], p[2]]
        },
        Attribute::Normal => match v.normal {
            Some(n) => vec![n[0], n[1], n[2]],
            None => vec![0u32, ONE_BITS, 0u32],
        },
        Attribute::Tangent => match v.tangent {
            Some(t) => vec![t[0], t[1], t[2], t[3]],
            None => vec![ONE_BITS, 0u32, 0u32, ONE_BITS],
        },
        Attribute::TexCoord0 => match v.uv0 {
            Some(u) => vec![u[0], u[1]],
            None => vec![0u32, 0u32],
        },
        Attribute::Color0 => match v.color0 {
            Some(c) => vec![c[0], c[1], c[2], c[3]],
            None => vec![ONE_BITS, ONE_BITS, ONE_BITS, ONE_BITS],
        },
    };
    assert(r@ =~= attr_words(*v, a));
    r
}

/// Whether the stream of `a` is written for these vertices.
pub fn has_attribute(vs: &[VertexBits], a: Attribute) -> (r: bool)
    ensures
        r == has_attr(vs@, a),
{
    if a == Attribute::Position {
        return true;
    }
    let mut i: usize = 0;
    while i < vs.len()
        invariant
            a != Attribute::Position,
            i <= vs@.len(),
            forall|j: int| 0 <= j < i ==> match a {
                Attribute::Normal => (#[trigger] vs@[j]).normal is None,
                Attribute::Tangent => vs@[j].tangent is None,
                Attribute::TexCoord0 => vs@[j].uv0 is None,
                Attribute::Color0 => vs@[j].color0 is None,
                Attribute::Position => true,
            },
        decreases vs@.len() - i,
    {
        let v = &vs[i];
        let found = match a {
            Attribute::Normal => v.normal.is_some(),
            Attribute::Tangent => v.tangent.is_some(),
            Attribute::TexCoord0 => v.uv0.is_some(),
            Attribute::Color0 => v.color0.is_some(),
            Attribute::Position => true,
        };
        if found {
            assert(vs@[i as int] == *v);
            return true;
        }
        i = i + 1;
    }
    false
}

/// The accessor type name of a stream.
fn accessor_type_of(a: Attribute) -> (r: &'static str)
    ensures
        r@ == attr_type(a),
{
    match a {
        Attribute::Position => "VEC3",
        Attribute::Normal => "VEC3",
        Attribute::Tangent => "VEC4",
        Attribute::TexCoord0 => "VEC2",
        Attribute::Color0 => "VEC4",
    }
}

/// Writes one attribute stream of all vertices, with its bufferView and
/// accessor; returns the accessor's index.
pub fn write_stream(gltf: &mut GltfRoot, bin: &mut Vec<u8>, vs: &[VertexBits], a: Attribute) -> (r: usize)
    ensures
        doc_state(*final(gltf), final(bin)@) == add_block(
            doc_state(*old(gltf), old(bin)@),
            attr_stream(vs@, a),
            ARRAY_BUFFER,
            FLOAT,
            vs@.len(),
            attr_type(a),
        ),
        final(gltf)@.extensions_required == old(gltf)@.extensions_required,
        r == old(gltf)@.accessors.len(),
{
    let off = bin.len();
    let mut i: usize = 0;
    assert(vs@.take(0) =~= Seq::<VertexBits>::empty());
    assert(bin@ =~= old(bin)@ + attr_stream(vs@.take(0), a));
    while i < vs.len()
        invariant
            i <= vs@.len(),
            off == old(bin)@.len(),
            bin@ == old(bin)@ + attr_stream(vs@.take(i as int), a),
        decreases vs@.len() - i,
    {
        let ws = words_of(&vs[i], a);
        push_words(bin, ws.as_slice());
        proof {
            lemma_concat_map_push(vs@.take(i as int), vs@[i as int], |v: VertexBits| words_bytes(attr_words(v, a)));
            assert(vs@.take(i as int).push(vs@[i as int]) =~= vs@.take(i + 1));
        }
        i = i + 1;
    }
    assert(vs@.take(i as int) =~= vs@);
    let len = bin.len() - off;
    let bv = push_bv(gltf, 0, off, len, None, Some(ARRAY_BUFFER));
    let acc = push_acc(gltf, bv, FLOAT, vs.len(), accessor_type_of(a), 0);
    assert(doc_state(*gltf, bin@).views =~= doc_state(*old(gltf), old(bin)@).views.push(
        GltfBufferView { buffer: 0, byte_offset: off, byte_length: len, byte_stride: None, target: Some(ARRAY_BUFFER) },
    ));
    acc
}

/// Writes the indices of a primitive, with their bufferView and accessor;
/// returns the accessor's index.
pub fn write_indices(gltf: &mut GltfRoot, bin: &mut Vec<u8>, idx: &[u32]) -> (r: usize)
    ensures
        doc_state(*final(gltf), final(bin)@) == index_step(doc_state(*old(gltf), old(bin)@), idx@),
        final(gltf)@.extensions_required == old(gltf)@.extensions_required,
        r == old(gltf)@.accessors.len(),
{
    let off = bin.len();
    push_words(bin, idx);
    let len = bin.len() - off;
    let bv = push_bv(gltf, 0, off, len, None, Some(ELEMENT_ARRAY_BUFFER));
    push_acc(gltf, bv, UNSIGNED_INT, idx.len(), "SCALAR", 0)
}

/// The accessors of a written primitive: one per written stream, and the
/// indices.
#[derive(Debug, Clone, Copy, PartialEq, Eq, Structural)]
pub struct PrimitiveSlots {
    pub position: usize,
    pub normal: Option<usize>,
    pub tangent: Option<usize>,
    pub texcoord0: Option<usize>,
    pub color0: Option<usize>,
    pub indices: usize,
}

/// The state after the streams of a primitive (before its indices).
pub open spec fn streams_state(s: DocState, vs: Seq<VertexBits>) -> DocState {
    attr_step(
        attr_step(
            attr_step(attr_step(attr_step(s, vs, Attribute::Position), vs, Attribute::Normal), vs, Attribute::Tangent),
            vs,
            Attribute::TexCoord0,
        ),
        vs,
        Attribute::Color0,
    )
}

/// The state after a whole primitive.
pub open spec fn primitive_state(s: DocState, vs: Seq<VertexBits>, idx: Seq<u32>) -> DocState {
    index_step(streams_state(s, vs), idx)
}

/// The accessor a stream gets when the state before it is `s`.
pub open spec fn slot_of(s: DocState, vs: Seq<VertexBits>, a: Attribute) -> Option<usize> {
    if has_attr(vs, a) {
        Some(s.accessors.len() as usize)
    } else {
        None
    }
}

/// The accessors of a primitive written from state `s`.
pub open spec fn primitive_slots(s: DocState, vs: Seq<VertexBits>) -> PrimitiveSlots {
    let s1 = attr_step(s, vs, Attribute::Position);
    let s2 = attr_step(s1, vs, Attribute::Normal);
    let s3 = attr_step(s2, vs, Attribute::Tangent);
    let s4 = attr_step(s3, vs, Attribute::TexCoord0);
    PrimitiveSlots {
        position: s.accessors.len() as usize,
        normal: slot_of(s1, vs, Attribute::Normal),
        tangent: slot_of(s2, vs, Attribute::Tangent),
        texcoord0: slot_of(s3, vs, Attribute::TexCoord0),
        color0: slot_of(s4, vs, Attribute::Color0),
        indices: streams_state(s, vs).accessors.len() as usize,
    }
}

/// Writes one stream when the vertices have it.
fn write_if_present(gltf: &mut GltfRoot, bin: &mut Vec<u8>, vs: &[VertexBits], a: Attribute) -> (r: Option<usize>)
    ensures
        doc_state(*final(gltf), final(bin)@) == attr_step(doc_state(*old(gltf), old(bin)@), vs@, a),
        final(gltf)@.extensions_required == old(gltf)@.extensions_required,
        r == slot_of(doc_state(*old(gltf), old(bin)@), vs@, a),
{
    if has_attribute(vs, a) {
        Some(write_stream(gltf, bin, vs, a))
    } else {
        None
    }
}

/// Writes one primitive of a mesh: the position stream, the normal,
/// tangent, first UV and first colour streams when some vertex has them,
/// then the indices; every stream covers all the mesh's vertices.
pub fn write_primitive(gltf: &mut GltfRoot, bin: &mut Vec<u8>, vs: &[VertexBits], idx: &[u32]) -> (r: PrimitiveSlots)
    ensures
        doc_state(*final(gltf), final(bin)@) == primitive_state(doc_state(*old(gltf), old(bin)@), vs@, idx@),
        final(gltf)@.extensions_required == old(gltf)@.extensions_required,
        r == primitive_slots(doc_state(*old(gltf), old(bin)@), vs@),
{
    let position = write_stream(gltf, bin, vs, Attribute::Position);
    let normal = write_if_present(gltf, bin, vs, Attribute::Normal);
    let tangent = write_if_present(gltf, bin, vs, Attribute::Tangent);
    let texcoord0 = write_if_present(gltf, bin, vs, Attribute::TexCoord0);
    let color0 = write_if_present(gltf, bin, vs, Attribute::Color0);
    let indices = write_indices(gltf, bin, idx);
    PrimitiveSlots { position, normal, tangent, texcoord0, color0, indices }
}

/// The state after the primitives `prims` of a mesh, in order.
pub open spec fn mesh_state(s: DocState, vs: Seq<VertexBits>, prims: Seq<Seq<u32>>) -> DocState
    decreases prims.len(),
{
    if prims.len() == 0 {
        s
    } else {
        primitive_state(mesh_state(s, vs, prims.drop_last()), vs, prims.last())
    }
}

/// Writes every primitive of a mesh in order; the slots of primitive `k`
/// are those it gets after the primitives before it.
pub fn write_mesh(gltf: &mut GltfRoot, bin: &mut Vec<u8>, vs: &[VertexBits], prims: &Vec<Vec<u32>>) -> (r: Vec<
    PrimitiveSlots,
>)
    ensures
        doc_state(*final(gltf), final(bin)@) == mesh_state(
            doc_state(*old(gltf), old(bin)@),
            vs@,
            prims@.map_values(|p: Vec<u32>| p@),
        ),
        final(gltf)@.extensions_required == old(gltf)@.extensions_required,
        r@.len() == prims@.len(),
        forall|k: int|
            0 <= k < r@.len() ==> #[trigger] r@[k] == primitive_slots(
                mesh_state(doc_state(*old(gltf), old(bin)@), vs@, prims@.map_values(|p: Vec<u32>| p@).take(k)),
                vs@,
            ),
{
    let ghost s0 = doc_state(*old(gltf), old(bin)@);
    let ghost ps = prims@.map_values(|p: Vec<u32>| p@);
    let mut out: Vec<PrimitiveSlots> = Vec::new();
    let mut k: usize = 0;
    assert(ps.take(0) =~= Seq::<Seq<u32>>::empty());
    while k < prims.len()
        invariant
            ps == prims@.map_values(|p: Vec<u32>| p@),
            k <= prims@.len(),
            out@.len() == k,
            doc_state(*gltf, bin@) == mesh_state(s0, vs@, ps.take(k as int)),
            gltf@.extensions_required == old(gltf)@.extensions_required,
            forall|t: int| 0 <= t < k ==> #[trigger] out@[t] == primitive_slots(mesh_state(s0, vs@, ps.take(t)), vs@),
        decreases prims@.len() - k,
    {
        let slots = write_primitive(gltf, bin, vs, prims[k].as_slice());
        out.push(slots);
        proof {
            let next = ps.take(k + 1);
            assert(next.drop_last() =~= ps.take(k as int));
            assert(next.last() == prims@[k as int]@);
        }
        k = k + 1;
    }
    assert(ps.take(k as int) =~= ps);
    out
}

/// The words of a stream, vertex after vertex.
pub open spec fn attr_flat(vs: Seq<VertexBits>, a: Attribute) -> Seq<u32> {
    let w = attr_width(a) as int;
    Seq::new(vs.len() * attr_width(a), |j: int| attr_words(vs[j / w], a)[j % w])
}

/// Word `k` of a list sits, little-endian, at byte `4k`.
pub proof fn lemma_words_bytes(ws: Seq<u32>)
    ensures
        words_bytes(ws).len() == 4 * ws.len(),
        forall|k: int| 0 <= k < ws.len() ==> le32(words_bytes(ws), 4 * k) == #[trigger] ws[k],
{
    let f = |w: u32| le32_bytes(w as nat);
    lemma_concat_fixed(ws, f, 4);
    assert forall|k: int| 0 <= k < ws.len() implies le32(words_bytes(ws), 4 * k) == #[trigger] ws[k] by {
        assert(words_bytes(ws).subrange(k * 4, k * 4 + 4) == f(ws[k]));
        assert(k * 4 == 4 * k);
        lemma_le32_roundtrip(ws[k] as nat, words_bytes(ws), 4 * k);
    }
}

/// Every vertex gives a stream the same number of words.
pub proof fn lemma_attr_words_len(v: VertexBits, a: Attribute)
    ensures
        attr_words(v, a).len() == attr_width(a),
{
}

/// Component `c` of vertex `i` sits, little-endian, at byte
/// `i * 4w + 4c` of the stream.
pub proof fn lemma_attr_stream(vs: Seq<VertexBits>, a: Attribute)
    ensures
        attr_stream(vs, a).len() == vs.len() * (4 * attr_width(a)),
        forall|j: int|
            0 <= j < vs.len() * attr_width(a) ==> le32(
                attr_stream(vs, a),
                (j / attr_width(a) as int) * (4 * attr_width(a)) + (j % attr_width(a) as int) * 4,
            ) == #[trigger] attr_flat(vs, a)[j],
{
    let w = attr_width(a);
    let f = |v: VertexBits| words_bytes(attr_words(v, a));
    assert forall|i: int| 0 <= i < vs.len() implies #[trigger] f(vs[i]).len() == 4 * w by {
        lemma_attr_words_len(vs[i], a);
        lemma_words_bytes(attr_words(vs[i], a));
    }
    lemma_concat_fixed(vs, f, 4 * w);
    let st = attr_stream(vs, a);
    assert forall|j: int| 0 <= j < vs.len() * w implies le32(st, (j / w as int) * (4 * w) + (j % w as int) * 4)
        == #[trigger] attr_flat(vs, a)[j] by {
        let i = j / w as int;
        let c = j % w as int;
        assert(w > 0);
        assert(0 <= i < vs.len() && 0 <= c < w) by (nonlinear_arith)
            requires 0 <= j < vs.len() * w, w > 0, i == j / w as int, c == j % w as int;
        let ws = attr_words(vs[i], a);
        lemma_attr_words_len(vs[i], a);
        lemma_words_bytes(ws);
        let base = i * (4 * w);
        assert(st.subrange(base, base + 4 * w) == f(vs[i]));
        assert(f(vs[i]) == words_bytes(ws));
        assert(base + 4 * w <= st.len()) by (nonlinear_arith)
            requires base == i * (4 * w), 0 <= i < vs.len(), st.len() == vs.len() * (4 * w);
        assert(base >= 0) by (nonlinear_arith) requires base == i * (4 * w), i >= 0;
        let sub = st.subrange(base, base + 4 * w);
        assert(sub[4 * c] == st[base + c * 4]);
        assert(sub[4 * c + 1] == st[base + c * 4 + 1]);
        assert(sub[4 * c + 2] == st[base + c * 4 + 2]);
        assert(sub[4 * c + 3] == st[base + c * 4 + 3]);
        assert(le32(st, base + c * 4) == le32(words_bytes(ws), 4 * c)) by {
            assert(st[base + c * 4] == words_bytes(ws)[4 * c]);
            assert(st[base + c * 4 + 1] == words_bytes(ws)[4 * c + 1]);
            assert(st[base + c * 4 + 2] == words_bytes(ws)[4 * c + 2]);
            assert(st[base + c * 4 + 3] == words_bytes(ws)[4 * c + 3]);
        }
        assert(ws[c] == attr_flat(vs, a)[j]);
    }
}

/// `t` is `s` with more written after it.
pub open spec fn extends(t: DocState, s: DocState) -> bool {
    &&& s.bin.len() <= t.bin.len()
    &&& t.bin.subrange(0, s.bin.len() as int) == s.bin
    &&& s.views.len() <= t.views.len()
    &&& t.views.subrange(0, s.views.len() as int) == s.views
    &&& s.accessors.len() <= t.accessors.len()
    &&& t.accessors.subrange(0, s.accessors.len() as int) == s.accessors
}

/// The document a reader sees in a state, the binary buffer as buffer 0.
pub open spec fn doc_root(t: DocState) -> GltfRootView {
    GltfRootView { buffer_views: t.views, accessors: t.accessors, extensions_required: Seq::empty() }
}

pub proof fn lemma_extends_refl(s: DocState)
    ensures
        extends(s, s),
{
    assert(s.bin.subrange(0, s.bin.len() as int) =~= s.bin);
    assert(s.views.subrange(0, s.views.len() as int) =~= s.views);
    assert(s.accessors.subrange(0, s.accessors.len() as int) =~= s.accessors);
}

pub proof fn lemma_extends_trans(u: DocState, t: DocState, s: DocState)
    requires
        extends(u, t),
        extends(t, s),
    ensures
        extends(u, s),
{
    assert(u.bin.subrange(0, s.bin.len() as int) =~= t.bin.subrange(0, s.bin.len() as int));
    assert(u.views.subrange(0, s.views.len() as int) =~= t.views.subrange(0, s.views.len() as int));
    assert(u.accessors.subrange(0, s.accessors.len() as int) =~= t.accessors.subrange(0, s.accessors.len() as int));
}

pub proof fn lemma_block_extends(s: DocState, data: Seq<u8>, target: u32, ct: u32, count: nat, ty: Seq<char>)
    ensures
        extends(add_block(s, data, target, ct, count, ty), s),
{
    let t = add_block(s, data, target, ct, count, ty);
    assert(t.bin.subrange(0, s.bin.len() as int) =~= s.bin);
    assert(t.views.subrange(0, s.views.len() as int) =~= s.views);
    assert(t.accessors.subrange(0, s.accessors.len() as int) =~= s.accessors);
}

pub proof fn lemma_attr_step_extends(s: DocState, vs: Seq<VertexBits>, a: Attribute)
    ensures
        extends(attr_step(s, vs, a), s),
{
    if has_attr(vs, a) {
        lemma_block_extends(s, attr_stream(vs, a), ARRAY_BUFFER, FLOAT, vs.len(), attr_type(a));
    } else {
        lemma_extends_refl(s);
    }
}

/// A block read back from any later state: its accessor is in range, its
/// bufferView starts where the block was written, and its bytes are the
/// block's.
proof fn lemma_block_read(s: DocState, data: Seq<u8>, target: u32, ct: u32, count: nat, ty: Seq<char>, t: DocState)
    requires
        extends(t, add_block(s, data, target, ct, count, ty)),
        t.bin.len() <= usize::MAX,
        t.views.len() <= usize::MAX,
        count <= usize::MAX,
    ensures
        s.accessors.len() < t.accessors.len(),
        t.accessors[s.accessors.len() as int] == (GltfAccessorView {
            buffer_view: Some(s.views.len() as usize),
            byte_offset: 0,
            component_type: ct,
            count: count as usize,
            type_: ty,
            normalized: false,
            sparse: None,
        }),
        get_slice_spec(doc_root(t), seq![t.bin], t.accessors[s.accessors.len() as int]) == Ok::<AccessorSlice, GltfError>(
            AccessorSlice {
                buffer: 0,
                start: s.bin.len() as usize,
                end: (s.bin.len() + data.len()) as usize,
                stride: (num_components_spec(ty) * component_size_spec(ct)) as usize,
            },
        ),
        slice_bytes(
            seq![t.bin],
            AccessorSlice {
                buffer: 0,
                start: s.bin.len() as usize,
                end: (s.bin.len() + data.len()) as usize,
                stride: (num_components_spec(ty) * component_size_spec(ct)) as usize,
            },
        ) == data,
{
    let s2 = add_block(s, data, target, ct, count, ty);
    assert(t.accessors[s.accessors.len() as int] == t.accessors.subrange(0, s2.accessors.len() as int)[s.accessors.len() as int]);
    assert(t.views[s.views.len() as int] == t.views.subrange(0, s2.views.len() as int)[s.views.len() as int]);
    let sub = t.bin.subrange(s.bin.len() as int, (s.bin.len() + data.len()) as int);
    assert forall|k: int| 0 <= k < data.len() implies sub[k] == #[trigger] data[k] by {
        assert(t.bin.subrange(0, s2.bin.len() as int)[s.bin.len() + k] == s2.bin[s.bin.len() + k]);
    }
    assert(sub =~= data);
}

/// Which accessor a primitive's stream got.
pub open spec fn slot_for(p: PrimitiveSlots, a: Attribute) -> Option<usize> {
    match a {
        Attribute::Position => Some(p.position),
        Attribute::Normal => p.normal,
        Attribute::Tangent => p.tangent,
        Attribute::TexCoord0 => p.texcoord0,
        Attribute::Color0 => p.color0,
    }
}

/// The state just before stream `a` of a primitive written from `s`.
pub open spec fn state_before(s: DocState, vs: Seq<VertexBits>, a: Attribute) -> DocState {
    let s1 = attr_step(s, vs, Attribute::Position);
    let s2 = attr_step(s1, vs, Attribute::Normal);
    let s3 = attr_step(s2, vs, Attribute::Tangent);
    let s4 = attr_step(s3, vs, Attribute::TexCoord0);
    match a {
        Attribute::Position => s,
        Attribute::Normal => s1,
        Attribute::Tangent => s2,
        Attribute::TexCoord0 => s3,
        Attribute::Color0 => s4,
    }
}

/// The streams written after `a` leave what `a` wrote in place.
proof fn lemma_streams_extend(s: DocState, vs: Seq<VertexBits>, a: Attribute)
    ensures
        extends(streams_state(s, vs), attr_step(state_before(s, vs, a), vs, a)),
        slot_for(primitive_slots(s, vs), a) == slot_of(state_before(s, vs, a), vs, a),
{
    let s1 = attr_step(s, vs, Attribute::Position);
    let s2 = attr_step(s1, vs, Attribute::Normal);
    let s3 = attr_step(s2, vs, Attribute::Tangent);
    let s4 = attr_step(s3, vs, Attribute::TexCoord0);
    let s5 = attr_step(s4, vs, Attribute::Color0);
    lemma_attr_step_extends(s, vs, Attribute::Position);
    lemma_attr_step_extends(s1, vs, Attribute::Normal);
    lemma_attr_step_extends(s2, vs, Attribute::Tangent);
    lemma_attr_step_extends(s3, vs, Attribute::TexCoord0);
    lemma_attr_step_extends(s4, vs, Attribute::Color0);
    lemma_extends_refl(s5);
    lemma_extends_trans(s5, s4, s3);
    lemma_extends_trans(s5, s3, s2);
    lemma_extends_trans(s5, s2, s1);
}

/// Components per element of each stream's accessor type.
proof fn lemma_type_components(a: Attribute)
    ensures
        num_components_spec(attr_type(a)) == attr_width(a),
        num_components_spec("SCALAR"@) == 1,
{
    reveal_strlit("SCALAR");
    reveal_strlit("VEC2");
    reveal_strlit("VEC3");
    reveal_strlit("VEC4");
    assert("VEC2"@ != "SCALAR"@ && "VEC3"@ != "SCALAR"@ && "VEC4"@ != "SCALAR"@) by {
        assert("VEC2"@[0] != "SCALAR"@[0]);
        assert("VEC3"@[0] != "SCALAR"@[0]);
        assert("VEC4"@[0] != "SCALAR"@[0]);
    }
    assert("VEC3"@ != "VEC2"@ && "VEC4"@ != "VEC2"@ && "VEC4"@ != "VEC3"@) by {
        assert("VEC3"@[3] != "VEC2"@[3]);
        assert("VEC4"@[3] != "VEC2"@[3]);
        assert("VEC4"@[3] != "VEC3"@[3]);
    }
}

/// What a primitive's index accessor holds reads back, from any state
/// written later, as the primitive's indices.
pub proof fn lemma_indices_read_back(s: DocState, vs: Seq<VertexBits>, idx: Seq<u32>, t: DocState)
    requires
        extends(t, primitive_state(s, vs, idx)),
        t.bin.len() <= usize::MAX,
        t.views.len() <= usize::MAX,
        t.accessors.len() <= usize::MAX,
        idx.len() * 4 <= MAX_ACCESSOR_BYTES,
    ensures
        read_u32_spec(doc_root(t), seq![t.bin], primitive_slots(s, vs).indices) == Ok::<Seq<u32>, GltfError>(idx),
{
    let s5 = streams_state(s, vs);
    let data = words_bytes(idx);
    lemma_type_components(Attribute::Position);
    lemma_words_bytes(idx);
    lemma_block_read(s5, data, ELEMENT_ARRAY_BUFFER, UNSIGNED_INT, idx.len(), "SCALAR"@, t);
    let i = s5.accessors.len() as usize;
    let root = doc_root(t);
    let bufs = seq![t.bin];
    let acc = t.accessors[i as int];
    assert(acc.count == idx.len());
    assert(num_components_spec(acc.type_) == 1);
    assert(component_size_spec(acc.component_type) == 4);
    assert(acc.count * num_components_spec(acc.type_) * component_size_spec(acc.component_type) == idx.len() * 4);
    assert(validate_accessor_spec(root, i) == Ok::<GltfAccessorView, GltfError>(acc));
    let sl = AccessorSlice { buffer: 0, start: s5.bin.len() as usize, end: (s5.bin.len() + data.len()) as usize, stride: 4 };
    assert(get_slice_spec(root, bufs, acc) == Ok::<AccessorSlice, GltfError>(sl));
    assert(stride_fits_spec(i, acc.count, 4, 4, (sl.end - sl.start) as usize) == Ok::<(), GltfError>(()));
    let got = Seq::new(acc.count as nat, |k: int| index_value(slice_bytes(bufs, sl), k * sl.stride, UNSIGNED_INT));
    assert forall|k: int| 0 <= k < idx.len() implies got[k] == #[trigger] idx[k] by {
        assert(k * 4 == 4 * k);
    }
    assert(got =~= idx);
}

/// What a primitive's stream accessor holds reads back, from any state
/// written later, as the stream's words, vertex after vertex.
pub proof fn lemma_stream_read_back(s: DocState, vs: Seq<VertexBits>, idx: Seq<u32>, a: Attribute, t: DocState)
    requires
        extends(t, primitive_state(s, vs, idx)),
        has_attr(vs, a),
        t.bin.len() <= usize::MAX,
        t.views.len() <= usize::MAX,
        t.accessors.len() <= usize::MAX,
        vs.len() * 16 <= MAX_ACCESSOR_BYTES,
    ensures
        slot_for(primitive_slots(s, vs), a) matches Some(acc_idx) && read_f32_words_spec(doc_root(t), seq![t.bin], acc_idx)
            == Ok::<Seq<u32>, GltfError>(attr_flat(vs, a)),
{
    let sa = state_before(s, vs, a);
    let w = attr_width(a);
    let data = attr_stream(vs, a);
    lemma_streams_extend(s, vs, a);
    lemma_block_extends(streams_state(s, vs), words_bytes(idx), ELEMENT_ARRAY_BUFFER, UNSIGNED_INT, idx.len(), "SCALAR"@);
    lemma_extends_trans(t, primitive_state(s, vs, idx), streams_state(s, vs));
    lemma_extends_trans(t, streams_state(s, vs), attr_step(sa, vs, a));
    lemma_type_components(a);
    lemma_attr_stream(vs, a);
    lemma_block_read(sa, data, ARRAY_BUFFER, FLOAT, vs.len(), attr_type(a), t);
    let i = sa.accessors.len() as usize;
    let root = doc_root(t);
    let bufs = seq![t.bin];
    let acc = t.accessors[i as int];
    assert(vs.len() * w * 4 <= vs.len() * 16) by (nonlinear_arith) requires w <= 4;
    assert(acc.count == vs.len());
    assert(num_components_spec(acc.type_) == w);
    assert(component_size_spec(acc.component_type) == 4);
    assert(acc.count * num_components_spec(acc.type_) * component_size_spec(acc.component_type) == vs.len() * w * 4);
    assert(validate_accessor_spec(root, i) == Ok::<GltfAccessorView, GltfError>(acc));
    let sl = AccessorSlice {
        buffer: 0,
        start: sa.bin.len() as usize,
        end: (sa.bin.len() + data.len()) as usize,
        stride: (w * 4) as usize,
    };
    assert(get_slice_spec(root, bufs, acc) == Ok::<AccessorSlice, GltfError>(sl));
    if vs.len() > 0 {
        assert((vs.len() - 1) * (w * 4) + w * 4 == vs.len() * (4 * w)) by (nonlinear_arith);
    }
    assert(stride_fits_spec(i, acc.count, sl.stride, (w * 4) as usize, (sl.end - sl.start) as usize) == Ok::<(), GltfError>(()));
    let got = element_words(slice_bytes(bufs, sl), vs.len(), w, (w * 4) as int, 4, FLOAT);
    assert forall|j: int| 0 <= j < vs.len() * w implies got[j] == #[trigger] attr_flat(vs, a)[j] by {
        assert((j / w as int) * (w * 4) == (j / w as int) * (4 * w)) by (nonlinear_arith);
    }
    assert(got =~= attr_flat(vs, a));
}

/// Writing a primitive only appends.
pub proof fn lemma_primitive_extends(s: DocState, vs: Seq<VertexBits>, idx: Seq<u32>)
    ensures
        extends(primitive_state(s, vs, idx), s),
{
    lemma_streams_extend(s, vs, Attribute::Position);
    lemma_attr_step_extends(s, vs, Attribute::Position);
    lemma_extends_trans(streams_state(s, vs), attr_step(s, vs, Attribute::Position), s);
    lemma_block_extends(streams_state(s, vs), words_bytes(idx), ELEMENT_ARRAY_BUFFER, UNSIGNED_INT, idx.len(), "SCALAR"@);
    lemma_extends_trans(primitive_state(s, vs, idx), streams_state(s, vs), s);
}

/// A whole mesh leaves each of its primitives in place.
proof fn lemma_mesh_extends(s: DocState, vs: Seq<VertexBits>, ps: Seq<Seq<u32>>, k: int)
    requires
        0 <= k < ps.len(),
    ensures
        extends(mesh_state(s, vs, ps), primitive_state(mesh_state(s, vs, ps.take(k)), vs, ps[k])),
    decreases ps.len(),
{
    let next = ps.take(k + 1);
    assert(next.drop_last() =~= ps.take(k));
    assert(next.last() == ps[k]);
    if k + 1 == ps.len() {
        assert(next =~= ps);
        lemma_extends_refl(mesh_state(s, vs, ps));
    } else {
        let rest = ps.drop_last();
        lemma_mesh_extends(s, vs, rest, k);
        assert(rest.take(k) =~= ps.take(k));
        assert(rest[k] == ps[k]);
        lemma_primitive_extends(mesh_state(s, vs, rest), vs, ps.last());
        lemma_extends_trans(
            mesh_state(s, vs, ps),
            mesh_state(s, vs, rest),
            primitive_state(mesh_state(s, vs, ps.take(k)), vs, ps[k]),
        );
    }
}

/// Whatever a mesh's primitives were written as reads back from the
/// finished document: each primitive's index accessor gives its indices,
/// and each stream it has gives the vertices' words for that stream.
pub proof fn lemma_mesh_reads_back(s: DocState, vs: Seq<VertexBits>, ps: Seq<Seq<u32>>, k: int, a: Attribute)
    requires
        0 <= k < ps.len(),
        mesh_state(s, vs, ps).bin.len() <= usize::MAX,
        mesh_state(s, vs, ps).views.len() <= usize::MAX,
        mesh_state(s, vs, ps).accessors.len() <= usize::MAX,
        vs.len() * 16 <= MAX_ACCESSOR_BYTES,
        ps[k].len() * 4 <= MAX_ACCESSOR_BYTES,
    ensures
        ({
            let f = mesh_state(s, vs, ps);
            let slots = primitive_slots(mesh_state(s, vs, ps.take(k)), vs);
            &&& read_u32_spec(doc_root(f), seq![f.bin], slots.indices) == Ok::<Seq<u32>, GltfError>(ps[k])
            &&& has_attr(vs, a) ==> (slot_for(slots, a) matches Some(acc_idx) && read_f32_words_spec(
                doc_root(f),
                seq![f.bin],
                acc_idx,
            ) == Ok::<Seq<u32>, GltfError>(attr_flat(vs, a)))
        }),
{
    let sk = mesh_state(s, vs, ps.take(k));
    let f = mesh_state(s, vs, ps);
    lemma_mesh_extends(s, vs, ps, k);
    lemma_indices_read_back(sk, vs, ps[k], f);
    if has_attr(vs, a) {
        lemma_stream_read_back(sk, vs, ps[k], a, f);
    }
}


// ── Document entries ─────────────────────────────────────────────────────────

/// The attribute names and accessors of a written primitive, in the order
/// they are written.
pub open spec fn attributes_spec(p: PrimitiveSlots) -> Seq<(Seq<char>, usize)> {
    seq![("POSITION"@, p.position)] + (match p.normal {
        Some(a) => seq![("NORMAL"@, a)],
        None => Seq::empty(),
    }) + (match p.tangent {
        Some(a) => seq![("TANGENT"@, a)],
        None => Seq::empty(),
    }) + (match p.texcoord0 {
        Some(a) => seq![("TEXCOORD_0"@, a)],
        None => Seq::empty(),
    }) + (match p.color0 {
        Some(a) => seq![("COLOR_0"@, a)],
        None => Seq::empty(),
    })
}

pub open spec fn named_view(v: Seq<(String, usize)>) -> Seq<(Seq<char>, usize)> {
    v.map_values(|e: (String, usize)| (e.0@, e.1))
}

fn push_named(out: &mut Vec<(String, usize)>, name: &str, acc: usize)
    ensures
        named_view(final(out)@) == named_view(old(out)@).push((name@, acc)),
{
    out.push((name.to_owned(), acc));
    assert(named_view(out@) =~= named_view(old(out)@).push((name@, acc)));
}

/// The `attributes` map of a written primitive, as name and accessor pairs.
pub fn attribute_list(p: PrimitiveSlots) -> (r: Vec<(String, usize)>)
    ensures
        named_view(r@) == attributes_spec(p),
        named_view(r@)[0] == ("POSITION"@, p.position),
        named_view(r@).len() == 1 + slot_count(p.normal) + slot_count(p.tangent) + slot_count(p.texcoord0)
            + slot_count(p.color0),
        p.normal matches Some(a) ==> named_view(r@).contains(("NORMAL"@, a)),
        p.tangent matches Some(a) ==> named_view(r@).contains(("TANGENT"@, a)),
        p.texcoord0 matches Some(a) ==> named_view(r@).contains(("TEXCOORD_0"@, a)),
        p.color0 matches Some(a) ==> named_view(r@).contains(("COLOR_0"@, a)),
        p.normal is None ==> unnamed(named_view(r@), "NORMAL"@),
        p.tangent is None ==> unnamed(named_view(r@), "TANGENT"@),
        p.texcoord0 is None ==> unnamed(named_view(r@), "TEXCOORD_0"@),
        p.color0 is None ==> unnamed(named_view(r@), "COLOR_0"@),
{
    proof {
        lemma_attributes_listed(p);
    }
    let mut out: Vec<(String, usize)> = Vec::new();
    push_named(&mut out, "POSITION", p.position);
    if let Some(a) = p.normal {
        push_named(&mut out, "NORMAL", a);
    }
    if let Some(a) = p.tangent {
        push_named(&mut out, "TANGENT", a);
    }
    if let Some(a) = p.texcoord0 {
        push_named(&mut out, "TEXCOORD_0", a);
    }
    if let Some(a) = p.color0 {
        push_named(&mut out, "COLOR_0", a);
    }
    assert(named_view(out@) =~= attributes_spec(p));
    out
}

/// The `byteLength` of the one buffer, which is listed only when the
/// binary data is not empty.
pub fn buffer_entry(bin_len: usize) -> (r: Option<usize>)
    ensures
        r == (if bin_len > 0 { Some(bin_len) } else { None::<usize> }),
{
    if bin_len > 0 {
        Some(bin_len)
    } else {
        None
    }
}

/// A glTF node as written: its name (left out when empty), the glTF
/// indices of its children, and its mesh and camera.
pub struct NodeRecord {
    pub name: Option<String>,
    pub children: Vec<usize>,
    pub mesh: Option<usize>,
    pub camera: Option<usize>,
}

/// The records of the glTF nodes of a layout: glTF node `k` takes the
/// name, mesh and camera of scene node `order[k]` and the child indices
/// the layout gives it.
pub fn node_records(
    layout: &crate::gltf_nodes::NodeLayout,
    names: &Vec<String>,
    meshes: &Vec<Option<usize>>,
    cameras: &Vec<Option<usize>>,
) -> (r: Vec<NodeRecord>)
    requires
        layout.children@.len() == layout.order@.len(),
        forall|k: int| 0 <= k < layout.order@.len() ==> {
            &&& #[trigger] layout.order@[k] < names@.len()
            &&& layout.order@[k] < meshes@.len()
            &&& layout.order@[k] < cameras@.len()
        },
    ensures
        r@.len() == layout.order@.len(),
        forall|k: int| 0 <= k < r@.len() ==> {
            let id = layout.order@[k] as int;
            &&& (match (#[trigger] r@[k]).name {
                Some(n) => n@ == names@[id]@ && names@[id]@.len() > 0,
                None => names@[id]@.len() == 0,
            })
            &&& r@[k].children@ == layout.children@[k]@
            &&& r@[k].mesh == meshes@[id]
            &&& r@[k].camera == cameras@[id]
        },
{
    let mut out: Vec<NodeRecord> = Vec::new();
    let mut k: usize = 0;
    while k < layout.order.len()
        invariant
            k <= layout.order@.len(),
            out@.len() == k,
            layout.children@.len() == layout.order@.len(),
            forall|t: int| 0 <= t < layout.order@.len() ==> {
                &&& #[trigger] layout.order@[t] < names@.len()
                &&& layout.order@[t] < meshes@.len()
                &&& layout.order@[t] < cameras@.len()
            },
            forall|t: int| 0 <= t < k ==> {
                let id = layout.order@[t] as int;
                &&& (match (#[trigger] out@[t]).name {
                    Some(n) => n@ == names@[id]@ && names@[id]@.len() > 0,
                    None => names@[id]@.len() == 0,
                })
                &&& out@[t].children@ == layout.children@[t]@
                &&& out@[t].mesh == meshes@[id]
                &&& out@[t].camera == cameras@[id]
            },
        decreases layout.order@.len() - k,
    {
        let id = layout.order[k];
        assert(id < names@.len());
        let name = crate::gltf_fields::name_field(&names[id]);
        out.push(NodeRecord { name, children: layout.children[k].clone(), mesh: meshes[id], camera: cameras[id] });
        k = k + 1;
    }
    out
}

// ── Layout of the binary buffer ──────────────────────────────────────────

/// The bytes covered by the first `n` bufferViews.
pub open spec fn views_total(views: Seq<GltfBufferView>, n: nat) -> nat
    decreases n,
{
    if n == 0 {
        0
    } else {
        views_total(views, (n - 1) as nat) + views[n - 1].byte_length as nat
    }
}

/// The bufferViews lie in buffer 0 one after another from offset 0,
/// without gaps, and together cover the whole binary buffer.
pub open spec fn views_tile(s: DocState) -> bool {
    &&& forall|k: int|
        0 <= k < s.views.len() ==> (#[trigger] s.views[k]).buffer == 0 && s.views[k].byte_offset == views_total(
            s.views,
            k as nat,
        )
    &&& views_total(s.views, s.views.len()) == s.bin.len()
}

/// The state of a document before anything is written.
pub open spec fn empty_state() -> DocState {
    DocState { bin: Seq::empty(), views: Seq::empty(), accessors: Seq::empty() }
}

/// The state after the meshes `meshes` (vertices, then primitives), in order.
pub open spec fn meshes_state(s: DocState, meshes: Seq<(Seq<VertexBits>, Seq<Seq<u32>>)>) -> DocState
    decreases meshes.len(),
{
    if meshes.len() == 0 {
        s
    } else {
        let m = meshes.last();
        mesh_state(meshes_state(s, meshes.drop_last()), m.0, m.1)
    }
}

proof fn lemma_views_total_push(views: Seq<GltfBufferView>, v: GltfBufferView, n: nat)
    requires
        n <= views.len(),
    ensures
        views_total(views.push(v), n) == views_total(views, n),
    decreases n,
{
    if n > 0 {
        lemma_views_total_push(views, v, (n - 1) as nat);
    }
}

proof fn lemma_block_tiles(s: DocState, data: Seq<u8>, target: u32, ct: u32, count: nat, ty: Seq<char>)
    requires
        views_tile(s),
        s.bin.len() + data.len() <= usize::MAX,
    ensures
        views_tile(add_block(s, data, target, ct, count, ty)),
{
    let t = add_block(s, data, target, ct, count, ty);
    let v = t.views.last();
    assert forall|n: nat| n <= s.views.len() implies #[trigger] views_total(t.views, n) == views_total(s.views, n) by {
        lemma_views_total_push(s.views, v, n);
    }
    assert(views_total(t.views, t.views.len()) == views_total(t.views, s.views.len()) + v.byte_length);
    assert forall|k: int| 0 <= k < t.views.len() implies (#[trigger] t.views[k]).buffer == 0
        && t.views[k].byte_offset == views_total(t.views, k as nat) by {
        if k < s.views.len() {
            assert(t.views[k] == s.views[k]);
            assert(views_total(t.views, k as nat) == views_total(s.views, k as nat));
        }
    }
}

proof fn lemma_attr_step_tiles(s: DocState, vs: Seq<VertexBits>, a: Attribute)
    requires
        views_tile(s),
        attr_step(s, vs, a).bin.len() <= usize::MAX,
    ensures
        views_tile(attr_step(s, vs, a)),
{
    if has_attr(vs, a) {
        lemma_block_tiles(s, attr_stream(vs, a), ARRAY_BUFFER, FLOAT, vs.len(), attr_type(a));
    }
}

proof fn lemma_primitive_tiles(s: DocState, vs: Seq<VertexBits>, idx: Seq<u32>)
    requires
        views_tile(s),
        primitive_state(s, vs, idx).bin.len() <= usize::MAX,
    ensures
        views_tile(primitive_state(s, vs, idx)),
{
    let s1 = attr_step(s, vs, Attribute::Position);
    let s2 = attr_step(s1, vs, Attribute::Normal);
    let s3 = attr_step(s2, vs, Attribute::Tangent);
    let s4 = attr_step(s3, vs, Attribute::TexCoord0);
    let s5 = attr_step(s4, vs, Attribute::Color0);
    lemma_attr_step_extends(s, vs, Attribute::Position);
    lemma_attr_step_extends(s1, vs, Attribute::Normal);
    lemma_attr_step_extends(s2, vs, Attribute::Tangent);
    lemma_attr_step_extends(s3, vs, Attribute::TexCoord0);
    lemma_attr_step_extends(s4, vs, Attribute::Color0);
    lemma_block_extends(s5, words_bytes(idx), ELEMENT_ARRAY_BUFFER, UNSIGNED_INT, idx.len(), "SCALAR"@);
    lemma_attr_step_tiles(s, vs, Attribute::Position);
    lemma_attr_step_tiles(s1, vs, Attribute::Normal);
    lemma_attr_step_tiles(s2, vs, Attribute::Tangent);
    lemma_attr_step_tiles(s3, vs, Attribute::TexCoord0);
    lemma_attr_step_tiles(s4, vs, Attribute::Color0);
    lemma_block_tiles(s5, words_bytes(idx), ELEMENT_ARRAY_BUFFER, UNSIGNED_INT, idx.len(), "SCALAR"@);
}

/// Writing a mesh keeps the bufferViews tiling the buffer.
pub proof fn lemma_mesh_tiles(s: DocState, vs: Seq<VertexBits>, ps: Seq<Seq<u32>>)
    requires
        views_tile(s),
        mesh_state(s, vs, ps).bin.len() <= usize::MAX,
    ensures
        views_tile(mesh_state(s, vs, ps)),
        extends(mesh_state(s, vs, ps), s),
    decreases ps.len(),
{
    if ps.len() == 0 {
        lemma_extends_refl(s);
    } else {
        let before = mesh_state(s, vs, ps.drop_last());
        lemma_primitive_extends(before, vs, ps.last());
        lemma_mesh_tiles(s, vs, ps.drop_last());
        lemma_primitive_tiles(before, vs, ps.last());
        lemma_extends_trans(mesh_state(s, vs, ps), before, s);
    }
}

/// The bufferViews of a document written from nothing, mesh after mesh,
/// lie in buffer 0 one after another from offset 0 without gaps, and
/// together cover exactly the binary buffer.
pub proof fn lemma_written_views_tile(meshes: Seq<(Seq<VertexBits>, Seq<Seq<u32>>)>)
    requires
        meshes_state(empty_state(), meshes).bin.len() <= usize::MAX,
    ensures
        views_tile(meshes_state(empty_state(), meshes)),
        extends(meshes_state(empty_state(), meshes), empty_state()),
    decreases meshes.len(),
{
    if meshes.len() == 0 {
        lemma_extends_refl(empty_state());
    } else {
        let before = meshes_state(empty_state(), meshes.drop_last());
        let m = meshes.last();
        lemma_mesh_tiles_bound(before, m.0, m.1);
        lemma_written_views_tile(meshes.drop_last());
        lemma_mesh_tiles(before, m.0, m.1);
        lemma_extends_trans(meshes_state(empty_state(), meshes), before, empty_state());
    }
}

proof fn lemma_mesh_tiles_bound(s: DocState, vs: Seq<VertexBits>, ps: Seq<Seq<u32>>)
    ensures
        s.bin.len() <= mesh_state(s, vs, ps).bin.len(),
    decreases ps.len(),
{
    if ps.len() > 0 {
        let before = mesh_state(s, vs, ps.drop_last());
        lemma_primitive_extends(before, vs, ps.last());
        lemma_mesh_tiles_bound(s, vs, ps.drop_last());
    }
}

/// The meshes as the writer sees them: each mesh's vertices and its
/// primitives' indices.
pub open spec fn meshes_view(meshes: Seq<(Vec<VertexBits>, Vec<Vec<u32>>)>) -> Seq<(Seq<VertexBits>, Seq<Seq<u32>>)> {
    meshes.map_values(|m: (Vec<VertexBits>, Vec<Vec<u32>>)| (m.0@, m.1@.map_values(|p: Vec<u32>| p@)))
}

/// Writes every mesh in order; the slots of mesh `k` are those
/// `write_mesh` gives it after the meshes before it.
pub fn write_meshes(gltf: &mut GltfRoot, bin: &mut Vec<u8>, meshes: &Vec<(Vec<VertexBits>, Vec<Vec<u32>>)>) -> (r: Vec<
    Vec<PrimitiveSlots>,
>)
    ensures
        doc_state(*final(gltf), final(bin)@) == meshes_state(doc_state(*old(gltf), old(bin)@), meshes_view(meshes@)),
        final(gltf)@.extensions_required == old(gltf)@.extensions_required,
        r@.len() == meshes@.len(),
        forall|k: int|
            0 <= k < r@.len() ==> {
                let before = meshes_state(doc_state(*old(gltf), old(bin)@), meshes_view(meshes@).take(k));
                let m = meshes_view(meshes@)[k];
                &&& (#[trigger] r@[k])@.len() == m.1.len()
                &&& forall|j: int|
                    0 <= j < m.1.len() ==> #[trigger] r@[k]@[j] == primitive_slots(mesh_state(before, m.0, m.1.take(j)), m.0)
            },
{
    let ghost s0 = doc_state(*old(gltf), old(bin)@);
    let ghost ms = meshes_view(meshes@);
    let mut out: Vec<Vec<PrimitiveSlots>> = Vec::new();
    let mut k: usize = 0;
    assert(ms.take(0) =~= Seq::<(Seq<VertexBits>, Seq<Seq<u32>>)>::empty());
    while k < meshes.len()
        invariant
            ms == meshes_view(meshes@),
            k <= meshes@.len(),
            out@.len() == k,
            doc_state(*gltf, bin@) == meshes_state(s0, ms.take(k as int)),
            gltf@.extensions_required == old(gltf)@.extensions_required,
            forall|t: int|
                0 <= t < k ==> {
                    let before = meshes_state(s0, ms.take(t));
                    let m = ms[t];
                    &&& (#[trigger] out@[t])@.len() == m.1.len()
                    &&& forall|j: int|
                        0 <= j < m.1.len() ==> #[trigger] out@[t]@[j] == primitive_slots(mesh_state(before, m.0, m.1.take(j)), m.0)
                },
        decreases meshes@.len() - k,
    {
        let ghost before = doc_state(*gltf, bin@);
        let slots = write_mesh(gltf, bin, meshes[k].0.as_slice(), &meshes[k].1);
        proof {
            let next = ms.take(k + 1);
            assert(next.drop_last() =~= ms.take(k as int));
            assert(next.last() == ms[k as int]);
            assert(ms[k as int] == (meshes@[k as int].0@, meshes@[k as int].1@.map_values(|p: Vec<u32>| p@)));
            assert(before == meshes_state(s0, ms.take(k as int)));
        }
        out.push(slots);
        k = k + 1;
    }
    assert(ms.take(k as int) =~= ms);
    out
}

/// A glTF primitive as written: its attribute accessors by name, its
/// index accessor and its material.
pub struct PrimitiveRecord {
    pub attributes: Vec<(String, usize)>,
    pub indices: Option<usize>,
    pub material: Option<usize>,
}

/// A glTF mesh as written: its name (left out when empty) and its
/// primitives.
pub struct MeshRecord {
    pub name: Option<String>,
    pub primitives: Vec<PrimitiveRecord>,
}

/// The record of a written primitive: the attributes it has, its indices,
/// and the material the scene gives it (triangles, the default mode).
pub fn primitive_record(slots: PrimitiveSlots, material: Option<usize>) -> (r: PrimitiveRecord)
    ensures
        named_view(r.attributes@) == attributes_spec(slots),
        r.indices == Some(slots.indices),
        r.material == material,
{
    PrimitiveRecord { attributes: attribute_list(slots), indices: Some(slots.indices), material }
}

/// The record of a written mesh: primitive `k` has the slots `slots[k]`
/// and the material `materials[k]`.
pub fn mesh_record(name: &String, slots: &Vec<PrimitiveSlots>, materials: &Vec<Option<usize>>) -> (r: MeshRecord)
    requires
        slots@.len() == materials@.len(),
    ensures
        match (r.name, crate::gltf_fields::name_field_spec(name@)) {
            (Some(s), Some(t)) => s@ == t,
            (None, None) => true,
            _ => false,
        },
        r.primitives@.len() == slots@.len(),
        forall|k: int| 0 <= k < slots@.len() ==> {
            &&& named_view((#[trigger] r.primitives@[k]).attributes@) == attributes_spec(slots@[k])
            &&& r.primitives@[k].indices == Some(slots@[k].indices)
            &&& r.primitives@[k].material == materials@[k]
        },
{
    let mut prims: Vec<PrimitiveRecord> = Vec::new();
    let mut k: usize = 0;
    while k < slots.len()
        invariant
            k <= slots@.len(),
            slots@.len() == materials@.len(),
            prims@.len() == k,
            forall|t: int| 0 <= t < k ==> {
                &&& named_view((#[trigger] prims@[t]).attributes@) == attributes_spec(slots@[t])
                &&& prims@[t].indices == Some(slots@[t].indices)
                &&& prims@[t].material == materials@[t]
            },
        decreases slots@.len() - k,
    {
        prims.push(primitive_record(slots[k], materials[k]));
        k = k + 1;
    }
    MeshRecord { name: crate::gltf_fields::name_field(name), primitives: prims }
}

// ── Laws of primitive attributes ─────────────────────────────────────────

/// 1 for a present slot, 0 for an absent one.
pub open spec fn slot_count(o: Option<usize>) -> nat {
    if o is Some {
        1
    } else {
        0
    }
}

/// No entry of `l` carries the name `n`.
pub open spec fn unnamed(l: Seq<(Seq<char>, usize)>, n: Seq<char>) -> bool {
    forall|k: int| 0 <= k < l.len() ==> (#[trigger] l[k]).0 != n
}

/// The attribute list of a written primitive names every stream it has and
/// no other: `POSITION` first, then one entry per present slot, each under
/// its glTF name with that slot's accessor; an absent slot is not listed.
pub proof fn lemma_attributes_listed(p: PrimitiveSlots)
    ensures
        attributes_spec(p).len() == 1 + slot_count(p.normal) + slot_count(p.tangent) + slot_count(p.texcoord0)
            + slot_count(p.color0),
        attributes_spec(p)[0] == ("POSITION"@, p.position),
        p.normal matches Some(a) ==> attributes_spec(p).contains(("NORMAL"@, a)),
        p.tangent matches Some(a) ==> attributes_spec(p).contains(("TANGENT"@, a)),
        p.texcoord0 matches Some(a) ==> attributes_spec(p).contains(("TEXCOORD_0"@, a)),
        p.color0 matches Some(a) ==> attributes_spec(p).contains(("COLOR_0"@, a)),
        p.normal is None ==> unnamed(attributes_spec(p), "NORMAL"@),
        p.tangent is None ==> unnamed(attributes_spec(p), "TANGENT"@),
        p.texcoord0 is None ==> unnamed(attributes_spec(p), "TEXCOORD_0"@),
        p.color0 is None ==> unnamed(attributes_spec(p), "COLOR_0"@),
        unnamed(attributes_spec(p).drop_first(), "POSITION"@),
{
    reveal_strlit("POSITION");
    reveal_strlit("NORMAL");
    reveal_strlit("TANGENT");
    reveal_strlit("TEXCOORD_0");
    reveal_strlit("COLOR_0");
    let ps: Seq<(Seq<char>, usize)> = seq![("POSITION"@, p.position)];
    let n: Seq<(Seq<char>, usize)> = match p.normal {
        Some(a) => seq![("NORMAL"@, a)],
        None => Seq::empty(),
    };
    let t: Seq<(Seq<char>, usize)> = match p.tangent {
        Some(a) => seq![("TANGENT"@, a)],
        None => Seq::empty(),
    };
    let u: Seq<(Seq<char>, usize)> = match p.texcoord0 {
        Some(a) => seq![("TEXCOORD_0"@, a)],
        None => Seq::empty(),
    };
    let c: Seq<(Seq<char>, usize)> = match p.color0 {
        Some(a) => seq![("COLOR_0"@, a)],
        None => Seq::empty(),
    };
    let l = attributes_spec(p);
    assert(l =~= ps + n + t + u + c);
    let i1 = 1int;
    let i2 = i1 + n.len();
    let i3 = i2 + t.len();
    let i4 = i3 + u.len();
    assert("POSITION"@ != "NORMAL"@) by { assert("POSITION"@.len() != "NORMAL"@.len()); }
    assert("POSITION"@ != "TANGENT"@) by { assert("POSITION"@.len() != "TANGENT"@.len()); }
    assert("POSITION"@ != "TEXCOORD_0"@) by { assert("POSITION"@.len() != "TEXCOORD_0"@.len()); }
    assert("POSITION"@ != "COLOR_0"@) by { assert("POSITION"@.len() != "COLOR_0"@.len()); }
    assert("NORMAL"@ != "TANGENT"@) by { assert("NORMAL"@.len() != "TANGENT"@.len()); }
    assert("NORMAL"@ != "TEXCOORD_0"@) by { assert("NORMAL"@.len() != "TEXCOORD_0"@.len()); }
    assert("NORMAL"@ != "COLOR_0"@) by { assert("NORMAL"@.len() != "COLOR_0"@.len()); }
    assert("TANGENT"@ != "TEXCOORD_0"@) by { assert("TANGENT"@.len() != "TEXCOORD_0"@.len()); }
    assert("TANGENT"@ != "COLOR_0"@) by { assert("TANGENT"@[0] != "COLOR_0"@[0]); }
    assert("TEXCOORD_0"@ != "COLOR_0"@) by { assert("TEXCOORD_0"@.len() != "COLOR_0"@.len()); }
    assert forall|k: int| 0 <= k < l.len() implies {
        let e = #[trigger] l[k];
        ||| (k == 0 && e == ("POSITION"@, p.position))
        ||| (i1 <= k < i2 && e == ("NORMAL"@, p.normal.unwrap()) && p.normal is Some)
        ||| (i2 <= k < i3 && e == ("TANGENT"@, p.tangent.unwrap()) && p.tangent is Some)
        ||| (i3 <= k < i4 && e == ("TEXCOORD_0"@, p.texcoord0.unwrap()) && p.texcoord0 is Some)
        ||| (i4 <= k && e == ("COLOR_0"@, p.color0.unwrap()) && p.color0 is Some)
    } by {
        if k == 0 {
        } else if k < i2 {
            assert(l[k] == n[k - i1]);
        } else if k < i3 {
            assert(l[k] == t[k - i2]);
        } else if k < i4 {
            assert(l[k] == u[k - i3]);
        } else {
            assert(l[k] == c[k - i4]);
        }
    }
    if p.normal is Some {
        assert(l[i1] == ("NORMAL"@, p.normal.unwrap()));
    }
    if p.tangent is Some {
        assert(l[i2] == ("TANGENT"@, p.tangent.unwrap()));
    }
    if p.texcoord0 is Some {
        assert(l[i3] == ("TEXCOORD_0"@, p.texcoord0.unwrap()));
    }
    if p.color0 is Some {
        assert(l[i4] == ("COLOR_0"@, p.color0.unwrap()));
    }
    assert forall|k: int| 0 <= k < l.drop_first().len() implies (#[trigger] l.drop_first()[k]).0 != "POSITION"@ by {
        assert(l.drop_first()[k] == l[k + 1]);
    }
}

} // verus!
