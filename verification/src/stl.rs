//! STL (stereolithography): binary records, ASCII facets, vertex welding and
//! the binary writer.
//!
//! Coordinates are carried as the bit patterns of their `f32` values, so a
//! binary file round-trips bit for bit. ASCII coordinates are kept as the
//! text of their tokens; turning them into numbers is left to the caller.

use vstd::prelude::*;
use std::collections::HashMap;
use vstd::utf8::valid_utf8;
use vstd::string::StringSliceAdditionalSpecFns;
use crate::bytes::{concat_map, lemma_concat_fixed, lemma_concat_map_push, le16, le32, le32_bytes, le16_bytes, read_u16_le, read_u32_le, push_u32_le, push_u16_le, lemma_le32_roundtrip, lemma_le16_roundtrip};
use crate::text::{begins_with, copy_range, is_valid_utf8, lines, split_lines, starts_with, usplit_words, utrim, utrim_bytes, uwords, vv};

verus! {

/// Three `f32` values by their bit patterns.
#[derive(Debug, Clone, Copy, PartialEq, Eq, Structural)]
pub struct Vec3Bits {
    pub x: u32,
    pub y: u32,
    pub z: u32,
}

/// A VisCAM/SolidView facet color: three 5-bit channels, each `0..=31`.
#[derive(Debug, Clone, Copy, PartialEq, Eq, Structural)]
pub struct StlColor {
    pub r: u8,
    pub g: u8,
    pub b: u8,
}

/// One facet of a binary STL file.
#[derive(Debug, Clone, Copy, PartialEq, Eq)]
pub struct StlTriangle {
    pub normal: Vec3Bits,
    pub vertices: [Vec3Bits; 3],
    /// Decoded from the attribute word when its top bit is set.
    pub color: Option<StlColor>,
}

/// Errors of the STL readers.
#[derive(Debug, Clone, Copy, PartialEq, Eq, Structural)]
pub enum StlError {
    /// Fewer than the 84 bytes of header and count.
    TooSmall,
    /// Fewer bytes than the declared triangle count needs.
    Truncated,
    /// ASCII STL that is not UTF-8.
    NotUtf8,
}

// ── Binary layout ────────────────────────────────────────────────────────────

/// Triangle count declared at offset 80.
pub open spec fn declared_count(d: Seq<u8>) -> nat {
    le32(d, 80)
}

/// Size of a binary file holding `n` triangles.
pub open spec fn binary_size(n: nat) -> nat {
    84 + 50 * n
}

/// Whether `d` is exactly as long as its declared triangle count demands.
pub open spec fn looks_binary(d: Seq<u8>) -> bool {
    d.len() >= 84 && binary_size(declared_count(d)) == d.len()
}

pub open spec fn vec3_at(d: Seq<u8>, p: int) -> Vec3Bits {
    Vec3Bits { x: le32(d, p) as u32, y: le32(d, p + 4) as u32, z: le32(d, p + 8) as u32 }
}

/// The color encoded in an attribute word: bit 15 set, then red in bits
/// 14-10, green in 9-5 and blue in 4-0.
pub open spec fn color_of(attr: nat) -> Option<StlColor> {
    if attr >= 0x8000 {
        Some(StlColor { r: ((attr / 1024) % 32) as u8, g: ((attr / 32) % 32) as u8, b: (attr % 32) as u8 })
    } else {
        None
    }
}

/// The 50-byte record at `p`.
pub open spec fn triangle_at(d: Seq<u8>, p: int) -> StlTriangle {
    StlTriangle {
        normal: vec3_at(d, p),
        vertices: [vec3_at(d, p + 12), vec3_at(d, p + 24), vec3_at(d, p + 36)],
        color: color_of(le16(d, p + 48)),
    }
}

/// `s` without its trailing NUL bytes.
pub open spec fn trim_nuls(s: Seq<u8>) -> Seq<u8>
    decreases s.len(),
{
    if s.len() > 0 && s.last() == 0 {
        trim_nuls(s.drop_last())
    } else {
        s
    }
}

/// The model name held by the 80-byte header: empty unless it is UTF-8,
/// then without trailing NULs and surrounding whitespace (every character
/// for which `char::is_whitespace` holds).
pub open spec fn header_name(d: Seq<u8>) -> Seq<u8> {
    let h = d.take(80);
    if valid_utf8(h) {
        utrim(trim_nuls(h))
    } else {
        seq![]
    }
}

/// What `parse_binary` returns for the bytes `d`.
pub open spec fn parse_binary_spec(d: Seq<u8>) -> Result<(Seq<u8>, Seq<StlTriangle>), StlError> {
    if d.len() < 84 {
        Err(StlError::TooSmall)
    } else if d.len() < binary_size(declared_count(d)) {
        Err(StlError::Truncated)
    } else {
        Ok(
            (
                header_name(d),
                Seq::new(declared_count(d), |i: int| triangle_at(d, 84 + 50 * i)),
            ),
        )
    }
}

/// Whether `data` is a binary STL file: its length is exactly 84 bytes of
/// header and count plus 50 bytes for each declared triangle.
pub fn detect_binary(data: &[u8]) -> (r: bool)
    ensures
        r == looks_binary(data@),
{
    if data.len() < 84 {
        return false;
    }
    let count = read_u32_le(data, 80) as u64;
    let expected: u64 = 84 + count * 50;
    expected == data.len() as u64
}

fn read_vec3(data: &[u8], offset: usize) -> (r: Vec3Bits)
    requires
        offset + 12 <= data@.len(),
    ensures
        r == vec3_at(data@, offset as int),
{
    let _len = data.len();
    Vec3Bits {
        x: read_u32_le(data, offset),
        y: read_u32_le(data, offset + 4),
        z: read_u32_le(data, offset + 8),
    }
}

fn color_from_attr(attr: u16) -> (r: Option<StlColor>)
    ensures
        r == color_of(attr as nat),
{
    if attr >= 0x8000 {
        Some(StlColor { r: ((attr / 1024) % 32) as u8, g: ((attr / 32) % 32) as u8, b: (attr % 32) as u8 })
    } else {
        None
    }
}

fn read_triangle(data: &[u8], base: usize) -> (r: StlTriangle)
    requires
        base + 50 <= data@.len(),
    ensures
        r == triangle_at(data@, base as int),
{
    let _len = data.len();
    let normal = read_vec3(data, base);
    let v0 = read_vec3(data, base + 12);
    let v1 = read_vec3(data, base + 24);
    let v2 = read_vec3(data, base + 36);
    let attr = read_u16_le(data, base + 48);
    let r = StlTriangle { normal, vertices: [v0, v1, v2], color: color_from_attr(attr) };
    assert(r.vertices =~= triangle_at(data@, base as int).vertices);
    r
}

/// `s` without trailing NUL bytes.
fn trim_nul_bytes(s: &[u8]) -> (r: Vec<u8>)
    ensures
        r@ == trim_nuls(s@),
{
    let mut n = s.len();
    assert(s@.take(n as int) =~= s@);
    while n > 0 && s[n - 1] == 0
        invariant
            n <= s@.len(),
            trim_nuls(s@.take(n as int)) == trim_nuls(s@),
        decreases n,
    {
        assert(s@.take(n as int).drop_last() =~= s@.take(n - 1));
        n = n - 1;
    }
    copy_range(s, 0, n)
}

/// The name in the 80-byte header of `data`.
fn read_header_name(data: &[u8]) -> (r: Vec<u8>)
    requires
        data@.len() >= 80,
    ensures
        r@ == header_name(data@),
{
    let head = copy_range(data, 0, 80);
    assert(head@ =~= data@.take(80));
    if is_valid_utf8(head.as_slice()) {
        let no_nul = trim_nul_bytes(head.as_slice());
        utrim_bytes(no_nul.as_slice())
    } else {
        Vec::new()
    }
}

/// Reads a binary STL file: the header name and every declared triangle.
pub fn parse_binary(data: &[u8]) -> (r: Result<(Vec<u8>, Vec<StlTriangle>), StlError>)
    ensures
        match (r, parse_binary_spec(data@)) {
            (Ok((name, tris)), Ok((sname, stris))) => name@ == sname && tris@ == stris,
            (Err(e), Err(se)) => e == se,
            _ => false,
        },
{
    if data.len() < 84 {
        return Err(StlError::TooSmall);
    }
    let count32 = read_u32_le(data, 80);
    let expected: u64 = 84 + (count32 as u64) * 50;
    if (data.len() as u64) < expected {
        return Err(StlError::Truncated);
    }
    let count = count32 as usize;
    let name = read_header_name(data);
    let mut triangles: Vec<StlTriangle> = Vec::new();
    let mut i: usize = 0;
    let len = data.len();
    while i < count
        invariant
            len == data@.len(),
            i <= count,
            count == declared_count(data@),
            84 + 50 * count <= data@.len(),
            triangles@.len() == i,
            forall|k: int| 0 <= k < i ==> #[trigger] triangles@[k] == triangle_at(data@, 84 + 50 * k),
        decreases count - i,
    {
        let base = 84 + i * 50;
        let t = read_triangle(data, base);
        triangles.push(t);
        i = i + 1;
    }
    assert(triangles@ =~= Seq::new(declared_count(data@), |k: int| triangle_at(data@, 84 + 50 * k)));
    Ok((name, triangles))
}

// ── ASCII ────────────────────────────────────────────────────────────────────

/// Three coordinates as the text of their tokens.
#[derive(Debug, Clone)]
pub struct TextVec3 {
    pub x: Vec<u8>,
    pub y: Vec<u8>,
    pub z: Vec<u8>,
}

pub struct TextVec3View {
    pub x: Seq<u8>,
    pub y: Seq<u8>,
    pub z: Seq<u8>,
}

impl View for TextVec3 {
    type V = TextVec3View;

    open spec fn view(&self) -> TextVec3View {
        TextVec3View { x: self.x@, y: self.y@, z: self.z@ }
    }
}

/// One `facet` of an ASCII STL file: its normal and its three vertices.
#[derive(Debug, Clone)]
pub struct StlTextFacet {
    pub normal: TextVec3,
    pub vertices: Vec<TextVec3>,
}

pub struct StlTextFacetView {
    pub normal: TextVec3View,
    pub vertices: Seq<TextVec3View>,
}

impl View for StlTextFacet {
    type V = StlTextFacetView;

    open spec fn view(&self) -> StlTextFacetView {
        StlTextFacetView { normal: self.normal@, vertices: self.vertices@.map_values(|v: TextVec3| v@) }
    }
}

/// What has been read after some lines of an ASCII file.
pub struct AsciiState {
    pub name: Seq<u8>,
    pub facets: Seq<StlTextFacetView>,
    /// Normal of the facet being read (`0 0 0` until a `facet normal` line).
    pub normal: TextVec3View,
    /// Vertices of the facet being read.
    pub verts: Seq<TextVec3View>,
}

pub open spec fn zero_text() -> TextVec3View {
    TextVec3View { x: "0".spec_bytes(), y: "0".spec_bytes(), z: "0".spec_bytes() }
}

pub open spec fn ascii_start() -> AsciiState {
    AsciiState { name: seq![], facets: seq![], normal: zero_text(), verts: seq![] }
}

pub open spec fn text3(w: Seq<Seq<u8>>, i: int) -> TextVec3View {
    TextVec3View { x: w[i], y: w[i + 1], z: w[i + 2] }
}

/// The effect of one line: `solid` names the model, `facet normal` sets the
/// normal when it has three numbers, `vertex` adds a vertex when it has
/// three numbers, `endfacet` emits a facet from the first three vertices
/// when there are at least three and forgets the vertices; other lines are
/// ignored. Lines are compared after trimming whitespace (as `str::trim`
/// does).
pub open spec fn ascii_step(st: AsciiState, line: Seq<u8>) -> AsciiState {
    let l = utrim(line);
    let w = uwords(l);
    if begins_with(l, "solid".spec_bytes()) {
        AsciiState { name: utrim(l.skip("solid".spec_bytes().len() as int)), ..st }
    } else if begins_with(l, "facet normal".spec_bytes()) {
        if w.len() >= 5 {
            AsciiState { normal: text3(w, 2), ..st }
        } else {
            st
        }
    } else if begins_with(l, "vertex".spec_bytes()) {
        if w.len() >= 4 {
            AsciiState { verts: st.verts.push(text3(w, 1)), ..st }
        } else {
            st
        }
    } else if begins_with(l, "endfacet".spec_bytes()) {
        if st.verts.len() >= 3 {
            AsciiState {
                facets: st.facets.push(StlTextFacetView { normal: st.normal, vertices: st.verts.take(3) }),
                verts: seq![],
                ..st
            }
        } else {
            AsciiState { verts: seq![], ..st }
        }
    } else {
        st
    }
}

/// The state after the first `n` lines of `ls`.
pub open spec fn ascii_fold(ls: Seq<Seq<u8>>, n: nat) -> AsciiState
    decreases n,
{
    if n == 0 {
        ascii_start()
    } else {
        ascii_step(ascii_fold(ls, (n - 1) as nat), ls[n - 1])
    }
}

/// What `parse_ascii` returns for `d`: the model name and the facets read
/// from the lines of `d`, or an error when `d` is not UTF-8.
pub open spec fn parse_ascii_spec(d: Seq<u8>) -> Result<(Seq<u8>, Seq<StlTextFacetView>), StlError> {
    if !valid_utf8(d) {
        Err(StlError::NotUtf8)
    } else {
        let st = ascii_fold(lines(d), lines(d).len());
        Ok((st.name, st.facets))
    }
}

struct AsciiReader {
    name: Vec<u8>,
    facets: Vec<StlTextFacet>,
    normal: TextVec3,
    verts: Vec<TextVec3>,
}

impl View for AsciiReader {
    type V = AsciiState;

    closed spec fn view(&self) -> AsciiState {
        AsciiState {
            name: self.name@,
            facets: self.facets@.map_values(|f: StlTextFacet| f@),
            normal: self.normal@,
            verts: self.verts@.map_values(|v: TextVec3| v@),
        }
    }
}

pub(crate) fn literal(s: &str) -> (r: Vec<u8>)
    ensures
        r@ == s.spec_bytes(),
{
    vstd::slice::slice_to_vec(s.as_bytes())
}

pub(crate) fn text3_exec(w: &Vec<Vec<u8>>, i: usize) -> (r: TextVec3)
    requires
        i + 3 <= w@.len(),
    ensures
        r@ == text3(vv(*w), i as int),
{
    let _n = w.len();
    TextVec3 { x: w[i].clone(), y: w[i + 1].clone(), z: w[i + 2].clone() }
}

pub(crate) fn clone_text3(v: &TextVec3) -> (r: TextVec3)
    ensures
        r@ == v@,
{
    TextVec3 { x: v.x.clone(), y: v.y.clone(), z: v.z.clone() }
}

impl AsciiReader {
    fn new() -> (r: AsciiReader)
        ensures
            r@ == ascii_start(),
    {
        let r = AsciiReader {
            name: Vec::new(),
            facets: Vec::new(),
            normal: TextVec3 { x: literal("0"), y: literal("0"), z: literal("0") },
            verts: Vec::new(),
        };
        assert(r@.facets =~= Seq::<StlTextFacetView>::empty());
        assert(r@.verts =~= Seq::<TextVec3View>::empty());
        r
    }

    fn step(&mut self, line: &[u8])
        ensures
            final(self)@ == ascii_step(old(self)@, line@),
            is_endfacet(line@) ==> final(self)@.verts == Seq::<TextVec3View>::empty(),
    {
        proof {
            if is_endfacet(line@) {
                lemma_endfacet_clears(old(self)@, line@);
            }
        }
        let l = utrim_bytes(line);
        let w = usplit_words(l.as_slice());
        if starts_with(l.as_slice(), "solid".as_bytes()) {
            let n = "solid".as_bytes().len();
            let rest = copy_range(l.as_slice(), n, l.len());
            assert(rest@ =~= l@.skip("solid".spec_bytes().len() as int));
            self.name = utrim_bytes(rest.as_slice());
        } else if starts_with(l.as_slice(), "facet normal".as_bytes()) {
            if w.len() >= 5 {
                self.normal = text3_exec(&w, 2);
            }
        } else if starts_with(l.as_slice(), "vertex".as_bytes()) {
            if w.len() >= 4 {
                let v = text3_exec(&w, 1);
                self.verts.push(v);
                assert(self@.verts =~= old(self)@.verts.push(text3(vv(w), 1)));
            }
        } else if starts_with(l.as_slice(), "endfacet".as_bytes()) {
            if self.verts.len() >= 3 {
                let mut vs: Vec<TextVec3> = Vec::new();
                vs.push(clone_text3(&self.verts[0]));
                vs.push(clone_text3(&self.verts[1]));
                vs.push(clone_text3(&self.verts[2]));
                let f = StlTextFacet { normal: clone_text3(&self.normal), vertices: vs };
                assert(f@.vertices =~= old(self)@.verts.take(3));
                self.facets.push(f);
                assert(self@.facets =~= old(self)@.facets.push(
                    StlTextFacetView { normal: old(self)@.normal, vertices: old(self)@.verts.take(3) },
                ));
            }
            self.verts = Vec::new();
            assert(self@.verts =~= Seq::<TextVec3View>::empty());
        }
    }
}

/// Reads an ASCII STL file into its model name and its facets, each with the
/// text of its normal and vertex coordinates.
pub fn parse_ascii(data: &[u8]) -> (r: Result<(Vec<u8>, Vec<StlTextFacet>), StlError>)
    ensures
        match (r, parse_ascii_spec(data@)) {
            (Ok((name, facets)), Ok((sname, sfacets))) => name@ == sname && facets@.map_values(
                |f: StlTextFacet| f@,
            ) == sfacets,
            (Err(e), Err(se)) => e == se,
            _ => false,
        },
{
    if !is_valid_utf8(data) {
        return Err(StlError::NotUtf8);
    }
    let ls = split_lines(data);
    let mut rd = AsciiReader::new();
    let mut i: usize = 0;
    while i < ls.len()
        invariant
            i <= ls@.len(),
            vv(ls) == lines(data@),
            rd@ == ascii_fold(vv(ls), i as nat),
        decreases ls@.len() - i,
    {
        rd.step(ls[i].as_slice());
        i = i + 1;
    }
    Ok((rd.name, rd.facets))
}

// ── Vertex welding ───────────────────────────────────────────────────────────

/// A vertex shared by the facets that meet at its position, with the normal
/// and the VisCAM colour of the first facet in which the position occurs.
#[derive(Debug, Clone, Copy, PartialEq, Eq, Structural)]
pub struct WeldedVertex {
    pub position: Vec3Bits,
    pub normal: Vec3Bits,
    pub color: Option<StlColor>,
}

/// One number per position, equal exactly when the bit patterns are equal.
pub open spec fn pos_key(p: Vec3Bits) -> u128 {
    (p.x + p.y * 0x1_0000_0000int + p.z * 0x1_0000_0000_0000_0000int) as u128
}

/// Corner `k` of the facets, in reading order, with its facet's normal and
/// colour.
pub open spec fn corner(tris: Seq<StlTriangle>, k: int) -> WeldedVertex {
    WeldedVertex { position: tris[k / 3].vertices[k % 3], normal: tris[k / 3].normal, color: tris[k / 3].color }
}

pub struct WeldState {
    pub verts: Seq<WeldedVertex>,
    pub indices: Seq<u32>,
    /// Index of the vertex already made for each position key.
    pub seen: Map<u128, u32>,
}

pub open spec fn weld_start() -> WeldState {
    WeldState { verts: seq![], indices: seq![], seen: Map::empty() }
}

/// A corner whose position was seen reuses that vertex; otherwise it makes a
/// new vertex, numbered by the vertex count as a `u32`.
pub open spec fn weld_step(st: WeldState, c: WeldedVertex) -> WeldState {
    let key = pos_key(c.position);
    if st.seen.contains_key(key) {
        WeldState { indices: st.indices.push(st.seen[key]), ..st }
    } else {
        let ni = (st.verts.len() % 0x1_0000_0000) as u32;
        WeldState { verts: st.verts.push(c), indices: st.indices.push(ni), seen: st.seen.insert(key, ni) }
    }
}

/// The welding state after the first `n` corners.
pub open spec fn weld_fold(tris: Seq<StlTriangle>, n: nat) -> WeldState
    decreases n,
{
    if n == 0 {
        weld_start()
    } else {
        weld_step(weld_fold(tris, (n - 1) as nat), corner(tris, n - 1))
    }
}

fn key_of(p: Vec3Bits) -> (r: u128)
    ensures
        r == pos_key(p),
{
    p.x as u128 + (p.y as u128) * 0x1_0000_0000 + (p.z as u128) * 0x1_0000_0000_0000_0000
}

/// Welds the corners of `triangles` into shared vertices: one vertex per
/// distinct position (by bit pattern), in order of first occurrence, and
/// three indices per facet.
pub fn deduplicate(triangles: &[StlTriangle]) -> (r: (Vec<WeldedVertex>, Vec<u32>))
    ensures
        r.0@ == weld_fold(triangles@, 3 * triangles@.len()).verts,
        r.1@ == weld_fold(triangles@, 3 * triangles@.len()).indices,
{
    broadcast use vstd::std_specs::hash::group_hash_axioms;
    let mut vertices: Vec<WeldedVertex> = Vec::new();
    let mut indices: Vec<u32> = Vec::new();
    let mut map: HashMap<u128, u32> = HashMap::new();
    let mut t: usize = 0;
    while t < triangles.len()
        invariant
            t <= triangles@.len(),
            vertices@ == weld_fold(triangles@, 3 * t as nat).verts,
            indices@ == weld_fold(triangles@, 3 * t as nat).indices,
            map@ == weld_fold(triangles@, 3 * t as nat).seen,
        decreases triangles@.len() - t,
    {
        let tri = triangles[t];
        let mut c: usize = 0;
        while c < 3
            invariant
                t < triangles@.len(),
                tri == triangles@[t as int],
                c <= 3,
                vertices@ == weld_fold(triangles@, (3 * t + c) as nat).verts,
                indices@ == weld_fold(triangles@, (3 * t + c) as nat).indices,
                map@ == weld_fold(triangles@, (3 * t + c) as nat).seen,
            decreases 3 - c,
        {
            let pos = tri.vertices[c];
            let key = key_of(pos);
            let ghost k: int = 3 * t + c;
            assert(k / 3 == t && k % 3 == c) by (nonlinear_arith)
                requires
                    k == 3 * t + c,
                    0 <= c < 3,
                    0 <= t,
            ;
            assert(corner(triangles@, k) == WeldedVertex { position: pos, normal: tri.normal, color: tri.color });
            match map.get(&key) {
                Some(existing) => {
                    indices.push(*existing);
                },
                None => {
                    let new_idx = ((vertices.len() as u64) % 0x1_0000_0000) as u32;
                    vertices.push(WeldedVertex { position: pos, normal: tri.normal, color: tri.color });
                    map.insert(key, new_idx);
                    indices.push(new_idx);
                },
            }
            c = c + 1;
        }
        t = t + 1;
    }
    (vertices, indices)
}

proof fn lemma_pos_key_injective(a: Vec3Bits, b: Vec3Bits)
    requires
        pos_key(a) == pos_key(b),
    ensures
        a == b,
{
    let ka: int = a.x + a.y * 0x1_0000_0000int + a.z * 0x1_0000_0000_0000_0000int;
    let kb: int = b.x + b.y * 0x1_0000_0000int + b.z * 0x1_0000_0000_0000_0000int;
    assert(0 <= ka < 0x1_0000_0000_0000_0000_0000_0000int);
    assert(0 <= kb < 0x1_0000_0000_0000_0000_0000_0000int);
    assert(ka == kb);
}

/// What holds of the welding state after `n` corners.
pub open spec fn weld_inv(tris: Seq<StlTriangle>, st: WeldState, n: nat) -> bool {
    &&& st.indices.len() == n
    &&& st.verts.len() <= n
    &&& forall|i: int| 0 <= i < st.verts.len() ==> st.seen.contains_key(pos_key(#[trigger] st.verts[i].position))
        && st.seen[pos_key(st.verts[i].position)] == i
    &&& forall|key: u128| #[trigger] st.seen.contains_key(key) ==> st.seen[key] < st.verts.len() && pos_key(
        st.verts[st.seen[key] as int].position,
    ) == key
    &&& forall|k: int| 0 <= k < n ==> #[trigger] st.indices[k] < st.verts.len()
        && st.verts[st.indices[k] as int].position == corner(tris, k).position
    &&& forall|i: int| 0 <= i < st.verts.len() ==> exists|k: int| 0 <= k < n && #[trigger] corner(tris, k) == #[trigger] st.verts[i]
}

proof fn lemma_weld_inv(tris: Seq<StlTriangle>, n: nat)
    requires
        n < 0x1_0000_0000,
    ensures
        weld_inv(tris, weld_fold(tris, n), n),
    decreases n,
{
    if n > 0 {
        let m = (n - 1) as nat;
        lemma_weld_inv(tris, m);
        let st = weld_fold(tris, m);
        let c = corner(tris, m as int);
        let key = pos_key(c.position);
        let nst = weld_fold(tris, n);
        if st.seen.contains_key(key) {
            let j = st.seen[key] as int;
            lemma_pos_key_injective(st.verts[j].position, c.position);
            assert forall|i: int| 0 <= i < nst.verts.len() implies exists|k: int| 0 <= k < n && #[trigger] corner(tris, k) == #[trigger] nst.verts[i] by {
                let k = choose|k: int| 0 <= k < m && #[trigger] corner(tris, k) == st.verts[i];
                assert(0 <= k < n && corner(tris, k) == nst.verts[i]);
            }
        } else {
            let ni = st.verts.len();
            assert(ni % 0x1_0000_0000 == ni);
            assert forall|i: int| 0 <= i < nst.verts.len() implies nst.seen.contains_key(pos_key(#[trigger] nst.verts[i].position))
                && nst.seen[pos_key(nst.verts[i].position)] == i by {
                if i < ni {
                    assert(nst.verts[i] == st.verts[i]);
                    assert(pos_key(st.verts[i].position) != key);
                }
            }
            assert forall|key2: u128| #[trigger] nst.seen.contains_key(key2) implies nst.seen[key2] < nst.verts.len() && pos_key(
                nst.verts[nst.seen[key2] as int].position,
            ) == key2 by {
                if key2 != key {
                    assert(nst.verts[st.seen[key2] as int] == st.verts[st.seen[key2] as int]);
                }
            }
            assert forall|k: int| 0 <= k < n implies #[trigger] nst.indices[k] < nst.verts.len()
                && nst.verts[nst.indices[k] as int].position == corner(tris, k).position by {
                if k < m {
                    assert(nst.indices[k] == st.indices[k]);
                    assert(nst.verts[st.indices[k] as int] == st.verts[st.indices[k] as int]);
                }
            }
            assert forall|i: int| 0 <= i < nst.verts.len() implies exists|k: int| 0 <= k < n && #[trigger] corner(tris, k) == #[trigger] nst.verts[i] by {
                if i < ni {
                    let k = choose|k: int| 0 <= k < m && #[trigger] corner(tris, k) == st.verts[i];
                    assert(nst.verts[i] == st.verts[i]);
                    assert(0 <= k < n && corner(tris, k) == nst.verts[i]);
                } else {
                    assert(corner(tris, m as int) == nst.verts[i]);
                }
            }
        }
    }
}

/// Welding keeps the mesh: every corner's index names a vertex at that
/// corner's position, no two vertices share a position, and every vertex is
/// one of the corners with its facet's normal. (Stated where the vertex
/// count fits the `u32` indices.)
pub proof fn lemma_weld_law(tris: Seq<StlTriangle>)
    requires
        3 * tris.len() < 0x1_0000_0000,
    ensures
        ({
            let w = weld_fold(tris, 3 * tris.len());
            &&& w.indices.len() == 3 * tris.len()
            &&& forall|k: int| 0 <= k < 3 * tris.len() ==> #[trigger] w.indices[k] < w.verts.len()
                && w.verts[w.indices[k] as int].position == corner(tris, k).position
            &&& forall|i: int, j: int| 0 <= i < j < w.verts.len() ==> #[trigger] w.verts[i].position
                != #[trigger] w.verts[j].position
            &&& forall|i: int| 0 <= i < w.verts.len() ==> exists|k: int| 0 <= k < 3 * tris.len()
                && #[trigger] corner(tris, k) == #[trigger] w.verts[i]
        }),
{
    let n = 3 * tris.len();
    lemma_weld_inv(tris, n);
    let w = weld_fold(tris, n);
    assert forall|i: int, j: int| 0 <= i < j < w.verts.len() implies #[trigger] w.verts[i].position
        != #[trigger] w.verts[j].position by {
        if w.verts[i].position == w.verts[j].position {
            assert(w.seen[pos_key(w.verts[i].position)] == i);
            assert(w.seen[pos_key(w.verts[j].position)] == j);
        }
    }
}

// ── Binary writer ────────────────────────────────────────────────────────────

/// The 80-byte header: the first 80 bytes of `name`, padded with NULs.
pub open spec fn header_block(name: Seq<u8>) -> Seq<u8> {
    if name.len() >= 80 {
        name.take(80)
    } else {
        name + Seq::new((80 - name.len()) as nat, |i: int| 0u8)
    }
}

pub open spec fn vec3_bytes(v: Vec3Bits) -> Seq<u8> {
    le32_bytes(v.x as nat) + le32_bytes(v.y as nat) + le32_bytes(v.z as nat)
}

/// A 50-byte record: normal, three vertices, and an attribute word of 0.
pub open spec fn record_bytes(t: StlTriangle) -> Seq<u8> {
    vec3_bytes(t.normal) + vec3_bytes(t.vertices[0]) + vec3_bytes(t.vertices[1]) + vec3_bytes(t.vertices[2])
        + le16_bytes(0)
}

/// A binary STL file holding `tris` under the header `name`.
pub open spec fn encode_binary_spec(name: Seq<u8>, tris: Seq<StlTriangle>) -> Seq<u8> {
    header_block(name) + le32_bytes(tris.len()) + concat_map(tris, |t: StlTriangle| record_bytes(t))
}

/// The header text a saver uses: the mesh name, or the generator when the
/// name is empty, or `solid-stl` when there is no generator either.
pub open spec fn header_text(mesh_name: Seq<u8>, generator: Option<Seq<u8>>) -> Seq<u8> {
    if mesh_name.len() > 0 {
        mesh_name
    } else {
        match generator {
            Some(g) => g,
            None => "solid-stl".spec_bytes(),
        }
    }
}

pub fn choose_header_text(mesh_name: &[u8], generator: Option<&[u8]>) -> (r: Vec<u8>)
    ensures
        r@ == header_text(mesh_name@, match generator {
            Some(g) => Some(g@),
            None => None,
        }),
{
    if mesh_name.len() > 0 {
        vstd::slice::slice_to_vec(mesh_name)
    } else {
        match generator {
            Some(g) => vstd::slice::slice_to_vec(g),
            None => literal("solid-stl"),
        }
    }
}

fn push_vec3(out: &mut Vec<u8>, v: Vec3Bits)
    ensures
        final(out)@ == old(out)@ + vec3_bytes(v),
{
    push_u32_le(out, v.x);
    push_u32_le(out, v.y);
    push_u32_le(out, v.z);
    assert(final(out)@ =~= old(out)@ + vec3_bytes(v));
}

fn push_record(out: &mut Vec<u8>, t: &StlTriangle)
    ensures
        final(out)@ == old(out)@ + record_bytes(*t),
{
    push_vec3(out, t.normal);
    push_vec3(out, t.vertices[0]);
    push_vec3(out, t.vertices[1]);
    push_vec3(out, t.vertices[2]);
    push_u16_le(out, 0);
    assert(final(out)@ =~= old(out)@ + record_bytes(*t));
}

/// Writes a binary STL file: the 80-byte header from `name`, the triangle
/// count, and one record per triangle with an attribute word of 0.
pub fn encode_binary(name: &[u8], triangles: &[StlTriangle]) -> (r: Vec<u8>)
    requires
        triangles@.len() <= u32::MAX,
    ensures
        r@ == encode_binary_spec(name@, triangles@),
{
    let mut out: Vec<u8> = Vec::new();
    let mut i: usize = 0;
    while i < 80
        invariant
            i <= 80,
            out@ == header_block(name@).take(i as int),
        decreases 80 - i,
    {
        let b: u8 = if i < name.len() { name[i] } else { 0 };
        out.push(b);
        i = i + 1;
        assert(out@ =~= header_block(name@).take(i as int));
    }
    assert(header_block(name@).len() == 80);
    assert(out@ =~= header_block(name@));
    push_u32_le(&mut out, triangles.len() as u32);
    let ghost head = out@;
    let mut k: usize = 0;
    assert(triangles@.take(0) =~= Seq::<StlTriangle>::empty());
    while k < triangles.len()
        invariant
            k <= triangles@.len(),
            out@ == head + concat_map(triangles@.take(k as int), |t: StlTriangle| record_bytes(t)),
        decreases triangles@.len() - k,
    {
        push_record(&mut out, &triangles[k]);
        proof {
            lemma_concat_map_push(triangles@.take(k as int), triangles@[k as int], |t: StlTriangle| record_bytes(t));
            assert(triangles@.take(k as int).push(triangles@[k as int]) =~= triangles@.take(k + 1));
        }
        k = k + 1;
    }
    assert(triangles@.take(k as int) =~= triangles@);
    out
}

/// A facet as read back from a record written with attribute 0: no color.
pub open spec fn without_color(t: StlTriangle) -> StlTriangle {
    StlTriangle { color: None, ..t }
}

proof fn lemma_vec3_back(d: Seq<u8>, p: int, v: Vec3Bits)
    requires
        0 <= p,
        p + 12 <= d.len(),
        d.subrange(p, p + 12) == vec3_bytes(v),
    ensures
        vec3_at(d, p) == v,
{
    assert(d.subrange(p, p + 4) =~= le32_bytes(v.x as nat)) by {
        assert(d.subrange(p, p + 4) =~= d.subrange(p, p + 12).subrange(0, 4));
    }
    assert(d.subrange(p + 4, p + 8) =~= le32_bytes(v.y as nat)) by {
        assert(d.subrange(p + 4, p + 8) =~= d.subrange(p, p + 12).subrange(4, 8));
    }
    assert(d.subrange(p + 8, p + 12) =~= le32_bytes(v.z as nat)) by {
        assert(d.subrange(p + 8, p + 12) =~= d.subrange(p, p + 12).subrange(8, 12));
    }
    lemma_le32_roundtrip(v.x as nat, d, p);
    lemma_le32_roundtrip(v.y as nat, d, p + 4);
    lemma_le32_roundtrip(v.z as nat, d, p + 8);
}

proof fn lemma_record_back(d: Seq<u8>, p: int, t: StlTriangle)
    requires
        0 <= p,
        p + 50 <= d.len(),
        d.subrange(p, p + 50) == record_bytes(t),
    ensures
        triangle_at(d, p) == without_color(t),
{
    let r = d.subrange(p, p + 50);
    assert(d.subrange(p, p + 12) =~= r.subrange(0, 12));
    assert(d.subrange(p + 12, p + 24) =~= r.subrange(12, 24));
    assert(d.subrange(p + 24, p + 36) =~= r.subrange(24, 36));
    assert(d.subrange(p + 36, p + 48) =~= r.subrange(36, 48));
    assert(d.subrange(p + 48, p + 50) =~= r.subrange(48, 50));
    assert(r.subrange(0, 12) =~= vec3_bytes(t.normal));
    assert(r.subrange(12, 24) =~= vec3_bytes(t.vertices[0]));
    assert(r.subrange(24, 36) =~= vec3_bytes(t.vertices[1]));
    assert(r.subrange(36, 48) =~= vec3_bytes(t.vertices[2]));
    assert(r.subrange(48, 50) =~= le16_bytes(0));
    lemma_vec3_back(d, p, t.normal);
    lemma_vec3_back(d, p + 12, t.vertices[0]);
    lemma_vec3_back(d, p + 24, t.vertices[1]);
    lemma_vec3_back(d, p + 36, t.vertices[2]);
    lemma_le16_roundtrip(0, d, p + 48);
    assert(triangle_at(d, p).vertices =~= t.vertices);
}

proof fn lemma_record_len(t: StlTriangle)
    ensures
        record_bytes(t).len() == 50,
{
}

proof fn lemma_sub_sub(d: Seq<u8>, p: int, n: int, q: int, m: int)
    requires
        0 <= p,
        0 <= q,
        0 <= m,
        q + m <= n,
        p + n <= d.len(),
    ensures
        d.subrange(p, p + n).subrange(q, q + m) == d.subrange(p + q, p + q + m),
{
    assert(d.subrange(p, p + n).subrange(q, q + m) =~= d.subrange(p + q, p + q + m));
}

proof fn lemma_record_k(d: Seq<u8>, tris: Seq<StlTriangle>, rb: Seq<u8>, k: int)
    requires
        0 <= k < tris.len(),
        rb.len() == tris.len() * 50,
        rb.subrange(k * 50, k * 50 + 50) == record_bytes(tris[k]),
        84 + rb.len() <= d.len(),
        d.subrange(84, 84 + rb.len() as int) == rb,
    ensures
        triangle_at(d, 84 + 50 * k) == without_color(tris[k]),
{
    assert(k * 50 + 50 <= tris.len() * 50) by (nonlinear_arith) requires k < tris.len();
    lemma_sub_sub(d, 84, rb.len() as int, k * 50, 50);
    lemma_record_back(d, 84 + 50 * k, tris[k]);
}

proof fn lemma_records_back(d: Seq<u8>, tris: Seq<StlTriangle>, rb: Seq<u8>)
    requires
        rb == concat_map(tris, |t: StlTriangle| record_bytes(t)),
        84 + rb.len() <= d.len(),
        d.subrange(84, 84 + rb.len() as int) == rb,
    ensures
        rb.len() == 50 * tris.len(),
        forall|k: int| 0 <= k < tris.len() ==> #[trigger] triangle_at(d, 84 + 50 * k) == without_color(tris[k]),
{
    let f = |t: StlTriangle| record_bytes(t);
    assert forall|i: int| 0 <= i < tris.len() implies #[trigger] f(tris[i]).len() == 50 by {
        lemma_record_len(tris[i]);
    }
    lemma_concat_fixed(tris, f, 50);
    assert forall|k: int| 0 <= k < tris.len() implies #[trigger] triangle_at(d, 84 + 50 * k) == without_color(tris[k]) by {
        lemma_record_k(d, tris, rb, k);
    }
}

proof fn lemma_header_block_len(name: Seq<u8>)
    ensures
        header_block(name).len() == 80,
{
}

/// Round trip: a file written by `encode_binary` is recognised as binary and
/// reads back the same facets (without colors, which are written as 0).
pub proof fn lemma_binary_round_trip(name: Seq<u8>, tris: Seq<StlTriangle>)
    requires
        tris.len() <= u32::MAX,
    ensures
        looks_binary(encode_binary_spec(name, tris)),
        parse_binary_spec(encode_binary_spec(name, tris)) matches Ok((_, ts)) && ts == tris.map_values(
            |t: StlTriangle| without_color(t),
        ),
{
    let d = encode_binary_spec(name, tris);
    let hb = header_block(name);
    let cb = le32_bytes(tris.len());
    let rb = concat_map(tris, |t: StlTriangle| record_bytes(t));
    lemma_header_block_len(name);
    assert(d.subrange(80, 84) =~= cb);
    assert(d.subrange(84, 84 + rb.len() as int) =~= rb);
    lemma_le32_roundtrip(tris.len(), d, 80);
    lemma_records_back(d, tris, rb);
    assert(Seq::new(declared_count(d), |i: int| triangle_at(d, 84 + 50 * i)) =~= tris.map_values(
        |t: StlTriangle| without_color(t),
    ));
}

// ── Loading and saving decisions ─────────────────────────────────────────────

/// How strongly the first bytes of a file suggest STL.
#[derive(Debug, Clone, Copy, PartialEq, Eq, Structural)]
pub enum StlDetect {
    /// Starts with `solid`: likely ASCII STL.
    Ascii,
    /// At least 84 bytes: could be binary STL.
    MaybeBinary,
    /// Neither.
    No,
}

pub open spec fn detect_spec(head: Seq<u8>) -> StlDetect {
    if begins_with(head, "solid".spec_bytes()) {
        StlDetect::Ascii
    } else if head.len() >= 84 {
        StlDetect::MaybeBinary
    } else {
        StlDetect::No
    }
}

/// Reads STL files, binary or ASCII.
pub struct StlLoader;

impl StlLoader {
    /// Judges the first bytes read from a file (up to 256).
    pub fn detect(&self, head: &[u8]) -> (r: StlDetect)
        ensures
            r == detect_spec(head@),
    {
        if starts_with(head, "solid".as_bytes()) {
            StlDetect::Ascii
        } else if head.len() >= 84 {
            StlDetect::MaybeBinary
        } else {
            StlDetect::No
        }
    }
}

/// The contents of an STL file, by the reader that accepted it.
#[derive(Debug, Clone)]
pub enum StlContent {
    Binary { name: Vec<u8>, triangles: Vec<StlTriangle> },
    Text { name: Vec<u8>, facets: Vec<StlTextFacet> },
}

pub enum StlContentView {
    Binary { name: Seq<u8>, triangles: Seq<StlTriangle> },
    Text { name: Seq<u8>, facets: Seq<StlTextFacetView> },
}

impl View for StlContent {
    type V = StlContentView;

    open spec fn view(&self) -> StlContentView {
        match self {
            StlContent::Binary { name, triangles } => StlContentView::Binary { name: name@, triangles: triangles@ },
            StlContent::Text { name, facets } => StlContentView::Text {
                name: name@,
                facets: facets@.map_values(|f: StlTextFacet| f@),
            },
        }
    }
}

pub open spec fn binary_content(d: Seq<u8>) -> Result<StlContentView, StlError> {
    match parse_binary_spec(d) {
        Ok((name, tris)) => Ok(StlContentView::Binary { name, triangles: tris }),
        Err(e) => Err(e),
    }
}

/// Which reader a file goes to: binary when its size matches its declared
/// count; otherwise ASCII, and binary again when the ASCII reader refuses it
/// (some binary files start with `solid`).
pub open spec fn read_stl_spec(d: Seq<u8>) -> Result<StlContentView, StlError> {
    if looks_binary(d) {
        binary_content(d)
    } else {
        match parse_ascii_spec(d) {
            Ok((name, facets)) => Ok(StlContentView::Text { name, facets }),
            Err(_) => binary_content(d),
        }
    }
}

/// Reads an STL file of either kind.
pub fn read_stl(data: &[u8]) -> (r: Result<StlContent, StlError>)
    ensures
        match (r, read_stl_spec(data@)) {
            (Ok(c), Ok(sc)) => c@ == sc,
            (Err(e), Err(se)) => e == se,
            _ => false,
        },
{
    if detect_binary(data) {
        match parse_binary(data) {
            Ok((name, triangles)) => Ok(StlContent::Binary { name, triangles }),
            Err(e) => Err(e),
        }
    } else {
        match parse_ascii(data) {
            Ok((name, facets)) => Ok(StlContent::Text { name, facets }),
            Err(_) => match parse_binary(data) {
                Ok((name, triangles)) => Ok(StlContent::Binary { name, triangles }),
                Err(e) => Err(e),
            },
        }
    }
}

/// `name`, or `dflt` when `name` is empty (`STL Model` for the mesh,
/// `STL Scene` for the scene).
pub open spec fn name_or(name: Seq<u8>, dflt: Seq<u8>) -> Seq<u8> {
    if name.len() == 0 {
        dflt
    } else {
        name
    }
}

pub fn mesh_name(name: &[u8]) -> (r: Vec<u8>)
    ensures
        r@ == name_or(name@, "STL Model".spec_bytes()),
{
    if name.len() == 0 {
        literal("STL Model")
    } else {
        vstd::slice::slice_to_vec(name)
    }
}

pub fn scene_name(name: &[u8]) -> (r: Vec<u8>)
    ensures
        r@ == name_or(name@, "STL Scene".spec_bytes()),
{
    if name.len() == 0 {
        literal("STL Scene")
    } else {
        vstd::slice::slice_to_vec(name)
    }
}

/// Number of whole triangles in primitives with the given index counts.
pub open spec fn triangle_total(counts: Seq<usize>) -> nat
    decreases counts.len(),
{
    if counts.len() == 0 {
        0
    } else {
        triangle_total(counts.drop_last()) + (counts.last() / 3) as nat
    }
}

/// Counts the triangles written for primitives with the given index
/// counts: each contributes its complete groups of three.
pub fn count_triangles(index_counts: &[usize]) -> (r: u32)
    requires
        triangle_total(index_counts@) <= u32::MAX,
    ensures
        r == triangle_total(index_counts@),
{
    let mut count: u32 = 0;
    let mut i: usize = 0;
    while i < index_counts.len()
        invariant
            i <= index_counts@.len(),
            triangle_total(index_counts@) <= u32::MAX,
            count == triangle_total(index_counts@.take(i as int)),
        decreases index_counts@.len() - i,
    {
        proof {
            lemma_triangle_total_prefix(index_counts@, (i + 1) as nat);
            assert(index_counts@.take(i + 1).drop_last() =~= index_counts@.take(i as int));
        }
        count = count + (index_counts[i] / 3) as u32;
        i = i + 1;
    }
    assert(index_counts@.take(i as int) =~= index_counts@);
    count
}

proof fn lemma_triangle_total_prefix(counts: Seq<usize>, n: nat)
    requires
        n <= counts.len(),
    ensures
        triangle_total(counts.take(n as int)) <= triangle_total(counts),
    decreases counts.len(),
{
    if n < counts.len() {
        assert(counts.drop_last().take(n as int) =~= counts.take(n as int));
        lemma_triangle_total_prefix(counts.drop_last(), n);
    } else {
        assert(counts.take(n as int) =~= counts);
    }
}

/// The complete groups of three of a primitive's index list, in order; a
/// trailing group of fewer than three is left out.
pub fn index_triangles(indices: &[u32]) -> (r: Vec<[u32; 3]>)
    ensures
        r@.len() == indices@.len() / 3,
        forall|t: int| 0 <= t < r@.len() ==> (#[trigger] r@[t])@ == indices@.subrange(3 * t, 3 * t + 3),
{
    let mut out: Vec<[u32; 3]> = Vec::new();
    let len = indices.len();
    let n = len / 3;
    let mut t: usize = 0;
    while t < n
        invariant
            len == indices@.len(),
            n == indices@.len() / 3,
            t <= n,
            out@.len() == t,
            forall|j: int| 0 <= j < t ==> (#[trigger] out@[j])@ == indices@.subrange(3 * j, 3 * j + 3),
        decreases n - t,
    {
        assert(3 * t + 3 <= len) by (nonlinear_arith) requires t < n, n == len / 3;
        let a = [indices[3 * t], indices[3 * t + 1], indices[3 * t + 2]];
        assert(a@ =~= indices@.subrange(3 * t, 3 * t + 3));
        out.push(a);
        t = t + 1;
    }
    out
}

// ── Laws of ASCII facets ─────────────────────────────────────────────────

/// The state after the first `k` lines of `ls`, read from state `st`.
pub open spec fn ascii_run(st: AsciiState, ls: Seq<Seq<u8>>, k: nat) -> AsciiState
    decreases k,
{
    if k == 0 {
        st
    } else {
        ascii_step(ascii_run(st, ls, (k - 1) as nat), ls[k - 1])
    }
}

/// A line that is an `endfacet` line (after trimming).
pub open spec fn is_endfacet(line: Seq<u8>) -> bool {
    begins_with(utrim(line), "endfacet".spec_bytes())
}

/// A `vertex` line with three coordinates (after trimming).
pub open spec fn is_vertex_line(line: Seq<u8>) -> bool {
    begins_with(utrim(line), "vertex".spec_bytes()) && uwords(utrim(line)).len() >= 4
}

/// The coordinates a `vertex` line gives.
pub open spec fn vertex_of(line: Seq<u8>) -> TextVec3View {
    let w = uwords(utrim(line));
    TextVec3View { x: w[1], y: w[2], z: w[3] }
}

proof fn lemma_first_byte(l: Seq<u8>, p: Seq<u8>)
    requires
        begins_with(l, p),
        p.len() > 0,
    ensures
        l[0] == p[0],
{
    assert(l.take(p.len() as int)[0] == l[0]);
}

proof fn lemma_keyword_kinds(line: Seq<u8>)
    ensures
        is_endfacet(line) ==> !begins_with(utrim(line), "solid".spec_bytes()) && !begins_with(
            utrim(line),
            "facet normal".spec_bytes(),
        ) && !begins_with(utrim(line), "vertex".spec_bytes()),
        is_vertex_line(line) ==> !begins_with(utrim(line), "solid".spec_bytes()) && !begins_with(
            utrim(line),
            "facet normal".spec_bytes(),
        ),
{
    reveal_strlit("endfacet");
    vstd::string::is_ascii_spec_bytes("endfacet");
    reveal_strlit("vertex");
    vstd::string::is_ascii_spec_bytes("vertex");
    reveal_strlit("solid");
    vstd::string::is_ascii_spec_bytes("solid");
    reveal_strlit("facet normal");
    vstd::string::is_ascii_spec_bytes("facet normal");
    let l = utrim(line);
    if begins_with(l, "endfacet".spec_bytes()) {
        lemma_first_byte(l, "endfacet".spec_bytes());
        if begins_with(l, "solid".spec_bytes()) {
            lemma_first_byte(l, "solid".spec_bytes());
        }
        if begins_with(l, "facet normal".spec_bytes()) {
            lemma_first_byte(l, "facet normal".spec_bytes());
        }
        if begins_with(l, "vertex".spec_bytes()) {
            lemma_first_byte(l, "vertex".spec_bytes());
        }
    }
    if begins_with(l, "vertex".spec_bytes()) {
        lemma_first_byte(l, "vertex".spec_bytes());
        if begins_with(l, "solid".spec_bytes()) {
            lemma_first_byte(l, "solid".spec_bytes());
        }
        if begins_with(l, "facet normal".spec_bytes()) {
            lemma_first_byte(l, "facet normal".spec_bytes());
        }
    }
}

/// Reading `ls1` and then `ls2` is reading `ls2` from where `ls1` left off.
pub proof fn lemma_fold_concat(ls1: Seq<Seq<u8>>, ls2: Seq<Seq<u8>>, k: nat)
    requires
        k <= ls2.len(),
    ensures
        ascii_fold(ls1 + ls2, ls1.len() + k) == ascii_run(ascii_fold(ls1, ls1.len()), ls2, k),
    decreases k,
{
    if k == 0 {
        lemma_fold_prefix(ls1, ls2, ls1.len());
    } else {
        lemma_fold_concat(ls1, ls2, (k - 1) as nat);
        assert((ls1 + ls2)[ls1.len() + k - 1] == ls2[k - 1]);
    }
}

proof fn lemma_fold_prefix(ls1: Seq<Seq<u8>>, ls2: Seq<Seq<u8>>, n: nat)
    requires
        n <= ls1.len(),
    ensures
        ascii_fold(ls1 + ls2, n) == ascii_fold(ls1, n),
    decreases n,
{
    if n > 0 {
        lemma_fold_prefix(ls1, ls2, (n - 1) as nat);
        assert((ls1 + ls2)[n - 1] == ls1[n - 1]);
    }
}

/// What is read from a state depends, beyond the facets already there, only
/// on its pending vertices and normal.
proof fn lemma_run_independent(a: AsciiState, b: AsciiState, ls: Seq<Seq<u8>>, k: nat)
    requires
        a.verts == b.verts,
        a.normal == b.normal,
        k <= ls.len(),
    ensures
        ascii_run(a, ls, k).verts == ascii_run(b, ls, k).verts,
        ascii_run(a, ls, k).normal == ascii_run(b, ls, k).normal,
        a.facets.len() <= ascii_run(a, ls, k).facets.len(),
        b.facets.len() <= ascii_run(b, ls, k).facets.len(),
        ascii_run(a, ls, k).facets.take(a.facets.len() as int) == a.facets,
        ascii_run(b, ls, k).facets.take(b.facets.len() as int) == b.facets,
        ascii_run(a, ls, k).facets.skip(a.facets.len() as int) == ascii_run(b, ls, k).facets.skip(
            b.facets.len() as int,
        ),
    decreases k,
{
    if k == 0 {
        assert(a.facets.take(a.facets.len() as int) =~= a.facets);
        assert(b.facets.take(b.facets.len() as int) =~= b.facets);
        assert(a.facets.skip(a.facets.len() as int) =~= b.facets.skip(b.facets.len() as int));
    } else {
        lemma_run_independent(a, b, ls, (k - 1) as nat);
        let ra = ascii_run(a, ls, (k - 1) as nat);
        let rb = ascii_run(b, ls, (k - 1) as nat);
        let na = ascii_run(a, ls, k);
        let nb = ascii_run(b, ls, k);
        if na.facets.len() == ra.facets.len() + 1 {
            assert(na.facets =~= ra.facets.push(na.facets.last()));
            assert(nb.facets =~= rb.facets.push(nb.facets.last()));
            assert(na.facets.take(a.facets.len() as int) =~= ra.facets.take(a.facets.len() as int));
            assert(nb.facets.take(b.facets.len() as int) =~= rb.facets.take(b.facets.len() as int));
            assert(na.facets.skip(a.facets.len() as int) =~= ra.facets.skip(a.facets.len() as int).push(na.facets.last()));
            assert(nb.facets.skip(b.facets.len() as int) =~= rb.facets.skip(b.facets.len() as int).push(nb.facets.last()));
        }
    }
}

/// An `endfacet` line ends the facet being read: it leaves no pending
/// vertices, and adds at most one facet, made of the first three pending
/// vertices and the current normal.
pub proof fn lemma_endfacet_clears(st: AsciiState, line: Seq<u8>)
    requires
        is_endfacet(line),
    ensures
        ascii_step(st, line).verts == Seq::<TextVec3View>::empty(),
        st.verts.len() >= 3 ==> ascii_step(st, line).facets == st.facets.push(
            StlTextFacetView { normal: st.normal, vertices: st.verts.take(3) },
        ),
        st.verts.len() < 3 ==> ascii_step(st, line).facets == st.facets,
{
    lemma_keyword_kinds(line);
}

/// The facets read after an `endfacet` line do not depend on the vertices
/// listed before it: two files that both end a facet, with the same
/// current normal, read the same further facets from the same lines.
pub proof fn lemma_facets_after_endfacet(ls1: Seq<Seq<u8>>, ls1b: Seq<Seq<u8>>, ls2: Seq<Seq<u8>>)
    requires
        ls1.len() > 0,
        ls1b.len() > 0,
        is_endfacet(ls1.last()),
        is_endfacet(ls1b.last()),
        ascii_fold(ls1, ls1.len()).normal == ascii_fold(ls1b, ls1b.len()).normal,
    ensures
        ascii_fold(ls1 + ls2, (ls1 + ls2).len()).facets.take(ascii_fold(ls1, ls1.len()).facets.len() as int)
            == ascii_fold(ls1, ls1.len()).facets,
        ascii_fold(ls1 + ls2, (ls1 + ls2).len()).facets.skip(ascii_fold(ls1, ls1.len()).facets.len() as int)
            == ascii_fold(ls1b + ls2, (ls1b + ls2).len()).facets.skip(ascii_fold(ls1b, ls1b.len()).facets.len() as int),
{
    let a = ascii_fold(ls1, ls1.len());
    let b = ascii_fold(ls1b, ls1b.len());
    lemma_endfacet_clears(ascii_fold(ls1, (ls1.len() - 1) as nat), ls1.last());
    lemma_endfacet_clears(ascii_fold(ls1b, (ls1b.len() - 1) as nat), ls1b.last());
    lemma_fold_concat(ls1, ls2, ls2.len());
    lemma_fold_concat(ls1b, ls2, ls2.len());
    lemma_run_independent(a, b, ls2, ls2.len());
}

/// After a facet ends, three `vertex` lines and an `endfacet` line add
/// exactly one facet, made of those three vertices in order.
pub proof fn lemma_one_facet(ls1: Seq<Seq<u8>>, va: Seq<u8>, vb: Seq<u8>, vc: Seq<u8>, end: Seq<u8>)
    requires
        ls1.len() > 0,
        is_endfacet(ls1.last()),
        is_vertex_line(va),
        is_vertex_line(vb),
        is_vertex_line(vc),
        is_endfacet(end),
    ensures
        ({
            let before = ascii_fold(ls1, ls1.len());
            let ls = ls1 + seq![va, vb, vc, end];
            let after = ascii_fold(ls, ls.len());
            after.facets == before.facets.push(
                StlTextFacetView { normal: before.normal, vertices: seq![vertex_of(va), vertex_of(vb), vertex_of(vc)] },
            )
        }),
{
    let tail = seq![va, vb, vc, end];
    let before = ascii_fold(ls1, ls1.len());
    lemma_endfacet_clears(ascii_fold(ls1, (ls1.len() - 1) as nat), ls1.last());
    lemma_fold_concat(ls1, tail, 4);
    lemma_keyword_kinds(va);
    lemma_keyword_kinds(vb);
    lemma_keyword_kinds(vc);
    assert(before == ascii_step(ascii_fold(ls1, (ls1.len() - 1) as nat), ls1[ls1.len() - 1]));
    assert(before.verts.len() == 0);
    assert(tail[0] == va && tail[1] == vb && tail[2] == vc && tail[3] == end);
    assert(ascii_run(before, tail, 0) == before);
    let s1 = ascii_run(before, tail, 1);
    assert(s1 == ascii_step(before, va));
    assert(s1.verts =~= seq![vertex_of(va)]);
    let s2 = ascii_run(before, tail, 2);
    assert(s2 == ascii_step(s1, vb));
    assert(s2.verts =~= seq![vertex_of(va), vertex_of(vb)]);
    let s3 = ascii_run(before, tail, 3);
    assert(s3 == ascii_step(s2, vc));
    assert(s3.verts =~= seq![vertex_of(va), vertex_of(vb), vertex_of(vc)]);
    assert(s3.facets == before.facets && s3.normal == before.normal);
    assert(ascii_run(before, tail, 4) == ascii_step(s3, end));
    lemma_endfacet_clears(s3, end);
    assert(s3.verts.take(3) =~= s3.verts);
}

/// A `facet normal` line with three numbers (after trimming).
pub open spec fn is_normal_line(line: Seq<u8>) -> bool {
    begins_with(utrim(line), "facet normal".spec_bytes()) && uwords(utrim(line)).len() >= 5
}

/// A `facet normal` line sets the normal of the facet being read to its
/// three numbers; a `vertex` line adds its three coordinates to the
/// pending vertices. Neither adds a facet.
pub proof fn lemma_normal_and_vertex_lines(st: AsciiState, line: Seq<u8>)
    ensures
        is_normal_line(line) ==> {
            let w = uwords(utrim(line));
            &&& ascii_step(st, line).normal == TextVec3View { x: w[2], y: w[3], z: w[4] }
            &&& ascii_step(st, line).verts == st.verts
            &&& ascii_step(st, line).facets == st.facets
        },
        is_vertex_line(line) ==> {
            &&& ascii_step(st, line).verts == st.verts.push(vertex_of(line))
            &&& ascii_step(st, line).normal == st.normal
            &&& ascii_step(st, line).facets == st.facets
        },
{
    lemma_keyword_kinds(line);
    reveal_strlit("solid");
    vstd::string::is_ascii_spec_bytes("solid");
    reveal_strlit("facet normal");
    vstd::string::is_ascii_spec_bytes("facet normal");
    let l = utrim(line);
    if begins_with(l, "facet normal".spec_bytes()) && begins_with(l, "solid".spec_bytes()) {
        lemma_first_byte(l, "facet normal".spec_bytes());
        lemma_first_byte(l, "solid".spec_bytes());
    }
}

} // verus!
