//! Autodesk FBX: the node tree, its property accessors, polygon index
//! lists, and what a writer derives from them.
//!
//! Floating-point values are carried as bit patterns (binary files) or as
//! the text of their literals (ASCII files); the caller converts them.

use vstd::prelude::*;
use vstd::string::StringSliceAdditionalSpecFns;
use std::io::Read;
use flate2::read::ZlibDecoder;
use crate::bytes::{le16, le32, le64, read_u16_le, read_u32_le, read_u64_le, signed16, signed32, signed64, to_i16, to_i32, to_i64};

verus! {

/// A typed value attached to a node.
#[derive(Debug, Clone)]
pub enum FbxProperty {
    Bool(bool),
    Int16(i16),
    Int32(i32),
    Int64(i64),
    /// An `f32` by its bit pattern.
    Float32(u32),
    /// An `f64` by its bit pattern.
    Float64(u64),
    /// An `f64` by the text of its literal (ASCII files).
    Float64Text(Vec<char>),
    ArrBool(Vec<bool>),
    ArrInt32(Vec<i32>),
    ArrInt64(Vec<i64>),
    ArrFloat32(Vec<u32>),
    ArrFloat64(Vec<u64>),
    /// `f64` values by the text of their literals (ASCII files).
    ArrFloat64Text(Vec<Vec<char>>),
    /// A string by its bytes (UTF-8 for ASCII files, as stored for binary
    /// ones).
    String(Vec<u8>),
    Bytes(Vec<u8>),
}

pub enum FbxPropertyView {
    Bool(bool),
    Int16(i16),
    Int32(i32),
    Int64(i64),
    Float32(u32),
    Float64(u64),
    Float64Text(Seq<char>),
    ArrBool(Seq<bool>),
    ArrInt32(Seq<i32>),
    ArrInt64(Seq<i64>),
    ArrFloat32(Seq<u32>),
    ArrFloat64(Seq<u64>),
    ArrFloat64Text(Seq<Seq<char>>),
    String(Seq<u8>),
    Bytes(Seq<u8>),
}

impl View for FbxProperty {
    type V = FbxPropertyView;

    open spec fn view(&self) -> FbxPropertyView {
        match self {
            FbxProperty::Bool(v) => FbxPropertyView::Bool(*v),
            FbxProperty::Int16(v) => FbxPropertyView::Int16(*v),
            FbxProperty::Int32(v) => FbxPropertyView::Int32(*v),
            FbxProperty::Int64(v) => FbxPropertyView::Int64(*v),
            FbxProperty::Float32(v) => FbxPropertyView::Float32(*v),
            FbxProperty::Float64(v) => FbxPropertyView::Float64(*v),
            FbxProperty::Float64Text(v) => FbxPropertyView::Float64Text(v@),
            FbxProperty::ArrBool(v) => FbxPropertyView::ArrBool(v@),
            FbxProperty::ArrInt32(v) => FbxPropertyView::ArrInt32(v@),
            FbxProperty::ArrInt64(v) => FbxPropertyView::ArrInt64(v@),
            FbxProperty::ArrFloat32(v) => FbxPropertyView::ArrFloat32(v@),
            FbxProperty::ArrFloat64(v) => FbxPropertyView::ArrFloat64(v@),
            FbxProperty::ArrFloat64Text(v) => FbxPropertyView::ArrFloat64Text(v@.map_values(|t: Vec<char>| t@)),
            FbxProperty::String(v) => FbxPropertyView::String(v@),
            FbxProperty::Bytes(v) => FbxPropertyView::Bytes(v@),
        }
    }
}

/// A node: name (raw bytes), properties and children.
#[derive(Debug)]
pub struct FbxNode {
    pub name: Vec<u8>,
    pub properties: Vec<FbxProperty>,
    pub children: Vec<FbxNode>,
}

/// A parsed document: the format version and the top-level nodes.
#[derive(Debug)]
pub struct FbxDocument {
    pub version: u32,
    pub roots: Vec<FbxNode>,
}

/// The property as an integer, for the integer and boolean kinds.
pub open spec fn as_i64_spec(p: FbxPropertyView) -> Option<i64> {
    match p {
        FbxPropertyView::Int64(v) => Some(v),
        FbxPropertyView::Int32(v) => Some(v as i64),
        FbxPropertyView::Int16(v) => Some(v as i64),
        FbxPropertyView::Bool(v) => Some(if v { 1i64 } else { 0i64 }),
        _ => None,
    }
}

impl FbxProperty {
    /// The value as an integer (integers and booleans).
    pub fn as_i64(&self) -> (r: Option<i64>)
        ensures
            r == as_i64_spec(self@),
    {
        match self {
            FbxProperty::Int64(v) => Some(*v),
            FbxProperty::Int32(v) => Some(*v as i64),
            FbxProperty::Int16(v) => Some(*v as i64),
            FbxProperty::Bool(v) => Some(if *v { 1 } else { 0 }),
            _ => None,
        }
    }

    /// The string, for a string property (its bytes).
    pub fn as_str(&self) -> (r: Option<&Vec<u8>>)
        ensures
            match (r, self@) {
                (Some(s), FbxPropertyView::String(v)) => s@ == v,
                (None, FbxPropertyView::String(_)) => false,
                (Some(_), _) => false,
                (None, _) => true,
            },
    {
        match self {
            FbxProperty::String(s) => Some(s),
            _ => None,
        }
    }

    pub fn as_i32_slice(&self) -> (r: Option<&Vec<i32>>)
        ensures
            match (r, self@) {
                (Some(s), FbxPropertyView::ArrInt32(v)) => s@ == v,
                (None, FbxPropertyView::ArrInt32(_)) => false,
                (Some(_), _) => false,
                (None, _) => true,
            },
    {
        match self {
            FbxProperty::ArrInt32(s) => Some(s),
            _ => None,
        }
    }

    pub fn as_i64_slice(&self) -> (r: Option<&Vec<i64>>)
        ensures
            match (r, self@) {
                (Some(s), FbxPropertyView::ArrInt64(v)) => s@ == v,
                (None, FbxPropertyView::ArrInt64(_)) => false,
                (Some(_), _) => false,
                (None, _) => true,
            },
    {
        match self {
            FbxProperty::ArrInt64(s) => Some(s),
            _ => None,
        }
    }

    /// `f32` array elements by bit pattern.
    pub fn as_f32_slice(&self) -> (r: Option<&Vec<u32>>)
        ensures
            match (r, self@) {
                (Some(s), FbxPropertyView::ArrFloat32(v)) => s@ == v,
                (None, FbxPropertyView::ArrFloat32(_)) => false,
                (Some(_), _) => false,
                (None, _) => true,
            },
    {
        match self {
            FbxProperty::ArrFloat32(s) => Some(s),
            _ => None,
        }
    }
}

/// Index of the first node named `name`.
pub open spec fn first_named(ns: Seq<FbxNode>, name: Seq<u8>) -> Option<nat>
    decreases ns.len(),
{
    if ns.len() == 0 {
        None
    } else if ns[0].name@ == name {
        Some(0)
    } else {
        match first_named(ns.drop_first(), name) {
            Some(i) => Some(i + 1),
            None => None,
        }
    }
}

proof fn lemma_first_named(ns: Seq<FbxNode>, name: Seq<u8>, k: int)
    requires
        0 <= k <= ns.len(),
        forall|j: int| 0 <= j < k ==> ns[j].name@ != name,
    ensures
        k < ns.len() && ns[k].name@ == name ==> first_named(ns, name) == Some(k as nat),
        k == ns.len() ==> first_named(ns, name) is None,
    decreases k,
{
    if k > 0 {
        assert forall|j: int| 0 <= j < k - 1 implies ns.drop_first()[j].name@ != name by {
            assert(ns.drop_first()[j] == ns[j + 1]);
        }
        lemma_first_named(ns.drop_first(), name, k - 1);
    }
}

/// The first node named `name` in a list.
pub fn find_named<'a>(ns: &'a Vec<FbxNode>, name: &[u8]) -> (r: Option<&'a FbxNode>)
    ensures
        match (r, first_named(ns@, name@)) {
            (Some(n), Some(i)) => i < ns@.len() && *n == ns@[i as int],
            (None, None) => true,
            _ => false,
        },
{
    let mut i: usize = 0;
    while i < ns.len()
        invariant
            i <= ns@.len(),
            forall|j: int| 0 <= j < i ==> ns@[j].name@ != name@,
        decreases ns@.len() - i,
    {
        if crate::text::eq_bytes(ns[i].name.as_slice(), name) {
            proof {
                lemma_first_named(ns@, name@, i as int);
            }
            return Some(&ns[i]);
        }
        i = i + 1;
    }
    proof {
        lemma_first_named(ns@, name@, i as int);
    }
    None
}

/// The positions of the nodes named `name`, in order.
pub open spec fn positions_named(ns: Seq<FbxNode>, name: Seq<u8>, n: nat) -> Seq<usize>
    decreases n,
{
    if n == 0 {
        seq![]
    } else {
        let rest = positions_named(ns, name, (n - 1) as nat);
        if ns[n - 1].name@ == name {
            rest.push((n - 1) as usize)
        } else {
            rest
        }
    }
}

impl FbxDocument {
    /// The first top-level node named `name`.
    pub fn find(&self, name: &[u8]) -> (r: Option<&FbxNode>)
        ensures
            match (r, first_named(self.roots@, name@)) {
                (Some(n), Some(i)) => i < self.roots@.len() && *n == self.roots@[i as int],
                (None, None) => true,
                _ => false,
            },
    {
        find_named(&self.roots, name)
    }
}

impl FbxNode {
    /// The first child named `name`.
    pub fn child(&self, name: &[u8]) -> (r: Option<&FbxNode>)
        ensures
            match (r, first_named(self.children@, name@)) {
                (Some(n), Some(i)) => i < self.children@.len() && *n == self.children@[i as int],
                (None, None) => true,
                _ => false,
            },
    {
        find_named(&self.children, name)
    }

    /// The positions, among the children, of those named `name`.
    pub fn children_named(&self, name: &[u8]) -> (r: Vec<usize>)
        ensures
            r@ == positions_named(self.children@, name@, self.children@.len()),
    {
        let mut out: Vec<usize> = Vec::new();
        let mut i: usize = 0;
        while i < self.children.len()
            invariant
                i <= self.children@.len(),
                out@ == positions_named(self.children@, name@, i as nat),
            decreases self.children@.len() - i,
        {
            if crate::text::eq_bytes(self.children[i].name.as_slice(), name) {
                out.push(i);
            }
            i = i + 1;
        }
        out
    }

    /// The first property as an integer: the object id.
    pub fn id(&self) -> (r: Option<i64>)
        ensures
            r == (if self.properties@.len() > 0 { as_i64_spec(self.properties@[0]@) } else { None }),
    {
        if self.properties.len() > 0 {
            self.properties[0].as_i64()
        } else {
            None
        }
    }

    /// The second property as a string: the object name.
    pub fn object_name(&self) -> (r: Option<&Vec<u8>>)
        ensures
            match r {
                Some(s) => self.properties@.len() > 1 && self.properties@[1]@ == FbxPropertyView::String(s@),
                None => !(self.properties@.len() > 1 && self.properties@[1]@ is String),
            },
    {
        if self.properties.len() > 1 {
            self.properties[1].as_str()
        } else {
            None
        }
    }

    /// The third property as a string: the object class.
    pub fn object_class(&self) -> (r: Option<&Vec<u8>>)
        ensures
            match r {
                Some(s) => self.properties@.len() > 2 && self.properties@[2]@ == FbxPropertyView::String(s@),
                None => !(self.properties@.len() > 2 && self.properties@[2]@ is String),
            },
    {
        if self.properties.len() > 2 {
            self.properties[2].as_str()
        } else {
            None
        }
    }

    /// The first property as a string.
    pub fn as_str(&self) -> (r: Option<&Vec<u8>>)
        ensures
            match r {
                Some(s) => self.properties@.len() > 0 && self.properties@[0]@ == FbxPropertyView::String(s@),
                None => !(self.properties@.len() > 0 && self.properties@[0]@ is String),
            },
    {
        if self.properties.len() > 0 {
            self.properties[0].as_str()
        } else {
            None
        }
    }

    /// The first property as an `i32` array.
    pub fn as_i32_slice(&self) -> (r: Option<&Vec<i32>>)
        ensures
            match r {
                Some(s) => self.properties@.len() > 0 && self.properties@[0]@ == FbxPropertyView::ArrInt32(s@),
                None => !(self.properties@.len() > 0 && self.properties@[0]@ is ArrInt32),
            },
    {
        if self.properties.len() > 0 {
            self.properties[0].as_i32_slice()
        } else {
            None
        }
    }
}

// ── Geometry layers ──────────────────────────────────────────────────────────

/// How a layer's values are indexed: per polygon corner or per vertex.
#[derive(Debug, Clone, Copy, PartialEq, Eq, Structural)]
pub enum MappingMode {
    ByPolygonVertex,
    ByVertex,
}

pub open spec fn mapping_mode_of(s: Seq<u8>) -> MappingMode {
    if s == "ByVertex".spec_bytes() || s == "ByVertice".spec_bytes() || s == "ByControlPoint".spec_bytes() {
        MappingMode::ByVertex
    } else {
        MappingMode::ByPolygonVertex
    }
}

impl MappingMode {
    /// `ByVertex` (also spelled `ByVertice`, or `ByControlPoint`) maps per
    /// vertex; anything else
    /// per polygon corner.
    pub fn from_str(s: &str) -> (r: MappingMode)
        ensures
            r == mapping_mode_of(s.spec_bytes()),
    {
        let b = s.as_bytes();
        if crate::text::eq_bytes(b, "ByVertex".as_bytes()) || crate::text::eq_bytes(b, "ByVertice".as_bytes())
            || crate::text::eq_bytes(b, "ByControlPoint".as_bytes()) {
            MappingMode::ByVertex
        } else {
            MappingMode::ByPolygonVertex
        }
    }
}

/// One polygon corner of a geometry: its vertex and where its normal and
/// texture coordinate are found in their layers.
#[derive(Debug, Clone, Copy, PartialEq, Eq, Structural)]
pub struct FbxCorner {
    pub vertex: usize,
    pub normal_slot: usize,
    pub uv_slot: usize,
}

/// The vertex of a `PolygonVertexIndex` entry; a negative entry ends a
/// polygon and holds the vertex bitwise-negated.
pub open spec fn poly_vertex(raw: i32) -> usize {
    if raw < 0 {
        (-1 - raw) as usize
    } else {
        raw as usize
    }
}

pub open spec fn fbx_corner(pvi: Seq<i32>, i: int, nm: MappingMode, um: MappingMode) -> FbxCorner {
    let v = poly_vertex(pvi[i]);
    FbxCorner {
        vertex: v,
        normal_slot: if nm == MappingMode::ByVertex { v } else { i as usize },
        uv_slot: if um == MappingMode::ByVertex { v } else { i as usize },
    }
}

/// The fan of a polygon of `len` corners starting at corner `start`, as
/// triangle corner indices (taken modulo 2^32).
pub open spec fn fan_tris(start: nat, len: nat) -> Seq<u32> {
    let cnt: nat = if len >= 2 { (len - 2) as nat } else { 0 };
    Seq::new(3 * cnt, |j: int| {
        let t = j / 3;
        let c = j % 3;
        ((if c == 0 { start as int } else { start + t + c }) % 0x1_0000_0000) as u32
    })
}

/// The triangles of the first `n` entries, and where the open polygon
/// starts.
pub open spec fn poly_fold(pvi: Seq<i32>, n: nat) -> (nat, Seq<u32>)
    decreases n,
{
    if n == 0 {
        (0, seq![])
    } else {
        let (start, tris) = poly_fold(pvi, (n - 1) as nat);
        let i = (n - 1) as nat;
        if pvi[i as int] < 0 {
            ((i + 1) as nat, tris + fan_tris(start, (i - start + 1) as nat))
        } else {
            (start, tris)
        }
    }
}

/// Turns a geometry's `PolygonVertexIndex` into one corner per entry and a
/// triangle list that fans out each polygon from its first corner; a
/// polygon not closed by a negative entry gives no triangles.
pub fn polygon_plan(pvi: &[i32], normal_mode: MappingMode, uv_mode: MappingMode) -> (r: (Vec<FbxCorner>, Vec<u32>))
    ensures
        r.0@ == Seq::new(pvi@.len(), |i: int| fbx_corner(pvi@, i, normal_mode, uv_mode)),
        r.1@ == poly_fold(pvi@, pvi@.len()).1,
{
    let mut corners: Vec<FbxCorner> = Vec::new();
    let mut tris: Vec<u32> = Vec::new();
    let mut start: usize = 0;
    let mut i: usize = 0;
    while i < pvi.len()
        invariant
            i <= pvi@.len(),
            start <= i,
            corners@ == Seq::new(i as nat, |k: int| fbx_corner(pvi@, k, normal_mode, uv_mode)),
            poly_fold(pvi@, i as nat) == (start as nat, tris@),
        decreases pvi@.len() - i,
    {
        let raw = pvi[i];
        let v: usize = if raw < 0 { (-1 - raw) as usize } else { raw as usize };
        let ns = if normal_mode == MappingMode::ByVertex { v } else { i };
        let us = if uv_mode == MappingMode::ByVertex { v } else { i };
        corners.push(FbxCorner { vertex: v, normal_slot: ns, uv_slot: us });
        assert(corners@ =~= Seq::new((i + 1) as nat, |k: int| fbx_corner(pvi@, k, normal_mode, uv_mode)));
        if raw < 0 {
            let len = i - start + 1;
            let cnt: usize = if len >= 2 { len - 2 } else { 0 };
            let ghost before = tris@;
            let mut t: usize = 0;
            while t < cnt
                invariant
                    t <= cnt,
                    start <= i,
                    cnt == (if len >= 2 { len - 2 } else { 0 }),
                    len == i - start + 1,
                    tris@ == before + fan_tris(start as nat, len as nat).take(3 * t),
                decreases cnt - t,
            {
                let a = ((start as u64) % 0x1_0000_0000) as u32;
                let b = (((start + t + 1) as u64) % 0x1_0000_0000) as u32;
                let c = (((start + t + 2) as u64) % 0x1_0000_0000) as u32;
                tris.push(a);
                tris.push(b);
                tris.push(c);
                proof {
                    let f = fan_tris(start as nat, len as nat);
                    let tt = t as int;
                    vstd::arithmetic::div_mod::lemma_fundamental_div_mod_converse(3 * tt, 3, tt, 0);
                    vstd::arithmetic::div_mod::lemma_fundamental_div_mod_converse(3 * tt + 1, 3, tt, 1);
                    vstd::arithmetic::div_mod::lemma_fundamental_div_mod_converse(3 * tt + 2, 3, tt, 2);
                    assert(f.take(3 * tt + 3) =~= f.take(3 * tt).push(f[3 * tt]).push(f[3 * tt + 1]).push(f[3 * tt + 2]));
                    assert(a == f[3 * tt]);
                    assert(b == f[3 * tt + 1]);
                    assert(c == f[3 * tt + 2]);
                    assert(tris@ =~= before + f.take(3 * (t + 1)));
                }
                t = t + 1;
            }
            assert(fan_tris(start as nat, len as nat).take(3 * cnt) =~= fan_tris(start as nat, len as nat));
            start = i + 1;
        }
        i = i + 1;
    }
    (corners, tris)
}

/// The `PolygonVertexIndex` a writer gives a triangle list: its indices
/// (taken as `i32`), the third of each triangle bitwise-negated so that
/// every triangle closes a polygon of its own.
pub open spec fn pvi_spec(idx: Seq<u32>) -> Seq<i32> {
    Seq::new(idx.len(), |j: int| if j % 3 == 2 { (-1 - (idx[j] as i32)) as i32 } else { idx[j] as i32 })
}

pub fn polygon_vertex_index(indices: &[u32]) -> (r: Vec<i32>)
    ensures
        r@ == pvi_spec(indices@),
{
    let n = indices.len();
    let mut out: Vec<i32> = Vec::new();
    let mut j: usize = 0;
    while j < n
        invariant
            n == indices@.len(),
            j <= n,
            out@ == pvi_spec(indices@).take(j as int),
        decreases n - j,
    {
        let v = indices[j] as i32;
        if j % 3 == 2 {
            out.push(-1 - v);
        } else {
            out.push(v);
        }
        j = j + 1;
        assert(out@ =~= pvi_spec(indices@).take(j as int));
    }
    assert(pvi_spec(indices@).take(j as int) =~= pvi_spec(indices@));
    out
}

/// The corners of the first `n` triangles, in order: triangle `t` is
/// corners `3t`, `3t + 1`, `3t + 2`.
pub open spec fn corner_list(n: nat) -> Seq<u32> {
    Seq::new(3 * n, |j: int| j as u32)
}

proof fn lemma_pvi_fold(idx: Seq<u32>, k: nat)
    requires
        3 * k <= idx.len(),
        idx.len() < 0x1_0000_0000,
        forall|j: int| 0 <= j < idx.len() ==> idx[j] < 0x8000_0000,
    ensures
        poly_fold(pvi_spec(idx), 3 * k) == (3 * k, corner_list(k)),
    decreases k,
{
    let pvi = pvi_spec(idx);
    if k == 0 {
        assert(corner_list(0) =~= Seq::<u32>::empty());
    } else {
        let b = (3 * (k - 1)) as nat;
        lemma_pvi_fold(idx, (k - 1) as nat);
        assert(b % 3 == 0 && (b + 1) % 3 == 1 && (b + 2) % 3 == 2);
        assert(pvi[b as int] >= 0);
        assert(pvi[b + 1int] >= 0);
        assert(pvi[b + 2int] < 0);
        assert(poly_fold(pvi, b + 1) == (b, corner_list((k - 1) as nat)));
        assert(poly_fold(pvi, b + 2) == (b, corner_list((k - 1) as nat)));
        let f = fan_tris(b, 3);
        assert(f.len() == 3);
        assert(f[0] == b as u32);
        assert(f[1] == (b + 1) as u32);
        assert(f[2] == (b + 2) as u32);
        assert(corner_list((k - 1) as nat) + f =~= corner_list(k));
    }
}

/// What a writer gives as a triangle list's `PolygonVertexIndex`, a reader
/// takes back: each entry stands for the same vertex, and triangle `t`
/// comes back as corners `3t`, `3t + 1`, `3t + 2` (for whole triangles and
/// vertex indices below 2^31, which fit the `i32` entries).
pub proof fn lemma_pvi_round_trip(idx: Seq<u32>)
    requires
        idx.len() % 3 == 0,
        idx.len() < 0x1_0000_0000,
        forall|j: int| 0 <= j < idx.len() ==> idx[j] < 0x8000_0000,
    ensures
        pvi_spec(idx).len() == idx.len(),
        forall|j: int| 0 <= j < idx.len() ==> poly_vertex(#[trigger] pvi_spec(idx)[j]) == idx[j] as usize,
        poly_fold(pvi_spec(idx), idx.len()) == (idx.len(), corner_list(idx.len() / 3)),
{
    lemma_pvi_fold(idx, idx.len() / 3);
}

/// A name with each `"` escaped as `\"`.
pub open spec fn escape_spec(s: Seq<u8>) -> Seq<u8>
    decreases s.len(),
{
    if s.len() == 0 {
        seq![]
    } else {
        let rest = escape_spec(s.drop_last());
        if s.last() == 34 {
            rest + seq![92u8, 34u8]
        } else {
            rest.push(s.last())
        }
    }
}

pub fn escape(s: &[u8]) -> (r: Vec<u8>)
    ensures
        r@ == escape_spec(s@),
{
    let mut out: Vec<u8> = Vec::new();
    let mut i: usize = 0;
    while i < s.len()
        invariant
            i <= s@.len(),
            out@ == escape_spec(s@.take(i as int)),
        decreases s@.len() - i,
    {
        assert(s@.take(i + 1).drop_last() =~= s@.take(i as int));
        if s[i] == 34 {
            out.push(92);
            out.push(34);
        } else {
            out.push(s[i]);
        }
        i = i + 1;
    }
    assert(s@.take(i as int) =~= s@);
    out
}

// ── Binary files ─────────────────────────────────────────────────────────────

/// Errors of the FBX readers.
#[derive(Debug, Clone, PartialEq, Eq)]
pub enum FbxError {
    /// The data ends inside a record.
    UnexpectedEof,
    /// Not the binary FBX magic.
    BadMagic,
    /// A property type code that is not known.
    UnknownPropertyType { code: u8 },
    /// An array encoding other than plain (0) or zlib (1).
    UnknownArrayEncoding { encoding: u32 },
    /// A zlib-compressed array that does not inflate.
    Decompress,
    /// A node whose end offset lies before the end of what it holds.
    NodeEndBeforeContent,
    /// An array whose declared element count is beyond the size limit, or
    /// beyond the bytes it holds.
    ArrayTooLarge { count: u32, elem_size: u32 },
    /// A number token of an ASCII file with a point or exponent that is
    /// not a float literal.
    BadFloat { text: Vec<char> },
    /// A number token of an ASCII file that is not an `i64`.
    BadInteger { text: Vec<char> },
}

pub enum FbxErrorView {
    UnexpectedEof,
    BadMagic,
    UnknownPropertyType { code: u8 },
    UnknownArrayEncoding { encoding: u32 },
    Decompress,
    NodeEndBeforeContent,
    ArrayTooLarge { count: u32, elem_size: u32 },
    BadFloat { text: Seq<char> },
    BadInteger { text: Seq<char> },
}

impl View for FbxError {
    type V = FbxErrorView;

    open spec fn view(&self) -> FbxErrorView {
        match self {
            FbxError::UnexpectedEof => FbxErrorView::UnexpectedEof,
            FbxError::BadMagic => FbxErrorView::BadMagic,
            FbxError::UnknownPropertyType { code } => FbxErrorView::UnknownPropertyType { code: *code },
            FbxError::UnknownArrayEncoding { encoding } => FbxErrorView::UnknownArrayEncoding { encoding: *encoding },
            FbxError::Decompress => FbxErrorView::Decompress,
            FbxError::NodeEndBeforeContent => FbxErrorView::NodeEndBeforeContent,
            FbxError::ArrayTooLarge { count, elem_size } => FbxErrorView::ArrayTooLarge {
                count: *count,
                elem_size: *elem_size,
            },
            FbxError::BadFloat { text } => FbxErrorView::BadFloat { text: text@ },
            FbxError::BadInteger { text } => FbxErrorView::BadInteger { text: text@ },
        }
    }
}

/// The 23 bytes that open a binary FBX file.
pub open spec fn fbx_magic() -> Seq<u8> {
    "Kaydara FBX Binary  ".spec_bytes() + seq![0u8, 0x1au8, 0u8]
}

/// A node as read: name, properties, children.
pub struct FbxNodeView {
    pub name: Seq<u8>,
    pub properties: Seq<FbxPropertyView>,
    pub children: Seq<FbxNodeView>,
}

pub open spec fn node_view(n: FbxNode) -> FbxNodeView
    decreases n,
{
    FbxNodeView {
        name: n.name@,
        properties: n.properties@.map_values(|p: FbxProperty| p@),
        children: nodes_view(n.children@),
    }
}

pub open spec fn nodes_view(s: Seq<FbxNode>) -> Seq<FbxNodeView>
    decreases s,
{
    if s.len() == 0 {
        seq![]
    } else {
        nodes_view(s.subrange(0, s.len() - 1)).push(node_view(s[s.len() - 1]))
    }
}

pub open spec fn fits(d: Seq<u8>, p: int, n: int) -> bool {
    0 <= p && p + n <= d.len()
}

/// What a zlib decoder inflates `input` to, or `None` when it refuses it.
pub uninterp spec fn zlib_decompress(input: Seq<u8>) -> Option<Seq<u8>>;

/// `flate2::read::ZlibDecoder` over `input`, read to the end: the inflated
/// bytes, or `None` when the decoder reports an error. Depends on the input
/// alone.
#[verifier::external_body]
fn inflate(input: &[u8]) -> (r: Option<Vec<u8>>)
    ensures
        match r {
            Some(v) => zlib_decompress(input@) == Some(v@),
            None => zlib_decompress(input@) is None,
        },
{
    let mut dec = ZlibDecoder::new(input);
    let mut out = Vec::new();
    match dec.read_to_end(&mut out) {
        Ok(_) => Some(out),
        Err(_) => None,
    }
}

/// The elements of an array property from its (inflated) bytes; a trailing
/// partial element is ignored.
pub open spec fn array_elems(raw: Seq<u8>, code: u8) -> FbxPropertyView {
    if code == 98 {
        FbxPropertyView::ArrBool(Seq::new(raw.len(), |i: int| raw[i] != 0))
    } else if code == 105 {
        FbxPropertyView::ArrInt32(Seq::new(raw.len() / 4, |i: int| signed32(le32(raw, 4 * i)) as i32))
    } else if code == 108 {
        FbxPropertyView::ArrInt64(Seq::new(raw.len() / 8, |i: int| signed64(le64(raw, 8 * i)) as i64))
    } else if code == 102 {
        FbxPropertyView::ArrFloat32(Seq::new(raw.len() / 4, |i: int| le32(raw, 4 * i) as u32))
    } else {
        FbxPropertyView::ArrFloat64(Seq::new(raw.len() / 8, |i: int| le64(raw, 8 * i) as u64))
    }
}

/// Bytes per element of an array type code: 1 for booleans, 4 for
/// `i32` and `f32`, 8 for `i64` and `f64`.
pub open spec fn array_elem_size(code: u8) -> u32 {
    if code == 98 {
        1
    } else if code == 105 || code == 102 {
        4
    } else {
        8
    }
}

/// The most bytes an array may declare.
pub const MAX_ARRAY_BYTES: u64 = 0x4000_0000u64;

/// An array's header (element count, encoding, byte length) and data at
/// `p`. The declared count, times the element size, must stay within the
/// size limit (checked before anything is read or inflated) and within the
/// bytes the array holds once decoded.
pub open spec fn array_data_spec(d: Seq<u8>, p: int, code: u8) -> Result<(Seq<u8>, int), FbxError> {
    if !fits(d, p, 12) {
        Err(FbxError::UnexpectedEof)
    } else {
        let count = le32(d, p);
        let enc = le32(d, p + 4);
        let clen = le32(d, p + 8);
        let bytes = count * array_elem_size(code);
        let too_large = FbxError::ArrayTooLarge { count: count as u32, elem_size: array_elem_size(code) };
        if bytes > MAX_ARRAY_BYTES {
            Err(too_large)
        } else if !fits(d, p + 12, clen as int) {
            Err(FbxError::UnexpectedEof)
        } else {
            let raw = d.subrange(p + 12, p + 12 + clen);
            let q = p + 12 + clen;
            if enc == 0 {
                if bytes > raw.len() {
                    Err(too_large)
                } else {
                    Ok((raw, q))
                }
            } else if enc == 1 {
                match zlib_decompress(raw) {
                    Some(out) => if bytes > out.len() {
                        Err(too_large)
                    } else {
                        Ok((out, q))
                    },
                    None => Err(FbxError::Decompress),
                }
            } else {
                Err(FbxError::UnknownArrayEncoding { encoding: enc as u32 })
            }
        }
    }
}

/// The property at `p` and the position after it.
pub open spec fn property_spec(d: Seq<u8>, p: int) -> Result<(FbxPropertyView, int), FbxError> {
    if !fits(d, p, 1) {
        Err(FbxError::UnexpectedEof)
    } else {
        let c = d[p];
        let q = p + 1;
        if c == 89 {
            if fits(d, q, 2) { Ok((FbxPropertyView::Int16(signed16(le16(d, q)) as i16), q + 2)) } else { Err(FbxError::UnexpectedEof) }
        } else if c == 67 {
            if fits(d, q, 1) { Ok((FbxPropertyView::Bool(d[q] != 0), q + 1)) } else { Err(FbxError::UnexpectedEof) }
        } else if c == 73 {
            if fits(d, q, 4) { Ok((FbxPropertyView::Int32(signed32(le32(d, q)) as i32), q + 4)) } else { Err(FbxError::UnexpectedEof) }
        } else if c == 70 {
            if fits(d, q, 4) { Ok((FbxPropertyView::Float32(le32(d, q) as u32), q + 4)) } else { Err(FbxError::UnexpectedEof) }
        } else if c == 68 {
            if fits(d, q, 8) { Ok((FbxPropertyView::Float64(le64(d, q) as u64), q + 8)) } else { Err(FbxError::UnexpectedEof) }
        } else if c == 76 {
            if fits(d, q, 8) { Ok((FbxPropertyView::Int64(signed64(le64(d, q)) as i64), q + 8)) } else { Err(FbxError::UnexpectedEof) }
        } else if c == 83 || c == 82 {
            if !fits(d, q, 4) {
                Err(FbxError::UnexpectedEof)
            } else {
                let len = le32(d, q);
                if !fits(d, q + 4, len as int) {
                    Err(FbxError::UnexpectedEof)
                } else {
                    let b = d.subrange(q + 4, q + 4 + len);
                    Ok((if c == 83 { FbxPropertyView::String(b) } else { FbxPropertyView::Bytes(b) }, q + 4 + len))
                }
            }
        } else if c == 98 || c == 105 || c == 108 || c == 102 || c == 100 {
            match array_data_spec(d, q, c) {
                Err(e) => Err(e),
                Ok((raw, r)) => Ok((array_elems(raw, c), r)),
            }
        } else {
            Err(FbxError::UnknownPropertyType { code: c })
        }
    }
}

/// `n` properties from `p`.
pub open spec fn props_spec(d: Seq<u8>, p: int, n: nat) -> Result<(Seq<FbxPropertyView>, int), FbxError>
    decreases n,
{
    if n == 0 {
        Ok((seq![], p))
    } else {
        match props_spec(d, p, (n - 1) as nat) {
            Err(e) => Err(e),
            Ok((ps, q)) => match property_spec(d, q) {
                Err(e) => Err(e),
                Ok((x, r)) => Ok((ps.push(x), r)),
            },
        }
    }
}

/// A property read moves forward and stays within the data.
pub proof fn lemma_property_advance(d: Seq<u8>, p: int)
    ensures
        property_spec(d, p) matches Ok((_, r)) ==> p < r <= d.len(),
{
}

/// Reading properties never moves back and stays within the data.
pub proof fn lemma_props_advance(d: Seq<u8>, p: int, n: nat)
    requires
        0 <= p <= d.len(),
    ensures
        props_spec(d, p, n) matches Ok((_, r)) ==> p <= r <= d.len(),
    decreases n,
{
    if n > 0 {
        lemma_props_advance(d, p, (n - 1) as nat);
        if let Ok((_, q)) = props_spec(d, p, (n - 1) as nat) {
            lemma_property_advance(d, q);
        }
    }
}

/// Bytes of a node header before the name-length byte.
pub open spec fn header_len(v: u32) -> int {
    if v >= 7500 { 24 } else { 12 }
}

/// Bytes of the null record that ends a list of children.
pub open spec fn null_len(v: u32) -> int {
    if v >= 7500 { 25 } else { 13 }
}

/// The node at `p` (`None` for a null record) and the position after it:
/// its end offset when that is not 0, else the end of what was read.
pub open spec fn node_spec(d: Seq<u8>, p: int, v: u32) -> Result<(Option<FbxNodeView>, int), FbxError>
    decreases d.len() - p, 0int,
{
    let hl = header_len(v);
    if !fits(d, p, hl + 1) {
        Err(FbxError::UnexpectedEof)
    } else {
        let end: int = if v >= 7500 { le64(d, p) as int } else { le32(d, p) as int };
        let np: int = if v >= 7500 { le64(d, p + 8) as int } else { le32(d, p + 4) as int };
        let name_len: int = d[p + hl] as int;
        let q = p + hl + 1;
        if end == 0 && np == 0 && name_len == 0 {
            Ok((None, q))
        } else if !fits(d, q, name_len) {
            Err(FbxError::UnexpectedEof)
        } else {
            let name = d.subrange(q, q + name_len);
            match props_spec(d, q + name_len, np as usize as nat) {
                Err(e) => Err(e),
                Ok((props, q3)) => match {
                    proof {
                        lemma_props_advance(d, q + name_len, np as usize as nat);
                    }
                    children_spec(d, q3, end, v)
                } {
                    Err(e) => Err(e),
                    Ok((kids, q4)) => if end > 0 && end < q4 {
                        Err(FbxError::NodeEndBeforeContent)
                    } else {
                        Ok((Some(FbxNodeView { name, properties: props, children: kids }), if end > 0 { end } else { q4 }))
                    },
                },
            }
        }
    }
}

/// The children from `q` up to the node's end offset `end` (less the null
/// record), stopping at a null record.
pub open spec fn children_spec(d: Seq<u8>, q: int, end: int, v: u32) -> Result<(Seq<FbxNodeView>, int), FbxError>
    decreases d.len() - q, 1int,
{
    let limit = if end >= null_len(v) { end - null_len(v) } else { 0 };
    if q >= limit {
        Ok((seq![], q))
    } else if !fits(d, q, header_len(v) + 1) {
        Err(FbxError::UnexpectedEof)
    } else {
        match node_spec(d, q, v) {
            Err(e) => Err(e),
            Ok((None, q2)) => Ok((seq![], q2)),
            Ok((Some(n), q2)) => if q2 <= q {
                Err(FbxError::NodeEndBeforeContent)
            } else if q2 > d.len() {
                if q2 >= limit {
                    Ok((seq![n], q2))
                } else {
                    Err(FbxError::UnexpectedEof)
                }
            } else {
                match children_spec(d, q2, end, v) {
                    Err(e) => Err(e),
                    Ok((rest, q3)) => Ok((seq![n] + rest, q3)),
                }
            },
        }
    }
}

/// The top-level nodes from `p` up to the null record that ends them.
pub open spec fn roots_spec(d: Seq<u8>, p: int, v: u32) -> Result<Seq<FbxNodeView>, FbxError>
    decreases d.len() - p,
{
    if !fits(d, p, header_len(v) + 1) {
        Err(FbxError::UnexpectedEof)
    } else {
        match node_spec(d, p, v) {
            Err(e) => Err(e),
            Ok((None, _)) => Ok(seq![]),
            Ok((Some(n), q)) => if q <= p {
                Err(FbxError::NodeEndBeforeContent)
            } else if q > d.len() {
                Err(FbxError::UnexpectedEof)
            } else {
                match roots_spec(d, q, v) {
                    Err(e) => Err(e),
                    Ok(rest) => Ok(seq![n] + rest),
                }
            },
        }
    }
}

/// What `parse_binary` returns: the version and the top-level nodes.
pub open spec fn parse_binary_spec(d: Seq<u8>) -> Result<(u32, Seq<FbxNodeView>), FbxError> {
    if d.len() < 23 {
        Err(FbxError::UnexpectedEof)
    } else if d.take(23) != fbx_magic() {
        Err(FbxError::BadMagic)
    } else if d.len() < 27 {
        Err(FbxError::UnexpectedEof)
    } else {
        let v = le32(d, 23) as u32;
        match roots_spec(d, 27, v) {
            Err(e) => Err(e),
            Ok(roots) => Ok((v, roots)),
        }
    }
}

/// Whether `n` bytes are available at `p`.
fn avail(d: &[u8], p: u64, n: u64) -> (r: bool)
    ensures
        r == fits(d@, p as int, n as int),
{
    let len = d.len() as u64;
    p <= len && len - p >= n
}

/// Decodes an array property's (inflated) bytes into its elements.
pub fn array_elements(raw: &[u8], code: u8) -> (r: FbxProperty)
    ensures
        r@ == array_elems(raw@, code),
{
    let len = raw.len();
    if code == 98 {
        let mut v: Vec<bool> = Vec::new();
        let mut i: usize = 0;
        while i < len
            invariant
                len == raw@.len(),
                i <= len,
                v@ == Seq::new(i as nat, |k: int| raw@[k] != 0),
            decreases len - i,
        {
            v.push(raw[i] != 0);
            i = i + 1;
            assert(v@ =~= Seq::new(i as nat, |k: int| raw@[k] != 0));
        }
        FbxProperty::ArrBool(v)
    } else if code == 105 || code == 102 {
        let n = len / 4;
        let mut ints: Vec<i32> = Vec::new();
        let mut bits: Vec<u32> = Vec::new();
        let mut i: usize = 0;
        while i < n
            invariant
                len == raw@.len(),
                n == len / 4,
                i <= n,
                ints@ == Seq::new(i as nat, |k: int| signed32(le32(raw@, 4 * k)) as i32),
                bits@ == Seq::new(i as nat, |k: int| le32(raw@, 4 * k) as u32),
            decreases n - i,
        {
            assert(4 * i + 4 <= len) by (nonlinear_arith) requires i < n, n == len / 4;
            let w = read_u32_le(raw, 4 * i);
            ints.push(to_i32(w));
            bits.push(w);
            i = i + 1;
            assert(ints@ =~= Seq::new(i as nat, |k: int| signed32(le32(raw@, 4 * k)) as i32));
            assert(bits@ =~= Seq::new(i as nat, |k: int| le32(raw@, 4 * k) as u32));
        }
        if code == 105 {
            FbxProperty::ArrInt32(ints)
        } else {
            FbxProperty::ArrFloat32(bits)
        }
    } else {
        let n = len / 8;
        let mut ints: Vec<i64> = Vec::new();
        let mut bits: Vec<u64> = Vec::new();
        let mut i: usize = 0;
        while i < n
            invariant
                len == raw@.len(),
                n == len / 8,
                i <= n,
                ints@ == Seq::new(i as nat, |k: int| signed64(le64(raw@, 8 * k)) as i64),
                bits@ == Seq::new(i as nat, |k: int| le64(raw@, 8 * k) as u64),
            decreases n - i,
        {
            assert(8 * i + 8 <= len) by (nonlinear_arith) requires i < n, n == len / 8;
            let w = read_u64_le(raw, 8 * i);
            ints.push(to_i64(w));
            bits.push(w);
            i = i + 1;
            assert(ints@ =~= Seq::new(i as nat, |k: int| signed64(le64(raw@, 8 * k)) as i64));
            assert(bits@ =~= Seq::new(i as nat, |k: int| le64(raw@, 8 * k) as u64));
        }
        if code == 108 {
            FbxProperty::ArrInt64(ints)
        } else {
            FbxProperty::ArrFloat64(bits)
        }
    }
}

fn read_array_data(d: &[u8], p: u64, code: u8) -> (r: Result<(Vec<u8>, u64), FbxError>)
    ensures
        match (r, array_data_spec(d@, p as int, code)) {
            (Ok((raw, q)), Ok((sraw, sq))) => raw@ == sraw && q == sq,
            (Err(e), Err(se)) => e == se,
            _ => false,
        },
{
    let _len = d.len();
    if !avail(d, p, 12) {
        return Err(FbxError::UnexpectedEof);
    }
    let pu = p as usize;
    let count = read_u32_le(d, pu);
    let enc = read_u32_le(d, pu + 4);
    let clen = read_u32_le(d, pu + 8);
    let esize: u32 = if code == 98 {
        1
    } else if code == 105 || code == 102 {
        4
    } else {
        8
    };
    assert(count as u64 * esize as u64 <= 0xFFFF_FFFFu64 * 8) by (nonlinear_arith)
        requires count <= 0xFFFF_FFFFu32, esize <= 8;
    let bytes: u64 = count as u64 * esize as u64;
    if bytes > MAX_ARRAY_BYTES {
        return Err(FbxError::ArrayTooLarge { count, elem_size: esize });
    }
    if !avail(d, p + 12, clen as u64) {
        return Err(FbxError::UnexpectedEof);
    }
    let raw = crate::text::copy_range(d, pu + 12, pu + 12 + clen as usize);
    let q = p + 12 + clen as u64;
    if enc == 0 {
        if bytes > raw.len() as u64 {
            Err(FbxError::ArrayTooLarge { count, elem_size: esize })
        } else {
            Ok((raw, q))
        }
    } else if enc == 1 {
        match inflate(raw.as_slice()) {
            Some(out) => if bytes > out.len() as u64 {
                Err(FbxError::ArrayTooLarge { count, elem_size: esize })
            } else {
                Ok((out, q))
            },
            None => Err(FbxError::Decompress),
        }
    } else {
        Err(FbxError::UnknownArrayEncoding { encoding: enc })
    }
}

/// Reads the property at `p`.
pub fn read_property(d: &[u8], p: u64) -> (r: Result<(FbxProperty, u64), FbxError>)
    ensures
        match (r, property_spec(d@, p as int)) {
            (Ok((x, q)), Ok((sx, sq))) => x@ == sx && q == sq,
            (Err(e), Err(se)) => e == se,
            _ => false,
        },
{
    let _len = d.len();
    if !avail(d, p, 1) {
        return Err(FbxError::UnexpectedEof);
    }
    let c = d[p as usize];
    let q = p + 1;
    let qu = q as usize;
    if c == 89 {
        if avail(d, q, 2) { Ok((FbxProperty::Int16(to_i16(read_u16_le(d, qu))), q + 2)) } else { Err(FbxError::UnexpectedEof) }
    } else if c == 67 {
        if avail(d, q, 1) { Ok((FbxProperty::Bool(d[qu] != 0), q + 1)) } else { Err(FbxError::UnexpectedEof) }
    } else if c == 73 {
        if avail(d, q, 4) { Ok((FbxProperty::Int32(to_i32(read_u32_le(d, qu))), q + 4)) } else { Err(FbxError::UnexpectedEof) }
    } else if c == 70 {
        if avail(d, q, 4) { Ok((FbxProperty::Float32(read_u32_le(d, qu)), q + 4)) } else { Err(FbxError::UnexpectedEof) }
    } else if c == 68 {
        if avail(d, q, 8) { Ok((FbxProperty::Float64(read_u64_le(d, qu)), q + 8)) } else { Err(FbxError::UnexpectedEof) }
    } else if c == 76 {
        if avail(d, q, 8) { Ok((FbxProperty::Int64(to_i64(read_u64_le(d, qu))), q + 8)) } else { Err(FbxError::UnexpectedEof) }
    } else if c == 83 || c == 82 {
        if !avail(d, q, 4) {
            return Err(FbxError::UnexpectedEof);
        }
        let len = read_u32_le(d, qu);
        if !avail(d, q + 4, len as u64) {
            return Err(FbxError::UnexpectedEof);
        }
        let b = crate::text::copy_range(d, qu + 4, qu + 4 + len as usize);
        let r = q + 4 + len as u64;
        if c == 83 {
            Ok((FbxProperty::String(b), r))
        } else {
            Ok((FbxProperty::Bytes(b), r))
        }
    } else if c == 98 || c == 105 || c == 108 || c == 102 || c == 100 {
        match read_array_data(d, q, c) {
            Err(e) => Err(e),
            Ok((raw, r)) => Ok((array_elements(raw.as_slice(), c), r)),
        }
    } else {
        Err(FbxError::UnknownPropertyType { code: c })
    }
}

pub(crate) proof fn lemma_nodes_view_push(s: Seq<FbxNode>, n: FbxNode)
    ensures
        nodes_view(s.push(n)) == nodes_view(s).push(node_view(n)),
{
    assert(s.push(n).subrange(0, s.len() as int) =~= s);
}

fn read_properties(d: &[u8], p: u64, n: usize) -> (r: Result<(Vec<FbxProperty>, u64), FbxError>)
    requires
        p <= d@.len(),
    ensures
        match (r, props_spec(d@, p as int, n as nat)) {
            (Ok((ps, q)), Ok((sps, sq))) => ps@.map_values(|x: FbxProperty| x@) == sps && q == sq,
            (Err(e), Err(se)) => e == se,
            _ => false,
        },
{
    let len = d.len();
    let mut pos = p;
    let mut properties: Vec<FbxProperty> = Vec::new();
    let mut k: usize = 0;
    assert(properties@.map_values(|x: FbxProperty| x@) =~= Seq::<FbxPropertyView>::empty());
    while k < n
        invariant
            k <= n,
            len == d@.len(),
            p <= pos <= len,
            props_spec(d@, p as int, k as nat) == Ok::<(Seq<FbxPropertyView>, int), FbxError>(
                (properties@.map_values(|x: FbxProperty| x@), pos as int),
            ),
        decreases n - k,
    {
        match read_property(d, pos) {
            Err(e) => {
                proof {
                    lemma_props_err(d@, p as int, (k + 1) as nat, n as nat);
                }
                return Err(e);
            },
            Ok((x, r)) => {
                proof {
                    lemma_property_advance(d@, pos as int);
                }
                let ghost before = properties@.map_values(|y: FbxProperty| y@);
                properties.push(x);
                pos = r;
                assert(properties@.map_values(|y: FbxProperty| y@) =~= before.push(x@));
            },
        }
        k = k + 1;
    }
    Ok((properties, pos))
}

/// Reads the node at `p` and the position after it; `None` for a null
/// record.
pub fn read_node(d: &[u8], p: u64, v: u32) -> (r: Result<(Option<FbxNode>, u64), FbxError>)
    ensures
        match (r, node_spec(d@, p as int, v)) {
            (Ok((Some(n), q)), Ok((Some(sn), sq))) => node_view(n) == sn && q == sq,
            (Ok((None, q)), Ok((None, sq))) => q == sq,
            (Err(e), Err(se)) => e == se,
            _ => false,
        },
    decreases d@.len() - p, 0int,
{
    let _len = d.len();
    let hl: u64 = if v >= 7500 { 24 } else { 12 };
    if !avail(d, p, hl + 1) {
        return Err(FbxError::UnexpectedEof);
    }
    let pu = p as usize;
    let end: u64 = if v >= 7500 { read_u64_le(d, pu) } else { read_u32_le(d, pu) as u64 };
    let np: u64 = if v >= 7500 { read_u64_le(d, pu + 8) } else { read_u32_le(d, pu + 4) as u64 };
    let name_len = d[pu + hl as usize] as u64;
    let q = p + hl + 1;
    if end == 0 && np == 0 && name_len == 0 {
        return Ok((None, q));
    }
    if !avail(d, q, name_len) {
        return Err(FbxError::UnexpectedEof);
    }
    let name = crate::text::copy_range(d, q as usize, (q + name_len) as usize);
    let (properties, q3) = match read_properties(d, q + name_len, np as usize) {
        Err(e) => {
            return Err(e);
        },
        Ok(t) => t,
    };
    proof {
        lemma_props_advance(d@, (q + name_len) as int, np as usize as nat);
    }
    let (children, q4) = match read_children(d, q3, end, v) {
        Err(e) => {
            return Err(e);
        },
        Ok(t) => t,
    };
    if end > 0 && end < q4 {
        return Err(FbxError::NodeEndBeforeContent);
    }
    let after = if end > 0 { end } else { q4 };
    let node = FbxNode { name, properties, children };
    Ok((Some(node), after))
}

/// Reads the children of a node from `q` up to its end offset.
fn read_children(d: &[u8], q: u64, end: u64, v: u32) -> (r: Result<(Vec<FbxNode>, u64), FbxError>)
    requires
        q <= d@.len(),
    ensures
        match (r, children_spec(d@, q as int, end as int, v)) {
            (Ok((ns, q2)), Ok((sns, sq))) => nodes_view(ns@) == sns && q2 == sq,
            (Err(e), Err(se)) => e == se,
            _ => false,
        },
    decreases d@.len() - q, 1int,
{
    let len = d.len();
    let hl: u64 = if v >= 7500 { 24 } else { 12 };
    let nl: u64 = if v >= 7500 { 25 } else { 13 };
    let limit: u64 = if end >= nl { end - nl } else { 0 };
    if q >= limit {
        let empty: Vec<FbxNode> = Vec::new();
        assert(nodes_view(empty@) =~= Seq::<FbxNodeView>::empty());
        return Ok((empty, q));
    }
    if !avail(d, q, hl + 1) {
        return Err(FbxError::UnexpectedEof);
    }
    match read_node(d, q, v) {
        Err(e) => Err(e),
        Ok((None, q2)) => {
            let empty: Vec<FbxNode> = Vec::new();
            assert(nodes_view(empty@) =~= Seq::<FbxNodeView>::empty());
            Ok((empty, q2))
        },
        Ok((Some(child), q2)) => {
            if q2 <= q {
                return Err(FbxError::NodeEndBeforeContent);
            }
            if q2 > len as u64 {
                if q2 >= limit {
                    let mut one: Vec<FbxNode> = Vec::new();
                    let ghost cv = node_view(child);
                    proof {
                        lemma_nodes_view_push(one@, child);
                    }
                    one.push(child);
                    assert(nodes_view(one@) =~= seq![cv]);
                    return Ok((one, q2));
                } else {
                    return Err(FbxError::UnexpectedEof);
                }
            }
            match read_children(d, q2, end, v) {
                Err(e) => Err(e),
                Ok((rest, q3)) => {
                    let ghost cv = node_view(child);
                    let mut all: Vec<FbxNode> = Vec::new();
                    all.push(child);
                    proof {
                        lemma_nodes_view_push(Seq::<FbxNode>::empty(), child);
                        assert(seq![child] =~= Seq::<FbxNode>::empty().push(child));
                        assert(nodes_view(Seq::<FbxNode>::empty()) =~= Seq::<FbxNodeView>::empty());
                    }
                    let mut rest = rest;
                    let ghost rs = rest@;
                    let ghost first = all@;
                    all.append(&mut rest);
                    proof {
                        assert(first =~= seq![child]);
                        assert(all@ == first + rs);
                        lemma_nodes_view_append(first, rs);
                        assert(nodes_view(first) =~= seq![cv]);
                    }
                    Ok((all, q3))
                },
            }
        },
    }
}

proof fn lemma_nodes_view_append(a: Seq<FbxNode>, b: Seq<FbxNode>)
    ensures
        nodes_view(a + b) == nodes_view(a) + nodes_view(b),
    decreases b.len(),
{
    if b.len() == 0 {
        assert(a + b =~= a);
        assert(nodes_view(a) + nodes_view(b) =~= nodes_view(a));
    } else {
        let bl = b.subrange(0, b.len() - 1);
        lemma_nodes_view_append(a, bl);
        assert((a + b).subrange(0, (a + b).len() - 1) =~= a + bl);
        assert(nodes_view(a + b) =~= nodes_view(a) + nodes_view(b));
    }
}

proof fn lemma_props_err(d: Seq<u8>, p: int, n: nat, m: nat)
    requires
        n <= m,
        props_spec(d, p, n) is Err,
    ensures
        props_spec(d, p, m) == props_spec(d, p, n),
    decreases m,
{
    if m > n {
        lemma_props_err(d, p, n, (m - 1) as nat);
    }
}

fn read_roots(d: &[u8], p: u64, v: u32) -> (r: Result<Vec<FbxNode>, FbxError>)
    ensures
        match (r, roots_spec(d@, p as int, v)) {
            (Ok(ns), Ok(sns)) => nodes_view(ns@) == sns,
            (Err(e), Err(se)) => e == se,
            _ => false,
        },
    decreases d@.len() - p,
{
    let len = d.len();
    let hl: u64 = if v >= 7500 { 24 } else { 12 };
    if !avail(d, p, hl + 1) {
        return Err(FbxError::UnexpectedEof);
    }
    match read_node(d, p, v) {
        Err(e) => Err(e),
        Ok((None, _)) => {
            let empty: Vec<FbxNode> = Vec::new();
            assert(nodes_view(empty@) =~= Seq::<FbxNodeView>::empty());
            Ok(empty)
        },
        Ok((Some(node), q)) => {
            if q <= p {
                return Err(FbxError::NodeEndBeforeContent);
            }
            if q > len as u64 {
                return Err(FbxError::UnexpectedEof);
            }
            match read_roots(d, q, v) {
                Err(e) => Err(e),
                Ok(rest) => {
                    let ghost cv = node_view(node);
                    let mut all: Vec<FbxNode> = Vec::new();
                    all.push(node);
                    let mut rest = rest;
                    let ghost rs = rest@;
                    let ghost first = all@;
                    all.append(&mut rest);
                    proof {
                        lemma_nodes_view_push(Seq::<FbxNode>::empty(), first[0]);
                        assert(Seq::<FbxNode>::empty().push(first[0]) =~= first);
                        assert(nodes_view(Seq::<FbxNode>::empty()) =~= Seq::<FbxNodeView>::empty());
                        lemma_nodes_view_append(first, rs);
                        assert(nodes_view(first) =~= seq![cv]);
                    }
                    Ok(all)
                },
            }
        },
    }
}

/// Reads a binary FBX file: its version and its top-level nodes.
pub fn parse_binary(d: &[u8]) -> (r: Result<FbxDocument, FbxError>)
    ensures
        match (r, parse_binary_spec(d@)) {
            (Ok(doc), Ok((v, roots))) => doc.version == v && nodes_view(doc.roots@) == roots,
            (Err(e), Err(se)) => e == se,
            _ => false,
        },
{
    if d.len() < 23 {
        return Err(FbxError::UnexpectedEof);
    }
    let mut magic: Vec<u8> = crate::stl::literal("Kaydara FBX Binary  ");
    magic.push(0);
    magic.push(0x1a);
    magic.push(0);
    assert(magic@ =~= fbx_magic());
    let head = vstd::slice::slice_subrange(d, 0, 23);
    assert(head@ =~= d@.take(23));
    if !crate::text::eq_bytes(head, magic.as_slice()) {
        return Err(FbxError::BadMagic);
    }
    if d.len() < 27 {
        return Err(FbxError::UnexpectedEof);
    }
    let version = read_u32_le(d, 23);
    match read_roots(d, 27, version) {
        Err(e) => Err(e),
        Ok(roots) => Ok(FbxDocument { version, roots }),
    }
}

/// Whether the first bytes are the binary FBX magic.
pub fn detect_binary(head: &[u8]) -> (r: bool)
    ensures
        r == (head@.len() >= 23 && head@.take(23) == fbx_magic()),
{
    if head.len() < 23 {
        return false;
    }
    let mut magic: Vec<u8> = crate::stl::literal("Kaydara FBX Binary  ");
    magic.push(0);
    magic.push(0x1a);
    magic.push(0);
    assert(magic@ =~= fbx_magic());
    let h = vstd::slice::slice_subrange(head, 0, 23);
    assert(h@ =~= head@.take(23));
    crate::text::eq_bytes(h, magic.as_slice())
}

} // verus!
