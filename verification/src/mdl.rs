//! Quake MDL: binary parsing and writing.
//!
//! Floating-point header fields (scale, translate, radii, times) are kept
//! as their IEEE-754 bit patterns, so a file reads and writes back without
//! any floating-point arithmetic.

use vstd::prelude::*;
use crate::bytes::{
    push_bytes, concat_map, lemma_concat_fixed, lemma_concat_map_push, i32_bits, le32, le32_bytes, push_i32_le, push_u32_le, read_u32_le, signed32, to_i32, unsigned32,
};

verus! {

/// `"IDPO"` read little-endian.
pub const MDL_IDENT: u32 = 1330660425;

pub const MDL_VERSION: i32 = 6;

pub const HEADER_SIZE: usize = 84;

pub const TEXCOORD_SIZE: usize = 12;

pub const TRIANGLE_SIZE: usize = 16;

pub const VERTEX_SIZE: usize = 4;

pub const SIMPLE_FRAME_FIXED_SIZE: usize = 24;

#[derive(Debug, Clone, Copy, PartialEq, Eq)]
pub struct MdlHeader {
    pub ident: u32,
    pub version: i32,
    pub scale: [u32; 3],
    pub translate: [u32; 3],
    pub boundingradius: u32,
    pub eyeposition: [u32; 3],
    pub num_skins: i32,
    pub skinwidth: i32,
    pub skinheight: i32,
    pub num_verts: i32,
    pub num_tris: i32,
    pub num_frames: i32,
    pub synctype: i32,
    pub flags: i32,
    pub size: u32,
}

#[derive(Debug, Clone, Copy, PartialEq, Eq)]
pub struct MdlTexCoord {
    pub onseam: i32,
    pub s: i32,
    pub t: i32,
}

#[derive(Debug, Clone, Copy, PartialEq, Eq)]
pub struct MdlTriangle {
    pub facesfront: i32,
    pub vertex: [i32; 3],
}

#[derive(Debug, Clone, Copy, PartialEq, Eq)]
pub struct MdlVertex {
    pub v: [u8; 3],
    pub normal_index: u8,
}

#[derive(Debug, Clone)]
pub struct MdlSimpleFrame {
    pub bboxmin: MdlVertex,
    pub bboxmax: MdlVertex,
    pub name: [u8; 16],
    pub verts: Vec<MdlVertex>,
}

#[derive(Debug, Clone)]
pub enum MdlSkin {
    Single { data: Vec<u8> },
    Group { nb: i32, times: Vec<u32>, data: Vec<Vec<u8>> },
}

#[derive(Debug, Clone)]
pub enum MdlFrame {
    Simple(MdlSimpleFrame),
    Group { nb: i32, min: MdlVertex, max: MdlVertex, times: Vec<u32>, frames: Vec<MdlSimpleFrame> },
}

#[derive(Debug, Clone)]
pub struct MdlData {
    pub header: MdlHeader,
    pub skins: Vec<MdlSkin>,
    pub texcoords: Vec<MdlTexCoord>,
    pub triangles: Vec<MdlTriangle>,
    pub frames: Vec<MdlFrame>,
}

/// Errors reported while reading an MDL file.
#[derive(Debug, Clone, Copy, PartialEq, Eq)]
pub enum MdlError {
    /// Fewer bytes than the fixed header.
    TooSmall,
    /// The identifier is not `IDPO`.
    BadIdent { found: u32 },
    /// The version is not 6.
    BadVersion { found: i32 },
    /// The data ends before a declared section does.
    UnexpectedEnd,
}

pub struct SimpleFrameView {
    pub bboxmin: MdlVertex,
    pub bboxmax: MdlVertex,
    pub name: [u8; 16],
    pub verts: Seq<MdlVertex>,
}

pub enum SkinView {
    Single { data: Seq<u8> },
    Group { nb: i32, times: Seq<u32>, data: Seq<Seq<u8>> },
}

pub enum FrameView {
    Simple(SimpleFrameView),
    Group { nb: i32, min: MdlVertex, max: MdlVertex, times: Seq<u32>, frames: Seq<SimpleFrameView> },
}

pub struct MdlView {
    pub header: MdlHeader,
    pub skins: Seq<SkinView>,
    pub texcoords: Seq<MdlTexCoord>,
    pub triangles: Seq<MdlTriangle>,
    pub frames: Seq<FrameView>,
}

impl View for MdlSimpleFrame {
    type V = SimpleFrameView;

    open spec fn view(&self) -> SimpleFrameView {
        SimpleFrameView { bboxmin: self.bboxmin, bboxmax: self.bboxmax, name: self.name, verts: self.verts@ }
    }
}

impl View for MdlSkin {
    type V = SkinView;

    open spec fn view(&self) -> SkinView {
        match self {
            MdlSkin::Single { data } => SkinView::Single { data: data@ },
            MdlSkin::Group { nb, times, data } => SkinView::Group {
                nb: *nb,
                times: times@,
                data: data@.map_values(|d: Vec<u8>| d@),
            },
        }
    }
}

impl View for MdlFrame {
    type V = FrameView;

    open spec fn view(&self) -> FrameView {
        match self {
            MdlFrame::Simple(f) => FrameView::Simple(f@),
            MdlFrame::Group { nb, min, max, times, frames } => FrameView::Group {
                nb: *nb,
                min: *min,
                max: *max,
                times: times@,
                frames: frames@.map_values(|f: MdlSimpleFrame| f@),
            },
        }
    }
}

impl View for MdlData {
    type V = MdlView;

    open spec fn view(&self) -> MdlView {
        MdlView {
            header: self.header,
            skins: self.skins@.map_values(|s: MdlSkin| s@),
            texcoords: self.texcoords@,
            triangles: self.triangles@,
            frames: self.frames@.map_values(|f: MdlFrame| f@),
        }
    }
}

// ── Layout ───────────────────────────────────────────────────────────────────

pub open spec fn u32_at(d: Seq<u8>, p: int) -> u32 {
    le32(d, p) as u32
}

pub open spec fn i32_at(d: Seq<u8>, p: int) -> i32 {
    signed32(le32(d, p)) as i32
}

/// A count field read as `max(v, 0)`.
pub open spec fn nonneg(v: i32) -> nat {
    if v < 0 { 0 } else { v as nat }
}

/// The header stored in the first 84 bytes.
pub open spec fn header_at(d: Seq<u8>) -> MdlHeader {
    MdlHeader {
        ident: u32_at(d, 0),
        version: i32_at(d, 4),
        scale: [u32_at(d, 8), u32_at(d, 12), u32_at(d, 16)],
        translate: [u32_at(d, 20), u32_at(d, 24), u32_at(d, 28)],
        boundingradius: u32_at(d, 32),
        eyeposition: [u32_at(d, 36), u32_at(d, 40), u32_at(d, 44)],
        num_skins: i32_at(d, 48),
        skinwidth: i32_at(d, 52),
        skinheight: i32_at(d, 56),
        num_verts: i32_at(d, 60),
        num_tris: i32_at(d, 64),
        num_frames: i32_at(d, 68),
        synctype: i32_at(d, 72),
        flags: i32_at(d, 76),
        size: u32_at(d, 80),
    }
}

/// Bytes per skin image: `skinwidth * skinheight` with 32-bit wrap-around,
/// as a count (`max(_, 0)`).
pub open spec fn pixel_count(h: MdlHeader) -> nat {
    nonneg(signed32(((unsigned32(h.skinwidth as int) * unsigned32(h.skinheight as int)) % 4294967296) as nat) as i32)
}

pub open spec fn vertex_at(d: Seq<u8>, p: int) -> MdlVertex {
    MdlVertex { v: [d[p], d[p + 1], d[p + 2]], normal_index: d[p + 3] }
}

pub open spec fn name_at(d: Seq<u8>, p: int) -> [u8; 16] {
    [
        d[p], d[p + 1], d[p + 2], d[p + 3], d[p + 4], d[p + 5], d[p + 6], d[p + 7],
        d[p + 8], d[p + 9], d[p + 10], d[p + 11], d[p + 12], d[p + 13], d[p + 14], d[p + 15],
    ]
}

pub open spec fn texcoord_at(d: Seq<u8>, p: int) -> MdlTexCoord {
    MdlTexCoord { onseam: i32_at(d, p), s: i32_at(d, p + 4), t: i32_at(d, p + 8) }
}

pub open spec fn triangle_at(d: Seq<u8>, p: int) -> MdlTriangle {
    MdlTriangle { facesfront: i32_at(d, p), vertex: [i32_at(d, p + 4), i32_at(d, p + 8), i32_at(d, p + 12)] }
}

/// Size of a simple frame with `nv` vertices.
pub open spec fn simple_frame_size(nv: nat) -> nat {
    24 + 4 * nv
}

/// The simple frame stored at `p` (requires its bytes to be present).
pub open spec fn simple_frame_at(d: Seq<u8>, p: int, nv: nat) -> SimpleFrameView {
    SimpleFrameView {
        bboxmin: vertex_at(d, p),
        bboxmax: vertex_at(d, p + 4),
        name: name_at(d, p + 8),
        verts: Seq::new(nv, |k: int| vertex_at(d, p + 24 + 4 * k)),
    }
}

/// The skin stored at `p` and the offset after it.
pub open spec fn skin_at(d: Seq<u8>, p: int, pix: nat) -> Option<(SkinView, int)> {
    if p + 4 > d.len() {
        None
    } else if i32_at(d, p) == 0 {
        if p + 4 + pix > d.len() {
            None
        } else {
            Some((SkinView::Single { data: d.subrange(p + 4, p + 4 + pix) }, p + 4 + pix))
        }
    } else if p + 8 > d.len() {
        None
    } else {
        let nb = i32_at(d, p + 4);
        let n = nonneg(nb);
        let t = p + 8;
        let q = t + 4 * n;
        if q + n * pix > d.len() {
            None
        } else {
            Some((SkinView::Group {
                nb,
                times: Seq::new(n, |k: int| u32_at(d, t + 4 * k)),
                data: Seq::new(n, |k: int| d.subrange(q + k * pix, q + k * pix + pix)),
            }, q + n * pix))
        }
    }
}

/// `count` skins from `p` on.
pub open spec fn skins_from(d: Seq<u8>, p: int, count: nat, pix: nat) -> Option<(Seq<SkinView>, int)>
    decreases count,
{
    if count == 0 {
        Some((seq![], p))
    } else {
        match skin_at(d, p, pix) {
            None => None,
            Some((s, p2)) => match skins_from(d, p2, (count - 1) as nat, pix) {
                None => None,
                Some((rest, p3)) => Some((seq![s] + rest, p3)),
            },
        }
    }
}

/// `n` texture coordinates (12 bytes each) at `p`.
pub open spec fn texcoords_at(d: Seq<u8>, p: int, n: nat) -> Option<(Seq<MdlTexCoord>, int)> {
    if p + n * 12 > d.len() {
        None
    } else {
        Some((Seq::new(n, |k: int| texcoord_at(d, p + k * 12)), p + n * 12))
    }
}

/// `n` triangles (16 bytes each) at `p`.
pub open spec fn triangles_at(d: Seq<u8>, p: int, n: nat) -> Option<(Seq<MdlTriangle>, int)> {
    if p + n * 16 > d.len() {
        None
    } else {
        Some((Seq::new(n, |k: int| triangle_at(d, p + k * 16)), p + n * 16))
    }
}

/// The frame stored at `p` and the offset after it.
pub open spec fn frame_at(d: Seq<u8>, p: int, nv: nat) -> Option<(FrameView, int)> {
    let fs = simple_frame_size(nv);
    if p + 4 > d.len() {
        None
    } else if i32_at(d, p) == 0 {
        if p + 4 + fs > d.len() {
            None
        } else {
            Some((FrameView::Simple(simple_frame_at(d, p + 4, nv)), p + 4 + fs))
        }
    } else if p + 16 > d.len() {
        None
    } else {
        let nb = i32_at(d, p + 4);
        let n = nonneg(nb);
        let t = p + 16;
        let q = t + 4 * n;
        if q + n * fs > d.len() {
            None
        } else {
            Some((FrameView::Group {
                nb,
                min: vertex_at(d, p + 8),
                max: vertex_at(d, p + 12),
                times: Seq::new(n, |k: int| u32_at(d, t + 4 * k)),
                frames: Seq::new(n, |k: int| simple_frame_at(d, q + k * fs, nv)),
            }, q + n * fs))
        }
    }
}

/// `count` frames from `p` on.
pub open spec fn frames_from(d: Seq<u8>, p: int, count: nat, nv: nat) -> Option<(Seq<FrameView>, int)>
    decreases count,
{
    if count == 0 {
        Some((seq![], p))
    } else {
        match frame_at(d, p, nv) {
            None => None,
            Some((f, p2)) => match frames_from(d, p2, (count - 1) as nat, nv) {
                None => None,
                Some((rest, p3)) => Some((seq![f] + rest, p3)),
            },
        }
    }
}

/// The document an MDL file holds: header, skins, texture coordinates,
/// triangles and frames, in that order. Trailing bytes are ignored.
pub open spec fn parse_mdl_spec(d: Seq<u8>) -> Result<MdlView, MdlError> {
    if d.len() < 84 {
        Err(MdlError::TooSmall)
    } else {
        let h = header_at(d);
        if h.ident != MDL_IDENT {
            Err(MdlError::BadIdent { found: h.ident })
        } else if h.version != MDL_VERSION {
            Err(MdlError::BadVersion { found: h.version })
        } else {
            let nv = nonneg(h.num_verts);
            match skins_from(d, 84, nonneg(h.num_skins), pixel_count(h)) {
                None => Err(MdlError::UnexpectedEnd),
                Some((skins, p1)) => match texcoords_at(d, p1, nv) {
                    None => Err(MdlError::UnexpectedEnd),
                    Some((texcoords, p2)) => match triangles_at(d, p2, nonneg(h.num_tris)) {
                        None => Err(MdlError::UnexpectedEnd),
                        Some((triangles, p3)) => match frames_from(d, p3, nonneg(h.num_frames), nv) {
                            None => Err(MdlError::UnexpectedEnd),
                            Some((frames, _)) => Ok(MdlView { header: h, skins, texcoords, triangles, frames }),
                        },
                    },
                },
            }
        }
    }
}

} // verus!

verus! {

// ── Reading ──────────────────────────────────────────────────────────────────

fn read_i32(d: &[u8], p: usize) -> (r: i32)
    requires
        p + 4 <= d@.len(),
    ensures
        r == i32_at(d@, p as int),
{
    to_i32(read_u32_le(d, p))
}

fn read_vertex(d: &[u8], p: usize) -> (r: MdlVertex)
    requires
        p + 4 <= d@.len(),
    ensures
        r == vertex_at(d@, p as int),
{
    MdlVertex { v: [d[p], d[p + 1], d[p + 2]], normal_index: d[p + 3] }
}

fn read_name(d: &[u8], p: usize) -> (r: [u8; 16])
    requires
        p + 16 <= d@.len(),
    ensures
        r == name_at(d@, p as int),
{
    [
        d[p], d[p + 1], d[p + 2], d[p + 3], d[p + 4], d[p + 5], d[p + 6], d[p + 7],
        d[p + 8], d[p + 9], d[p + 10], d[p + 11], d[p + 12], d[p + 13], d[p + 14], d[p + 15],
    ]
}

/// `p + n * size` when it is at most `len`.
fn span_end(p: usize, n: usize, size: usize, len: usize) -> (r: Option<usize>)
    requires
        p <= len,
    ensures
        r matches Some(e) ==> e == p + n * size && e <= len,
        r is None ==> p + n * size > len,
{
    match n.checked_mul(size) {
        None => {
            assert(n * size > len - p) by (nonlinear_arith)
                requires n * size > usize::MAX, len <= usize::MAX, p >= 0;
            None
        },
        Some(m) => if m > len - p {
            None
        } else {
            Some(p + m)
        },
    }
}

fn nonneg_exec(v: i32) -> (r: usize)
    ensures
        r == nonneg(v),
{
    if v < 0 { 0 } else { v as usize }
}

fn pixel_count_exec(h: &MdlHeader) -> (r: usize)
    ensures
        r == pixel_count(*h),
{
    let a = i32_bits(h.skinwidth) as u64;
    let b = i32_bits(h.skinheight) as u64;
    proof {
        assert(a * b <= 0xffff_ffff * 0xffff_ffffnat) by (nonlinear_arith)
            requires a <= 0xffff_ffff, b <= 0xffff_ffff;
    }
    let w = ((a * b) % 4294967296) as u32;
    nonneg_exec(to_i32(w))
}

fn read_simple_frame(d: &[u8], p: usize, nv: usize) -> (r: MdlSimpleFrame)
    requires
        p + simple_frame_size(nv as nat) <= d@.len(),
    ensures
        r@ == simple_frame_at(d@, p as int, nv as nat),
{
    let len = d.len();
    let bboxmin = read_vertex(d, p);
    let bboxmax = read_vertex(d, p + 4);
    let name = read_name(d, p + 8);
    let mut verts: Vec<MdlVertex> = Vec::new();
    let mut k: usize = 0;
    while k < nv
        invariant
            len == d@.len(),
            p + 24 + 4 * nv <= d@.len(),
            k <= nv,
            verts@ == Seq::new(nv as nat, |j: int| vertex_at(d@, p + 24 + 4 * j)).take(k as int),
        decreases nv - k,
    {
        let v = read_vertex(d, p + 24 + 4 * k);
        verts.push(v);
        assert(verts@ =~= Seq::new(nv as nat, |j: int| vertex_at(d@, p + 24 + 4 * j)).take(k + 1));
        k = k + 1;
    }
    assert(Seq::new(nv as nat, |j: int| vertex_at(d@, p + 24 + 4 * j)).take(nv as int) =~= Seq::new(nv as nat, |j: int| vertex_at(d@, p + 24 + 4 * j)));
    MdlSimpleFrame { bboxmin, bboxmax, name, verts }
}

/// Reads `n` little-endian `u32` values at `t`.
fn read_u32s(d: &[u8], t: usize, n: usize) -> (r: Vec<u32>)
    requires
        t + 4 * n <= d@.len(),
    ensures
        r@ == Seq::new(n as nat, |k: int| u32_at(d@, t + 4 * k)),
{
    let len = d.len();
    let mut out: Vec<u32> = Vec::new();
    let mut k: usize = 0;
    while k < n
        invariant
            len == d@.len(),
            t + 4 * n <= d@.len(),
            k <= n,
            out@ == Seq::new(n as nat, |j: int| u32_at(d@, t + 4 * j)).take(k as int),
        decreases n - k,
    {
        out.push(read_u32_le(d, t + 4 * k));
        assert(out@ =~= Seq::new(n as nat, |j: int| u32_at(d@, t + 4 * j)).take(k + 1));
        k = k + 1;
    }
    assert(Seq::new(n as nat, |j: int| u32_at(d@, t + 4 * j)).take(n as int) =~= Seq::new(n as nat, |j: int| u32_at(d@, t + 4 * j)));
    out
}

fn read_skin(d: &[u8], p: usize, pix: usize) -> (r: Option<(MdlSkin, usize)>)
    requires
        p <= d@.len(),
    ensures
        match r {
            Some((s, e)) => skin_at(d@, p as int, pix as nat) == Some((s@, e as int)) && e <= d@.len(),
            None => skin_at(d@, p as int, pix as nat) is None,
        },
{
    let len = d.len();
    if len - p < 4 {
        return None;
    }
    let group = read_i32(d, p);
    if group == 0 {
        if len - (p + 4) < pix {
            return None;
        }
        let data = vstd::slice::slice_to_vec(vstd::slice::slice_subrange(d, p + 4, p + 4 + pix));
        return Some((MdlSkin::Single { data }, p + 4 + pix));
    }
    if len - p < 8 {
        return None;
    }
    let nb = read_i32(d, p + 4);
    let n = nonneg_exec(nb);
    let t = p + 8;
    let q = match span_end(t, n, 4, len) {
        None => {
            proof {
                assert(n * pix >= 0) by (nonlinear_arith) requires n >= 0, pix >= 0;
                assert(4 * n == n * 4) by (nonlinear_arith);
            }
            return None;
        },
        Some(q) => q,
    };
    assert(q == t + 4 * n) by (nonlinear_arith) requires q == t + n * 4;
    let e = match span_end(q, n, pix, len) {
        None => return None,
        Some(e) => e,
    };
    let times = read_u32s(d, t, n);
    let mut data: Vec<Vec<u8>> = Vec::new();
    let ghost want = Seq::new(n as nat, |k: int| d@.subrange(q + k * pix, q + k * pix + pix));
    let mut k: usize = 0;
    while k < n
        invariant
            len == d@.len(),
            q + n * pix <= d@.len(),
            k <= n,
            want == Seq::new(n as nat, |j: int| d@.subrange(q + j * pix, q + j * pix + pix)),
            data@.map_values(|x: Vec<u8>| x@) == want.take(k as int),
        decreases n - k,
    {
        proof {
            assert(k * pix + pix <= n * pix) by (nonlinear_arith) requires k < n, pix >= 0;
            assert(k * pix >= 0) by (nonlinear_arith) requires k >= 0, pix >= 0;
        }
        let off = q + k * pix;
        let img = vstd::slice::slice_to_vec(vstd::slice::slice_subrange(d, off, off + pix));
        let ghost before = data@.map_values(|x: Vec<u8>| x@);
        data.push(img);
        assert(data@.map_values(|x: Vec<u8>| x@) =~= before.push(img@));
        assert(want.take(k + 1) =~= want.take(k as int).push(want[k as int]));
        k = k + 1;
    }
    assert(want.take(n as int) =~= want);
    Some((MdlSkin::Group { nb, times, data }, e))
}

} // verus!

verus! {

pub open spec fn skins_view(v: Vec<MdlSkin>) -> Seq<SkinView> {
    v@.map_values(|s: MdlSkin| s@)
}

pub open spec fn frames_view(v: Vec<MdlFrame>) -> Seq<FrameView> {
    v@.map_values(|f: MdlFrame| f@)
}

pub open spec fn combine_skins(acc: Seq<SkinView>, r: Option<(Seq<SkinView>, int)>) -> Option<(Seq<SkinView>, int)> {
    match r {
        None => None,
        Some((s, e)) => Some((acc + s, e)),
    }
}

fn read_skins(d: &[u8], p: usize, count: usize, pix: usize) -> (r: Option<(Vec<MdlSkin>, usize)>)
    requires
        p <= d@.len(),
    ensures
        match r {
            Some((s, e)) => skins_from(d@, p as int, count as nat, pix as nat) == Some((skins_view(s), e as int)) && e <= d@.len(),
            None => skins_from(d@, p as int, count as nat, pix as nat) is None,
        },
{
    let mut out: Vec<MdlSkin> = Vec::new();
    let mut c = p;
    let mut i: usize = 0;
    proof {
        match skins_from(d@, p as int, count as nat, pix as nat) {
            Some((s, e)) => assert(skins_view(out) + s =~= s),
            None => {},
        }
    }
    while i < count
        invariant
            i <= count,
            c <= d@.len(),
            skins_from(d@, p as int, count as nat, pix as nat) == combine_skins(skins_view(out), skins_from(d@, c as int, (count - i) as nat, pix as nat)),
        decreases count - i,
    {
        let ghost before = skins_view(out);
        let (s, c2) = match read_skin(d, c, pix) {
            None => return None,
            Some(x) => x,
        };
        out.push(s);
        c = c2;
        proof {
            assert(skins_view(out) =~= before.push(s@));
            assert((count - i - 1) as nat == (count - i) as nat - 1);
            match skins_from(d@, c as int, (count - i - 1) as nat, pix as nat) {
                Some((rest, e)) => assert(before + (seq![s@] + rest) =~= skins_view(out) + rest),
                None => {},
            }
        }
        i = i + 1;
    }
    assert(skins_view(out) + Seq::<SkinView>::empty() =~= skins_view(out));
    Some((out, c))
}

fn read_texcoords(d: &[u8], p: usize, n: usize) -> (r: Option<(Vec<MdlTexCoord>, usize)>)
    requires
        p <= d@.len(),
    ensures
        match r {
            Some((v, e)) => texcoords_at(d@, p as int, n as nat) == Some((v@, e as int)) && e <= d@.len(),
            None => texcoords_at(d@, p as int, n as nat) is None,
        },
{
    let len = d.len();
    let e = match span_end(p, n, 12, len) {
        None => return None,
        Some(e) => e,
    };
    let ghost want = Seq::new(n as nat, |k: int| texcoord_at(d@, p + k * 12));
    let mut out: Vec<MdlTexCoord> = Vec::new();
    let mut k: usize = 0;
    while k < n
        invariant
            len == d@.len(),
            p + n * 12 <= len,
            k <= n,
            want == Seq::new(n as nat, |j: int| texcoord_at(d@, p + j * 12)),
            out@ == want.take(k as int),
        decreases n - k,
    {
        let off = p + k * 12;
        let tc = MdlTexCoord { onseam: read_i32(d, off), s: read_i32(d, off + 4), t: read_i32(d, off + 8) };
        out.push(tc);
        assert(out@ =~= want.take(k + 1));
        k = k + 1;
    }
    assert(want.take(n as int) =~= want);
    Some((out, e))
}

fn read_triangles(d: &[u8], p: usize, n: usize) -> (r: Option<(Vec<MdlTriangle>, usize)>)
    requires
        p <= d@.len(),
    ensures
        match r {
            Some((v, e)) => triangles_at(d@, p as int, n as nat) == Some((v@, e as int)) && e <= d@.len(),
            None => triangles_at(d@, p as int, n as nat) is None,
        },
{
    let len = d.len();
    let e = match span_end(p, n, 16, len) {
        None => return None,
        Some(e) => e,
    };
    let ghost want = Seq::new(n as nat, |k: int| triangle_at(d@, p + k * 16));
    let mut out: Vec<MdlTriangle> = Vec::new();
    let mut k: usize = 0;
    while k < n
        invariant
            len == d@.len(),
            p + n * 16 <= len,
            k <= n,
            want == Seq::new(n as nat, |j: int| triangle_at(d@, p + j * 16)),
            out@ == want.take(k as int),
        decreases n - k,
    {
        let off = p + k * 16;
        let tri = MdlTriangle {
            facesfront: read_i32(d, off),
            vertex: [read_i32(d, off + 4), read_i32(d, off + 8), read_i32(d, off + 12)],
        };
        out.push(tri);
        assert(out@ =~= want.take(k + 1));
        k = k + 1;
    }
    assert(want.take(n as int) =~= want);
    Some((out, e))
}

fn read_frame(d: &[u8], p: usize, nv: usize) -> (r: Option<(MdlFrame, usize)>)
    requires
        p <= d@.len(),
    ensures
        match r {
            Some((f, e)) => frame_at(d@, p as int, nv as nat) == Some((f@, e as int)) && e <= d@.len(),
            None => frame_at(d@, p as int, nv as nat) is None,
        },
{
    let len = d.len();
    let fs_opt = span_end(24, nv, 4, usize::MAX);
    if len - p < 4 {
        return None;
    }
    let ty = read_i32(d, p);
    if ty == 0 {
        let fs = match fs_opt {
            None => return None,
            Some(x) => x,
        };
        if len - (p + 4) < fs {
            return None;
        }
        let sf = read_simple_frame(d, p + 4, nv);
        return Some((MdlFrame::Simple(sf), p + 4 + fs));
    }
    if len - p < 16 {
        return None;
    }
    let nb = read_i32(d, p + 4);
    let n = nonneg_exec(nb);
    let min = read_vertex(d, p + 8);
    let max = read_vertex(d, p + 12);
    let t = p + 16;
    let q = match span_end(t, n, 4, len) {
        None => {
            proof {
                let fsz = simple_frame_size(nv as nat);
                assert(n * fsz >= 0) by (nonlinear_arith) requires n >= 0, fsz >= 0;
            }
            return None;
        },
        Some(q) => q,
    };
    assert(q == t + 4 * n) by (nonlinear_arith) requires q == t + n * 4;
    let times = read_u32s(d, t, n);
    if n == 0 {
        let frames: Vec<MdlSimpleFrame> = Vec::new();
        proof {
            let fsz = simple_frame_size(nv as nat);
            assert(n * fsz == 0) by (nonlinear_arith) requires n == 0;
            assert(frames@.map_values(|f: MdlSimpleFrame| f@) =~= Seq::new(0, |k: int| simple_frame_at(d@, q + k * fsz, nv as nat)));
        }
        return Some((MdlFrame::Group { nb, min, max, times, frames }, q));
    }
    let fs = match fs_opt {
        None => {
            proof {
                let fsz = simple_frame_size(nv as nat);
                assert(n * fsz >= fsz) by (nonlinear_arith) requires n >= 1, fsz >= 0;
            }
            return None;
        },
        Some(x) => x,
    };
    let e = match span_end(q, n, fs, len) {
        None => return None,
        Some(e) => e,
    };
    let ghost want = Seq::new(n as nat, |k: int| simple_frame_at(d@, q + k * fs, nv as nat));
    let mut frames: Vec<MdlSimpleFrame> = Vec::new();
    let mut k: usize = 0;
    while k < n
        invariant
            len == d@.len(),
            q + n * fs <= len,
            fs == simple_frame_size(nv as nat),
            k <= n,
            want == Seq::new(n as nat, |j: int| simple_frame_at(d@, q + j * fs, nv as nat)),
            frames@.map_values(|f: MdlSimpleFrame| f@) == want.take(k as int),
        decreases n - k,
    {
        proof {
            assert(k * fs + fs <= n * fs) by (nonlinear_arith) requires k < n, fs >= 0;
            assert(k * fs >= 0) by (nonlinear_arith) requires k >= 0, fs >= 0;
        }
        let sf = read_simple_frame(d, q + k * fs, nv);
        let ghost before = frames@.map_values(|f: MdlSimpleFrame| f@);
        frames.push(sf);
        assert(frames@.map_values(|f: MdlSimpleFrame| f@) =~= before.push(sf@));
        assert(want.take(k + 1) =~= want.take(k as int).push(want[k as int]));
        k = k + 1;
    }
    assert(want.take(n as int) =~= want);
    Some((MdlFrame::Group { nb, min, max, times, frames }, e))
}

pub open spec fn combine_frames(acc: Seq<FrameView>, r: Option<(Seq<FrameView>, int)>) -> Option<(Seq<FrameView>, int)> {
    match r {
        None => None,
        Some((s, e)) => Some((acc + s, e)),
    }
}

fn read_frames(d: &[u8], p: usize, count: usize, nv: usize) -> (r: Option<(Vec<MdlFrame>, usize)>)
    requires
        p <= d@.len(),
    ensures
        match r {
            Some((s, e)) => frames_from(d@, p as int, count as nat, nv as nat) == Some((frames_view(s), e as int)) && e <= d@.len(),
            None => frames_from(d@, p as int, count as nat, nv as nat) is None,
        },
{
    let mut out: Vec<MdlFrame> = Vec::new();
    let mut c = p;
    let mut i: usize = 0;
    proof {
        match frames_from(d@, p as int, count as nat, nv as nat) {
            Some((s, e)) => assert(frames_view(out) + s =~= s),
            None => {},
        }
    }
    while i < count
        invariant
            i <= count,
            c <= d@.len(),
            frames_from(d@, p as int, count as nat, nv as nat) == combine_frames(frames_view(out), frames_from(d@, c as int, (count - i) as nat, nv as nat)),
        decreases count - i,
    {
        let ghost before = frames_view(out);
        let (f, c2) = match read_frame(d, c, nv) {
            None => return None,
            Some(x) => x,
        };
        out.push(f);
        c = c2;
        proof {
            assert(frames_view(out) =~= before.push(f@));
            assert((count - i - 1) as nat == (count - i) as nat - 1);
            match frames_from(d@, c as int, (count - i - 1) as nat, nv as nat) {
                Some((rest, e)) => assert(before + (seq![f@] + rest) =~= frames_view(out) + rest),
                None => {},
            }
        }
        i = i + 1;
    }
    assert(frames_view(out) + Seq::<FrameView>::empty() =~= frames_view(out));
    Some((out, c))
}

/// Parses raw MDL bytes into an [`MdlData`] document.
pub fn parse_mdl(data: &[u8]) -> (r: Result<MdlData, MdlError>)
    ensures
        match r {
            Ok(m) => parse_mdl_spec(data@) == Ok::<MdlView, MdlError>(m@),
            Err(e) => parse_mdl_spec(data@) == Err::<MdlView, MdlError>(e),
        },
{
    let len = data.len();
    if len < HEADER_SIZE {
        return Err(MdlError::TooSmall);
    }
    let d = data;
    let header = MdlHeader {
        ident: read_u32_le(d, 0),
        version: read_i32(d, 4),
        scale: [read_u32_le(d, 8), read_u32_le(d, 12), read_u32_le(d, 16)],
        translate: [read_u32_le(d, 20), read_u32_le(d, 24), read_u32_le(d, 28)],
        boundingradius: read_u32_le(d, 32),
        eyeposition: [read_u32_le(d, 36), read_u32_le(d, 40), read_u32_le(d, 44)],
        num_skins: read_i32(d, 48),
        skinwidth: read_i32(d, 52),
        skinheight: read_i32(d, 56),
        num_verts: read_i32(d, 60),
        num_tris: read_i32(d, 64),
        num_frames: read_i32(d, 68),
        synctype: read_i32(d, 72),
        flags: read_i32(d, 76),
        size: read_u32_le(d, 80),
    };
    assert(header == header_at(d@));
    if header.ident != MDL_IDENT {
        return Err(MdlError::BadIdent { found: header.ident });
    }
    if header.version != MDL_VERSION {
        return Err(MdlError::BadVersion { found: header.version });
    }
    let nv = nonneg_exec(header.num_verts);
    let pix = pixel_count_exec(&header);
    let (skins, p1) = match read_skins(d, HEADER_SIZE, nonneg_exec(header.num_skins), pix) {
        None => return Err(MdlError::UnexpectedEnd),
        Some(x) => x,
    };
    let (texcoords, p2) = match read_texcoords(d, p1, nv) {
        None => return Err(MdlError::UnexpectedEnd),
        Some(x) => x,
    };
    let (triangles, p3) = match read_triangles(d, p2, nonneg_exec(header.num_tris)) {
        None => return Err(MdlError::UnexpectedEnd),
        Some(x) => x,
    };
    let (frames, _p4) = match read_frames(d, p3, nonneg_exec(header.num_frames), nv) {
        None => return Err(MdlError::UnexpectedEnd),
        Some(x) => x,
    };
    Ok(MdlData { header, skins, texcoords, triangles, frames })
}

} // verus!

verus! {

// ── Writing ──────────────────────────────────────────────────────────────────

pub open spec fn u32_bytes(v: u32) -> Seq<u8> {
    le32_bytes(v as nat)
}

pub open spec fn i32_bytes(v: i32) -> Seq<u8> {
    le32_bytes(unsigned32(v as int))
}

/// The `i`-th 32-bit word of the header, in file order.
pub open spec fn header_word(h: MdlHeader, i: int) -> nat {
    if i == 0 { h.ident as nat }
    else if i == 1 { unsigned32(h.version as int) }
    else if i == 2 { h.scale[0] as nat }
    else if i == 3 { h.scale[1] as nat }
    else if i == 4 { h.scale[2] as nat }
    else if i == 5 { h.translate[0] as nat }
    else if i == 6 { h.translate[1] as nat }
    else if i == 7 { h.translate[2] as nat }
    else if i == 8 { h.boundingradius as nat }
    else if i == 9 { h.eyeposition[0] as nat }
    else if i == 10 { h.eyeposition[1] as nat }
    else if i == 11 { h.eyeposition[2] as nat }
    else if i == 12 { unsigned32(h.num_skins as int) }
    else if i == 13 { unsigned32(h.skinwidth as int) }
    else if i == 14 { unsigned32(h.skinheight as int) }
    else if i == 15 { unsigned32(h.num_verts as int) }
    else if i == 16 { unsigned32(h.num_tris as int) }
    else if i == 17 { unsigned32(h.num_frames as int) }
    else if i == 18 { unsigned32(h.synctype as int) }
    else if i == 19 { unsigned32(h.flags as int) }
    else { h.size as nat }
}

/// The first `k` header words, little-endian.
pub open spec fn header_prefix(h: MdlHeader, k: nat) -> Seq<u8>
    decreases k,
{
    if k == 0 {
        seq![]
    } else {
        header_prefix(h, (k - 1) as nat) + le32_bytes(header_word(h, k - 1))
    }
}

/// The 84 header bytes: 21 little-endian words.
pub open spec fn header_bytes(h: MdlHeader) -> Seq<u8> {
    header_prefix(h, 21)
}

pub open spec fn vertex_bytes(v: MdlVertex) -> Seq<u8> {
    seq![v.v[0], v.v[1], v.v[2], v.normal_index]
}

pub open spec fn texcoord_bytes(t: MdlTexCoord) -> Seq<u8> {
    i32_bytes(t.onseam) + i32_bytes(t.s) + i32_bytes(t.t)
}

pub open spec fn triangle_bytes(t: MdlTriangle) -> Seq<u8> {
    i32_bytes(t.facesfront) + i32_bytes(t.vertex[0]) + i32_bytes(t.vertex[1]) + i32_bytes(t.vertex[2])
}

pub open spec fn simple_frame_bytes(f: SimpleFrameView) -> Seq<u8> {
    vertex_bytes(f.bboxmin) + vertex_bytes(f.bboxmax) + f.name@ + concat_map(f.verts, |v: MdlVertex| vertex_bytes(v))
}

/// A skin as written: a group flag of 0 for a single image, 1 for a group.
pub open spec fn skin_bytes(s: SkinView) -> Seq<u8> {
    match s {
        SkinView::Single { data } => i32_bytes(0) + data,
        SkinView::Group { nb, times, data } => i32_bytes(1) + i32_bytes(nb) + concat_map(times, |t: u32| u32_bytes(t))
            + concat_map(data, |x: Seq<u8>| x),
    }
}

/// A frame as written: a type of 0 for a simple frame, 1 for a group.
pub open spec fn frame_bytes(f: FrameView) -> Seq<u8> {
    match f {
        FrameView::Simple(sf) => i32_bytes(0) + simple_frame_bytes(sf),
        FrameView::Group { nb, min, max, times, frames } => i32_bytes(1) + i32_bytes(nb) + vertex_bytes(min)
            + vertex_bytes(max) + concat_map(times, |t: u32| u32_bytes(t)) + concat_map(
            frames,
            |sf: SimpleFrameView| simple_frame_bytes(sf),
        ),
    }
}

/// The bytes of an MDL document: header, skins, texture coordinates,
/// triangles, frames.
pub open spec fn encode_mdl_spec(m: MdlView) -> Seq<u8> {
    header_bytes(m.header) + concat_map(m.skins, |s: SkinView| skin_bytes(s)) + concat_map(
        m.texcoords,
        |t: MdlTexCoord| texcoord_bytes(t),
    ) + concat_map(m.triangles, |t: MdlTriangle| triangle_bytes(t)) + concat_map(m.frames, |f: FrameView| frame_bytes(f))
}

fn header_word_exec(h: &MdlHeader, i: usize) -> (r: u32)
    requires
        i < 21,
    ensures
        r == header_word(*h, i as int),
{
    if i == 0 { h.ident }
    else if i == 1 { i32_bits(h.version) }
    else if i == 2 { h.scale[0] }
    else if i == 3 { h.scale[1] }
    else if i == 4 { h.scale[2] }
    else if i == 5 { h.translate[0] }
    else if i == 6 { h.translate[1] }
    else if i == 7 { h.translate[2] }
    else if i == 8 { h.boundingradius }
    else if i == 9 { h.eyeposition[0] }
    else if i == 10 { h.eyeposition[1] }
    else if i == 11 { h.eyeposition[2] }
    else if i == 12 { i32_bits(h.num_skins) }
    else if i == 13 { i32_bits(h.skinwidth) }
    else if i == 14 { i32_bits(h.skinheight) }
    else if i == 15 { i32_bits(h.num_verts) }
    else if i == 16 { i32_bits(h.num_tris) }
    else if i == 17 { i32_bits(h.num_frames) }
    else if i == 18 { i32_bits(h.synctype) }
    else if i == 19 { i32_bits(h.flags) }
    else { h.size }
}

fn push_u32(out: &mut Vec<u8>, v: u32)
    ensures
        final(out)@ == old(out)@ + u32_bytes(v),
{
    push_u32_le(out, v);
}

fn push_i32(out: &mut Vec<u8>, v: i32)
    ensures
        final(out)@ == old(out)@ + i32_bytes(v),
{
    push_i32_le(out, v);
}

fn push_vertex(out: &mut Vec<u8>, v: &MdlVertex)
    ensures
        final(out)@ == old(out)@ + vertex_bytes(*v),
{
    out.push(v.v[0]);
    out.push(v.v[1]);
    out.push(v.v[2]);
    out.push(v.normal_index);
    assert(out@ =~= old(out)@ + vertex_bytes(*v));
}

fn push_u32s(out: &mut Vec<u8>, ts: &Vec<u32>)
    ensures
        final(out)@ == old(out)@ + concat_map(ts@, |t: u32| u32_bytes(t)),
{
    let mut i: usize = 0;
    assert(ts@.take(0) =~= Seq::<u32>::empty());
    assert(out@ =~= old(out)@ + concat_map(ts@.take(0), |t: u32| u32_bytes(t)));
    while i < ts.len()
        invariant
            i <= ts@.len(),
            out@ == old(out)@ + concat_map(ts@.take(i as int), |t: u32| u32_bytes(t)),
        decreases ts@.len() - i,
    {
        let ghost before = out@;
        push_u32(out, ts[i]);
        proof {
            assert(ts@.take(i + 1) =~= ts@.take(i as int).push(ts@[i as int]));
            lemma_concat_map_push(ts@.take(i as int), ts@[i as int], |t: u32| u32_bytes(t));
            assert(out@ =~= old(out)@ + concat_map(ts@.take(i + 1), |t: u32| u32_bytes(t)));
        }
        i = i + 1;
    }
    assert(ts@.take(i as int) =~= ts@);
}

fn push_simple_frame(out: &mut Vec<u8>, f: &MdlSimpleFrame)
    ensures
        final(out)@ == old(out)@ + simple_frame_bytes(f@),
{
    push_vertex(out, &f.bboxmin);
    push_vertex(out, &f.bboxmax);
    let ghost mid = out@;
    let mut i: usize = 0;
    while i < 16
        invariant
            i <= 16,
            out@ == mid + f.name@.take(i as int),
        decreases 16 - i,
    {
        out.push(f.name[i]);
        assert(f.name@.take(i + 1) =~= f.name@.take(i as int).push(f.name@[i as int]));
        assert(out@ =~= mid + f.name@.take(i + 1));
        i = i + 1;
    }
    assert(f.name@.take(16) =~= f.name@);
    let ghost mid2 = out@;
    let mut k: usize = 0;
    assert(f.verts@.take(0) =~= Seq::<MdlVertex>::empty());
    assert(out@ =~= mid2 + concat_map(f.verts@.take(0), |v: MdlVertex| vertex_bytes(v)));
    while k < f.verts.len()
        invariant
            k <= f.verts@.len(),
            out@ == mid2 + concat_map(f.verts@.take(k as int), |v: MdlVertex| vertex_bytes(v)),
        decreases f.verts@.len() - k,
    {
        push_vertex(out, &f.verts[k]);
        proof {
            assert(f.verts@.take(k + 1) =~= f.verts@.take(k as int).push(f.verts@[k as int]));
            lemma_concat_map_push(f.verts@.take(k as int), f.verts@[k as int], |v: MdlVertex| vertex_bytes(v));
            assert(out@ =~= mid2 + concat_map(f.verts@.take(k + 1), |v: MdlVertex| vertex_bytes(v)));
        }
        k = k + 1;
    }
    assert(f.verts@.take(k as int) =~= f.verts@);
    assert(out@ =~= old(out)@ + simple_frame_bytes(f@));
}

fn push_skin(out: &mut Vec<u8>, s: &MdlSkin)
    ensures
        final(out)@ == old(out)@ + skin_bytes(s@),
{
    match s {
        MdlSkin::Single { data } => {
            push_i32(out, 0);
            push_bytes(out, data.as_slice());
            assert(out@ =~= old(out)@ + skin_bytes(s@));
        },
        MdlSkin::Group { nb, times, data } => {
            push_i32(out, 1);
            push_i32(out, *nb);
            push_u32s(out, times);
            let ghost mid = out@;
            let ghost dv = data@.map_values(|x: Vec<u8>| x@);
            let mut k: usize = 0;
            assert(dv.take(0) =~= Seq::<Seq<u8>>::empty());
            assert(out@ =~= mid + concat_map(dv.take(0), |x: Seq<u8>| x));
            while k < data.len()
                invariant
                    dv == data@.map_values(|x: Vec<u8>| x@),
                    k <= data@.len(),
                    out@ == mid + concat_map(dv.take(k as int), |x: Seq<u8>| x),
                decreases data@.len() - k,
            {
                push_bytes(out, data[k].as_slice());
                proof {
                    assert(dv.take(k + 1) =~= dv.take(k as int).push(dv[k as int]));
                    lemma_concat_map_push(dv.take(k as int), dv[k as int], |x: Seq<u8>| x);
                    assert(out@ =~= mid + concat_map(dv.take(k + 1), |x: Seq<u8>| x));
                }
                k = k + 1;
            }
            assert(dv.take(k as int) =~= dv);
            assert(out@ =~= old(out)@ + skin_bytes(s@));
        },
    }
}

fn push_frame(out: &mut Vec<u8>, f: &MdlFrame)
    ensures
        final(out)@ == old(out)@ + frame_bytes(f@),
{
    match f {
        MdlFrame::Simple(sf) => {
            push_i32(out, 0);
            push_simple_frame(out, sf);
            assert(out@ =~= old(out)@ + frame_bytes(f@));
        },
        MdlFrame::Group { nb, min, max, times, frames } => {
            push_i32(out, 1);
            push_i32(out, *nb);
            push_vertex(out, min);
            push_vertex(out, max);
            push_u32s(out, times);
            let ghost mid = out@;
            let ghost fv = frames@.map_values(|x: MdlSimpleFrame| x@);
            let mut k: usize = 0;
            assert(fv.take(0) =~= Seq::<SimpleFrameView>::empty());
            assert(out@ =~= mid + concat_map(fv.take(0), |sf: SimpleFrameView| simple_frame_bytes(sf)));
            while k < frames.len()
                invariant
                    fv == frames@.map_values(|x: MdlSimpleFrame| x@),
                    k <= frames@.len(),
                    out@ == mid + concat_map(fv.take(k as int), |sf: SimpleFrameView| simple_frame_bytes(sf)),
                decreases frames@.len() - k,
            {
                push_simple_frame(out, &frames[k]);
                proof {
                    assert(fv.take(k + 1) =~= fv.take(k as int).push(fv[k as int]));
                    lemma_concat_map_push(fv.take(k as int), fv[k as int], |sf: SimpleFrameView| simple_frame_bytes(sf));
                    assert(out@ =~= mid + concat_map(fv.take(k + 1), |sf: SimpleFrameView| simple_frame_bytes(sf)));
                }
                k = k + 1;
            }
            assert(fv.take(k as int) =~= fv);
            assert(out@ =~= old(out)@ + frame_bytes(f@));
        },
    }
}

/// Writes an MDL document: header, skins, texture coordinates, triangles
/// and frames, in the layout `parse_mdl` reads.
pub fn encode_mdl(m: &MdlData) -> (r: Vec<u8>)
    ensures
        r@ == encode_mdl_spec(m@),
{
    let mut out: Vec<u8> = Vec::new();
    let h = &m.header;
    let mut w: usize = 0;
    while w < 21
        invariant
            w <= 21,
            out@ == header_prefix(*h, w as nat),
        decreases 21 - w,
    {
        push_u32_le(&mut out, header_word_exec(h, w));
        w = w + 1;
    }
    let ghost p0 = out@;
    let ghost sv = m@.skins;
    let mut k: usize = 0;
    assert(sv.take(0) =~= Seq::<SkinView>::empty());
    assert(out@ =~= p0 + concat_map(sv.take(0), |s: SkinView| skin_bytes(s)));
    while k < m.skins.len()
        invariant
            sv == m@.skins,
            k <= m.skins@.len(),
            out@ == p0 + concat_map(sv.take(k as int), |s: SkinView| skin_bytes(s)),
        decreases m.skins@.len() - k,
    {
        push_skin(&mut out, &m.skins[k]);
        proof {
            assert(sv.take(k + 1) =~= sv.take(k as int).push(sv[k as int]));
            lemma_concat_map_push(sv.take(k as int), sv[k as int], |s: SkinView| skin_bytes(s));
            assert(out@ =~= p0 + concat_map(sv.take(k + 1), |s: SkinView| skin_bytes(s)));
        }
        k = k + 1;
    }
    assert(sv.take(k as int) =~= sv);
    let ghost p1 = out@;
    let ghost tv = m@.texcoords;
    let mut k: usize = 0;
    assert(tv.take(0) =~= Seq::<MdlTexCoord>::empty());
    assert(out@ =~= p1 + concat_map(tv.take(0), |t: MdlTexCoord| texcoord_bytes(t)));
    while k < m.texcoords.len()
        invariant
            tv == m@.texcoords,
            k <= m.texcoords@.len(),
            out@ == p1 + concat_map(tv.take(k as int), |t: MdlTexCoord| texcoord_bytes(t)),
        decreases m.texcoords@.len() - k,
    {
        let t = &m.texcoords[k];
        push_i32(&mut out, t.onseam);
        push_i32(&mut out, t.s);
        push_i32(&mut out, t.t);
        proof {
            assert(tv.take(k + 1) =~= tv.take(k as int).push(tv[k as int]));
            lemma_concat_map_push(tv.take(k as int), tv[k as int], |t: MdlTexCoord| texcoord_bytes(t));
            assert(out@ =~= p1 + concat_map(tv.take(k + 1), |t: MdlTexCoord| texcoord_bytes(t)));
        }
        k = k + 1;
    }
    assert(tv.take(k as int) =~= tv);
    let ghost p2 = out@;
    let ghost rv = m@.triangles;
    let mut k: usize = 0;
    assert(rv.take(0) =~= Seq::<MdlTriangle>::empty());
    assert(out@ =~= p2 + concat_map(rv.take(0), |t: MdlTriangle| triangle_bytes(t)));
    while k < m.triangles.len()
        invariant
            rv == m@.triangles,
            k <= m.triangles@.len(),
            out@ == p2 + concat_map(rv.take(k as int), |t: MdlTriangle| triangle_bytes(t)),
        decreases m.triangles@.len() - k,
    {
        let t = &m.triangles[k];
        push_i32(&mut out, t.facesfront);
        push_i32(&mut out, t.vertex[0]);
        push_i32(&mut out, t.vertex[1]);
        push_i32(&mut out, t.vertex[2]);
        proof {
            assert(rv.take(k + 1) =~= rv.take(k as int).push(rv[k as int]));
            lemma_concat_map_push(rv.take(k as int), rv[k as int], |t: MdlTriangle| triangle_bytes(t));
            assert(out@ =~= p2 + concat_map(rv.take(k + 1), |t: MdlTriangle| triangle_bytes(t)));
        }
        k = k + 1;
    }
    assert(rv.take(k as int) =~= rv);
    let ghost p3 = out@;
    let ghost fv = m@.frames;
    let mut k: usize = 0;
    assert(fv.take(0) =~= Seq::<FrameView>::empty());
    assert(out@ =~= p3 + concat_map(fv.take(0), |f: FrameView| frame_bytes(f)));
    while k < m.frames.len()
        invariant
            fv == m@.frames,
            k <= m.frames@.len(),
            out@ == p3 + concat_map(fv.take(k as int), |f: FrameView| frame_bytes(f)),
        decreases m.frames@.len() - k,
    {
        push_frame(&mut out, &m.frames[k]);
        proof {
            assert(fv.take(k + 1) =~= fv.take(k as int).push(fv[k as int]));
            lemma_concat_map_push(fv.take(k as int), fv[k as int], |f: FrameView| frame_bytes(f));
            assert(out@ =~= p3 + concat_map(fv.take(k + 1), |f: FrameView| frame_bytes(f)));
        }
        k = k + 1;
    }
    assert(fv.take(k as int) =~= fv);
    out
}

} // verus!

verus! {

// ── Round trip ───────────────────────────────────────────────────────────────

/// A skin whose sizes agree with the header's image size `pix`.
pub open spec fn skin_fits(s: SkinView, pix: nat) -> bool {
    match s {
        SkinView::Single { data } => data.len() == pix,
        SkinView::Group { nb, times, data } => times.len() == nonneg(nb) && data.len() == nonneg(nb) && forall|k: int|
            0 <= k < data.len() ==> #[trigger] data[k].len() == pix,
    }
}

/// A frame whose vertex lists have `nv` entries and whose group sizes agree with `nb`.
pub open spec fn frame_fits(f: FrameView, nv: nat) -> bool {
    match f {
        FrameView::Simple(sf) => sf.verts.len() == nv,
        FrameView::Group { nb, times, frames, .. } => times.len() == nonneg(nb) && frames.len() == nonneg(nb)
            && forall|k: int| 0 <= k < frames.len() ==> #[trigger] frames[k].verts.len() == nv,
    }
}

/// A document whose counts agree with its header, as every parsed document's do.
pub open spec fn mdl_well_formed(m: MdlView) -> bool {
    let h = m.header;
    &&& h.ident == MDL_IDENT
    &&& h.version == MDL_VERSION
    &&& m.skins.len() == nonneg(h.num_skins)
    &&& forall|k: int| 0 <= k < m.skins.len() ==> skin_fits(#[trigger] m.skins[k], pixel_count(h))
    &&& m.texcoords.len() == nonneg(h.num_verts)
    &&& m.triangles.len() == nonneg(h.num_tris)
    &&& m.frames.len() == nonneg(h.num_frames)
    &&& forall|k: int| 0 <= k < m.frames.len() ==> frame_fits(#[trigger] m.frames[k], nonneg(h.num_verts))
}

/// The bytes of `d` at `p`, `n` long.
pub open spec fn at(d: Seq<u8>, p: int, n: int) -> Seq<u8> {
    d.subrange(p, p + n)
}

proof fn lemma_split(d: Seq<u8>, p: int, x: Seq<u8>, y: Seq<u8>)
    requires
        0 <= p,
        p + x.len() + y.len() <= d.len(),
        at(d, p, (x.len() + y.len()) as int) == x + y,
    ensures
        at(d, p, x.len() as int) == x,
        at(d, p + x.len(), y.len() as int) == y,
{
    assert(at(d, p, x.len() as int) =~= (x + y).subrange(0, x.len() as int));
    assert(at(d, p + x.len(), y.len() as int) =~= (x + y).subrange(x.len() as int, (x.len() + y.len()) as int));
}

proof fn lemma_u32_back(d: Seq<u8>, p: int, v: u32)
    requires
        0 <= p,
        p + 4 <= d.len(),
        at(d, p, 4) == u32_bytes(v),
    ensures
        u32_at(d, p) == v,
{
    crate::bytes::lemma_le32_roundtrip(v as nat, d, p);
}

proof fn lemma_i32_back(d: Seq<u8>, p: int, v: i32)
    requires
        0 <= p,
        p + 4 <= d.len(),
        at(d, p, 4) == i32_bytes(v),
    ensures
        i32_at(d, p) == v,
{
    crate::bytes::lemma_signed32_unsigned32(v as int);
    crate::bytes::lemma_le32_roundtrip(unsigned32(v as int), d, p);
}

proof fn lemma_vertex_back(d: Seq<u8>, p: int, v: MdlVertex)
    requires
        0 <= p,
        p + 4 <= d.len(),
        at(d, p, 4) == vertex_bytes(v),
    ensures
        vertex_at(d, p) == v,
{
    assert(d[p] == at(d, p, 4)[0]);
    assert(d[p + 1] == at(d, p, 4)[1]);
    assert(d[p + 2] == at(d, p, 4)[2]);
    assert(d[p + 3] == at(d, p, 4)[3]);
    assert(vertex_at(d, p).v =~= v.v);
}

/// Pieces of equal size `size` sit at multiples of `size`.
proof fn lemma_header_prefix(d: Seq<u8>, h: MdlHeader, k: nat)
    requires
        k <= 21,
        4 * k <= d.len(),
        at(d, 0, (4 * k) as int) == header_prefix(h, k),
    ensures
        forall|i: int| 0 <= i < k ==> le32(d, 4 * i) == #[trigger] header_word(h, i),
    decreases k,
{
    if k > 0 {
        let w = header_word(h, k - 1);
        lemma_header_prefix_len(h, (k - 1) as nat);
        lemma_split(d, 0, header_prefix(h, (k - 1) as nat), le32_bytes(w));
        lemma_header_prefix(d, h, (k - 1) as nat);
        assert(w < 4294967296);
        crate::bytes::lemma_le32_roundtrip(w, d, 4 * (k - 1));
    }
}

proof fn lemma_header_prefix_len(h: MdlHeader, k: nat)
    ensures
        header_prefix(h, k).len() == 4 * k,
    decreases k,
{
    if k > 0 {
        lemma_header_prefix_len(h, (k - 1) as nat);
    }
}

/// The header reads back from its bytes.
proof fn lemma_header_back(d: Seq<u8>, h: MdlHeader)
    requires
        84 <= d.len(),
        at(d, 0, 84) == header_bytes(h),
    ensures
        header_at(d) == h,
{
    lemma_header_prefix(d, h, 21);
    crate::bytes::lemma_signed32_unsigned32(h.version as int);
    crate::bytes::lemma_signed32_unsigned32(h.num_skins as int);
    crate::bytes::lemma_signed32_unsigned32(h.skinwidth as int);
    crate::bytes::lemma_signed32_unsigned32(h.skinheight as int);
    crate::bytes::lemma_signed32_unsigned32(h.num_verts as int);
    crate::bytes::lemma_signed32_unsigned32(h.num_tris as int);
    crate::bytes::lemma_signed32_unsigned32(h.num_frames as int);
    crate::bytes::lemma_signed32_unsigned32(h.synctype as int);
    crate::bytes::lemma_signed32_unsigned32(h.flags as int);
    assert(le32(d, 4) == header_word(h, 1));
    assert(le32(d, 48) == header_word(h, 12));
    assert(le32(d, 52) == header_word(h, 13));
    assert(le32(d, 56) == header_word(h, 14));
    assert(le32(d, 60) == header_word(h, 15));
    assert(le32(d, 64) == header_word(h, 16));
    assert(le32(d, 68) == header_word(h, 17));
    assert(le32(d, 72) == header_word(h, 18));
    assert(le32(d, 76) == header_word(h, 19));
    assert(le32(d, 0) == header_word(h, 0));
    assert(le32(d, 8) == header_word(h, 2));
    assert(le32(d, 12) == header_word(h, 3));
    assert(le32(d, 16) == header_word(h, 4));
    assert(le32(d, 20) == header_word(h, 5));
    assert(le32(d, 24) == header_word(h, 6));
    assert(le32(d, 28) == header_word(h, 7));
    assert(le32(d, 32) == header_word(h, 8));
    assert(le32(d, 36) == header_word(h, 9));
    assert(le32(d, 40) == header_word(h, 10));
    assert(le32(d, 44) == header_word(h, 11));
    assert(le32(d, 80) == header_word(h, 20));
    assert(header_at(d).scale =~= h.scale);
    assert(header_at(d).translate =~= h.translate);
    assert(header_at(d).eyeposition =~= h.eyeposition);
}

/// `at` of an `at` is an `at`.
proof fn lemma_at_at(d: Seq<u8>, p: int, n: int, k: int, m: int)
    requires
        0 <= p,
        0 <= k,
        0 <= m,
        k + m <= n,
        p + n <= d.len(),
    ensures
        at(at(d, p, n), k, m) == at(d, p + k, m),
{
    assert(at(at(d, p, n), k, m) =~= at(d, p + k, m));
}

proof fn lemma_texcoords_back(d: Seq<u8>, p: int, ts: Seq<MdlTexCoord>)
    requires
        0 <= p,
        p + ts.len() * 12 <= d.len(),
        at(d, p, (ts.len() * 12) as int) == concat_map(ts, |t: MdlTexCoord| texcoord_bytes(t)),
    ensures
        texcoords_at(d, p, ts.len()) == Some((ts, p + ts.len() * 12)),
{
    let f = |t: MdlTexCoord| texcoord_bytes(t);
    lemma_concat_fixed(ts, f, 12);
    let n = ts.len();
    assert forall|k: int| 0 <= k < n implies #[trigger] texcoord_at(d, p + k * 12) == ts[k] by {
        assert(k * 12 + 12 <= n * 12) by (nonlinear_arith) requires k < n;
        lemma_at_at(d, p, (n * 12) as int, k * 12, 12);
        let q = p + k * 12;
        let t = ts[k];
        lemma_split(d, q, i32_bytes(t.onseam) + i32_bytes(t.s), i32_bytes(t.t));
        lemma_split(d, q, i32_bytes(t.onseam), i32_bytes(t.s));
        lemma_i32_back(d, q, t.onseam);
        lemma_i32_back(d, q + 4, t.s);
        lemma_i32_back(d, q + 8, t.t);
    }
    assert(Seq::new(n, |k: int| texcoord_at(d, p + k * 12)) =~= ts);
}

proof fn lemma_triangles_back(d: Seq<u8>, p: int, ts: Seq<MdlTriangle>)
    requires
        0 <= p,
        p + ts.len() * 16 <= d.len(),
        at(d, p, (ts.len() * 16) as int) == concat_map(ts, |t: MdlTriangle| triangle_bytes(t)),
    ensures
        triangles_at(d, p, ts.len()) == Some((ts, p + ts.len() * 16)),
{
    let f = |t: MdlTriangle| triangle_bytes(t);
    lemma_concat_fixed(ts, f, 16);
    let n = ts.len();
    assert forall|k: int| 0 <= k < n implies #[trigger] triangle_at(d, p + k * 16) == ts[k] by {
        assert(k * 16 + 16 <= n * 16) by (nonlinear_arith) requires k < n;
        lemma_at_at(d, p, (n * 16) as int, k * 16, 16);
        let q = p + k * 16;
        let t = ts[k];
        lemma_split(d, q, i32_bytes(t.facesfront) + i32_bytes(t.vertex[0]) + i32_bytes(t.vertex[1]), i32_bytes(t.vertex[2]));
        lemma_split(d, q, i32_bytes(t.facesfront) + i32_bytes(t.vertex[0]), i32_bytes(t.vertex[1]));
        lemma_split(d, q, i32_bytes(t.facesfront), i32_bytes(t.vertex[0]));
        lemma_i32_back(d, q, t.facesfront);
        lemma_i32_back(d, q + 4, t.vertex[0]);
        lemma_i32_back(d, q + 8, t.vertex[1]);
        lemma_i32_back(d, q + 12, t.vertex[2]);
        assert(triangle_at(d, q).vertex =~= t.vertex);
    }
    assert(Seq::new(n, |k: int| triangle_at(d, p + k * 16)) =~= ts);
}

proof fn lemma_texcoords_section(d: Seq<u8>, p: int, ts: Seq<MdlTexCoord>, tb: Seq<u8>)
    requires
        0 <= p,
        p + tb.len() <= d.len(),
        tb == concat_map(ts, |t: MdlTexCoord| texcoord_bytes(t)),
        at(d, p, tb.len() as int) == tb,
    ensures
        texcoords_at(d, p, ts.len()) == Some((ts, p + tb.len())),
{
    lemma_concat_fixed(ts, |t: MdlTexCoord| texcoord_bytes(t), 12);
    lemma_texcoords_back(d, p, ts);
}

proof fn lemma_triangles_section(d: Seq<u8>, p: int, ts: Seq<MdlTriangle>, rb: Seq<u8>)
    requires
        0 <= p,
        p + rb.len() <= d.len(),
        rb == concat_map(ts, |t: MdlTriangle| triangle_bytes(t)),
        at(d, p, rb.len() as int) == rb,
    ensures
        triangles_at(d, p, ts.len()) == Some((ts, p + rb.len())),
{
    lemma_concat_fixed(ts, |t: MdlTriangle| triangle_bytes(t), 16);
    lemma_triangles_back(d, p, ts);
}

proof fn lemma_u32s_back(d: Seq<u8>, p: int, ts: Seq<u32>)
    requires
        0 <= p,
        p + ts.len() * 4 <= d.len(),
        at(d, p, (ts.len() * 4) as int) == concat_map(ts, |t: u32| u32_bytes(t)),
    ensures
        Seq::new(ts.len(), |k: int| u32_at(d, p + 4 * k)) == ts,
        concat_map(ts, |t: u32| u32_bytes(t)).len() == ts.len() * 4,
{
    let f = |t: u32| u32_bytes(t);
    lemma_concat_fixed(ts, f, 4);
    let n = ts.len();
    assert forall|k: int| 0 <= k < n implies #[trigger] u32_at(d, p + 4 * k) == ts[k] by {
        assert(k * 4 + 4 <= n * 4) by (nonlinear_arith) requires k < n;
        lemma_at_at(d, p, (n * 4) as int, k * 4, 4);
        lemma_u32_back(d, p + k * 4, ts[k]);
    }
    assert(Seq::new(n, |k: int| u32_at(d, p + 4 * k)) =~= ts);
}

proof fn lemma_vertices_back(d: Seq<u8>, p: int, vs: Seq<MdlVertex>)
    requires
        0 <= p,
        p + vs.len() * 4 <= d.len(),
        at(d, p, (vs.len() * 4) as int) == concat_map(vs, |v: MdlVertex| vertex_bytes(v)),
    ensures
        Seq::new(vs.len(), |k: int| vertex_at(d, p + 4 * k)) == vs,
{
    let f = |v: MdlVertex| vertex_bytes(v);
    lemma_concat_fixed(vs, f, 4);
    let n = vs.len();
    assert forall|k: int| 0 <= k < n implies #[trigger] vertex_at(d, p + 4 * k) == vs[k] by {
        assert(k * 4 + 4 <= n * 4) by (nonlinear_arith) requires k < n;
        lemma_at_at(d, p, (n * 4) as int, k * 4, 4);
        lemma_vertex_back(d, p + k * 4, vs[k]);
    }
    assert(Seq::new(n, |k: int| vertex_at(d, p + 4 * k)) =~= vs);
}

proof fn lemma_simple_frame_len(f: SimpleFrameView)
    ensures
        simple_frame_bytes(f).len() == 24 + 4 * f.verts.len(),
{
    lemma_concat_fixed(f.verts, |v: MdlVertex| vertex_bytes(v), 4);
}

proof fn lemma_simple_frame_back(d: Seq<u8>, p: int, f: SimpleFrameView)
    requires
        0 <= p,
        p + 24 + 4 * f.verts.len() <= d.len(),
        at(d, p, (24 + 4 * f.verts.len()) as int) == simple_frame_bytes(f),
    ensures
        simple_frame_at(d, p, f.verts.len()) == f,
{
    lemma_simple_frame_len(f);
    let vb = concat_map(f.verts, |v: MdlVertex| vertex_bytes(v));
    let a = vertex_bytes(f.bboxmin) + vertex_bytes(f.bboxmax) + f.name@;
    lemma_split(d, p, a, vb);
    lemma_split(d, p, vertex_bytes(f.bboxmin) + vertex_bytes(f.bboxmax), f.name@);
    lemma_split(d, p, vertex_bytes(f.bboxmin), vertex_bytes(f.bboxmax));
    lemma_vertex_back(d, p, f.bboxmin);
    lemma_vertex_back(d, p + 4, f.bboxmax);
    assert(name_at(d, p + 8)@ =~= at(d, p + 8, 16));
    assert(name_at(d, p + 8) =~= f.name);
    assert(f.verts.len() * 4 == 4 * f.verts.len());
    lemma_vertices_back(d, p + 24, f.verts);
    assert(simple_frame_at(d, p, f.verts.len()).verts =~= f.verts);
}

pub open spec fn skin_len(s: SkinView) -> nat {
    skin_bytes(s).len()
}

proof fn lemma_skin_back(d: Seq<u8>, p: int, s: SkinView, pix: nat)
    requires
        0 <= p,
        skin_fits(s, pix),
        p + skin_bytes(s).len() <= d.len(),
        at(d, p, skin_bytes(s).len() as int) == skin_bytes(s),
    ensures
        skin_at(d, p, pix) == Some((s, p + skin_bytes(s).len())),
{
    match s {
        SkinView::Single { data } => {
            lemma_split(d, p, i32_bytes(0), data);
            lemma_i32_back(d, p, 0);
        },
        SkinView::Group { nb, times, data } => {
            let n = nonneg(nb);
            let tb = concat_map(times, |t: u32| u32_bytes(t));
            let db = concat_map(data, |x: Seq<u8>| x);
            lemma_concat_fixed(times, |t: u32| u32_bytes(t), 4);
            let idf = |x: Seq<u8>| x;
            assert forall|i: int| 0 <= i < data.len() implies #[trigger] idf(data[i]).len() == pix by {
                assert(data[i].len() == pix);
            }
            lemma_concat_fixed(data, idf, pix);
            lemma_split(d, p, i32_bytes(1) + i32_bytes(nb) + tb, db);
            lemma_split(d, p, i32_bytes(1) + i32_bytes(nb), tb);
            lemma_split(d, p, i32_bytes(1), i32_bytes(nb));
            lemma_i32_back(d, p, 1);
            lemma_i32_back(d, p + 4, nb);
            lemma_u32s_back(d, p + 8, times);
            let q = p + 8 + 4 * n;
            assert forall|k: int| 0 <= k < n implies #[trigger] d.subrange(q + k * pix, q + k * pix + pix) == data[k] by {
                assert(k * pix + pix <= n * pix) by (nonlinear_arith) requires k < n;
                assert(k * pix >= 0) by (nonlinear_arith) requires k >= 0, pix >= 0;
                lemma_at_at(d, q, (n * pix) as int, k * pix, pix as int);
                assert(db.subrange(k * pix, k * pix + pix) == data[k]);
            }
            assert(Seq::new(n, |k: int| d.subrange(q + k * pix, q + k * pix + pix)) =~= data);
        },
    }
}

proof fn lemma_skins_back(d: Seq<u8>, p: int, ss: Seq<SkinView>, pix: nat)
    requires
        0 <= p,
        forall|k: int| 0 <= k < ss.len() ==> skin_fits(#[trigger] ss[k], pix),
        p + concat_map(ss, |s: SkinView| skin_bytes(s)).len() <= d.len(),
        at(d, p, concat_map(ss, |s: SkinView| skin_bytes(s)).len() as int) == concat_map(ss, |s: SkinView| skin_bytes(s)),
    ensures
        skins_from(d, p, ss.len(), pix) == Some((ss, p + concat_map(ss, |s: SkinView| skin_bytes(s)).len())),
    decreases ss.len(),
{
    if ss.len() > 0 {
        let rest = ss.drop_first();
        let b0 = skin_bytes(ss[0]);
        let br = concat_map(rest, |s: SkinView| skin_bytes(s));
        lemma_split(d, p, b0, br);
        lemma_skin_back(d, p, ss[0], pix);
        assert forall|k: int| 0 <= k < rest.len() implies skin_fits(#[trigger] rest[k], pix) by {
            assert(rest[k] == ss[k + 1]);
        }
        lemma_skins_back(d, p + b0.len(), rest, pix);
        assert(seq![ss[0]] + rest =~= ss);
    } else {
        assert(ss =~= Seq::<SkinView>::empty());
    }
}

proof fn lemma_frame_back(d: Seq<u8>, p: int, f: FrameView, nv: nat)
    requires
        0 <= p,
        frame_fits(f, nv),
        p + frame_bytes(f).len() <= d.len(),
        at(d, p, frame_bytes(f).len() as int) == frame_bytes(f),
    ensures
        frame_at(d, p, nv) == Some((f, p + frame_bytes(f).len())),
{
    let fs = simple_frame_size(nv);
    match f {
        FrameView::Simple(sf) => {
            lemma_simple_frame_len(sf);
            lemma_split(d, p, i32_bytes(0), simple_frame_bytes(sf));
            lemma_i32_back(d, p, 0);
            lemma_simple_frame_back(d, p + 4, sf);
        },
        FrameView::Group { nb, min, max, times, frames } => {
            let n = nonneg(nb);
            let tb = concat_map(times, |t: u32| u32_bytes(t));
            let sfb = |sf: SimpleFrameView| simple_frame_bytes(sf);
            let fb = concat_map(frames, sfb);
            lemma_concat_fixed(times, |t: u32| u32_bytes(t), 4);
            assert forall|i: int| 0 <= i < frames.len() implies #[trigger] sfb(frames[i]).len() == fs by {
                lemma_simple_frame_len(frames[i]);
            }
            lemma_concat_fixed(frames, sfb, fs);
            let a = i32_bytes(1) + i32_bytes(nb) + vertex_bytes(min) + vertex_bytes(max);
            lemma_split(d, p, a + tb, fb);
            lemma_split(d, p, a, tb);
            lemma_split(d, p, i32_bytes(1) + i32_bytes(nb) + vertex_bytes(min), vertex_bytes(max));
            lemma_split(d, p, i32_bytes(1) + i32_bytes(nb), vertex_bytes(min));
            lemma_split(d, p, i32_bytes(1), i32_bytes(nb));
            lemma_i32_back(d, p, 1);
            lemma_i32_back(d, p + 4, nb);
            lemma_vertex_back(d, p + 8, min);
            lemma_vertex_back(d, p + 12, max);
            lemma_u32s_back(d, p + 16, times);
            let q = p + 16 + 4 * n;
            assert forall|k: int| 0 <= k < n implies #[trigger] simple_frame_at(d, q + k * fs, nv) == frames[k] by {
                assert(k * fs + fs <= n * fs) by (nonlinear_arith) requires k < n;
                assert(k * fs >= 0) by (nonlinear_arith) requires k >= 0, fs >= 0;
                lemma_at_at(d, q, (n * fs) as int, k * fs, fs as int);
                assert(fb.subrange(k * fs, k * fs + fs) == sfb(frames[k]));
                assert(frames[k].verts.len() == nv);
                lemma_simple_frame_back(d, q + k * fs, frames[k]);
            }
            assert(Seq::new(n, |k: int| simple_frame_at(d, q + k * fs, nv)) =~= frames);
        },
    }
}

proof fn lemma_frames_back(d: Seq<u8>, p: int, fs: Seq<FrameView>, nv: nat)
    requires
        0 <= p,
        forall|k: int| 0 <= k < fs.len() ==> frame_fits(#[trigger] fs[k], nv),
        p + concat_map(fs, |f: FrameView| frame_bytes(f)).len() <= d.len(),
        at(d, p, concat_map(fs, |f: FrameView| frame_bytes(f)).len() as int) == concat_map(fs, |f: FrameView| frame_bytes(f)),
    ensures
        frames_from(d, p, fs.len(), nv) == Some((fs, p + concat_map(fs, |f: FrameView| frame_bytes(f)).len())),
    decreases fs.len(),
{
    if fs.len() > 0 {
        let rest = fs.drop_first();
        let b0 = frame_bytes(fs[0]);
        let br = concat_map(rest, |f: FrameView| frame_bytes(f));
        lemma_split(d, p, b0, br);
        lemma_frame_back(d, p, fs[0], nv);
        assert forall|k: int| 0 <= k < rest.len() implies frame_fits(#[trigger] rest[k], nv) by {
            assert(rest[k] == fs[k + 1]);
        }
        lemma_frames_back(d, p + b0.len(), rest, nv);
        assert(seq![fs[0]] + rest =~= fs);
    } else {
        assert(fs =~= Seq::<FrameView>::empty());
    }
}

proof fn lemma_split5(d: Seq<u8>, a: Seq<u8>, b: Seq<u8>, c: Seq<u8>, e: Seq<u8>, f: Seq<u8>)
    requires
        d == a + b + c + e + f,
    ensures
        at(d, 0, a.len() as int) == a,
        at(d, a.len() as int, b.len() as int) == b,
        at(d, (a.len() + b.len()) as int, c.len() as int) == c,
        at(d, (a.len() + b.len() + c.len()) as int, e.len() as int) == e,
        at(d, (a.len() + b.len() + c.len() + e.len()) as int, f.len() as int) == f,
        d.len() == a.len() + b.len() + c.len() + e.len() + f.len(),
{
    assert(at(d, 0, a.len() as int) =~= a);
    assert(at(d, a.len() as int, b.len() as int) =~= b);
    assert(at(d, (a.len() + b.len()) as int, c.len() as int) =~= c);
    assert(at(d, (a.len() + b.len() + c.len()) as int, e.len() as int) =~= e);
    assert(at(d, (a.len() + b.len() + c.len() + e.len()) as int, f.len() as int) =~= f);
}

proof fn lemma_parse_from_sections(d: Seq<u8>, m: MdlView, p1: int, p2: int, p3: int, p4: int)
    requires
        d.len() >= 84,
        header_at(d) == m.header,
        m.header.ident == MDL_IDENT,
        m.header.version == MDL_VERSION,
        skins_from(d, 84, nonneg(m.header.num_skins), pixel_count(m.header)) == Some((m.skins, p1)),
        texcoords_at(d, p1, nonneg(m.header.num_verts)) == Some((m.texcoords, p2)),
        triangles_at(d, p2, nonneg(m.header.num_tris)) == Some((m.triangles, p3)),
        frames_from(d, p3, nonneg(m.header.num_frames), nonneg(m.header.num_verts)) == Some((m.frames, p4)),
    ensures
        parse_mdl_spec(d) == Ok::<MdlView, MdlError>(m),
{
}

proof fn lemma_parse_parts(
    d: Seq<u8>,
    m: MdlView,
    hb: Seq<u8>,
    sb: Seq<u8>,
    tb: Seq<u8>,
    rb: Seq<u8>,
    fb: Seq<u8>,
)
    requires
        mdl_well_formed(m),
        hb == header_bytes(m.header),
        sb == concat_map(m.skins, |s: SkinView| skin_bytes(s)),
        tb == concat_map(m.texcoords, |t: MdlTexCoord| texcoord_bytes(t)),
        rb == concat_map(m.triangles, |t: MdlTriangle| triangle_bytes(t)),
        fb == concat_map(m.frames, |f: FrameView| frame_bytes(f)),
        d == hb + sb + tb + rb + fb,
    ensures
        parse_mdl_spec(d) == Ok::<MdlView, MdlError>(m),
{
    let h = m.header;
    lemma_header_prefix_len(h, 21);
    lemma_split5(d, hb, sb, tb, rb, fb);
    let p1: int = 84 + sb.len() as int;
    let p2: int = p1 + tb.len();
    let p3: int = p2 + rb.len();
    let p4: int = p3 + fb.len();
    assert(header_at(d) == h) by {
        lemma_header_back(d, h);
    }
    assert(skins_from(d, 84, nonneg(h.num_skins), pixel_count(h)) == Some((m.skins, p1))) by {
        lemma_skins_back(d, 84, m.skins, pixel_count(h));
    }
    lemma_texcoords_section(d, p1, m.texcoords, tb);
    lemma_triangles_section(d, p2, m.triangles, rb);
    assert(frames_from(d, p3, nonneg(h.num_frames), nonneg(h.num_verts)) == Some((m.frames, p4))) by {
        lemma_frames_back(d, p3, m.frames, nonneg(h.num_verts));
    }
    lemma_parse_from_sections(d, m, p1, p2, p3, p4);
}

/// Round trip: a well-formed MDL document written by `encode_mdl` reads back
/// unchanged with `parse_mdl`.
pub proof fn lemma_mdl_round_trip(m: MdlView)
    requires
        mdl_well_formed(m),
    ensures
        parse_mdl_spec(encode_mdl_spec(m)) == Ok::<MdlView, MdlError>(m),
{
    lemma_parse_parts(
        encode_mdl_spec(m),
        m,
        header_bytes(m.header),
        concat_map(m.skins, |s: SkinView| skin_bytes(s)),
        concat_map(m.texcoords, |t: MdlTexCoord| texcoord_bytes(t)),
        concat_map(m.triangles, |t: MdlTriangle| triangle_bytes(t)),
        concat_map(m.frames, |f: FrameView| frame_bytes(f)),
    );
}


/// Reads Quake MDL files.
pub struct MdlLoader;

impl MdlLoader {
    /// Whether the first bytes read from a file are the `IDPO` identifier.
    pub fn detect(&self, head: &[u8]) -> (r: bool)
        ensures
            r == (head@.len() >= 4 && head@.take(4) == seq![0x49u8, 0x44u8, 0x50u8, 0x4fu8]),
    {
        if head.len() < 4 {
            return false;
        }
        let r = head[0] == 0x49 && head[1] == 0x44 && head[2] == 0x50 && head[3] == 0x4f;
        assert(r == (head@.take(4) =~= seq![0x49u8, 0x44u8, 0x50u8, 0x4fu8]));
        r
    }
}


// ── Saving ───────────────────────────────────────────────────────────────

/// Why a scene cannot be saved as MDL.
#[derive(Debug, Clone, Copy, PartialEq, Eq, Structural)]
pub enum MdlSaveError {
    /// No vertices or no complete triangle.
    NoGeometry,
}

/// The vertices of the meshes before mesh `k`.
pub open spec fn base_of(counts: Seq<usize>, k: nat) -> int
    decreases k,
{
    if k == 0 {
        0
    } else {
        base_of(counts, (k - 1) as nat) + counts[k - 1]
    }
}

/// The indices of the first `n` meshes, each shifted by the vertices of
/// the meshes before it.
pub open spec fn merged_indices(counts: Seq<usize>, idx: Seq<Seq<u32>>, n: nat) -> Seq<int>
    decreases n,
{
    if n == 0 {
        seq![]
    } else {
        merged_indices(counts, idx, (n - 1) as nat) + idx[n - 1].map_values(
            |v: u32| v + base_of(counts, (n - 1) as nat),
        )
    }
}

/// The merged meshes fit the `u32` vertex numbering: the vertex count and
/// every shifted index.
pub open spec fn merge_fits(counts: Seq<usize>, idx: Seq<Seq<u32>>) -> bool {
    &&& counts.len() == idx.len()
    &&& base_of(counts, counts.len()) <= u32::MAX
    &&& forall|k: int, j: int| 0 <= k < idx.len() && 0 <= j < idx[k].len() ==> base_of(counts, k as nat) + #[trigger] idx[k][j]
        <= u32::MAX
}

/// The triangles of a merged index list: one per complete group of three,
/// front-facing, each index taken as `i32`.
pub open spec fn merged_triangles(m: Seq<int>) -> Seq<MdlTriangle> {
    Seq::new(
        m.len() / 3,
        |t: int| MdlTriangle { facesfront: 1, vertex: [m[3 * t] as i32, m[3 * t + 1] as i32, m[3 * t + 2] as i32] },
    )
}

proof fn lemma_base_monotone(counts: Seq<usize>, k: nat, n: nat)
    requires
        k <= n <= counts.len(),
    ensures
        base_of(counts, k) <= base_of(counts, n),
    decreases n - k,
{
    if k < n {
        lemma_base_monotone(counts, k, (n - 1) as nat);
    }
}

/// Writes Quake MDL files.
pub struct MdlSaver;

impl MdlSaver {
    /// Merges the meshes of a scene into one MDL model: the vertex count and
    /// the triangles; refused when there is no vertex or no triangle.
    pub fn merge_meshes(&self, counts: &[usize], indices: &Vec<Vec<u32>>) -> (r: Result<(usize, Vec<MdlTriangle>), MdlSaveError>)
        requires
            merge_fits(counts@, indices@.map_values(|v: Vec<u32>| v@)),
        ensures
            ({
                let iv = indices@.map_values(|v: Vec<u32>| v@);
                let total = base_of(counts@, counts@.len());
                let m = merged_indices(counts@, iv, iv.len());
                match r {
                    Ok((nv, tris)) => nv == total && total > 0 && m.len() >= 3 && tris@ == merged_triangles(m),
                    Err(e) => e == MdlSaveError::NoGeometry && (total == 0 || m.len() < 3),
                }
            }),
    {
        let ghost iv = indices@.map_values(|v: Vec<u32>| v@);
        let mut all: Vec<u32> = Vec::new();
        let mut base: usize = 0;
        let mut k: usize = 0;
        while k < counts.len()
            invariant
                k <= counts@.len(),
                iv == indices@.map_values(|v: Vec<u32>| v@),
                merge_fits(counts@, iv),
                base == base_of(counts@, k as nat),
                all@.map_values(|x: u32| x as int) == merged_indices(counts@, iv, k as nat),
            decreases counts@.len() - k,
        {
            proof {
                lemma_base_monotone(counts@, (k + 1) as nat, counts@.len());
                lemma_base_monotone(counts@, k as nat, counts@.len());
            }
            let list = &indices[k];
            assert(iv[k as int] == list@);
            let ghost before = all@.map_values(|x: u32| x as int);
            let mut j: usize = 0;
            while j < list.len()
                invariant
                    j <= list@.len(),
                    k < counts@.len(),
                    iv == indices@.map_values(|v: Vec<u32>| v@),
                    iv[k as int] == list@,
                    merge_fits(counts@, iv),
                    base == base_of(counts@, k as nat),
                    all@.map_values(|x: u32| x as int) == before + list@.take(j as int).map_values(|v: u32| v + base_of(counts@, k as nat)),
                decreases list@.len() - j,
            {
                assert(base_of(counts@, k as nat) + iv[k as int][j as int] <= u32::MAX);
                let v = base as u32 + list[j];
                assert(v == base + list@[j as int]);
                let ghost old_all = all@;
                all.push(v);
                assert(all@.map_values(|x: u32| x as int) =~= old_all.map_values(|x: u32| x as int).push(v as int));
                assert(list@.take(j + 1) =~= list@.take(j as int).push(list@[j as int]));
                assert((before + list@.take(j as int).map_values(|w: u32| w + base_of(counts@, k as nat))).push(v as int)
                    =~= before + list@.take(j + 1).map_values(|w: u32| w + base_of(counts@, k as nat)));
                j = j + 1;
            }
            assert(list@.take(j as int) =~= list@);
            base = base + counts[k];
            k = k + 1;
        }
        let ghost m = all@.map_values(|x: u32| x as int);
        if base == 0 || all.len() < 3 {
            return Err(MdlSaveError::NoGeometry);
        }
        let mut tris: Vec<MdlTriangle> = Vec::new();
        let mut t: usize = 0;
        while t < all.len() / 3
            invariant
                t <= all@.len() / 3,
                m == all@.map_values(|x: u32| x as int),
                tris@ == merged_triangles(m).take(t as int),
            decreases all@.len() / 3 - t,
        {
            assert(3 * t + 2 < all@.len()) by (nonlinear_arith)
                requires t < all@.len() / 3;
            let tri = MdlTriangle {
                facesfront: 1,
                vertex: [
                    #[verifier::truncate] (all[3 * t] as i32),
                    #[verifier::truncate] (all[3 * t + 1] as i32),
                    #[verifier::truncate] (all[3 * t + 2] as i32),
                ],
            };
            assert(tri == merged_triangles(m)[t as int]);
            tris.push(tri);
            assert(tris@ =~= merged_triangles(m).take(t + 1));
            t = t + 1;
        }
        assert(merged_triangles(m).take(t as int) =~= merged_triangles(m));
        Ok((base, tris))
    }
}


/// The name a saver gives its single frame: `frame_00` padded with spaces.
pub open spec fn saver_frame_name() -> [u8; 16] {
    [102u8, 114, 97, 109, 101, 95, 48, 48, 32, 32, 32, 32, 32, 32, 32, 32]
}

/// A vertex of all zeros, the saver's frame bounds.
pub open spec fn zero_vertex() -> MdlVertex {
    MdlVertex { v: [0u8, 0, 0], normal_index: 0 }
}

/// The header a saver writes: a 64 by 64 skin size with no skin, one
/// frame, the counts, and the scale, origin and radius (float bits); eye
/// position, sync type, flags and size zero.
pub open spec fn saver_header(nv: nat, nt: nat, scale: [u32; 3], translate: [u32; 3], radius: u32) -> MdlHeader {
    MdlHeader {
        ident: MDL_IDENT,
        version: MDL_VERSION,
        scale,
        translate,
        boundingradius: radius,
        eyeposition: [0u32, 0, 0],
        num_skins: 0,
        skinwidth: 64,
        skinheight: 64,
        num_verts: nv as i32,
        num_tris: nt as i32,
        num_frames: 1,
        synctype: 0,
        flags: 0,
        size: 0,
    }
}

/// A skin coordinate clamped to the 64-texel skin.
pub open spec fn skin_coord(v: i32) -> i32 {
    if v < 0 {
        0
    } else if v > 63 {
        63
    } else {
        v
    }
}

/// The texture coordinate a saver writes for a vertex: its rounded skin
/// position clamped to the skin, or the origin for a vertex without UV.
pub open spec fn saver_texcoord(st: Option<(i32, i32)>) -> MdlTexCoord {
    match st {
        Some((a, b)) => MdlTexCoord { onseam: 0, s: skin_coord(a), t: skin_coord(b) },
        None => MdlTexCoord { onseam: 0, s: 0, t: 0 },
    }
}

pub fn clamp_skin_coord(v: i32) -> (r: i32)
    ensures
        r == skin_coord(v),
{
    if v < 0 {
        0
    } else if v > 63 {
        63
    } else {
        v
    }
}

/// The model a saver writes.
pub open spec fn saver_model(
    tris: Seq<MdlTriangle>,
    uvs: Seq<Option<(i32, i32)>>,
    verts: Seq<MdlVertex>,
    scale: [u32; 3],
    translate: [u32; 3],
    radius: u32,
) -> MdlView {
    MdlView {
        header: saver_header(verts.len(), tris.len(), scale, translate, radius),
        skins: Seq::empty(),
        texcoords: uvs.map_values(|u: Option<(i32, i32)>| saver_texcoord(u)),
        triangles: tris,
        frames: seq![
            FrameView::Simple(
                SimpleFrameView { bboxmin: zero_vertex(), bboxmax: zero_vertex(), name: saver_frame_name(), verts },
            ),
        ],
    }
}

impl MdlSaver {
    /// Assembles the model a saver writes from the merged triangles, each
    /// vertex's rounded skin position (if it has UVs) and its compressed
    /// position and normal index, and the frame's scale, origin and radius.
    /// The model agrees with its header and reads back from its bytes.
    pub fn assemble(
        &self,
        triangles: Vec<MdlTriangle>,
        uvs: &[Option<(i32, i32)>],
        verts: Vec<MdlVertex>,
        scale: [u32; 3],
        translate: [u32; 3],
        radius: u32,
    ) -> (r: MdlData)
        requires
            uvs@.len() == verts@.len(),
            verts@.len() <= i32::MAX,
            triangles@.len() <= i32::MAX,
        ensures
            r@ == saver_model(triangles@, uvs@, verts@, scale, translate, radius),
            r@.header.scale == scale,
            r@.header.translate == translate,
            forall|k: int| 0 <= k < 3 ==> crate::bytes::le32(encode_mdl_spec(r@), 8 + 4 * k) == #[trigger] scale[k] as nat,
            forall|k: int| 0 <= k < 3 ==> crate::bytes::le32(encode_mdl_spec(r@), 20 + 4 * k) == #[trigger] translate[k] as nat,
            mdl_well_formed(r@),
            parse_mdl_spec(encode_mdl_spec(r@)) == Ok::<MdlView, MdlError>(r@),
    {
        proof {
            lemma_saved_scale_translate(triangles@, uvs@, verts@, scale, translate, radius);
        }
        let ghost tv = triangles@;
        let ghost vv = verts@;
        let mut texcoords: Vec<MdlTexCoord> = Vec::new();
        let mut i: usize = 0;
        while i < uvs.len()
            invariant
                i <= uvs@.len(),
                texcoords@ == uvs@.take(i as int).map_values(|u: Option<(i32, i32)>| saver_texcoord(u)),
            decreases uvs@.len() - i,
        {
            let tc = match uvs[i] {
                Some((a, b)) => MdlTexCoord { onseam: 0, s: clamp_skin_coord(a), t: clamp_skin_coord(b) },
                None => MdlTexCoord { onseam: 0, s: 0, t: 0 },
            };
            texcoords.push(tc);
            i = i + 1;
            assert(texcoords@ =~= uvs@.take(i as int).map_values(|u: Option<(i32, i32)>| saver_texcoord(u)));
        }
        assert(uvs@.take(i as int) =~= uvs@);
        let nv = verts.len() as i32;
        let nt = triangles.len() as i32;
        let zero = MdlVertex { v: [0u8, 0, 0], normal_index: 0 };
        let name: [u8; 16] = [102u8, 114, 97, 109, 101, 95, 48, 48, 32, 32, 32, 32, 32, 32, 32, 32];
        let header = MdlHeader {
            ident: MDL_IDENT,
            version: MDL_VERSION,
            scale,
            translate,
            boundingradius: radius,
            eyeposition: [0u32, 0, 0],
            num_skins: 0,
            skinwidth: 64,
            skinheight: 64,
            num_verts: nv,
            num_tris: nt,
            num_frames: 1,
            synctype: 0,
            flags: 0,
            size: 0,
        };
        let frame = MdlSimpleFrame { bboxmin: zero, bboxmax: zero, name, verts };
        let mut frames: Vec<MdlFrame> = Vec::new();
        frames.push(MdlFrame::Simple(frame));
        let r = MdlData { header, skins: Vec::new(), texcoords, triangles, frames };
        proof {
            assert(r@.skins =~= Seq::<SkinView>::empty());
            assert(name =~= saver_frame_name());
            assert(r@.frames =~= saver_model(tv, uvs@, vv, scale, translate, radius).frames);
            assert(header == saver_header(vv.len(), tv.len(), scale, translate, radius));
            assert(r@ == saver_model(tv, uvs@, vv, scale, translate, radius));
            assert(mdl_well_formed(r@));
            lemma_mdl_round_trip(r@);
        }
        r
    }
}

// ── Laws of the saved header ─────────────────────────────────────────────

proof fn lemma_header_prefix_word(h: MdlHeader, n: nat, i: int)
    requires
        0 <= i < n,
    ensures
        header_prefix(h, n).len() == 4 * n,
        header_prefix(h, n).subrange(4 * i, 4 * i + 4) == crate::bytes::le32_bytes(header_word(h, i)),
    decreases n,
{
    lemma_header_prefix_len(h, n);
    lemma_header_prefix_len(h, (n - 1) as nat);
    let prev = header_prefix(h, (n - 1) as nat);
    let w = crate::bytes::le32_bytes(header_word(h, n - 1));
    if i < n - 1 {
        lemma_header_prefix_word(h, (n - 1) as nat, i);
        assert((prev + w).subrange(4 * i, 4 * i + 4) =~= prev.subrange(4 * i, 4 * i + 4));
    } else {
        assert((prev + w).subrange(4 * i, 4 * i + 4) =~= w);
    }
}

/// A saved model carries the frame's scale and origin as given: its header
/// holds `scale` and `translate`, and the file stores the three scale words
/// little-endian at bytes 8 to 20 and the three origin words at bytes 20 to
/// 32.
pub proof fn lemma_saved_scale_translate(
    tris: Seq<MdlTriangle>,
    uvs: Seq<Option<(i32, i32)>>,
    verts: Seq<MdlVertex>,
    scale: [u32; 3],
    translate: [u32; 3],
    radius: u32,
)
    ensures
        saver_model(tris, uvs, verts, scale, translate, radius).header.scale == scale,
        saver_model(tris, uvs, verts, scale, translate, radius).header.translate == translate,
        forall|k: int|
            0 <= k < 3 ==> crate::bytes::le32(encode_mdl_spec(saver_model(tris, uvs, verts, scale, translate, radius)), 8 + 4 * k)
                == #[trigger] scale[k] as nat,
        forall|k: int|
            0 <= k < 3 ==> crate::bytes::le32(encode_mdl_spec(saver_model(tris, uvs, verts, scale, translate, radius)), 20 + 4 * k)
                == #[trigger] translate[k] as nat,
{
    let m = saver_model(tris, uvs, verts, scale, translate, radius);
    let h = m.header;
    let b = encode_mdl_spec(m);
    let hb = header_bytes(h);
    lemma_header_prefix_len(h, 21);
    assert(b.subrange(0, 84) =~= hb);
    assert forall|i: int| 2 <= i < 8 implies crate::bytes::le32(b, 4 * i) == header_word(h, i) by {
        lemma_header_prefix_word(h, 21, i);
        assert(b.subrange(4 * i, 4 * i + 4) =~= hb.subrange(4 * i, 4 * i + 4));
        crate::bytes::lemma_le32_roundtrip(header_word(h, i), b, 4 * i);
    }
    assert forall|k: int| 0 <= k < 3 implies crate::bytes::le32(b, 8 + 4 * k) == #[trigger] scale[k] as nat by {
        assert(crate::bytes::le32(b, 4 * (2 + k)) == header_word(h, 2 + k));
        assert(4 * (2 + k) == 8 + 4 * k);
    }
    assert forall|k: int| 0 <= k < 3 implies crate::bytes::le32(b, 20 + 4 * k) == #[trigger] translate[k] as nat by {
        assert(crate::bytes::le32(b, 4 * (5 + k)) == header_word(h, 5 + k));
        assert(4 * (5 + k) == 20 + 4 * k);
    }
}

/// A saved model lists every vertex and triangle it was given, in one
/// frame made of those vertices, and gives vertex `k` the skin position
/// it was given, moved into the 64 by 64 skin (each coordinate clamped to
/// 0..=63; 0, 0 for a vertex without one).
pub proof fn lemma_saved_counts_and_skin(
    tris: Seq<MdlTriangle>,
    uvs: Seq<Option<(i32, i32)>>,
    verts: Seq<MdlVertex>,
    scale: [u32; 3],
    translate: [u32; 3],
    radius: u32,
)
    requires
        verts.len() <= i32::MAX,
        tris.len() <= i32::MAX,
    ensures
        ({
            let m = saver_model(tris, uvs, verts, scale, translate, radius);
            &&& m.header.num_verts == verts.len()
            &&& m.header.num_tris == tris.len()
            &&& m.header.num_frames == 1
            &&& m.header.boundingradius == radius
            &&& m.triangles == tris
            &&& m.texcoords.len() == uvs.len()
            &&& m.frames.len() == 1
            &&& m.frames[0] matches FrameView::Simple(f) && f.verts == verts
            &&& forall|k: int| 0 <= k < uvs.len() ==> {
                let t = #[trigger] m.texcoords[k];
                &&& 0 <= t.s <= 63
                &&& 0 <= t.t <= 63
                &&& t.onseam == 0
                &&& (uvs[k] matches Some((a, b)) ==> (0 <= a <= 63 ==> t.s == a) && (0 <= b <= 63 ==> t.t == b)
                    && (a < 0 ==> t.s == 0) && (a > 63 ==> t.s == 63) && (b < 0 ==> t.t == 0) && (b > 63 ==> t.t
                    == 63))
                &&& (uvs[k] is None ==> t.s == 0 && t.t == 0)
            }
        }),
{
}

} // verus!
